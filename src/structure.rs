//! The leading comments, the parameter declarations and the start of the body;
//! and whether the body needs an asynchronous function.
use vstd::prelude::*;
use vstd::slice::slice_subrange;
use vstd::string::*;

use crate::lexer::{Line, LineModel, LineType};
use crate::text::{
    is_blank_byte, is_eol_byte, lemma_skip_blanks, lemma_strip_eol,
    occurs_at, skip_blanks, skip_blanks_from, skip_ws, skip_ws_from, strip_eol, strip_eol_from,
    trim_bounds, trimmed, ws_width, ws_width_at, has_at,
};

verus! {

/// Bounds of a line's content: after its leading spaces and tabs, and before
/// its trailing carriage returns and line feeds.
pub open spec fn bounds_of(t: Seq<u8>) -> (int, int) {
    (skip_blanks(t, 0), strip_eol(t, t.len() as int))
}

/// The bytes before the cut of `skip_blanks` are blanks and those after the cut
/// of `strip_eol` are line-end bytes, so the two cuts never cross.
pub proof fn lemma_bounds_ordered(t: Seq<u8>)
    ensures
        bounds_of(t).0 <= bounds_of(t).1,
{
    lemma_skip_blanks(t, 0);
    lemma_strip_eol(t, t.len() as int);
    lemma_blank_prefix(t, 0);
    lemma_eol_suffix(t, t.len() as int);
    let (s, e) = bounds_of(t);
    if e < s {
        assert(is_blank_byte(t[e]));
        assert(is_eol_byte(t[e]));
    }
}

proof fn lemma_blank_prefix(t: Seq<u8>, i: int)
    requires
        0 <= i <= t.len(),
    ensures
        forall|j: int| i <= j < skip_blanks(t, i) ==> is_blank_byte(#[trigger] t[j]),
    decreases t.len() - i,
{
    if i < t.len() && is_blank_byte(t[i]) {
        lemma_blank_prefix(t, i + 1);
    }
}

proof fn lemma_eol_suffix(t: Seq<u8>, j: int)
    requires
        0 <= j <= t.len(),
    ensures
        forall|m: int| strip_eol(t, j) <= m < j ==> is_eol_byte(#[trigger] t[m]),
    decreases j,
{
    if 0 < j && is_eol_byte(t[j - 1]) {
        lemma_eol_suffix(t, j - 1);
    }
}

/// `content_bounds` as a pure function of the line's bytes.
pub fn content_bounds(text: &str) -> (r: (usize, usize))
    ensures
        (r.0 as int, r.1 as int) == bounds_of(text.spec_bytes()),
        r.0 <= text.spec_bytes().len(),
        r.1 <= text.spec_bytes().len(),
        r.0 <= r.1,
{
    proof {
        lemma_bounds_ordered(text.spec_bytes());
    }
    let t = text.as_bytes();
    let start = skip_blanks_from(t, 0);
    let end = strip_eol_from(t, t.len());
    (start, end)
}

/// Empty once trimmed, or a comment.
pub open spec fn is_blank_or_comment(t: Seq<u8>) -> bool {
    trimmed(t).len() == 0 || trimmed(t)[0] == 0x23u8
}

pub open spec fn is_ident_start(b: u8) -> bool {
    (0x61u8 <= b && b <= 0x7Au8) || (0x41u8 <= b && b <= 0x5Au8) || b == 0x5Fu8
}

pub open spec fn is_ident_byte(b: u8) -> bool {
    is_ident_start(b) || (0x30u8 <= b && b <= 0x39u8)
}

/// End of the run of identifier bytes that starts at `i`.
pub open spec fn ident_end(t: Seq<u8>, i: int) -> int
    decreases t.len() - i,
{
    if 0 <= i < t.len() && is_ident_byte(t[i]) {
        ident_end(t, i + 1)
    } else {
        i
    }
}

/// A type-annotated declaration on one line: an identifier, optional white
/// space, a colon, and at least one more character.
pub open spec fn is_annotation(t: Seq<u8>) -> bool {
    let m = skip_ws(t, ident_end(t, 1));
    t.len() > 0 && is_ident_start(t[0]) && m < t.len() && t[m] == 0x3Au8 && m + 1 < t.len()
}

/// A statement line that declares a parameter.
pub open spec fn is_param_line(l: LineModel) -> bool {
    l.kind == LineType::Python && is_annotation(trimmed(l.text))
}

/// End of the run of blank and comment lines that starts at `i`.
pub open spec fn leading_end(ls: Seq<LineModel>, i: int) -> int
    decreases ls.len() - i,
{
    if 0 <= i < ls.len() && is_blank_or_comment(ls[i].text) {
        leading_end(ls, i + 1)
    } else {
        i
    }
}

/// End of the run of parameter lines that starts at `i`.
pub open spec fn params_end(ls: Seq<LineModel>, i: int) -> int
    decreases ls.len() - i,
{
    if 0 <= i < ls.len() && is_param_line(ls[i]) {
        params_end(ls, i + 1)
    } else {
        i
    }
}

/// Index of the first body line.
pub open spec fn body_start_of(ls: Seq<LineModel>) -> int {
    params_end(ls, leading_end(ls, 0))
}

/// `v` refers, in order, to the lines `lines[a..b]`.
pub open spec fn refers_to(v: Seq<&Line>, lines: Seq<Line>, a: int, b: int) -> bool {
    v.len() == b - a && forall|k: int| 0 <= k < v.len() ==> *#[trigger] v[k] == lines[a + k]
}

proof fn lemma_leading_end_bound(ls: Seq<LineModel>, i: int)
    requires
        0 <= i <= ls.len(),
    ensures
        i <= leading_end(ls, i) <= ls.len(),
    decreases ls.len() - i,
{
    if i < ls.len() && is_blank_or_comment(ls[i].text) {
        lemma_leading_end_bound(ls, i + 1);
    }
}

proof fn lemma_params_end_bound(ls: Seq<LineModel>, i: int)
    requires
        0 <= i <= ls.len(),
    ensures
        i <= params_end(ls, i) <= ls.len(),
    decreases ls.len() - i,
{
    if i < ls.len() && is_param_line(ls[i]) {
        lemma_params_end_bound(ls, i + 1);
    }
}

/// The body starts after the leading lines and within the lines.
pub proof fn lemma_body_start_bound(ls: Seq<LineModel>)
    ensures
        0 <= leading_end(ls, 0) <= body_start_of(ls) <= ls.len(),
{
    lemma_leading_end_bound(ls, 0);
    lemma_params_end_bound(ls, leading_end(ls, 0));
}

pub open spec fn models(lines: Seq<Line>) -> Seq<LineModel> {
    lines.map_values(|l: Line| l.model())
}

fn is_ident_start_exec(b: u8) -> (r: bool)
    ensures
        r == is_ident_start(b),
{
    (0x61u8 <= b && b <= 0x7Au8) || (0x41u8 <= b && b <= 0x5Au8) || b == 0x5Fu8
}

fn annotation(t: &[u8]) -> (r: bool)
    ensures
        r == is_annotation(t@),
{
    if t.len() == 0 || !is_ident_start_exec(t[0]) {
        return false;
    }
    let mut k: usize = 1;
    while k < t.len() && (is_ident_start_exec(t[k]) || (0x30u8 <= t[k] && t[k] <= 0x39u8))
        invariant
            1 <= k <= t@.len(),
            ident_end(t@, k as int) == ident_end(t@, 1),
        decreases t@.len() - k,
    {
        k = k + 1;
    }
    let m = skip_ws_from(t, k);
    m < t.len() && t[m] == 0x3Au8 && t.len() - m > 1
}

pub fn line_bytes(line: &Line) -> (r: &[u8])
    ensures
        r@ == line.model().text,
{
    line.text.as_str().as_bytes()
}

/// Splits off the leading blank and comment lines and the parameter lines,
/// and returns them with the index of the first body line.
pub fn find_structure(lines: &[Line]) -> (r: (Vec<&Line>, Vec<&Line>, usize))
    ensures
        r.2 as int == body_start_of(models(lines@)),
        leading_end(models(lines@), 0) <= r.2 <= lines@.len(),
        refers_to(r.0@, lines@, 0, leading_end(models(lines@), 0)),
        refers_to(r.1@, lines@, leading_end(models(lines@), 0), r.2 as int),
{
    let ghost ls = models(lines@);
    let mut leading: Vec<&Line> = Vec::new();
    let mut params: Vec<&Line> = Vec::new();
    let mut i: usize = 0;
    while i < lines.len()
        invariant
            ls == models(lines@),
            i <= lines@.len(),
            leading_end(ls, i as int) == leading_end(ls, 0),
            refers_to(leading@, lines@, 0, i as int),
        ensures
            leading_end(ls, i as int) == i,
        decreases lines@.len() - i,
    {
        let (s, e) = trim_bounds(line_bytes(&lines[i]));
        let t = line_bytes(&lines[i]);
        assert(ls[i as int] == lines@[i as int].model());
        assert(trimmed(t@) =~= t@.subrange(s as int, e as int));
        if !(s == e || t[s] == 0x23u8) {
            assert(!is_blank_or_comment(ls[i as int].text));
            assert(leading_end(ls, i as int) == i);
            break;
        }
        leading.push(&lines[i]);
        i = i + 1;
    }
    assert(leading_end(ls, i as int) == i);
    let lead_end = i;
    while i < lines.len()
        invariant
            ls == models(lines@),
            lead_end <= i <= lines@.len(),
            lead_end == leading_end(ls, 0),
            refers_to(leading@, lines@, 0, lead_end as int),
            params_end(ls, i as int) == params_end(ls, lead_end as int),
            refers_to(params@, lines@, lead_end as int, i as int),
        ensures
            params_end(ls, i as int) == i,
        decreases lines@.len() - i,
    {
        let (s, e) = trim_bounds(line_bytes(&lines[i]));
        let t = line_bytes(&lines[i]);
        assert(ls[i as int] == lines@[i as int].model());
        let tt = slice_subrange(t, s, e);
        assert(tt@ =~= trimmed(t@));
        if !(lines[i].line_type == LineType::Python && annotation(tt)) {
            assert(!is_param_line(ls[i as int]));
            assert(params_end(ls, i as int) == i);
            break;
        }
        params.push(&lines[i]);
        i = i + 1;
    }
    assert(params_end(ls, i as int) == i);
    (leading, params, i)
}

/// `await` followed by a white-space character stands at `k`.
pub open spec fn await_at(t: Seq<u8>, k: int) -> bool {
    occurs_at(t, k, "await".spec_bytes()) && ws_width_at(t, k + "await".spec_bytes().len()) > 0
}

/// A byte after which an inline `await` counts: `=`, `(`, `[`, `,` or `:`.
pub open spec fn is_await_opener(b: u8) -> bool {
    b == 0x3Du8 || b == 0x28u8 || b == 0x5Bu8 || b == 0x2Cu8 || b == 0x3Au8
}

/// `await` opens the text, or follows an opener and optional white space.
pub open spec fn text_awaits(t: Seq<u8>) -> bool {
    await_at(t, 0) || exists|i: int|
        0 <= i < t.len() && is_await_opener(t[i]) && #[trigger] await_at(t, skip_ws(t, i + 1))
}

/// A statement line, not a comment, that awaits.
pub open spec fn line_awaits(l: LineModel) -> bool {
    let t = trimmed(l.text);
    l.kind == LineType::Python && !(t.len() > 0 && t[0] == 0x23u8) && text_awaits(t)
}

/// Some line of `ls` is a statement that awaits.
pub open spec fn any_awaits(ls: Seq<LineModel>) -> bool {
    exists|i: int| 0 <= i < ls.len() && #[trigger] line_awaits(ls[i])
}

/// `async`, white space, `kw`, white space, after optional leading white space.
pub open spec fn async_kw(t: Seq<u8>, kw: Seq<u8>) -> bool {
    let k0 = skip_ws(t, 0);
    let a = "async".spec_bytes();
    let k1 = skip_ws(t, k0 + a.len());
    occurs_at(t, k0, a) && ws_width_at(t, k0 + a.len()) > 0 && occurs_at(t, k1, kw) && ws_width_at(
        t,
        k1 + kw.len(),
    ) > 0
}

/// An `async for` or `async with` header.
pub open spec fn line_is_async_header(l: LineModel) -> bool {
    l.kind == LineType::Control && (async_kw(l.text, "for".spec_bytes()) || async_kw(
        l.text,
        "with".spec_bytes(),
    ))
}

/// Some line of `ls` is an `async for` or `async with` header.
pub open spec fn any_async_header(ls: Seq<LineModel>) -> bool {
    exists|i: int| 0 <= i < ls.len() && #[trigger] line_is_async_header(ls[i])
}

fn await_here(t: &[u8], k: usize) -> (r: bool)
    ensures
        r == await_at(t@, k as int),
{
    let a = "await".as_bytes();
    has_at(t, k, a) && ws_width(t, k + a.len()) > 0
}

fn awaits_text(t: &[u8]) -> (r: bool)
    ensures
        r == text_awaits(t@),
{
    if await_here(t, 0) {
        return true;
    }
    let mut i: usize = 0;
    while i < t.len()
        invariant
            i <= t@.len(),
            !await_at(t@, 0),
            forall|j: int| 0 <= j < i ==> !(is_await_opener(t@[j]) && #[trigger] await_at(t@, skip_ws(t@, j + 1))),
        decreases t@.len() - i,
    {
        let b = t[i];
        if b == 0x3Du8 || b == 0x28u8 || b == 0x5Bu8 || b == 0x2Cu8 || b == 0x3Au8 {
            let k = skip_ws_from(t, i + 1);
            if await_here(t, k) {
                return true;
            }
        }
        i = i + 1;
    }
    false
}

/// Whether any line of `lines` is a statement that awaits.
pub fn has_await(lines: &[Line]) -> (r: bool)
    ensures
        r == any_awaits(models(lines@)),
{
    let mut i: usize = 0;
    while i < lines.len()
        invariant
            i <= lines@.len(),
            forall|j: int| 0 <= j < i ==> !#[trigger] line_awaits(models(lines@)[j]),
        decreases lines@.len() - i,
    {
        let t = line_bytes(&lines[i]);
        assert(models(lines@)[i as int] == lines@[i as int].model());
        let (s, e) = trim_bounds(t);
        let tt = slice_subrange(t, s, e);
        assert(tt@ =~= trimmed(t@));
        if lines[i].line_type == LineType::Python && !(s < e && t[s] == 0x23u8) && awaits_text(tt) {
            assert(line_awaits(models(lines@)[i as int]));
            return true;
        }
        i = i + 1;
    }
    false
}

fn async_header(t: &[u8], kw: &str) -> (r: bool)
    ensures
        r == async_kw(t@, kw.spec_bytes()),
{
    let a = "async".as_bytes();
    let k0 = skip_ws_from(t, 0);
    if !has_at(t, k0, a) || ws_width(t, k0 + a.len()) == 0 {
        return false;
    }
    let k1 = skip_ws_from(t, k0 + a.len());
    let b = kw.as_bytes();
    has_at(t, k1, b) && ws_width(t, k1 + b.len()) > 0
}

/// Whether any line of `lines` is an `async for` or `async with` header.
pub fn has_async_construct(lines: &[Line]) -> (r: bool)
    ensures
        r == any_async_header(models(lines@)),
{
    let mut i: usize = 0;
    while i < lines.len()
        invariant
            i <= lines@.len(),
            forall|j: int| 0 <= j < i ==> !#[trigger] line_is_async_header(models(lines@)[j]),
        decreases lines@.len() - i,
    {
        let t = line_bytes(&lines[i]);
        assert(models(lines@)[i as int] == lines@[i as int].model());
        if lines[i].line_type == LineType::Control && (async_header(t, "for") || async_header(t, "with")) {
            assert(line_is_async_header(models(lines@)[i as int]));
            return true;
        }
        i = i + 1;
    }
    false
}

} // verus!
