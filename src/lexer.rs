//! Splitting a template into lines and classifying each line.
use vstd::prelude::*;
use vstd::string::*;
use vstd::utf8::*;

use crate::text::{substr, has_at, is_blank, is_blank_byte, occurs_at, skip_blanks, skip_blanks_from};

verus! {

broadcast use vstd::utf8::group_utf8_lib;

/// The four shapes a template line can have.
#[derive(Debug, Clone, Copy, PartialEq, Eq, Structural)]
pub enum LineType {
    Html,
    Control,
    End,
    Python,
}

/// One line of a template, as it was split off the source.
#[derive(Debug, Clone)]
pub struct Line {
    pub line_type: LineType,
    pub text: String,
    pub line_number: usize,
    /// Sum of `len + 1` over the lines before this one.
    pub byte_offset: usize,
}

/// What the generator needs of a line: its kind, its bytes, its index and offset.
pub struct LineModel {
    pub kind: LineType,
    pub text: Seq<u8>,
    pub number: int,
    pub offset: int,
}

impl Line {
    pub open spec fn model(self) -> LineModel {
        LineModel {
            kind: self.line_type,
            text: encode_utf8(self.text@),
            number: self.line_number as int,
            offset: self.byte_offset as int,
        }
    }
}

/// A byte that may follow a control keyword: space, tab, `(` or `:`.
pub open spec fn is_header_delim(b: u8) -> bool {
    is_blank_byte(b) || b == 0x28u8 || b == 0x3Au8
}

/// `[ \t]*end[ \t]*` spans the whole line.
pub open spec fn is_end_line(t: Seq<u8>) -> bool {
    let k = skip_blanks(t, 0);
    occurs_at(t, k, "end".spec_bytes()) && skip_blanks(t, k + "end".spec_bytes().len()) == t.len()
}

/// The first byte after leading spaces and tabs is `<`.
pub open spec fn is_html_line(t: Seq<u8>) -> bool {
    let k = skip_blanks(t, 0);
    k < t.len() && t[k] == 0x3Cu8
}

/// Where a control keyword must start: after leading blanks, and after an
/// `async` prefix followed by blanks when there is one.
pub open spec fn keyword_start(t: Seq<u8>) -> int {
    let k = skip_blanks(t, 0);
    let a = "async".spec_bytes();
    if occurs_at(t, k, a) && k + a.len() < t.len() && is_blank_byte(t[k + a.len()]) {
        skip_blanks(t, k + a.len())
    } else {
        k
    }
}

/// `kw` stands at `k` and is followed by a header delimiter.
pub open spec fn keyword_at(t: Seq<u8>, k: int, kw: Seq<u8>) -> bool {
    occurs_at(t, k, kw) && k + kw.len() < t.len() && is_header_delim(t[k + kw.len()])
}

/// One of the control keywords opens the line.
pub open spec fn is_control_line(t: Seq<u8>) -> bool {
    let k = keyword_start(t);
    ||| keyword_at(t, k, "if".spec_bytes())
    ||| keyword_at(t, k, "for".spec_bytes())
    ||| keyword_at(t, k, "while".spec_bytes())
    ||| keyword_at(t, k, "match".spec_bytes())
    ||| keyword_at(t, k, "def".spec_bytes())
    ||| keyword_at(t, k, "class".spec_bytes())
    ||| keyword_at(t, k, "elif".spec_bytes())
    ||| keyword_at(t, k, "else".spec_bytes())
    ||| keyword_at(t, k, "case".spec_bytes())
    ||| keyword_at(t, k, "try".spec_bytes())
    ||| keyword_at(t, k, "except".spec_bytes())
    ||| keyword_at(t, k, "finally".spec_bytes())
    ||| keyword_at(t, k, "with".spec_bytes())
}

/// Classification, first match wins: end marker, markup, control header, statement.
pub open spec fn line_kind(t: Seq<u8>) -> LineType {
    if is_end_line(t) {
        LineType::End
    } else if is_html_line(t) {
        LineType::Html
    } else if is_control_line(t) {
        LineType::Control
    } else {
        LineType::Python
    }
}

/// End of the line that starts at `start` and is cut at the line feed at `i`:
/// a carriage return right before the line feed is dropped.
pub open spec fn cut_cr(src: Seq<u8>, start: int, i: int) -> int {
    if i > start && src[i - 1] == 0x0Du8 {
        i - 1
    } else {
        i
    }
}

/// Byte ranges of the lines of `src[start..]`, scanning from `i`, as `str::lines`
/// splits them: at each line feed, with an optional final line ending.
pub open spec fn spans_from(src: Seq<u8>, start: int, i: int) -> Seq<(int, int)>
    decreases src.len() - i,
{
    if i < 0 || i >= src.len() {
        if 0 <= start < src.len() {
            seq![(start, src.len() as int)]
        } else {
            seq![]
        }
    } else if src[i] == 0x0Au8 {
        seq![(start, cut_cr(src, start, i))] + spans_from(src, i + 1, i + 1)
    } else {
        spans_from(src, start, i + 1)
    }
}

/// Byte ranges of the lines of `src`.
pub open spec fn line_spans(src: Seq<u8>) -> Seq<(int, int)> {
    spans_from(src, 0, 0)
}

pub proof fn lemma_spans_len(src: Seq<u8>, start: int, i: int)
    requires
        0 <= start <= i,
        start <= src.len(),
    ensures
        spans_from(src, start, i).len() <= src.len() - start,
    decreases src.len() - i,
{
    if 0 <= i < src.len() {
        if src[i] == 0x0Au8 {
            lemma_spans_len(src, i + 1, i + 1);
        } else {
            lemma_spans_len(src, start, i + 1);
        }
    }
}

/// Offset recorded for line `k`: each earlier line counts its length plus one.
pub open spec fn offset_of(spans: Seq<(int, int)>, k: int) -> int
    decreases k,
{
    if k <= 0 {
        0
    } else {
        offset_of(spans, k - 1) + (spans[k - 1].1 - spans[k - 1].0) + 1
    }
}

/// Line `k` of `src` as the generator sees it, given the line ranges `sp`.
pub open spec fn model_at(src: Seq<u8>, sp: Seq<(int, int)>, k: int) -> LineModel {
    LineModel {
        kind: line_kind(src.subrange(sp[k].0, sp[k].1)),
        text: src.subrange(sp[k].0, sp[k].1),
        number: k,
        offset: offset_of(sp, k),
    }
}

/// The classified lines of `src`.
pub open spec fn lex_model(src: Seq<u8>) -> Seq<LineModel> {
    let sp = line_spans(src);
    Seq::new(sp.len(), |k: int| model_at(src, sp, k))
}

proof fn lemma_offset_prefix(a: Seq<(int, int)>, b: Seq<(int, int)>, k: int)
    requires
        0 <= k <= a.len(),
    ensures
        offset_of(a + b, k) == offset_of(a, k),
    decreases k,
{
    if k > 0 {
        lemma_offset_prefix(a, b, k - 1);
        assert((a + b)[k - 1] == a[k - 1]);
    }
}

/// Classifies one line of a template.
pub fn classify_line(text: &str) -> (r: LineType)
    ensures
        r == line_kind(text.spec_bytes()),
{
    let t = text.as_bytes();
    let k = skip_blanks_from(t, 0);
    let end_kw = "end".as_bytes();
    if has_at(t, k, end_kw) && skip_blanks_from(t, k + end_kw.len()) == t.len() {
        return LineType::End;
    }
    if k < t.len() && t[k] == 0x3Cu8 {
        return LineType::Html;
    }
    if is_control(t) {
        LineType::Control
    } else {
        LineType::Python
    }
}

fn is_header_delim_exec(b: u8) -> (r: bool)
    ensures
        r == is_header_delim(b),
{
    b == 0x20u8 || b == 0x09u8 || b == 0x28u8 || b == 0x3Au8
}

fn keyword_here(t: &[u8], k: usize, kw: &str) -> (r: bool)
    ensures
        r == keyword_at(t@, k as int, kw.spec_bytes()),
{
    let b = kw.as_bytes();
    if has_at(t, k, b) && k + b.len() < t.len() {
        is_header_delim_exec(t[k + b.len()])
    } else {
        false
    }
}

fn is_control(t: &[u8]) -> (r: bool)
    ensures
        r == is_control_line(t@),
{
    let k0 = skip_blanks_from(t, 0);
    let a = "async".as_bytes();
    let k = if has_at(t, k0, a) && k0 + a.len() < t.len() && is_blank(t[k0 + a.len()]) {
        skip_blanks_from(t, k0 + a.len())
    } else {
        k0
    };
    keyword_here(t, k, "if") || keyword_here(t, k, "for") || keyword_here(t, k, "while")
        || keyword_here(t, k, "match") || keyword_here(t, k, "def") || keyword_here(t, k, "class")
        || keyword_here(t, k, "elif") || keyword_here(t, k, "else") || keyword_here(t, k, "case")
        || keyword_here(t, k, "try") || keyword_here(t, k, "except") || keyword_here(
        t,
        k,
        "finally",
    ) || keyword_here(t, k, "with")
}

/// The text of `source[a..b]`.
fn slice_text(source: &str, a: usize, b: usize) -> (r: String)
    requires
        a <= b <= source.spec_bytes().len(),
        a == 0 || source.spec_bytes()[a - 1] < 0x80u8,
        b < source.spec_bytes().len() ==> source.spec_bytes()[b as int] < 0x80u8,
    ensures
        encode_utf8(r@) == source.spec_bytes().subrange(a as int, b as int),
{
    substr(source, a, b).to_owned()
}

/// Each line's offset plus its length is at most `bound`.
pub open spec fn offsets_fit(lines: Seq<Line>, bound: int) -> bool {
    forall|k: int|
        0 <= k < lines.len() ==> (#[trigger] lines[k]).model().offset + lines[k].model().text.len()
            <= bound
}

/// Splits `source` into its lines and classifies each.
pub fn lex(source: &str) -> (lines: Vec<Line>)
    requires
        source.spec_bytes().len() < usize::MAX,
    ensures
        lines@.map_values(|l: Line| l.model()) == lex_model(source.spec_bytes()),
        lines@.len() <= source.spec_bytes().len(),
        offsets_fit(lines@, source.spec_bytes().len() as int),
{
    let src = source.as_bytes();
    let ghost s = source.spec_bytes();
    let mut lines: Vec<Line> = Vec::new();
    let ghost mut done: Seq<(int, int)> = seq![];
    let mut byte_offset: usize = 0;
    let mut start: usize = 0;
    let mut i: usize = 0;
    while i < src.len()
        invariant
            s == src@,
            s == source.spec_bytes(),
            valid_utf8(s),
            s.len() < usize::MAX,
            start <= i <= s.len(),
            start == 0 || s[start - 1] == 0x0Au8,
            byte_offset <= start,
            byte_offset == offset_of(done, done.len() as int),
            done.len() == lines@.len(),
            done + spans_from(s, start as int, i as int) == line_spans(s),
            forall|k: int| 0 <= k < lines@.len() ==> #[trigger] lines@[k].model() == model_at(s, done, k),
            forall|k: int|
                0 <= k < lines@.len() ==> (#[trigger] lines@[k]).model().offset + lines@[k].model().text.len()
                    <= start,
        decreases s.len() - i,
    {
        if src[i] == 0x0Au8 {
            let end = if i > start && src[i - 1] == 0x0Du8 {
                i - 1
            } else {
                i
            };
            let text = slice_text(source, start, end);
            let line_type = classify_line(text.as_str());
            let ghost old_done = done;
            let ghost old_lines = lines@;
            lines.push(Line { line_type, text, line_number: lines.len(), byte_offset });
            proof {
                done = done.push((start as int, end as int));
                assert(spans_from(s, start as int, i as int) == seq![(start as int, end as int)] + spans_from(s, i + 1, i + 1));
                assert(done + spans_from(s, i + 1, i + 1) =~= old_done + spans_from(s, start as int, i as int));
                assert forall|k: int| 0 <= k < lines@.len() implies #[trigger] lines@[k].model() == model_at(s, done, k) by {
                    lemma_offset_prefix(old_done, seq![(start as int, end as int)], k);
                    assert(done =~= old_done + seq![(start as int, end as int)]);
                    if k < old_lines.len() {
                        assert(lines@[k] == old_lines[k]);
                        assert(done[k] == old_done[k]);
                    }
                }
                lemma_offset_prefix(old_done, seq![(start as int, end as int)], old_done.len() as int);
                assert(done =~= old_done + seq![(start as int, end as int)]);
            }
            byte_offset = byte_offset + (end - start) + 1;
            start = i + 1;
        } else {
            proof {
                assert(spans_from(s, start as int, i as int) == spans_from(s, start as int, i + 1));
            }
        }
        i = i + 1;
    }
    if start < src.len() {
        let text = slice_text(source, start, src.len());
        let line_type = classify_line(text.as_str());
        let ghost old_done = done;
        let ghost old_lines = lines@;
        lines.push(Line { line_type, text, line_number: lines.len(), byte_offset });
        proof {
            done = done.push((start as int, s.len() as int));
            assert(spans_from(s, start as int, i as int) == seq![(start as int, s.len() as int)]);
            assert(done =~= old_done + seq![(start as int, s.len() as int)]);
            assert forall|k: int| 0 <= k < lines@.len() implies #[trigger] lines@[k].model() == model_at(s, done, k) by {
                lemma_offset_prefix(old_done, seq![(start as int, s.len() as int)], k);
                if k < old_lines.len() {
                    assert(lines@[k] == old_lines[k]);
                    assert(done[k] == old_done[k]);
                }
            }
        }
    } else {
        proof {
            assert(spans_from(s, start as int, i as int) == Seq::<(int, int)>::empty());
        }
    }
    proof {
        assert(done =~= line_spans(s));
        lemma_spans_len(s, 0, 0);
        assert(lines@.map_values(|l: Line| l.model()) =~= lex_model(s));
    }
    lines
}

} // verus!
