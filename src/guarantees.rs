//! Facts about generation as a whole: numbering of the source map, determinism,
//! how end markers and `case` headers close blocks, and how the pieces rebuild
//! the code.
use vstd::prelude::*;
use vstd::string::*;
use vstd::utf8::*;

use crate::lexer::{is_end_line, lemma_spans_len, lex_model, line_spans, LineModel, LineType};
use crate::structure::{body_start_of, bounds_of, leading_end};
use crate::text::{lemma_skip_blanks, occurs_at, skip_blanks, strip_eol};
use crate::transpile::{
    sat_dec, BlockKind, at_least_one, body_is_async, body_step, code_of, emit, empty_gen, header, lead_step,
    lemma_pop_cases_out, mappings_of, pieces_of, run_body, run_leading, Gen,
};

verus! {

broadcast use vstd::utf8::group_utf8_lib;

/// The mappings are numbered by their position, one per generated line.
pub open spec fn numbered(g: Gen) -> bool {
    g.maps.len() == g.out.len() && forall|i: int|
        0 <= i < g.maps.len() ==> (#[trigger] g.maps[i]).gen_line == i
}

/// The nesting level is one above the depth of the block stack.
pub open spec fn nesting_ok(g: Gen) -> bool {
    g.level == g.stack.len() + 1
}

/// The state after the header, before the first body line.
pub open spec fn body_entry(ls: Seq<LineModel>) -> Gen {
    let lead = leading_end(ls, 0);
    let b = body_start_of(ls);
    header(run_leading(empty_gen(), ls, lead), ls, lead, b, body_is_async(ls, b))
}

/// The nesting level just before body line `k` of `src` is processed.
pub open spec fn level_before(src: Seq<u8>, k: int) -> int {
    let ls = lex_model(src);
    run_body(body_entry(ls), ls, body_start_of(ls), k).level
}

/// The nesting level just after body line `k` of `src` is processed.
pub open spec fn level_after(src: Seq<u8>, k: int) -> int {
    let ls = lex_model(src);
    run_body(body_entry(ls), ls, body_start_of(ls), k + 1).level
}

proof fn lemma_emit_numbered(g: Gen, line: Seq<u8>, gc: int, sl: int, sc: int, ps: Seq<crate::transpile::PieceModel>)
    requires
        numbered(g),
        g.out.len() < usize::MAX,
    ensures
        numbered(emit(g, line, gc, sl, sc, ps)),
        emit(g, line, gc, sl, sc, ps).out.len() == g.out.len() + 1,
{
    let g2 = emit(g, line, gc, sl, sc, ps);
    assert forall|i: int| 0 <= i < g2.maps.len() implies (#[trigger] g2.maps[i]).gen_line == i by {
        if i < g.maps.len() {
            assert(g2.maps[i] == g.maps[i]);
        }
    }
}

proof fn lemma_body_step_numbered(g: Gen, l: LineModel)
    requires
        numbered(g),
        g.out.len() < usize::MAX,
    ensures
        numbered(body_step(g, l)),
        body_step(g, l).out.len() == g.out.len() + 1,
{
    lemma_pop_cases_out(g);
    let g2 = body_step(g, l);
    assert forall|i: int| 0 <= i < g2.maps.len() implies (#[trigger] g2.maps[i]).gen_line == i by {
        if i < g.maps.len() {
            assert(g2.maps[i] == g.maps[i]);
        }
    }
}

proof fn lemma_run_leading_numbered(ls: Seq<LineModel>, k: int)
    requires
        0 <= k < usize::MAX,
    ensures
        numbered(run_leading(empty_gen(), ls, k)),
        run_leading(empty_gen(), ls, k).out.len() == k,
        run_leading(empty_gen(), ls, k).level == 1,
        run_leading(empty_gen(), ls, k).stack.len() == 0,
    decreases k,
{
    if k > 0 {
        lemma_run_leading_numbered(ls, k - 1);
        let g = run_leading(empty_gen(), ls, k - 1);
        let l = ls[k - 1];
        let g2 = lead_step(g, l);
        assert forall|i: int| 0 <= i < g2.maps.len() implies (#[trigger] g2.maps[i]).gen_line == i by {
            if i < g.maps.len() {
                assert(g2.maps[i] == g.maps[i]);
            }
        }
    } else {
        assert(numbered(empty_gen()));
    }
}

proof fn lemma_entry(ls: Seq<LineModel>)
    requires
        ls.len() < usize::MAX / 8,
    ensures
        numbered(body_entry(ls)),
        body_entry(ls).out.len() <= ls.len() + 1,
        body_entry(ls).level == 1,
        body_entry(ls).stack.len() == 0,
{
    let lead = leading_end(ls, 0);
    crate::structure::lemma_body_start_bound(ls);
    lemma_run_leading_numbered(ls, lead);
    let g0 = run_leading(empty_gen(), ls, lead);
    let g1 = body_entry(ls);
    assert forall|i: int| 0 <= i < g1.maps.len() implies (#[trigger] g1.maps[i]).gen_line == i by {
        if i < g0.maps.len() {
            assert(g1.maps[i] == g0.maps[i]);
        }
    }
}

proof fn lemma_run_body(g: Gen, ls: Seq<LineModel>, b: int, k: int)
    requires
        numbered(g),
        nesting_ok(g),
        b <= k,
        g.out.len() + (k - b) < usize::MAX,
    ensures
        numbered(run_body(g, ls, b, k)),
        nesting_ok(run_body(g, ls, b, k)),
        run_body(g, ls, b, k).out.len() == g.out.len() + (k - b),
    decreases k - b,
{
    if k > b {
        lemma_run_body(g, ls, b, k - 1);
        let gk = run_body(g, ls, b, k - 1);
        lemma_body_step_numbered(gk, ls[k - 1]);
        lemma_body_step_nesting(gk, ls[k - 1]);
    }
}

proof fn lemma_body_step_nesting(g: Gen, l: LineModel)
    requires
        nesting_ok(g),
    ensures
        nesting_ok(body_step(g, l)),
{
    lemma_pop_cases_out(g);
}

proof fn lemma_lex_len(src: Seq<u8>)
    ensures
        lex_model(src).len() <= src.len(),
{
    lemma_spans_len(src, 0, 0);
}

/// Every mapping's generated line equals its own index, so the generated lines
/// of the source map run `0, 1, ..., n - 1` with no gap and no repeat, one
/// mapping per generated line.
pub proof fn lemma_mappings_numbered(src: Seq<u8>)
    requires
        src.len() < usize::MAX / 8,
    ensures
        forall|i: int|
            0 <= i < mappings_of(src).len() ==> (#[trigger] mappings_of(src)[i]).gen_line == i,
{
    let ls = lex_model(src);
    lemma_lex_len(src);
    lemma_entry(ls);
    crate::structure::lemma_body_start_bound(ls);
    lemma_run_body(body_entry(ls), ls, body_start_of(ls), ls.len() as int);
}

/// Transpiling is a function of the source alone: equal sources give the same
/// code, the same source map and the same pieces.
pub proof fn lemma_deterministic(s1: Seq<u8>, s2: Seq<u8>)
    requires
        s1 == s2,
    ensures
        code_of(s1) == code_of(s2),
        mappings_of(s1) == mappings_of(s2),
        pieces_of(s1) == pieces_of(s2),
{
}

/// An end-marker line is never blank.
proof fn lemma_end_line_nonblank(t: Seq<u8>)
    requires
        is_end_line(t),
    ensures
        bounds_of(t).0 < bounds_of(t).1,
{
    reveal_strlit("end");
    assert(is_ascii_chars("end"@));
    let e = "end".spec_bytes();
    assert(e.len() == 3);
    assert(e[2] == 0x64u8);
    let k = skip_blanks(t, 0);
    lemma_skip_blanks(t, 0);
    lemma_skip_blanks(t, k + 3);
    assert(t.subrange(k, k + 3)[2] == t[k + 2]);
    assert(!crate::text::is_eol_byte(t[t.len() - 1]));
}

/// An end marker closes at least one block: the nesting level after it is at most
/// the level before it less one, floored at one. Blank lines leave the level as
/// it is, so the level before it is that of the preceding non-blank body line.
pub proof fn lemma_end_closes_block(src: Seq<u8>, k: int)
    requires
        src.len() < usize::MAX / 8,
        body_start_of(lex_model(src)) <= k < lex_model(src).len(),
        lex_model(src)[k].kind == LineType::End,
    ensures
        level_after(src, k) <= at_least_one(level_before(src, k) - 1),
        level_after(src, k) >= 1,
{
    let ls = lex_model(src);
    lemma_lex_len(src);
    lemma_entry(ls);
    let b = body_start_of(ls);
    crate::structure::lemma_body_start_bound(ls);
    lemma_run_body(body_entry(ls), ls, b, k);
    assert(ls[k] == crate::lexer::model_at(src, line_spans(src), k));
    let g = run_body(body_entry(ls), ls, b, k);
    assert(is_end_line(ls[k].text));
    lemma_end_line_nonblank(ls[k].text);
    lemma_pop_cases_out(g);
    assert(run_body(body_entry(ls), ls, b, k + 1) == body_step(g, ls[k]));
}

/// A blank body line leaves the nesting level as it is.
pub proof fn lemma_blank_keeps_level(g: Gen, l: LineModel)
    requires
        bounds_of(l.text).0 >= bounds_of(l.text).1,
    ensures
        body_step(g, l).level == g.level,
{
}

/// Number of line feeds in `s`.
pub open spec fn count_nl(s: Seq<u8>) -> nat
    decreases s.len(),
{
    if s.len() == 0 {
        0
    } else {
        count_nl(s.drop_last()) + if s.last() == 0x0Au8 {
            1nat
        } else {
            0nat
        }
    }
}

/// Number of lines of `s`: its line feeds, plus one for an unterminated last line.
pub open spec fn line_count(s: Seq<u8>) -> nat {
    if s.len() > 0 && s.last() != 0x0Au8 {
        count_nl(s) + 1
    } else {
        count_nl(s)
    }
}

/// `s` holds no line feed.
pub open spec fn no_nl(s: Seq<u8>) -> bool {
    forall|i: int| 0 <= i < s.len() ==> s[i] != 0x0Au8
}

proof fn lemma_count_concat(a: Seq<u8>, b: Seq<u8>)
    ensures
        count_nl(a + b) == count_nl(a) + count_nl(b),
    decreases b.len(),
{
    if b.len() == 0 {
        assert(a + b =~= a);
    } else {
        lemma_count_concat(a, b.drop_last());
        assert((a + b).drop_last() =~= a + b.drop_last());
    }
}

proof fn lemma_count_one()
    ensures
        count_nl(seq![0x0Au8]) == 1,
{
    let s = seq![0x0Au8];
    assert(s.drop_last() =~= Seq::<u8>::empty());
    assert(count_nl(Seq::<u8>::empty()) == 0);
    assert(s.last() == 0x0Au8);
}

proof fn lemma_count_no_nl(a: Seq<u8>)
    requires
        no_nl(a),
    ensures
        count_nl(a) == 0,
    decreases a.len(),
{
    if a.len() > 0 {
        lemma_count_no_nl(a.drop_last());
    }
}

proof fn lemma_nl_bytes()
    ensures
        crate::transpile::nl() == seq![0x0Au8],
{
    reveal_strlit("\n");
    assert(is_ascii_chars("\n"@));
    assert(crate::transpile::nl() =~= seq![0x0Au8]);
}

proof fn lemma_concat_no_nl(a: Seq<u8>, b: Seq<u8>)
    requires
        no_nl(a),
        no_nl(b),
    ensures
        no_nl(a + b),
{
    assert forall|i: int| 0 <= i < (a + b).len() implies (a + b)[i] != 0x0Au8 by {
        if i < a.len() {
            assert((a + b)[i] == a[i]);
        } else {
            assert((a + b)[i] == b[i - a.len()]);
        }
    }
}

proof fn lemma_ascii_lit_no_nl(s: &str)
    requires
        forall|i: int| 0 <= i < s@.len() ==> '\0' <= #[trigger] s@[i] <= '\u{7f}' && s@[i] != '\n',
    ensures
        no_nl(s.spec_bytes()),
{
    assert(is_ascii_chars(s@));
    assert forall|i: int| 0 <= i < s.spec_bytes().len() implies s.spec_bytes()[i] != 0x0Au8 by {
        assert(s@[i] as u8 == s.spec_bytes()[i]);
        assert(s@[i] != '\n');
    }
}

proof fn lemma_literals()
    ensures
        no_nl("    ".spec_bytes()),
        no_nl("pass".spec_bytes()),
        "pass".spec_bytes().len() == 4,
        no_nl("t\"\"\"".spec_bytes()),
        no_nl("\"\"\"".spec_bytes()),
        no_nl("async def".spec_bytes()),
        no_nl("def".spec_bytes()),
        "def".spec_bytes().len() == 3,
        "async def".spec_bytes().len() == 9,
        no_nl(" __hyper_template__(".spec_bytes()),
        no_nl(" __hyper_template__():".spec_bytes()),
        no_nl(", ".spec_bytes()),
        no_nl("):".spec_bytes()),
{
    reveal_strlit("    ");
    reveal_strlit("pass");
    reveal_strlit("t\"\"\"");
    reveal_strlit("\"\"\"");
    reveal_strlit("async def");
    reveal_strlit("def");
    reveal_strlit(" __hyper_template__(");
    reveal_strlit(" __hyper_template__():");
    reveal_strlit(", ");
    reveal_strlit("):");
    lemma_ascii_lit_no_nl("    ");
    lemma_ascii_lit_no_nl("pass");
    lemma_ascii_lit_no_nl("t\"\"\"");
    lemma_ascii_lit_no_nl("\"\"\"");
    lemma_ascii_lit_no_nl("async def");
    lemma_ascii_lit_no_nl("def");
    lemma_ascii_lit_no_nl(" __hyper_template__(");
    lemma_ascii_lit_no_nl(" __hyper_template__():");
    lemma_ascii_lit_no_nl(", ");
    lemma_ascii_lit_no_nl("):");
    assert(is_ascii_chars("pass"@));
    assert(is_ascii_chars("def"@));
    assert(is_ascii_chars("async def"@));
}

/// Every line holds no line feed.
pub open spec fn all_no_nl(out: Seq<Seq<u8>>) -> bool {
    forall|k: int| 0 <= k < out.len() ==> no_nl(#[trigger] out[k])
}

/// Every line text of `ls` holds no line feed.
pub open spec fn texts_no_nl(ls: Seq<LineModel>) -> bool {
    forall|k: int| 0 <= k < ls.len() ==> no_nl(#[trigger] ls[k].text)
}

pub open spec fn span_ok(src: Seq<u8>, sp: (int, int)) -> bool {
    0 <= sp.0 <= sp.1 <= src.len() && forall|j: int| sp.0 <= j < sp.1 ==> src[j] != 0x0Au8
}

proof fn lemma_spans_ok(src: Seq<u8>, start: int, i: int)
    requires
        0 <= start <= i,
        forall|j: int| start <= j < i && j < src.len() ==> src[j] != 0x0Au8,
    ensures
        forall|k: int|
            0 <= k < crate::lexer::spans_from(src, start, i).len() ==> span_ok(
                src,
                #[trigger] crate::lexer::spans_from(src, start, i)[k],
            ),
    decreases src.len() - i,
{
    let sp = crate::lexer::spans_from(src, start, i);
    if i >= src.len() {
        if start < src.len() {
            assert(sp == seq![(start, src.len() as int)]);
            assert(span_ok(src, sp[0]));
        }
    } else if src[i] == 0x0Au8 {
        lemma_spans_ok(src, i + 1, i + 1);
        let rest = crate::lexer::spans_from(src, i + 1, i + 1);
        let first = (start, crate::lexer::cut_cr(src, start, i));
        assert(sp == seq![first] + rest);
        assert(span_ok(src, first));
        assert forall|k: int| 0 <= k < sp.len() implies span_ok(src, #[trigger] sp[k]) by {
            if k > 0 {
                assert(sp[k] == rest[k - 1]);
            } else {
                assert(sp[k] == first);
            }
        }
    } else {
        lemma_spans_ok(src, start, i + 1);
        assert(sp == crate::lexer::spans_from(src, start, i + 1));
    }
}

proof fn lemma_texts_no_nl(src: Seq<u8>)
    ensures
        texts_no_nl(lex_model(src)),
{
    lemma_spans_ok(src, 0, 0);
    let ls = lex_model(src);
    let sp = line_spans(src);
    assert forall|k: int| 0 <= k < ls.len() implies no_nl(#[trigger] ls[k].text) by {
        assert(span_ok(src, sp[k]));
        assert(ls[k].text == src.subrange(sp[k].0, sp[k].1));
    }
}

proof fn lemma_indent_no_nl(n: int)
    ensures
        no_nl(crate::transpile::indent(n)),
    decreases n,
{
    lemma_literals();
    if n > 0 {
        lemma_indent_no_nl(n - 1);
        lemma_concat_no_nl(crate::transpile::indent(n - 1), "    ".spec_bytes());
    }
}

proof fn lemma_sub_no_nl(t: Seq<u8>, a: int, b: int)
    requires
        no_nl(t),
        0 <= a <= b <= t.len(),
    ensures
        no_nl(t.subrange(a, b)),
{
    assert forall|i: int| 0 <= i < b - a implies t.subrange(a, b)[i] != 0x0Au8 by {
        assert(t.subrange(a, b)[i] == t[a + i]);
    }
}

proof fn lemma_bounds(t: Seq<u8>)
    ensures
        0 <= bounds_of(t).0 <= t.len(),
        0 <= bounds_of(t).1 <= t.len(),
{
    lemma_skip_blanks(t, 0);
    crate::text::lemma_strip_eol(t, t.len() as int);
}

proof fn lemma_content_no_nl(t: Seq<u8>)
    requires
        no_nl(t),
    ensures
        no_nl(crate::transpile::content(t)),
{
    lemma_bounds(t);
    crate::structure::lemma_bounds_ordered(t);
    lemma_sub_no_nl(t, bounds_of(t).0, bounds_of(t).1);
}

proof fn lemma_params_text_no_nl(ps: Seq<LineModel>)
    requires
        texts_no_nl(ps),
    ensures
        no_nl(crate::transpile::params_text(ps)),
    decreases ps.len(),
{
    lemma_literals();
    if ps.len() == 1 {
        assert(no_nl(ps[0].text));
        lemma_content_no_nl(ps[0].text);
    } else if ps.len() > 1 {
        assert(texts_no_nl(ps.drop_last())) by {
            assert forall|k: int| 0 <= k < ps.drop_last().len() implies no_nl(#[trigger] ps.drop_last()[k].text) by {
                assert(ps.drop_last()[k] == ps[k]);
            }
        }
        lemma_params_text_no_nl(ps.drop_last());
        assert(no_nl(ps.last().text));
        lemma_content_no_nl(ps.last().text);
        let a = crate::transpile::params_text(ps.drop_last());
        lemma_concat_no_nl(a, ", ".spec_bytes());
        lemma_concat_no_nl(a + ", ".spec_bytes(), crate::transpile::content(ps.last().text));
    }
}

proof fn lemma_push_no_nl(out: Seq<Seq<u8>>, x: Seq<u8>)
    requires
        all_no_nl(out),
        no_nl(x),
    ensures
        all_no_nl(out.push(x)),
{
    assert forall|k: int| 0 <= k < out.push(x).len() implies no_nl(#[trigger] out.push(x)[k]) by {
        if k < out.len() {
            assert(out.push(x)[k] == out[k]);
        }
    }
}

proof fn lemma_leading_no_nl(ls: Seq<LineModel>, k: int)
    requires
        texts_no_nl(ls),
        0 <= k <= ls.len(),
    ensures
        all_no_nl(run_leading(empty_gen(), ls, k).out),
    decreases k,
{
    if k > 0 {
        lemma_leading_no_nl(ls, k - 1);
        let g = run_leading(empty_gen(), ls, k - 1);
        assert(no_nl(ls[k - 1].text));
        lemma_content_no_nl(ls[k - 1].text);
        if crate::text::trimmed(ls[k - 1].text).len() != 0 {
            lemma_push_no_nl(g.out, crate::transpile::content(ls[k - 1].text));
        } else {
            lemma_push_no_nl(g.out, seq![]);
        }
    }
}

proof fn lemma_header_no_nl(g: Gen, ls: Seq<LineModel>, lead: int, b: int, a: bool)
    requires
        texts_no_nl(ls),
        all_no_nl(g.out),
        0 <= lead <= b <= ls.len(),
    ensures
        all_no_nl(header(g, ls, lead, b, a).out),
        header(g, ls, lead, b, a).out.len() == g.out.len() + 1,
        header(g, ls, lead, b, a).out.last().len() > 0,
{
    lemma_literals();
    let ps = ls.subrange(lead, b);
    let kw = crate::transpile::def_kw(a);
    if ps.len() > 0 {
        assert(texts_no_nl(ps)) by {
            assert forall|k: int| 0 <= k < ps.len() implies no_nl(#[trigger] ps[k].text) by {
                assert(ps[k] == ls[lead + k]);
            }
        }
        lemma_params_text_no_nl(ps);
        let p = crate::transpile::params_text(ps);
        lemma_concat_no_nl(kw, crate::transpile::fn_open());
        lemma_concat_no_nl(kw + crate::transpile::fn_open(), p);
        lemma_concat_no_nl(kw + crate::transpile::fn_open() + p, "):".spec_bytes());
        lemma_push_no_nl(g.out, kw + crate::transpile::fn_open() + p + "):".spec_bytes());
    } else {
        lemma_concat_no_nl(kw, " __hyper_template__():".spec_bytes());
        lemma_push_no_nl(g.out, kw + " __hyper_template__():".spec_bytes());
    }
}

proof fn lemma_step_no_nl(g: Gen, l: LineModel)
    requires
        no_nl(l.text),
        all_no_nl(g.out),
    ensures
        all_no_nl(body_step(g, l).out),
        bounds_of(l.text).0 < bounds_of(l.text).1 ==> body_step(g, l).out.last().len() > 0,
{
    lemma_literals();
    lemma_pop_cases_out(g);
    lemma_bounds(l.text);
    let (s, e) = bounds_of(l.text);
    if s < e {
        let c = l.text.subrange(s, e);
        lemma_sub_no_nl(l.text, s, e);
        let g2 = body_step(g, l);
        assert(g2.out.drop_last() =~= g.out);
        let x = g2.out.last();
        assert(g2.out =~= g.out.push(x));
        assert(no_nl(x)) by {
            assert forall|lv: int| true implies no_nl(crate::transpile::indent(lv) + c) by {
                lemma_indent_no_nl(lv);
                lemma_concat_no_nl(crate::transpile::indent(lv), c);
            }
            assert forall|lv: int| true implies no_nl(crate::transpile::indent(lv) + "pass".spec_bytes()) by {
                lemma_indent_no_nl(lv);
                lemma_concat_no_nl(crate::transpile::indent(lv), "pass".spec_bytes());
            }
            assert forall|lv: int| true implies no_nl(crate::transpile::indent(lv) + "t\"\"\"".spec_bytes() + c + "\"\"\"".spec_bytes()) by {
                lemma_indent_no_nl(lv);
                lemma_concat_no_nl(crate::transpile::indent(lv), "t\"\"\"".spec_bytes());
                lemma_concat_no_nl(crate::transpile::indent(lv) + "t\"\"\"".spec_bytes(), c);
                lemma_concat_no_nl(crate::transpile::indent(lv) + "t\"\"\"".spec_bytes() + c, "\"\"\"".spec_bytes());
            }
        }
        lemma_push_no_nl(g.out, x);
    } else {
        lemma_push_no_nl(g.out, seq![]);
    }
}

proof fn lemma_body_no_nl(g: Gen, ls: Seq<LineModel>, b: int, k: int)
    requires
        texts_no_nl(ls),
        all_no_nl(g.out),
        0 <= b <= k <= ls.len(),
    ensures
        all_no_nl(run_body(g, ls, b, k).out),
    decreases k - b,
{
    if k > b {
        lemma_body_no_nl(g, ls, b, k - 1);
        assert(no_nl(ls[k - 1].text));
        lemma_step_no_nl(run_body(g, ls, b, k - 1), ls[k - 1]);
    }
}

proof fn lemma_lines_count(out: Seq<Seq<u8>>)
    requires
        all_no_nl(out),
    ensures
        count_nl(crate::transpile::lines_nl(out)) == out.len(),
        out.len() > 0 ==> crate::transpile::lines_nl(out).len() > 0
            && crate::transpile::lines_nl(out).last() == 0x0Au8,
    decreases out.len(),
{
    lemma_nl_bytes();
    if out.len() > 0 {
        let d = out.drop_last();
        assert(all_no_nl(d)) by {
            assert forall|k: int| 0 <= k < d.len() implies no_nl(#[trigger] d[k]) by {
                assert(d[k] == out[k]);
            }
        }
        assert(no_nl(out.last()));
        lemma_lines_count(d);
        let j = crate::transpile::lines_nl(d);
        lemma_count_concat(j, out.last());
        lemma_count_concat(j + out.last(), crate::transpile::nl());
        lemma_count_no_nl(out.last());
        lemma_count_one();
    }
}

/// The generated text has one line per mapping: it is every generated line
/// followed by a line feed, so its line feeds number the mappings.
pub proof fn lemma_one_mapping_per_line(src: Seq<u8>)
    requires
        src.len() < usize::MAX / 8,
    ensures
        line_count(code_of(src)) == mappings_of(src).len(),
{
    let ls = lex_model(src);
    let lead = leading_end(ls, 0);
    let b = body_start_of(ls);
    lemma_texts_no_nl(src);
    lemma_mappings_numbered(src);
    lemma_lex_len(src);
    lemma_entry(ls);
    crate::structure::lemma_body_start_bound(ls);
    lemma_run_body(body_entry(ls), ls, b, ls.len() as int);
    lemma_leading_no_nl(ls, lead);
    let g0 = run_leading(empty_gen(), ls, lead);
    lemma_header_no_nl(g0, ls, lead, b, body_is_async(ls, b));
    let g1 = body_entry(ls);
    lemma_body_no_nl(g1, ls, b, ls.len() as int);
    let gf = run_body(g1, ls, b, ls.len() as int);
    lemma_lines_count(gf.out);
}

/// No carriage return stands right before a line feed.
pub open spec fn no_crlf(src: Seq<u8>) -> bool {
    forall|i: int| 0 < i < src.len() && src[i] == 0x0Au8 ==> #[trigger] src[i - 1] != 0x0Du8
}

/// The text a piece stands for: its prefix, the source bytes it names, its suffix.
pub open spec fn piece_text(src: Seq<u8>, p: crate::transpile::PieceModel) -> Seq<u8> {
    p.prefix + src.subrange(p.start, p.end) + p.suffix
}

/// The pieces' texts, in order.
pub open spec fn rebuild(src: Seq<u8>, ps: Seq<crate::transpile::PieceModel>) -> Seq<u8>
    decreases ps.len(),
{
    if ps.len() == 0 {
        seq![]
    } else {
        rebuild(src, ps.drop_last()) + piece_text(src, ps.last())
    }
}

/// The pieces rebuild the lines.
pub open spec fn faithful(src: Seq<u8>, g: Gen) -> bool {
    rebuild(src, g.pieces) == crate::transpile::lines_nl(g.out)
}

/// Each line text is the source at its recorded offset.
pub open spec fn anchored(src: Seq<u8>, ls: Seq<LineModel>) -> bool {
    forall|k: int|
        0 <= k < ls.len() ==> 0 <= (#[trigger] ls[k]).offset && ls[k].offset + ls[k].text.len()
            <= src.len() && ls[k].text == src.subrange(ls[k].offset, ls[k].offset + ls[k].text.len())
}

proof fn lemma_spans_chain(src: Seq<u8>, start: int, i: int)
    requires
        no_crlf(src),
        0 <= start <= i,
    ensures
        crate::lexer::spans_from(src, start, i).len() > 0 ==> crate::lexer::spans_from(src, start, i)[0].0
            == start,
        forall|k: int|
            0 <= k < crate::lexer::spans_from(src, start, i).len() - 1 ==> #[trigger] crate::lexer::spans_from(
                src,
                start,
                i,
            )[k + 1].0 == crate::lexer::spans_from(src, start, i)[k].1 + 1,
    decreases src.len() - i,
{
    let sp = crate::lexer::spans_from(src, start, i);
    if i >= src.len() {
    } else if src[i] == 0x0Au8 {
        lemma_spans_chain(src, i + 1, i + 1);
        let rest = crate::lexer::spans_from(src, i + 1, i + 1);
        let first = (start, crate::lexer::cut_cr(src, start, i));
        assert(sp == seq![first] + rest);
        if i > start {
            assert(src[i - 1] != 0x0Du8);
        }
        assert(first.1 == i);
        assert forall|k: int| 0 <= k < sp.len() - 1 implies #[trigger] sp[k + 1].0 == sp[k].1 + 1 by {
            assert(sp[k + 1] == rest[k]);
            if k > 0 {
                assert(sp[k] == rest[k - 1]);
                assert(rest[(k - 1) + 1].0 == rest[k - 1].1 + 1);
            } else {
                assert(sp[k] == first);
            }
        }
    } else {
        lemma_spans_chain(src, start, i + 1);
        assert(sp == crate::lexer::spans_from(src, start, i + 1));
    }
}

proof fn lemma_offsets_real(sp: Seq<(int, int)>, k: int)
    requires
        0 <= k < sp.len(),
        sp[0].0 == 0,
        forall|j: int| 0 <= j < sp.len() - 1 ==> #[trigger] sp[j + 1].0 == sp[j].1 + 1,
    ensures
        crate::lexer::offset_of(sp, k) == sp[k].0,
    decreases k,
{
    if k > 0 {
        lemma_offsets_real(sp, k - 1);
        assert(sp[(k - 1) + 1].0 == sp[k - 1].1 + 1);
    }
}

proof fn lemma_anchored(src: Seq<u8>)
    requires
        no_crlf(src),
    ensures
        anchored(src, lex_model(src)),
{
    let ls = lex_model(src);
    let sp = line_spans(src);
    lemma_spans_chain(src, 0, 0);
    lemma_spans_ok(src, 0, 0);
    assert forall|k: int| 0 <= k < ls.len() implies 0 <= (#[trigger] ls[k]).offset && ls[k].offset
        + ls[k].text.len() <= src.len() && ls[k].text == src.subrange(
        ls[k].offset,
        ls[k].offset + ls[k].text.len(),
    ) by {
        assert(span_ok(src, sp[k]));
        lemma_offsets_real(sp, k);
    }
}

proof fn lemma_rebuild_concat(src: Seq<u8>, a: Seq<crate::transpile::PieceModel>, b: Seq<crate::transpile::PieceModel>)
    ensures
        rebuild(src, a + b) == rebuild(src, a) + rebuild(src, b),
    decreases b.len(),
{
    if b.len() == 0 {
        assert(a + b =~= a);
        assert(rebuild(src, a) + rebuild(src, b) =~= rebuild(src, a));
    } else {
        lemma_rebuild_concat(src, a, b.drop_last());
        assert((a + b).drop_last() =~= a + b.drop_last());
        assert((a + b).last() == b.last());
    }
}

proof fn lemma_emit_faithful(
    src: Seq<u8>,
    g: Gen,
    line: Seq<u8>,
    gc: int,
    sl: int,
    sc: int,
    ps: Seq<crate::transpile::PieceModel>,
)
    requires
        faithful(src, g),
        rebuild(src, ps) == line + crate::transpile::nl(),
    ensures
        faithful(src, emit(g, line, gc, sl, sc, ps)),
{
    lemma_rebuild_concat(src, g.pieces, ps);
    assert(g.out.push(line).drop_last() =~= g.out);
    assert(rebuild(src, g.pieces + ps) =~= crate::transpile::lines_nl(g.out.push(line)));
}

proof fn lemma_one_piece(src: Seq<u8>, p: crate::transpile::PieceModel)
    ensures
        rebuild(src, seq![p]) == piece_text(src, p),
{
    assert(seq![p].drop_last() =~= Seq::<crate::transpile::PieceModel>::empty());
    assert(rebuild(src, Seq::<crate::transpile::PieceModel>::empty()) + piece_text(src, p) =~= piece_text(src, p));
}

/// The source bytes a piece names are the line's bytes between the same bounds.
proof fn lemma_slice(src: Seq<u8>, l: LineModel, a: int, b: int)
    requires
        0 <= l.offset,
        l.offset + l.text.len() <= src.len(),
        l.text == src.subrange(l.offset, l.offset + l.text.len()),
        0 <= a <= b <= l.text.len(),
    ensures
        src.subrange(l.offset + a, l.offset + b) == l.text.subrange(a, b),
{
    assert(src.subrange(l.offset + a, l.offset + b) =~= l.text.subrange(a, b));
}

proof fn lemma_lead_faithful(src: Seq<u8>, g: Gen, l: LineModel)
    requires
        faithful(src, g),
        0 <= l.offset,
        l.offset + l.text.len() <= src.len(),
        l.text == src.subrange(l.offset, l.offset + l.text.len()),
    ensures
        faithful(src, lead_step(g, l)),
{
    let t = l.text;
    let (s, e) = bounds_of(t);
    lemma_bounds(t);
    crate::structure::lemma_bounds_ordered(t);
    if crate::text::trimmed(t).len() != 0 {
        let p = crate::transpile::piece(seq![], crate::transpile::nl(), l.offset + s, l.offset + e);
        lemma_one_piece(src, p);
        lemma_slice(src, l, s, e);
        assert(piece_text(src, p) =~= crate::transpile::content(t) + crate::transpile::nl());
        lemma_emit_faithful(src, g, crate::transpile::content(t), 0, l.number, s, seq![p]);
    } else {
        let p = crate::transpile::piece(seq![], crate::transpile::nl(), l.offset, l.offset);
        lemma_one_piece(src, p);
        lemma_slice(src, l, 0, 0);
        assert(piece_text(src, p) =~= Seq::<u8>::empty() + crate::transpile::nl());
        lemma_emit_faithful(src, g, seq![], 0, l.number, 0, seq![p]);
    }
}

proof fn lemma_leading_faithful(src: Seq<u8>, ls: Seq<LineModel>, k: int)
    requires
        anchored(src, ls),
        0 <= k <= ls.len(),
    ensures
        faithful(src, run_leading(empty_gen(), ls, k)),
    decreases k,
{
    if k > 0 {
        lemma_leading_faithful(src, ls, k - 1);
        assert(ls[k - 1] == ls[k - 1]);
        lemma_lead_faithful(src, run_leading(empty_gen(), ls, k - 1), ls[k - 1]);
    } else {
        assert(rebuild(src, empty_gen().pieces) == crate::transpile::lines_nl(empty_gen().out));
    }
}

proof fn lemma_param_pieces(src: Seq<u8>, ps: Seq<LineModel>, a: bool, m: int)
    requires
        anchored(src, ps),
        1 <= m <= ps.len(),
    ensures
        rebuild(src, Seq::new(m as nat, |i: int| crate::transpile::param_piece(ps, a, i)))
            == crate::transpile::def_kw(a) + crate::transpile::fn_open() + crate::transpile::params_text(
            ps.subrange(0, m),
        ) + if m == ps.len() {
            "):".spec_bytes() + crate::transpile::nl()
        } else {
            seq![]
        },
    decreases m,
{
    let pp = Seq::new(m as nat, |i: int| crate::transpile::param_piece(ps, a, i));
    let l = ps[m - 1];
    assert(0 <= l.offset && l.offset + l.text.len() <= src.len() && l.text == src.subrange(l.offset, l.offset + l.text.len()));
    lemma_bounds(l.text);
    crate::structure::lemma_bounds_ordered(l.text);
    let (s, e) = bounds_of(l.text);
    lemma_slice(src, l, s, e);
    let sub = ps.subrange(0, m);
    assert(sub.last() == l);
    assert(pp.last() == crate::transpile::param_piece(ps, a, m - 1));
    if m == 1 {
        lemma_one_piece(src, pp.last());
        assert(pp =~= seq![pp.last()]);
        assert(sub.len() == 1);
        assert(rebuild(src, pp) =~= crate::transpile::def_kw(a) + crate::transpile::fn_open() + crate::transpile::params_text(sub) + if m == ps.len() {
            "):".spec_bytes() + crate::transpile::nl()
        } else {
            seq![]
        });
    } else {
        lemma_param_pieces(src, ps, a, m - 1);
        assert(pp.drop_last() =~= Seq::new((m - 1) as nat, |i: int| crate::transpile::param_piece(ps, a, i)));
        assert(sub.drop_last() =~= ps.subrange(0, m - 1));
        assert(rebuild(src, pp) =~= crate::transpile::def_kw(a) + crate::transpile::fn_open() + crate::transpile::params_text(sub) + if m == ps.len() {
            "):".spec_bytes() + crate::transpile::nl()
        } else {
            seq![]
        });
    }
}

proof fn lemma_header_faithful(src: Seq<u8>, g: Gen, ls: Seq<LineModel>, lead: int, b: int, a: bool)
    requires
        faithful(src, g),
        anchored(src, ls),
        0 <= lead <= b <= ls.len(),
    ensures
        faithful(src, header(g, ls, lead, b, a)),
{
    let ps = ls.subrange(lead, b);
    if ps.len() > 0 {
        assert(anchored(src, ps)) by {
            assert forall|k: int| 0 <= k < ps.len() implies 0 <= (#[trigger] ps[k]).offset && ps[k].offset
                + ps[k].text.len() <= src.len() && ps[k].text == src.subrange(
                ps[k].offset,
                ps[k].offset + ps[k].text.len(),
            ) by {
                assert(ps[k] == ls[lead + k]);
            }
        }
        lemma_param_pieces(src, ps, a, ps.len() as int);
        assert(ps.subrange(0, ps.len() as int) =~= ps);
        let line = crate::transpile::def_kw(a) + crate::transpile::fn_open() + crate::transpile::params_text(ps) + "):".spec_bytes();
        assert(rebuild(src, Seq::new(ps.len(), |i: int| crate::transpile::param_piece(ps, a, i))) =~= line + crate::transpile::nl());
        lemma_emit_faithful(
            src,
            g,
            line,
            (crate::transpile::def_kw(a).len() + crate::transpile::fn_open().len()) as int,
            ps[0].number,
            bounds_of(ps[0].text).0,
            Seq::new(ps.len(), |i: int| crate::transpile::param_piece(ps, a, i)),
        );
    } else {
        let off = if b < ls.len() {
            ls[b].offset
        } else if ls.len() > 0 {
            ls.last().offset
        } else {
            0
        };
        if b < ls.len() {
            assert(0 <= ls[b].offset && ls[b].offset + ls[b].text.len() <= src.len());
        } else if ls.len() > 0 {
            assert(0 <= ls[ls.len() - 1].offset && ls[ls.len() - 1].offset + ls[ls.len() - 1].text.len() <= src.len());
        }
        let line = crate::transpile::def_kw(a) + " __hyper_template__():".spec_bytes();
        let p = crate::transpile::piece(line + crate::transpile::nl(), seq![], off, off);
        lemma_one_piece(src, p);
        assert(src.subrange(off, off) =~= Seq::<u8>::empty());
        assert(piece_text(src, p) =~= line + crate::transpile::nl());
        lemma_emit_faithful(src, g, line, 0, if ls.len() == 0 {
            0
        } else if b < ls.len() - 1 {
            b
        } else {
            ls.len() - 1
        }, 0, seq![p]);
    }
}

proof fn lemma_step_faithful(src: Seq<u8>, g: Gen, l: LineModel)
    requires
        faithful(src, g),
        0 <= l.offset,
        l.offset + l.text.len() <= src.len(),
        l.text == src.subrange(l.offset, l.offset + l.text.len()),
    ensures
        faithful(src, body_step(g, l)),
{
    lemma_pop_cases_out(g);
    let t = l.text;
    let (s, e) = bounds_of(t);
    lemma_bounds(t);
    let nl = crate::transpile::nl();
    if s >= e {
        let p = crate::transpile::piece(seq![], nl, l.offset, l.offset);
        lemma_one_piece(src, p);
        lemma_slice(src, l, 0, 0);
        assert(piece_text(src, p) =~= Seq::<u8>::empty() + nl);
        lemma_emit_faithful(src, g, seq![], 0, l.number, 0, seq![p]);
    } else {
        let c = t.subrange(s, e);
        lemma_slice(src, l, s, e);
        assert forall|pre: Seq<u8>| true implies #[trigger] rebuild(
            src,
            seq![crate::transpile::piece(pre, nl, l.offset + s, l.offset + e)],
        ) == pre + c + nl by {
            lemma_one_piece(src, crate::transpile::piece(pre, nl, l.offset + s, l.offset + e));
        }
        assert forall|lv: int| true implies #[trigger] rebuild(
            src,
            seq![crate::transpile::piece(crate::transpile::indent(lv) + "pass".spec_bytes() + nl, seq![], l.offset, l.offset)],
        ) == crate::transpile::indent(lv) + "pass".spec_bytes() + nl by {
            let p = crate::transpile::piece(crate::transpile::indent(lv) + "pass".spec_bytes() + nl, seq![], l.offset, l.offset);
            lemma_one_piece(src, p);
            lemma_slice(src, l, 0, 0);
            assert(piece_text(src, p) =~= crate::transpile::indent(lv) + "pass".spec_bytes() + nl);
        }
        assert forall|lv: int| true implies #[trigger] rebuild(
            src,
            seq![crate::transpile::piece(crate::transpile::indent(lv) + "t\"\"\"".spec_bytes(), "\"\"\"".spec_bytes() + nl, l.offset + s, l.offset + e)],
        ) == crate::transpile::indent(lv) + "t\"\"\"".spec_bytes() + c + "\"\"\"".spec_bytes() + nl by {
            let p = crate::transpile::piece(crate::transpile::indent(lv) + "t\"\"\"".spec_bytes(), "\"\"\"".spec_bytes() + nl, l.offset + s, l.offset + e);
            lemma_one_piece(src, p);
            assert(piece_text(src, p) =~= crate::transpile::indent(lv) + "t\"\"\"".spec_bytes() + c + "\"\"\"".spec_bytes() + nl);
        }
        let off = l.offset;
        match l.kind {
            LineType::Control => {
                if crate::transpile::is_dedent(c) {
                    let pl = at_least_one(sat_dec(g.level));
                    let pre = crate::transpile::indent(pl);
                    assert(rebuild(src, seq![crate::transpile::piece(pre, nl, off + s, off + e)]) == pre + c + nl);
                    lemma_emit_faithful(src, g, pre + c, 4 * pl, l.number, s, seq![crate::transpile::piece(pre, nl, off + s, off + e)]);
                } else {
                    let g1 = if occurs_at(c, 0, "case".spec_bytes()) && g.stack.len() > 0 && g.stack.last() == BlockKind::Case {
                        Gen { stack: g.stack.drop_last(), level: sat_dec(g.level), ..g }
                    } else {
                        g
                    };
                    let pre = crate::transpile::indent(g1.level);
                    assert(rebuild(src, seq![crate::transpile::piece(pre, nl, off + s, off + e)]) == pre + c + nl);
                    lemma_emit_faithful(src, g1, pre + c, 4 * g1.level, l.number, s, seq![crate::transpile::piece(pre, nl, off + s, off + e)]);
                }
            },
            LineType::End => {
                let g1 = crate::transpile::pop_cases(g);
                let g2 = if g1.stack.len() > 0 {
                    Gen { stack: g1.stack.drop_last(), level: sat_dec(g1.level), ..g1 }
                } else {
                    g1
                };
                let lv = at_least_one(g2.level);
                let line = crate::transpile::indent(lv) + "pass".spec_bytes();
                let p = crate::transpile::piece(line + nl, seq![], off, off);
                assert(rebuild(src, seq![p]) == line + nl);
                lemma_emit_faithful(src, Gen { level: lv, ..g2 }, line, 0, l.number, 0, seq![p]);
            },
            LineType::Html => {
                let lv = g.level;
                let pre = crate::transpile::indent(lv) + "t\"\"\"".spec_bytes();
                let p = crate::transpile::piece(pre, "\"\"\"".spec_bytes() + nl, off + s, off + e);
                let line = pre + c + "\"\"\"".spec_bytes();
                assert(rebuild(src, seq![p]) == line + nl);
                lemma_emit_faithful(src, g, line, 4 * lv + 4, l.number, s, seq![p]);
            },
            LineType::Python => {
                let pre = crate::transpile::indent(g.level);
                assert(rebuild(src, seq![crate::transpile::piece(pre, nl, off + s, off + e)]) == pre + c + nl);
                lemma_emit_faithful(src, g, pre + c, 4 * g.level, l.number, s, seq![crate::transpile::piece(pre, nl, off + s, off + e)]);
            },
        }
    }
}

proof fn lemma_body_faithful(src: Seq<u8>, g: Gen, ls: Seq<LineModel>, b: int, k: int)
    requires
        faithful(src, g),
        anchored(src, ls),
        0 <= b <= k <= ls.len(),
    ensures
        faithful(src, run_body(g, ls, b, k)),
    decreases k - b,
{
    if k > b {
        lemma_body_faithful(src, g, ls, b, k - 1);
        assert(ls[k - 1] == ls[k - 1]);
        lemma_step_faithful(src, run_body(g, ls, b, k - 1), ls[k - 1]);
    }
}

/// Concatenating the pieces in order, each as its prefix, the source bytes
/// `[start, end)` it names, and its suffix, gives the generated code exactly.
/// This holds when no carriage return precedes a line feed: offsets count one
/// byte per line ending.
pub proof fn lemma_pieces_rebuild_code(src: Seq<u8>)
    requires
        src.len() < usize::MAX / 8,
        no_crlf(src),
    ensures
        rebuild(src, pieces_of(src)) == code_of(src),
{
    let ls = lex_model(src);
    let lead = leading_end(ls, 0);
    let b = body_start_of(ls);
    lemma_anchored(src);
    crate::structure::lemma_body_start_bound(ls);
    lemma_leading_faithful(src, ls, lead);
    let g0 = run_leading(empty_gen(), ls, lead);
    lemma_header_faithful(src, g0, ls, lead, b, body_is_async(ls, b));
    lemma_body_faithful(src, body_entry(ls), ls, b, ls.len() as int);
}

/// A body step appends exactly one generated line and one mapping.
proof fn lemma_step_push(g: Gen, l: LineModel)
    ensures
        body_step(g, l).out.len() == g.out.len() + 1,
        body_step(g, l).out.drop_last() == g.out,
        body_step(g, l).maps.len() == g.maps.len() + 1,
        body_step(g, l).maps.drop_last() == g.maps,
{
    lemma_pop_cases_out(g);
    let g2 = body_step(g, l);
    assert(g2.out.drop_last() =~= g.out);
    assert(g2.maps.drop_last() =~= g.maps);
}

/// Later body lines only append: earlier generated lines and mappings stay.
proof fn lemma_body_prefix(g: Gen, ls: Seq<LineModel>, b: int, m: int, n: int)
    requires
        b <= m <= n,
    ensures
        run_body(g, ls, b, m).out.len() <= run_body(g, ls, b, n).out.len(),
        run_body(g, ls, b, m).maps.len() <= run_body(g, ls, b, n).maps.len(),
        forall|i: int|
            0 <= i < run_body(g, ls, b, m).out.len() ==> #[trigger] run_body(g, ls, b, n).out[i]
                == run_body(g, ls, b, m).out[i],
        forall|i: int|
            0 <= i < run_body(g, ls, b, m).maps.len() ==> #[trigger] run_body(g, ls, b, n).maps[i]
                == run_body(g, ls, b, m).maps[i],
    decreases n - m,
{
    if n > m {
        lemma_body_prefix(g, ls, b, m, n - 1);
        let gp = run_body(g, ls, b, n - 1);
        lemma_step_push(gp, ls[n - 1]);
        let gn = run_body(g, ls, b, n);
        assert forall|i: int| 0 <= i < run_body(g, ls, b, m).out.len() implies #[trigger] gn.out[i]
            == run_body(g, ls, b, m).out[i] by {
            assert(gn.out.drop_last()[i] == gn.out[i]);
        }
        assert forall|i: int| 0 <= i < run_body(g, ls, b, m).maps.len() implies #[trigger] gn.maps[i]
            == run_body(g, ls, b, m).maps[i] by {
            assert(gn.maps.drop_last()[i] == gn.maps[i]);
        }
    }
}

/// Index of the generated line of body line `k`.
pub open spec fn gen_index(ls: Seq<LineModel>, k: int) -> int {
    body_entry(ls).out.len() + (k - body_start_of(ls))
}

/// The generated line of an end marker is the placeholder `pass`, indented to the
/// level left once the marker has closed its block (see `lemma_end_closes_block`).
pub proof fn lemma_end_line_text(src: Seq<u8>, k: int)
    requires
        src.len() < usize::MAX / 8,
        body_start_of(lex_model(src)) <= k < lex_model(src).len(),
        lex_model(src)[k].kind == LineType::End,
    ensures
        crate::transpile::generate(lex_model(src)).out[gen_index(lex_model(src), k)]
            == crate::transpile::indent(level_after(src, k)) + "pass".spec_bytes(),
        level_after(src, k) <= at_least_one(level_before(src, k) - 1),
{
    lemma_end_closes_block(src, k);
    let ls = lex_model(src);
    let b = body_start_of(ls);
    lemma_lex_len(src);
    lemma_entry(ls);
    crate::structure::lemma_body_start_bound(ls);
    lemma_run_body(body_entry(ls), ls, b, k);
    let g = run_body(body_entry(ls), ls, b, k);
    assert(ls[k] == crate::lexer::model_at(src, line_spans(src), k));
    assert(is_end_line(ls[k].text));
    lemma_end_line_nonblank(ls[k].text);
    lemma_step_push(g, ls[k]);
    assert(run_body(body_entry(ls), ls, b, k + 1) == body_step(g, ls[k]));
    lemma_body_prefix(body_entry(ls), ls, b, k + 1, ls.len() as int);
    let gk = run_body(body_entry(ls), ls, b, k + 1);
    assert(gk.out[g.out.len() as int] == gk.out.last());
}

/// A non-blank control header whose content starts with `case`.
pub open spec fn is_case_header(l: LineModel) -> bool {
    l.kind == LineType::Control && bounds_of(l.text).0 < bounds_of(l.text).1 && occurs_at(
        crate::transpile::content(l.text),
        0,
        "case".spec_bytes(),
    )
}

/// A blank, statement or markup line: it opens and closes no block.
pub open spec fn keeps_nesting(l: LineModel) -> bool {
    bounds_of(l.text).0 >= bounds_of(l.text).1 || l.kind == LineType::Python || l.kind
        == LineType::Html
}

proof fn lemma_case_not_dedent(c: Seq<u8>)
    requires
        occurs_at(c, 0, "case".spec_bytes()),
    ensures
        !crate::transpile::is_dedent(c),
{
    reveal_strlit("case");
    reveal_strlit("else");
    reveal_strlit("elif");
    reveal_strlit("except");
    reveal_strlit("finally");
    assert(is_ascii_chars("case"@));
    assert(is_ascii_chars("else"@));
    assert(is_ascii_chars("elif"@));
    assert(is_ascii_chars("except"@));
    assert(is_ascii_chars("finally"@));
    assert(c.subrange(0, 4)[0] == c[0]);
    assert("case".spec_bytes()[0] == 0x63u8);
    assert("else".spec_bytes()[0] == 0x65u8);
    assert("elif".spec_bytes()[0] == 0x65u8);
    assert("except".spec_bytes()[0] == 0x65u8);
    assert("finally".spec_bytes()[0] == 0x66u8);
    if occurs_at(c, 0, "else".spec_bytes()) {
        assert(c.subrange(0, 4)[0] == c[0]);
    }
    if occurs_at(c, 0, "elif".spec_bytes()) {
        assert(c.subrange(0, 4)[0] == c[0]);
    }
    if occurs_at(c, 0, "except".spec_bytes()) {
        assert(c.subrange(0, 6)[0] == c[0]);
    }
    if occurs_at(c, 0, "finally".spec_bytes()) {
        assert(c.subrange(0, 7)[0] == c[0]);
    }
}

proof fn lemma_keeps_nesting(g: Gen, ls: Seq<LineModel>, b: int, i: int, m: int)
    requires
        b <= i < m,
        forall|x: int| i < x < m ==> keeps_nesting(#[trigger] ls[x]),
    ensures
        run_body(g, ls, b, m).level == run_body(g, ls, b, i + 1).level,
        run_body(g, ls, b, m).stack == run_body(g, ls, b, i + 1).stack,
    decreases m - i,
{
    if m > i + 1 {
        lemma_keeps_nesting(g, ls, b, i, m - 1);
        assert(keeps_nesting(ls[m - 1]));
    }
}

/// A `case` header that follows another `case` header, with only blank, statement
/// or markup lines between them, closes the first clause instead of nesting in it:
/// both generated lines carry the same indentation and the same mapped column.
pub proof fn lemma_consecutive_cases(src: Seq<u8>, i: int, j: int)
    requires
        src.len() < usize::MAX / 8,
        body_start_of(lex_model(src)) <= i < j < lex_model(src).len(),
        is_case_header(lex_model(src)[i]),
        is_case_header(lex_model(src)[j]),
        forall|x: int| i < x < j ==> keeps_nesting(#[trigger] lex_model(src)[x]),
    ensures
        mappings_of(src)[gen_index(lex_model(src), i)].gen_col == mappings_of(src)[gen_index(
            lex_model(src),
            j,
        )].gen_col,
        exists|lv: int|
            crate::transpile::generate(lex_model(src)).out[gen_index(lex_model(src), i)]
                == crate::transpile::indent(lv) + crate::transpile::content(lex_model(src)[i].text)
                && crate::transpile::generate(lex_model(src)).out[gen_index(lex_model(src), j)]
                == crate::transpile::indent(lv) + crate::transpile::content(lex_model(src)[j].text),
{
    let ls = lex_model(src);
    let b = body_start_of(ls);
    let e = body_entry(ls);
    let n = ls.len() as int;
    lemma_lex_len(src);
    lemma_entry(ls);
    crate::structure::lemma_body_start_bound(ls);
    lemma_run_body(e, ls, b, i);
    lemma_run_body(e, ls, b, j);
    let gi = run_body(e, ls, b, i);
    let gj = run_body(e, ls, b, j);
    let ci = crate::transpile::content(ls[i].text);
    let cj = crate::transpile::content(ls[j].text);
    lemma_case_not_dedent(ci);
    lemma_case_not_dedent(cj);
    let g1 = if gi.stack.len() > 0 && gi.stack.last() == BlockKind::Case {
        Gen { stack: gi.stack.drop_last(), level: sat_dec(gi.level), ..gi }
    } else {
        gi
    };
    assert(run_body(e, ls, b, i + 1) == body_step(gi, ls[i]));
    lemma_step_push(gi, ls[i]);
    assert(body_step(gi, ls[i]).level == g1.level + 1);
    assert(body_step(gi, ls[i]).stack == g1.stack.push(BlockKind::Case));
    lemma_keeps_nesting(e, ls, b, i, j);
    assert(gj.stack.last() == BlockKind::Case);
    assert(run_body(e, ls, b, j + 1) == body_step(gj, ls[j]));
    lemma_step_push(gj, ls[j]);
    lemma_body_prefix(e, ls, b, i + 1, n);
    lemma_body_prefix(e, ls, b, j + 1, n);
    let hi = run_body(e, ls, b, i + 1);
    let hj = run_body(e, ls, b, j + 1);
    assert(hi.out[gi.out.len() as int] == hi.out.last());
    assert(hj.out[gj.out.len() as int] == hj.out.last());
    assert(hi.maps[gi.maps.len() as int] == hi.maps.last());
    assert(hj.maps[gj.maps.len() as int] == hj.maps.last());
    assert(hi.out.last() == crate::transpile::indent(g1.level) + ci);
    assert(hj.out.last() == crate::transpile::indent(g1.level) + cj);
}

} // verus!
