//! Code generation: the function header, the indented body, the line/column
//! source map and the optional injection pieces.
use vstd::prelude::*;
use vstd::slice::slice_subrange;
use vstd::string::*;
use vstd::utf8::*;

use crate::lexer::{lex, lex_model, offsets_fit, Line, LineModel, LineType};
use crate::structure::{
    any_async_header, any_awaits, body_start_of, bounds_of, content_bounds, find_structure,
    has_async_construct, has_await, leading_end, models,
};
use crate::text::{has_lit_at, lemma_skip_blanks, lemma_strip_eol, occurs_at, substr, trim_bounds, trimmed};

verus! {

broadcast use vstd::utf8::group_utf8_lib;

/// Where one generated line comes from.
#[derive(Debug, Clone, Copy, PartialEq, Eq, Structural)]
pub struct SourceMapping {
    pub gen_line: usize,
    pub gen_col: usize,
    pub src_line: usize,
    pub src_col: usize,
}

/// Python injection piece: a source range wrapped in a literal prefix and suffix.
#[derive(Debug, Clone)]
pub struct PythonPiece {
    pub prefix: String,
    pub suffix: String,
    pub src_start: usize,
    pub src_end: usize,
}

/// The generated code, its source map, and the injection pieces when asked for.
#[derive(Debug, Clone)]
pub struct TranspileResult {
    pub python_code: String,
    pub source_mappings: Vec<SourceMapping>,
    pub python_pieces: Option<Vec<PythonPiece>>,
}

/// A piece as bytes and offsets.
pub struct PieceModel {
    pub prefix: Seq<u8>,
    pub suffix: Seq<u8>,
    pub start: int,
    pub end: int,
}

impl PythonPiece {
    pub open spec fn model(self) -> PieceModel {
        PieceModel {
            prefix: encode_utf8(self.prefix@),
            suffix: encode_utf8(self.suffix@),
            start: self.src_start as int,
            end: self.src_end as int,
        }
    }
}

pub open spec fn piece_models(ps: Seq<PythonPiece>) -> Seq<PieceModel> {
    ps.map_values(|p: PythonPiece| p.model())
}

/// The kind of an open block.
#[derive(Debug, Clone, Copy, PartialEq, Eq, Structural)]
pub enum BlockKind {
    Match,
    Case,
    Block,
}

/// The state of generation: lines so far, their mappings, the pieces, the
/// nesting level and the stack of open blocks.
pub struct Gen {
    pub out: Seq<Seq<u8>>,
    pub maps: Seq<SourceMapping>,
    pub pieces: Seq<PieceModel>,
    pub level: int,
    pub stack: Seq<BlockKind>,
}

pub open spec fn nl() -> Seq<u8> {
    "\n".spec_bytes()
}

/// `n` indentation units of four spaces.
pub open spec fn indent(n: int) -> Seq<u8>
    decreases n,
{
    if n <= 0 {
        seq![]
    } else {
        indent(n - 1) + "    ".spec_bytes()
    }
}

pub open spec fn sat_dec(n: int) -> int {
    if n > 0 {
        n - 1
    } else {
        0
    }
}

pub open spec fn at_least_one(n: int) -> int {
    if n < 1 {
        1
    } else {
        n
    }
}

pub open spec fn piece(prefix: Seq<u8>, suffix: Seq<u8>, start: int, end: int) -> PieceModel {
    PieceModel { prefix, suffix, start, end }
}

pub open spec fn mapping(gen_line: int, gen_col: int, src_line: int, src_col: int) -> SourceMapping {
    SourceMapping {
        gen_line: gen_line as usize,
        gen_col: gen_col as usize,
        src_line: src_line as usize,
        src_col: src_col as usize,
    }
}

/// Appends one generated line with its mapping and its pieces.
pub open spec fn emit(
    g: Gen,
    line: Seq<u8>,
    gen_col: int,
    src_line: int,
    src_col: int,
    ps: Seq<PieceModel>,
) -> Gen {
    Gen {
        out: g.out.push(line),
        maps: g.maps.push(mapping(g.out.len() as int, gen_col, src_line, src_col)),
        pieces: g.pieces + ps,
        level: g.level,
        stack: g.stack,
    }
}

/// A line's content between its bounds.
pub open spec fn content(t: Seq<u8>) -> Seq<u8> {
    t.subrange(bounds_of(t).0, bounds_of(t).1)
}

/// A leading blank or comment line is copied as it stands.
pub open spec fn lead_step(g: Gen, l: LineModel) -> Gen {
    let (s, e) = bounds_of(l.text);
    if trimmed(l.text).len() != 0 {
        emit(g, content(l.text), 0, l.number, s, seq![piece(seq![], nl(), l.offset + s, l.offset + e)])
    } else {
        emit(g, seq![], 0, l.number, 0, seq![piece(seq![], nl(), l.offset, l.offset)])
    }
}

pub open spec fn run_leading(g: Gen, ls: Seq<LineModel>, k: int) -> Gen
    decreases k,
{
    if k <= 0 {
        g
    } else {
        lead_step(run_leading(g, ls, k - 1), ls[k - 1])
    }
}

pub open spec fn def_kw(is_async: bool) -> Seq<u8> {
    if is_async {
        "async def".spec_bytes()
    } else {
        "def".spec_bytes()
    }
}

pub open spec fn fn_open() -> Seq<u8> {
    " __hyper_template__(".spec_bytes()
}

/// The parameters' contents joined with `", "`.
pub open spec fn params_text(ps: Seq<LineModel>) -> Seq<u8>
    decreases ps.len(),
{
    if ps.len() == 0 {
        seq![]
    } else if ps.len() == 1 {
        content(ps[0].text)
    } else {
        params_text(ps.drop_last()) + ", ".spec_bytes() + content(ps.last().text)
    }
}

pub open spec fn param_piece(ps: Seq<LineModel>, is_async: bool, i: int) -> PieceModel {
    let (s, e) = bounds_of(ps[i].text);
    piece(
        if i == 0 {
            def_kw(is_async) + fn_open()
        } else {
            ", ".spec_bytes()
        },
        if i == ps.len() - 1 {
            "):".spec_bytes() + nl()
        } else {
            seq![]
        },
        ps[i].offset + s,
        ps[i].offset + e,
    )
}

/// The function header, with the parameters `ls[lead..body]`.
pub open spec fn header(g: Gen, ls: Seq<LineModel>, lead: int, body: int, is_async: bool) -> Gen {
    let ps = ls.subrange(lead, body);
    if ps.len() > 0 {
        emit(
            g,
            def_kw(is_async) + fn_open() + params_text(ps) + "):".spec_bytes(),
            (def_kw(is_async).len() + fn_open().len()) as int,
            ps[0].number,
            bounds_of(ps[0].text).0,
            Seq::new(ps.len(), |i: int| param_piece(ps, is_async, i)),
        )
    } else {
        let off = if body < ls.len() {
            ls[body].offset
        } else if ls.len() > 0 {
            ls.last().offset
        } else {
            0
        };
        let src_line = if ls.len() == 0 {
            0
        } else if body < ls.len() - 1 {
            body
        } else {
            ls.len() - 1
        };
        emit(
            g,
            def_kw(is_async) + " __hyper_template__():".spec_bytes(),
            0,
            src_line,
            0,
            seq![piece(def_kw(is_async) + " __hyper_template__():".spec_bytes() + nl(), seq![], off, off)],
        )
    }
}

/// Header keywords that re-open a sibling clause of the enclosing block.
pub open spec fn is_dedent(c: Seq<u8>) -> bool {
    occurs_at(c, 0, "else".spec_bytes()) || occurs_at(c, 0, "elif".spec_bytes()) || occurs_at(
        c,
        0,
        "except".spec_bytes(),
    ) || occurs_at(c, 0, "finally".spec_bytes())
}

/// Closes every open `case` clause on top of the stack.
pub open spec fn pop_cases(g: Gen) -> Gen
    decreases g.stack.len(),
{
    if g.stack.len() > 0 && g.stack.last() == BlockKind::Case {
        pop_cases(Gen { stack: g.stack.drop_last(), level: sat_dec(g.level), ..g })
    } else {
        g
    }
}

/// Emits a control header at the current level and opens a block of kind `k`.
pub open spec fn open_block(g: Gen, c: Seq<u8>, l: LineModel, s: int, e: int, k: BlockKind) -> Gen {
    let g2 = emit(
        g,
        indent(g.level) + c,
        4 * g.level,
        l.number,
        s,
        seq![piece(indent(g.level), nl(), l.offset + s, l.offset + e)],
    );
    Gen { stack: g2.stack.push(k), level: g2.level + 1, ..g2 }
}

/// One body line.
pub open spec fn body_step(g: Gen, l: LineModel) -> Gen {
    let (s, e) = bounds_of(l.text);
    if s >= e {
        emit(g, seq![], 0, l.number, 0, seq![piece(seq![], nl(), l.offset, l.offset)])
    } else {
        let c = l.text.subrange(s, e);
        match l.kind {
            LineType::Control => {
                if is_dedent(c) {
                    let pl = at_least_one(sat_dec(g.level));
                    emit(
                        g,
                        indent(pl) + c,
                        4 * pl,
                        l.number,
                        s,
                        seq![piece(indent(pl), nl(), l.offset + s, l.offset + e)],
                    )
                } else if occurs_at(c, 0, "case".spec_bytes()) {
                    let g1 = if g.stack.len() > 0 && g.stack.last() == BlockKind::Case {
                        Gen { stack: g.stack.drop_last(), level: sat_dec(g.level), ..g }
                    } else {
                        g
                    };
                    open_block(g1, c, l, s, e, BlockKind::Case)
                } else if occurs_at(c, 0, "match".spec_bytes()) {
                    open_block(g, c, l, s, e, BlockKind::Match)
                } else {
                    open_block(g, c, l, s, e, BlockKind::Block)
                }
            },
            LineType::End => {
                let g1 = pop_cases(g);
                let g2 = if g1.stack.len() > 0 {
                    Gen { stack: g1.stack.drop_last(), level: sat_dec(g1.level), ..g1 }
                } else {
                    g1
                };
                let lv = at_least_one(g2.level);
                emit(
                    Gen { level: lv, ..g2 },
                    indent(lv) + "pass".spec_bytes(),
                    4 * lv,
                    l.number,
                    s,
                    seq![piece(indent(lv) + "pass".spec_bytes() + nl(), seq![], l.offset, l.offset)],
                )
            },
            LineType::Html => emit(
                g,
                indent(g.level) + "t\"\"\"".spec_bytes() + c + "\"\"\"".spec_bytes(),
                4 * g.level + 4,
                l.number,
                s,
                seq![
                    piece(
                        indent(g.level) + "t\"\"\"".spec_bytes(),
                        "\"\"\"".spec_bytes() + nl(),
                        l.offset + s,
                        l.offset + e,
                    ),
                ],
            ),
            LineType::Python => emit(
                g,
                indent(g.level) + c,
                4 * g.level,
                l.number,
                s,
                seq![piece(indent(g.level), nl(), l.offset + s, l.offset + e)],
            ),
        }
    }
}

/// The state after the body lines `ls[b..k]`.
pub open spec fn run_body(g: Gen, ls: Seq<LineModel>, b: int, k: int) -> Gen
    decreases k - b,
{
    if k <= b {
        g
    } else {
        body_step(run_body(g, ls, b, k - 1), ls[k - 1])
    }
}

pub open spec fn empty_gen() -> Gen {
    Gen { out: seq![], maps: seq![], pieces: seq![], level: 1, stack: seq![] }
}

/// The body needs an asynchronous function.
pub open spec fn body_is_async(ls: Seq<LineModel>, b: int) -> bool {
    any_awaits(ls.subrange(b, ls.len() as int)) || any_async_header(
        ls.subrange(b, ls.len() as int),
    )
}

/// The whole generation over the classified lines `ls`.
pub open spec fn generate(ls: Seq<LineModel>) -> Gen {
    let lead = leading_end(ls, 0);
    let b = body_start_of(ls);
    let g0 = run_leading(empty_gen(), ls, lead);
    let g1 = header(g0, ls, lead, b, body_is_async(ls, b));
    run_body(g1, ls, b, ls.len() as int)
}

/// Each line followed by a line feed.
pub open spec fn lines_nl(out: Seq<Seq<u8>>) -> Seq<u8>
    decreases out.len(),
{
    if out.len() == 0 {
        seq![]
    } else {
        lines_nl(out.drop_last()) + out.last() + nl()
    }
}

/// The generated code for the source bytes `src`: every generated line, each
/// followed by a line feed.
pub open spec fn code_of(src: Seq<u8>) -> Seq<u8> {
    lines_nl(generate(lex_model(src)).out)
}

/// The source map for the source bytes `src`.
pub open spec fn mappings_of(src: Seq<u8>) -> Seq<SourceMapping> {
    generate(lex_model(src)).maps
}

/// The injection pieces for the source bytes `src`.
pub open spec fn pieces_of(src: Seq<u8>) -> Seq<PieceModel> {
    generate(lex_model(src)).pieces
}

proof fn lemma_encode_concat(a: Seq<char>, b: Seq<char>)
    ensures
        encode_utf8(a + b) == encode_utf8(a) + encode_utf8(b),
    decreases a.len(),
{
    if a.len() == 0 {
        assert(a + b =~= b);
        assert(encode_utf8(a) =~= seq![]);
        assert(encode_utf8(a) + encode_utf8(b) =~= encode_utf8(b));
    } else {
        lemma_encode_concat(a.drop_first(), b);
        assert((a + b).drop_first() =~= a.drop_first() + b);
        assert((a + b)[0] == a[0]);
        assert(encode_utf8(a + b) =~= encode_utf8(a) + encode_utf8(b));
    }
}

/// Appends `x` to `s`.
fn cat(s: &mut String, x: &str)
    ensures
        encode_utf8(final(s)@) == encode_utf8(old(s)@) + x.spec_bytes(),
{
    let ghost before = s@;
    s.append(x);
    proof {
        lemma_encode_concat(before, x@);
    }
}

fn empty_string() -> (r: String)
    ensures
        encode_utf8(r@) == Seq::<u8>::empty(),
{
    let r = String::new();
    assert(r@ =~= Seq::<char>::empty());
    r
}

/// `level` indentation units.
fn indent_string(level: usize) -> (r: String)
    ensures
        encode_utf8(r@) == indent(level as int),
{
    let mut r = empty_string();
    let mut k: usize = 0;
    while k < level
        invariant
            k <= level,
            encode_utf8(r@) == indent(k as int),
        decreases level - k,
    {
        cat(&mut r, "    ");
        k = k + 1;
    }
    r
}

/// Accumulates the generated text, the mappings and the pieces.
struct Emitter {
    code: String,
    maps: Vec<SourceMapping>,
    pieces: Vec<PythonPiece>,
    with_pieces: bool,
    out: Ghost<Seq<Seq<u8>>>,
}

impl Emitter {
    /// The emitter holds the lines, mappings and pieces of `g`.
    spec fn holds(&self, g: Gen) -> bool {
        &&& encode_utf8(self.code@) == lines_nl(g.out)
        &&& self.out@ == g.out
        &&& self.maps@ == g.maps
        &&& g.maps.len() == g.out.len()
        &&& (self.with_pieces ==> piece_models(self.pieces@) == g.pieces)
        &&& (!self.with_pieces ==> self.pieces@.len() == 0)
    }

    fn new(with_pieces: bool) -> (r: Emitter)
        ensures
            r.holds(empty_gen()),
            r.with_pieces == with_pieces,
    {
        let r = Emitter {
            code: empty_string(),
            maps: Vec::new(),
            pieces: Vec::new(),
            with_pieces,
            out: Ghost(Seq::empty()),
        };
        proof {
            assert(piece_models(r.pieces@) =~= seq![]);
        }
        r
    }

    /// Appends a line and its mapping.
    fn line(&mut self, Ghost(g): Ghost<Gen>, line: &str, gen_col: usize, src_line: usize, src_col: usize)
        requires
            old(self).holds(g),
            g.out.len() < usize::MAX,
        ensures
            final(self).holds(
                emit(g, line.spec_bytes(), gen_col as int, src_line as int, src_col as int, seq![]),
            ),
            final(self).with_pieces == old(self).with_pieces,
    {
        proof {
            assert(g.out.push(line.spec_bytes()).drop_last() =~= g.out);
        }
        cat(&mut self.code, line);
        cat(&mut self.code, "\n");
        let gen_line = self.maps.len();
        self.maps.push(SourceMapping { gen_line, gen_col, src_line, src_col });
        self.out = Ghost(self.out@.push(line.spec_bytes()));
        proof {
            let g2 = emit(g, line.spec_bytes(), gen_col as int, src_line as int, src_col as int, seq![]);
            assert(g2.pieces =~= g.pieces);
            assert(self.maps@ =~= g2.maps);
        }
    }

    /// Records a piece, when pieces are kept.
    fn piece(&mut self, Ghost(g): Ghost<Gen>, prefix: String, suffix: String, src_start: usize, src_end: usize)
        requires
            old(self).holds(g),
        ensures
            final(self).holds(
                Gen {
                    pieces: g.pieces.push(
                        piece(encode_utf8(prefix@), encode_utf8(suffix@), src_start as int, src_end as int),
                    ),
                    ..g
                },
            ),
            final(self).with_pieces == old(self).with_pieces,
    {
        if self.with_pieces {
            let ghost before = self.pieces@;
            let p = PythonPiece { prefix, suffix, src_start, src_end };
            self.pieces.push(p);
            proof {
                assert(piece_models(self.pieces@) =~= piece_models(before).push(p.model()));
            }
        }
    }

    /// Appends a line, its mapping and one piece.
    fn line_with_piece(
        &mut self,
        Ghost(g): Ghost<Gen>,
        line: &str,
        gen_col: usize,
        src_line: usize,
        src_col: usize,
        prefix: String,
        suffix: String,
        src_start: usize,
        src_end: usize,
    )
        requires
            old(self).holds(g),
            g.out.len() < usize::MAX,
        ensures
            final(self).holds(
                emit(
                    g,
                    line.spec_bytes(),
                    gen_col as int,
                    src_line as int,
                    src_col as int,
                    seq![piece(encode_utf8(prefix@), encode_utf8(suffix@), src_start as int, src_end as int)],
                ),
            ),
            final(self).with_pieces == old(self).with_pieces,
    {
        let ghost g1 = emit(g, line.spec_bytes(), gen_col as int, src_line as int, src_col as int, seq![]);
        self.line(Ghost(g), line, gen_col, src_line, src_col);
        let ghost pm = piece(encode_utf8(prefix@), encode_utf8(suffix@), src_start as int, src_end as int);
        self.piece(Ghost(g1), prefix, suffix, src_start, src_end);
        proof {
            let g2 = emit(g, line.spec_bytes(), gen_col as int, src_line as int, src_col as int, seq![pm]);
            assert(g1.pieces.push(pm) =~= g2.pieces);
            assert(Gen { pieces: g1.pieces.push(pm), ..g1 } == g2);
        }
    }
}

fn owned(x: &str) -> (r: String)
    ensures
        encode_utf8(r@) == x.spec_bytes(),
{
    x.to_owned()
}

/// A line's content between its bounds.
fn content_str(text: &str, s: usize, e: usize) -> (r: &str)
    requires
        (s as int, e as int) == bounds_of(text.spec_bytes()),
        s <= e,
    ensures
        r.spec_bytes() == text.spec_bytes().subrange(s as int, e as int),
{
    proof {
        lemma_skip_blanks(text.spec_bytes(), 0);
        lemma_strip_eol(text.spec_bytes(), text.spec_bytes().len() as int);
    }
    substr(text, s, e)
}

/// Emits a leading blank or comment line.
fn lead_line(em: &mut Emitter, Ghost(g): Ghost<Gen>, line: &Line)
    requires
        old(em).holds(g),
        g.out.len() < usize::MAX,
        line.byte_offset + line.model().text.len() <= usize::MAX,
    ensures
        final(em).holds(lead_step(g, line.model())),
        final(em).with_pieces == old(em).with_pieces,
{
    let text = line.text.as_str();
    let (s, e) = content_bounds(text);
    let (ts, te) = trim_bounds(text.as_bytes());
    let off = line.byte_offset;
    let ghost l = line.model();
    proof {
        assert(trimmed(l.text).len() == te - ts);
    }
    if ts != te {
        let c = content_str(text, s, e);
        em.line_with_piece(Ghost(g), c, 0, line.line_number, s, empty_string(), owned("\n"), off + s, off + e);
    } else {
        let c = empty_string();
        em.line_with_piece(Ghost(g), c.as_str(), 0, line.line_number, 0, empty_string(), owned("\n"), off, off);
    }
}

/// Emits a control header at `level` and opens a block of kind `k`.
fn open_block_line(
    em: &mut Emitter,
    level: &mut usize,
    stack: &mut Vec<BlockKind>,
    Ghost(g): Ghost<Gen>,
    Ghost(l): Ghost<LineModel>,
    c: &str,
    num: usize,
    off: usize,
    s: usize,
    e: usize,
    k: BlockKind,
)
    requires
        old(em).holds(g),
        g.out.len() < usize::MAX,
        *old(level) as int == g.level,
        old(stack)@ == g.stack,
        g.level < usize::MAX / 8,
        l.number == num as int,
        l.offset == off as int,
        off + e <= usize::MAX,
        s <= e,
    ensures
        final(em).holds(open_block(g, c.spec_bytes(), l, s as int, e as int, k)),
        *final(level) as int == open_block(g, c.spec_bytes(), l, s as int, e as int, k).level,
        final(stack)@ == open_block(g, c.spec_bytes(), l, s as int, e as int, k).stack,
        final(em).with_pieces == old(em).with_pieces,
{
    let lv = *level;
    let mut ln = indent_string(lv);
    cat(&mut ln, c);
    em.line_with_piece(Ghost(g), ln.as_str(), 4 * lv, num, s, indent_string(lv), owned("\n"), off + s, off + e);
    stack.push(k);
    *level = lv + 1;
}

/// Emits one body line and updates the nesting.
fn body_line(em: &mut Emitter, level: &mut usize, stack: &mut Vec<BlockKind>, Ghost(g): Ghost<Gen>, line: &Line)
    requires
        old(em).holds(g),
        g.out.len() < usize::MAX,
        *old(level) as int == g.level,
        old(stack)@ == g.stack,
        g.level < usize::MAX / 8,
        line.byte_offset + line.model().text.len() <= usize::MAX,
    ensures
        final(em).holds(body_step(g, line.model())),
        *final(level) as int == body_step(g, line.model()).level,
        final(stack)@ == body_step(g, line.model()).stack,
        *final(level) <= *old(level) + 1,
        final(em).with_pieces == old(em).with_pieces,
{
    let ghost l = line.model();
    let text = line.text.as_str();
    let (s, e) = content_bounds(text);
    let off = line.byte_offset;
    let num = line.line_number;
    if s >= e {
        let c = empty_string();
        em.line_with_piece(Ghost(g), c.as_str(), 0, num, 0, empty_string(), owned("\n"), off, off);
        return;
    }
    let c = content_str(text, s, e);
    let cb = c.as_bytes();
    assert(cb@ == l.text.subrange(s as int, e as int));
    match line.line_type {
        LineType::Control => {
            if has_lit_at(cb, 0, "else") || has_lit_at(cb, 0, "elif") || has_lit_at(cb, 0, "except")
                || has_lit_at(cb, 0, "finally") {
                let pl = if *level > 1 {
                    *level - 1
                } else {
                    1
                };
                let mut ln = indent_string(pl);
                cat(&mut ln, c);
                em.line_with_piece(Ghost(g), ln.as_str(), 4 * pl, num, s, indent_string(pl), owned("\n"), off + s, off + e);
            } else if has_lit_at(cb, 0, "case") {
                if stack.len() > 0 && stack[stack.len() - 1] == BlockKind::Case {
                    stack.pop();
                    *level = if *level > 0 {
                        *level - 1
                    } else {
                        0
                    };
                }
                let ghost g1 = Gen { level: *level as int, stack: stack@, ..g };
                open_block_line(em, level, stack, Ghost(g1), Ghost(l), c, num, off, s, e, BlockKind::Case);
            } else if has_lit_at(cb, 0, "match") {
                open_block_line(em, level, stack, Ghost(g), Ghost(l), c, num, off, s, e, BlockKind::Match);
            } else {
                open_block_line(em, level, stack, Ghost(g), Ghost(l), c, num, off, s, e, BlockKind::Block);
            }
        },
        LineType::End => {
            let ghost lv0 = *level;
            while stack.len() > 0 && stack[stack.len() - 1] == BlockKind::Case
                invariant
                    pop_cases(Gen { level: *level as int, stack: stack@, ..g }) == pop_cases(g),
                    *level <= lv0,
                decreases stack@.len(),
            {
                let ghost before = Gen { level: *level as int, stack: stack@, ..g };
                stack.pop();
                *level = if *level > 0 {
                    *level - 1
                } else {
                    0
                };
                proof {
                    assert(Gen { level: *level as int, stack: stack@, ..g } == Gen {
                        stack: before.stack.drop_last(),
                        level: sat_dec(before.level),
                        ..before
                    });
                }
            }
            if stack.len() > 0 {
                stack.pop();
                *level = if *level > 0 {
                    *level - 1
                } else {
                    0
                };
            }
            if *level < 1 {
                *level = 1;
            }
            let ghost g3 = Gen { level: *level as int, stack: stack@, ..g };
            let mut ln = indent_string(*level);
            cat(&mut ln, "pass");
            let mut pre = indent_string(*level);
            cat(&mut pre, "pass");
            cat(&mut pre, "\n");
            em.line_with_piece(Ghost(g3), ln.as_str(), 4 * *level, num, s, pre, empty_string(), off, off);
        },
        LineType::Html => {
            let lv = *level;
            let mut ln = indent_string(lv);
            cat(&mut ln, "t\"\"\"");
            cat(&mut ln, c);
            cat(&mut ln, "\"\"\"");
            let mut pre = indent_string(lv);
            cat(&mut pre, "t\"\"\"");
            let mut suf = owned("\"\"\"");
            cat(&mut suf, "\n");
            em.line_with_piece(Ghost(g), ln.as_str(), 4 * lv + 4, num, s, pre, suf, off + s, off + e);
        },
        LineType::Python => {
            let lv = *level;
            let mut ln = indent_string(lv);
            cat(&mut ln, c);
            em.line_with_piece(Ghost(g), ln.as_str(), 4 * lv, num, s, indent_string(lv), owned("\n"), off + s, off + e);
        },
    }
}

/// Closing `case` clauses touches neither the lines, nor the mappings, nor the pieces,
/// and keeps the level one above the depth of the stack.
pub proof fn lemma_pop_cases_out(g: Gen)
    ensures
        pop_cases(g).out == g.out,
        pop_cases(g).maps == g.maps,
        pop_cases(g).pieces == g.pieces,
        pop_cases(g).stack.len() <= g.stack.len(),
        g.level == g.stack.len() + 1 ==> pop_cases(g).level == pop_cases(g).stack.len() + 1,
    decreases g.stack.len(),
{
    if g.stack.len() > 0 && g.stack.last() == BlockKind::Case {
        lemma_pop_cases_out(Gen { stack: g.stack.drop_last(), level: sat_dec(g.level), ..g });
    }
}

/// Each body line gives exactly one generated line.
proof fn lemma_body_step_len(g: Gen, l: LineModel)
    ensures
        body_step(g, l).out.len() == g.out.len() + 1,
{
    lemma_pop_cases_out(g);
}

/// Emits the leading lines `lines[..lead]`.
fn emit_leading(em: &mut Emitter, lines: &[Line], lead: usize)
    requires
        old(em).holds(empty_gen()),
        lead <= lines@.len(),
        offsets_fit(lines@, usize::MAX as int),
    ensures
        final(em).holds(run_leading(empty_gen(), models(lines@), lead as int)),
        final(em).with_pieces == old(em).with_pieces,
        run_leading(empty_gen(), models(lines@), lead as int).out.len() == lead,
        run_leading(empty_gen(), models(lines@), lead as int).level == 1,
        run_leading(empty_gen(), models(lines@), lead as int).stack == Seq::<BlockKind>::empty(),
{
    let ghost ls = models(lines@);
    let mut i: usize = 0;
    while i < lead
        invariant
            i <= lead <= lines@.len(),
            ls == models(lines@),
            offsets_fit(lines@, usize::MAX as int),
            em.holds(run_leading(empty_gen(), ls, i as int)),
            em.with_pieces == old(em).with_pieces,
            run_leading(empty_gen(), ls, i as int).out.len() == i,
            run_leading(empty_gen(), ls, i as int).level == 1,
            run_leading(empty_gen(), ls, i as int).stack == Seq::<BlockKind>::empty(),
        decreases lead - i,
    {
        assert(ls[i as int] == lines@[i as int].model());
        assert(lines@[i as int].model().offset + lines@[i as int].model().text.len() <= usize::MAX);
        lead_line(em, Ghost(run_leading(empty_gen(), ls, i as int)), &lines[i]);
        i = i + 1;
    }
}

proof fn lemma_header_lens()
    ensures
        "async def".spec_bytes().len() == 9,
        "def".spec_bytes().len() == 3,
        " __hyper_template__(".spec_bytes().len() == 20,
{
    reveal_strlit("async def");
    reveal_strlit("def");
    reveal_strlit(" __hyper_template__(");
    assert(is_ascii_chars("async def"@));
    assert(is_ascii_chars("def"@));
    assert(is_ascii_chars(" __hyper_template__("@));
}

fn def_keyword(is_async: bool) -> (r: &'static str)
    ensures
        r.spec_bytes() == def_kw(is_async),
        r.spec_bytes().len() <= 9,
{
    proof {
        lemma_header_lens();
    }
    if is_async {
        "async def"
    } else {
        "def"
    }
}

/// The header line with the parameters `lines[lead..body_start]`.
fn header_text(lines: &[Line], lead: usize, body_start: usize, is_async: bool) -> (r: String)
    requires
        lead <= body_start <= lines@.len(),
    ensures
        encode_utf8(r@) == def_kw(is_async) + fn_open() + params_text(
            models(lines@).subrange(lead as int, body_start as int),
        ) + "):".spec_bytes(),
{
    let ghost ls = models(lines@);
    let ghost ps = ls.subrange(lead as int, body_start as int);
    let np = body_start - lead;
    let mut ln = owned(def_keyword(is_async));
    cat(&mut ln, " __hyper_template__(");
    let mut k: usize = 0;
    while k < np
        invariant
            k <= np,
            np == body_start - lead,
            body_start <= lines@.len(),
            ls == models(lines@),
            ps == ls.subrange(lead as int, body_start as int),
            encode_utf8(ln@) == def_kw(is_async) + fn_open() + params_text(ps.subrange(0, k as int)),
        decreases np - k,
    {
        let line = &lines[lead + k];
        assert(ls[(lead + k) as int] == lines@[(lead + k) as int].model());
        assert(ps[k as int] == ls[(lead + k) as int]);
        let text = line.text.as_str();
        let (s, e) = content_bounds(text);
        if k > 0 {
            cat(&mut ln, ", ");
        }
        let ghost before = ps.subrange(0, k as int);
        cat(&mut ln, content_str(text, s, e));
        proof {
            let after = ps.subrange(0, k + 1);
            assert(after.drop_last() =~= before);
            assert(after.last() == ps[k as int]);
            if k == 0 {
                assert(before =~= seq![]);
            }
            assert(encode_utf8(ln@) =~= def_kw(is_async) + fn_open() + params_text(after));
        }
        k = k + 1;
    }
    assert(ps.subrange(0, np as int) =~= ps);
    cat(&mut ln, "):");
    ln
}

/// Records the piece of parameter `k` of `ps`, the parameter line being `line`.
fn param_piece_exec(em: &mut Emitter, Ghost(g): Ghost<Gen>, Ghost(ps): Ghost<Seq<LineModel>>, line: &Line, k: usize, np: usize, is_async: bool)
    requires
        old(em).holds(g),
        k < ps.len(),
        np == ps.len(),
        ps[k as int] == line.model(),
        line.model().offset + line.model().text.len() <= usize::MAX,
    ensures
        final(em).holds(Gen { pieces: g.pieces.push(param_piece(ps, is_async, k as int)), ..g }),
        final(em).with_pieces == old(em).with_pieces,
{
    let (s, e) = content_bounds(line.text.as_str());
    let prefix = if k == 0 {
        let mut p = owned(def_keyword(is_async));
        cat(&mut p, " __hyper_template__(");
        p
    } else {
        owned(", ")
    };
    let suffix = if k == np - 1 {
        let mut q = owned("):");
        cat(&mut q, "\n");
        q
    } else {
        empty_string()
    };
    em.piece(Ghost(g), prefix, suffix, line.byte_offset + s, line.byte_offset + e);
}

/// Emits the function header, with the parameters `lines[lead..body_start]`.
fn emit_header(em: &mut Emitter, Ghost(g0): Ghost<Gen>, lines: &[Line], lead: usize, body_start: usize, is_async: bool)
    requires
        old(em).holds(g0),
        g0.out.len() == lead,
        lead <= body_start <= lines@.len(),
        lines@.len() < usize::MAX / 8,
        offsets_fit(lines@, usize::MAX as int),
    ensures
        final(em).holds(header(g0, models(lines@), lead as int, body_start as int, is_async)),
        final(em).with_pieces == old(em).with_pieces,
{
    let ghost ls = models(lines@);
    let ghost ps = ls.subrange(lead as int, body_start as int);
    let kw = def_keyword(is_async);
    let n = lines.len();
    if lead < body_start {
        let np = body_start - lead;
        let ln = header_text(lines, lead, body_start, is_async);
        let first = &lines[lead];
        assert(ls[lead as int] == lines@[lead as int].model());
        assert(ps[0] == lines@[lead as int].model());
        let (s0, _) = content_bounds(first.text.as_str());
        proof {
            lemma_header_lens();
        }
        let gen_col = kw.len() + " __hyper_template__(".len();
        let ghost gl = emit(g0, encode_utf8(ln@), gen_col as int, ps[0].number, s0 as int, seq![]);
        em.line(Ghost(g0), ln.as_str(), gen_col, first.line_number, s0);
        let mut k: usize = 0;
        while k < np
            invariant
                k <= np,
                np == ps.len(),
                np == body_start - lead,
                body_start <= lines@.len(),
                ls == models(lines@),
                ps == ls.subrange(lead as int, body_start as int),
                em.holds(Gen { pieces: gl.pieces + Seq::new(k as nat, |i: int| param_piece(ps, is_async, i)), ..gl }),
                em.with_pieces == old(em).with_pieces,
                offsets_fit(lines@, usize::MAX as int),
            decreases np - k,
        {
            let line = &lines[lead + k];
            assert(ls[(lead + k) as int] == lines@[(lead + k) as int].model());
            assert(ps[k as int] == ls[(lead + k) as int]);
            assert(lines@[(lead + k) as int].model().offset + lines@[(lead + k) as int].model().text.len() <= usize::MAX);
            let ghost gk = Gen { pieces: gl.pieces + Seq::new(k as nat, |i: int| param_piece(ps, is_async, i)), ..gl };
            param_piece_exec(em, Ghost(gk), Ghost(ps), line, k, np, is_async);
            proof {
                assert(gl.pieces + Seq::new((k + 1) as nat, |i: int| param_piece(ps, is_async, i))
                    =~= (gl.pieces + Seq::new(k as nat, |i: int| param_piece(ps, is_async, i))).push(param_piece(ps, is_async, k as int)));
            }
            k = k + 1;
        }
        proof {
            assert(Gen { pieces: gl.pieces + Seq::new(ps.len(), |i: int| param_piece(ps, is_async, i)), ..gl }
                == header(g0, ls, lead as int, body_start as int, is_async));
        }
    } else {
        let off = if body_start < n {
            lines[body_start].byte_offset
        } else if n > 0 {
            lines[n - 1].byte_offset
        } else {
            0
        };
        let src_line = if n == 0 {
            0
        } else if body_start < n - 1 {
            body_start
        } else {
            n - 1
        };
        proof {
            if body_start < n {
                assert(ls[body_start as int] == lines@[body_start as int].model());
            } else if n > 0 {
                assert(ls.last() == lines@[n - 1].model());
            }
        }
        let mut ln = owned(kw);
        cat(&mut ln, " __hyper_template__():");
        let mut pre = owned(kw);
        cat(&mut pre, " __hyper_template__():");
        cat(&mut pre, "\n");
        em.line_with_piece(Ghost(g0), ln.as_str(), 0, src_line, 0, pre, empty_string(), off, off);
    }
}

/// Emits the body lines `lines[body_start..]`.
fn emit_body(em: &mut Emitter, Ghost(g1): Ghost<Gen>, lines: &[Line], body_start: usize)
    requires
        old(em).holds(g1),
        g1.out.len() <= body_start + 1,
        g1.level == 1,
        g1.stack == Seq::<BlockKind>::empty(),
        body_start <= lines@.len(),
        lines@.len() < usize::MAX / 8,
        offsets_fit(lines@, usize::MAX as int),
    ensures
        final(em).holds(run_body(g1, models(lines@), body_start as int, lines@.len() as int)),
        final(em).with_pieces == old(em).with_pieces,
{
    let ghost ls = models(lines@);
    let n = lines.len();
    let mut level: usize = 1;
    let mut stack: Vec<BlockKind> = Vec::new();
    let mut i: usize = body_start;
    while i < n
        invariant
            body_start <= i <= n,
            n == lines@.len(),
            n < usize::MAX / 8,
            ls == models(lines@),
            em.holds(run_body(g1, ls, body_start as int, i as int)),
            em.with_pieces == old(em).with_pieces,
            level as int == run_body(g1, ls, body_start as int, i as int).level,
            stack@ == run_body(g1, ls, body_start as int, i as int).stack,
            level <= i - body_start + 1,
            run_body(g1, ls, body_start as int, i as int).out.len() <= i + 1,
            offsets_fit(lines@, usize::MAX as int),
        decreases n - i,
    {
        let ghost gi = run_body(g1, ls, body_start as int, i as int);
        assert(ls[i as int] == lines@[i as int].model());
        assert(lines@[i as int].model().offset + lines@[i as int].model().text.len() <= usize::MAX);
        proof {
            lemma_body_step_len(gi, ls[i as int]);
        }
        body_line(em, &mut level, &mut stack, Ghost(gi), &lines[i]);
        i = i + 1;
    }
}

/// Transpiles `source`; with `include_injection`, also returns the injection pieces.
///
/// The source must be shorter than an eighth of the address space, so that
/// every indentation width, column and offset fits in a `usize`.
#[verifier::rlimit(50)]
pub fn transpile_ext(source: &str, include_injection: bool) -> (r: TranspileResult)
    requires
        source.spec_bytes().len() < usize::MAX / 8,
    ensures
        encode_utf8(r.python_code@) == code_of(source.spec_bytes()),
        r.source_mappings@ == mappings_of(source.spec_bytes()),
        include_injection ==> (r.python_pieces matches Some(ps) && piece_models(ps@) == pieces_of(
            source.spec_bytes(),
        )),
        !include_injection ==> r.python_pieces is None,
{
    let ghost src = source.spec_bytes();
    let lines = lex(source);
    let ghost ls = models(lines@);
    assert(ls == lex_model(src));
    let (leading, params, body_start) = find_structure(lines.as_slice());
    let n = lines.len();
    let lead = leading.len();
    let body = slice_subrange(lines.as_slice(), body_start, n);
    proof {
        assert(models(body@) =~= ls.subrange(body_start as int, n as int));
    }
    let is_async = has_await(body) || has_async_construct(body);
    let mut em = Emitter::new(include_injection);
    emit_leading(&mut em, lines.as_slice(), lead);
    let ghost g0 = run_leading(empty_gen(), ls, lead as int);
    assert(params@.len() == body_start - lead);
    emit_header(&mut em, Ghost(g0), lines.as_slice(), lead, body_start, is_async);
    let ghost g1 = header(g0, ls, lead as int, body_start as int, is_async);
    emit_body(&mut em, Ghost(g1), lines.as_slice(), body_start);
    TranspileResult {
        python_code: em.code,
        source_mappings: em.maps,
        python_pieces: if include_injection {
            Some(em.pieces)
        } else {
            None
        },
    }
}

/// Transpiles `source`, without injection pieces. The source must be shorter
/// than an eighth of the address space.
pub fn transpile(source: &str) -> (r: TranspileResult)
    requires
        source.spec_bytes().len() < usize::MAX / 8,
    ensures
        encode_utf8(r.python_code@) == code_of(source.spec_bytes()),
        r.source_mappings@ == mappings_of(source.spec_bytes()),
        r.python_pieces is None,
{
    transpile_ext(source, false)
}

} // verus!
