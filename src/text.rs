//! Byte-level scanning helpers over UTF-8 text: blanks, line ends,
//! Unicode white space and literal prefixes.
use vstd::prelude::*;
use vstd::string::*;
use vstd::utf8::*;

verus! {

broadcast use vstd::utf8::group_utf8_lib;

/// A space or a horizontal tab.
pub open spec fn is_blank_byte(b: u8) -> bool {
    b == 0x20u8 || b == 0x09u8
}

/// A carriage return or a line feed.
pub open spec fn is_eol_byte(b: u8) -> bool {
    b == 0x0Du8 || b == 0x0Au8
}

/// Index of the first byte at or after `i` that is not a space or a tab.
pub open spec fn skip_blanks(t: Seq<u8>, i: int) -> int
    decreases t.len() - i,
{
    if 0 <= i < t.len() && is_blank_byte(t[i]) {
        skip_blanks(t, i + 1)
    } else {
        i
    }
}

/// End of `t[..j]` once trailing carriage returns and line feeds are dropped.
pub open spec fn strip_eol(t: Seq<u8>, j: int) -> int
    decreases j,
{
    if 0 < j <= t.len() && is_eol_byte(t[j - 1]) {
        strip_eol(t, j - 1)
    } else {
        j
    }
}

/// One-byte Unicode white space: U+0009..U+000D and U+0020.
pub open spec fn is_ws1(a: u8) -> bool {
    (0x09u8 <= a && a <= 0x0Du8) || a == 0x20u8
}

/// Two-byte Unicode white space: U+0085 and U+00A0.
pub open spec fn is_ws2(a: u8, b: u8) -> bool {
    a == 0xC2u8 && (b == 0x85u8 || b == 0xA0u8)
}

/// Three-byte Unicode white space: U+1680, U+2000..U+200A, U+2028, U+2029,
/// U+202F, U+205F and U+3000.
pub open spec fn is_ws3(a: u8, b: u8, c: u8) -> bool {
    (a == 0xE1u8 && b == 0x9Au8 && c == 0x80u8) || (a == 0xE2u8 && b == 0x80u8 && ((0x80u8 <= c
        && c <= 0x8Au8) || c == 0xA8u8 || c == 0xA9u8 || c == 0xAFu8)) || (a == 0xE2u8 && b
        == 0x81u8 && c == 0x9Fu8) || (a == 0xE3u8 && b == 0x80u8 && c == 0x80u8)
}

/// Byte width of the white-space character encoded at `i`, or 0 when there is none.
pub open spec fn ws_width_at(t: Seq<u8>, i: int) -> int {
    if 0 <= i < t.len() && is_ws1(t[i]) {
        1
    } else if 0 <= i && i + 1 < t.len() && is_ws2(t[i], t[i + 1]) {
        2
    } else if 0 <= i && i + 2 < t.len() && is_ws3(t[i], t[i + 1], t[i + 2]) {
        3
    } else {
        0
    }
}

/// Byte width of the white-space character whose encoding ends just before `j`, or 0.
pub open spec fn ws_width_before(t: Seq<u8>, j: int) -> int {
    if 1 <= j <= t.len() && is_ws1(t[j - 1]) {
        1
    } else if 2 <= j <= t.len() && is_ws2(t[j - 2], t[j - 1]) {
        2
    } else if 3 <= j <= t.len() && is_ws3(t[j - 3], t[j - 2], t[j - 1]) {
        3
    } else {
        0
    }
}

/// Index of the first non-white-space character at or after `i`.
pub open spec fn skip_ws(t: Seq<u8>, i: int) -> int
    decreases t.len() - i,
{
    if 0 <= i && ws_width_at(t, i) > 0 {
        skip_ws(t, i + ws_width_at(t, i))
    } else {
        i
    }
}

/// End of `t[lo..j]` once trailing white space is dropped.
pub open spec fn trim_back(t: Seq<u8>, lo: int, j: int) -> int
    decreases j,
{
    if lo <= j - ws_width_before(t, j) && ws_width_before(t, j) > 0 {
        trim_back(t, lo, j - ws_width_before(t, j))
    } else {
        j
    }
}

/// Start of `t` with leading white space removed.
pub open spec fn trim_start(t: Seq<u8>) -> int {
    skip_ws(t, 0)
}

/// End of `t` with trailing white space removed.
pub open spec fn trim_end(t: Seq<u8>) -> int {
    trim_back(t, trim_start(t), t.len() as int)
}

/// `t` without leading and trailing white space.
pub open spec fn trimmed(t: Seq<u8>) -> Seq<u8> {
    t.subrange(trim_start(t), trim_end(t))
}

/// `lit` occurs in `t` at position `i`.
pub open spec fn occurs_at(t: Seq<u8>, i: int, lit: Seq<u8>) -> bool {
    0 <= i && i + lit.len() <= t.len() && t.subrange(i, i + lit.len()) == lit
}

pub fn is_blank(b: u8) -> (r: bool)
    ensures
        r == is_blank_byte(b),
{
    b == 0x20u8 || b == 0x09u8
}

/// Index of the first byte at or after `i` that is neither a space nor a tab.
pub fn skip_blanks_from(t: &[u8], i: usize) -> (r: usize)
    requires
        i <= t@.len(),
    ensures
        r as int == skip_blanks(t@, i as int),
        i <= r <= t@.len(),
{
    let mut k: usize = i;
    while k < t.len() && is_blank(t[k])
        invariant
            i <= k <= t@.len(),
            skip_blanks(t@, k as int) == skip_blanks(t@, i as int),
        decreases t@.len() - k,
    {
        k = k + 1;
    }
    k
}

/// End of `t[..j]` without its trailing carriage returns and line feeds.
pub fn strip_eol_from(t: &[u8], j: usize) -> (r: usize)
    requires
        j <= t@.len(),
    ensures
        r as int == strip_eol(t@, j as int),
        r <= j,
{
    let mut k: usize = j;
    while k > 0 && (t[k - 1] == 0x0Du8 || t[k - 1] == 0x0Au8)
        invariant
            k <= j <= t@.len(),
            strip_eol(t@, k as int) == strip_eol(t@, j as int),
        decreases k,
    {
        k = k - 1;
    }
    k
}

/// Byte width of the white-space character encoded at `i`, or 0.
pub fn ws_width(t: &[u8], i: usize) -> (r: usize)
    ensures
        r as int == ws_width_at(t@, i as int),
{
    let n = t.len();
    if i < n && ((0x09u8 <= t[i] && t[i] <= 0x0Du8) || t[i] == 0x20u8) {
        1
    } else if i < n && n - i > 1 && t[i] == 0xC2u8 && (t[i + 1] == 0x85u8 || t[i + 1] == 0xA0u8) {
        2
    } else if i < n && n - i > 2 && is_ws3_exec(t[i], t[i + 1], t[i + 2]) {
        3
    } else {
        0
    }
}

fn is_ws3_exec(a: u8, b: u8, c: u8) -> (r: bool)
    ensures
        r == is_ws3(a, b, c),
{
    (a == 0xE1u8 && b == 0x9Au8 && c == 0x80u8) || (a == 0xE2u8 && b == 0x80u8 && ((0x80u8 <= c
        && c <= 0x8Au8) || c == 0xA8u8 || c == 0xA9u8 || c == 0xAFu8)) || (a == 0xE2u8 && b
        == 0x81u8 && c == 0x9Fu8) || (a == 0xE3u8 && b == 0x80u8 && c == 0x80u8)
}

/// Byte width of the white-space character that ends just before `j`, or 0.
pub fn ws_width_back(t: &[u8], j: usize) -> (r: usize)
    ensures
        r as int == ws_width_before(t@, j as int),
{
    let n = t.len();
    if 1 <= j && j <= n && ((0x09u8 <= t[j - 1] && t[j - 1] <= 0x0Du8) || t[j - 1] == 0x20u8) {
        1
    } else if 2 <= j && j <= n && t[j - 2] == 0xC2u8 && (t[j - 1] == 0x85u8 || t[j - 1]
        == 0xA0u8) {
        2
    } else if 3 <= j && j <= n && is_ws3_exec(t[j - 3], t[j - 2], t[j - 1]) {
        3
    } else {
        0
    }
}

/// Index of the first non-white-space character at or after `i`.
pub fn skip_ws_from(t: &[u8], i: usize) -> (r: usize)
    requires
        i <= t@.len(),
    ensures
        r as int == skip_ws(t@, i as int),
        i <= r <= t@.len(),
{
    let mut k: usize = i;
    loop
        invariant
            i <= k <= t@.len(),
            skip_ws(t@, k as int) == skip_ws(t@, i as int),
        decreases t@.len() - k,
    {
        let w = ws_width(t, k);
        if w == 0 {
            return k;
        }
        assert(k + w <= t@.len() && t@.len() == t.len());
        k = k + w;
    }
}

/// Bounds of `t` without leading and trailing white space, as `str::trim` has them.
pub fn trim_bounds(t: &[u8]) -> (r: (usize, usize))
    ensures
        r.0 as int == trim_start(t@),
        r.1 as int == trim_end(t@),
        r.0 <= r.1 <= t@.len(),
{
    let s = skip_ws_from(t, 0);
    let mut k: usize = t.len();
    loop
        invariant
            s <= k <= t@.len(),
            s as int == trim_start(t@),
            trim_back(t@, s as int, k as int) == trim_back(t@, s as int, t@.len() as int),
        decreases k,
    {
        let w = ws_width_back(t, k);
        if w == 0 || k - s < w {
            return (s, k);
        }
        k = k - w;
    }
}

/// Whether `lit` occurs in `t` at position `i`.
pub fn has_at(t: &[u8], i: usize, lit: &[u8]) -> (r: bool)
    ensures
        r == occurs_at(t@, i as int, lit@),
        r ==> i + lit.len() <= t.len(),
{
    if i > t.len() || t.len() - i < lit.len() {
        return false;
    }
    let mut k: usize = 0;
    while k < lit.len()
        invariant
            i + lit@.len() <= t@.len(),
            lit@.len() == lit.len(),
            t@.len() == t.len(),
            k <= lit@.len(),
            forall|m: int| 0 <= m < k ==> t@[i + m] == lit@[m],
        decreases lit@.len() - k,
    {
        if t[i + k] != lit[k] {
            assert(t@.subrange(i as int, i + lit@.len())[k as int] != lit@[k as int]);
            return false;
        }
        k = k + 1;
    }
    assert(t@.subrange(i as int, i + lit@.len()) =~= lit@);
    true
}

/// Whether the literal `lit` occurs in `t` at position `i`.
pub fn has_lit_at(t: &[u8], i: usize, lit: &str) -> (r: bool)
    ensures
        r == occurs_at(t@, i as int, lit.spec_bytes()),
        r ==> i + lit.spec_bytes().len() <= t.len(),
{
    has_at(t, i, lit.as_bytes())
}

/// In valid UTF-8, the byte after an ASCII byte starts a character.
pub proof fn lemma_boundary_after_ascii(b: Seq<u8>, i: int)
    requires
        valid_utf8(b),
        0 <= i < b.len(),
        b[i] < 0x80u8,
    ensures
        is_char_boundary(b, i + 1),
    decreases b.len(),
{
    reveal_with_fuel(is_char_boundary, 2);
    let n = length_of_first_scalar(b);
    if i < n {
        assert(i == 0);
    } else {
        lemma_boundary_after_ascii(pop_first_scalar(b), i - n);
    }
}

/// A position of `b` that follows an ASCII byte starts a character.
pub proof fn lemma_boundary_at(b: Seq<u8>, i: int)
    requires
        valid_utf8(b),
        0 <= i <= b.len(),
        0 < i ==> b[i - 1] < 0x80u8,
    ensures
        is_char_boundary(b, i),
{
    if i == 0 || i == b.len() {
    } else {
        lemma_boundary_after_ascii(b, i - 1);
    }
}

/// The byte before the end of a non-empty run of blanks is a blank.
pub proof fn lemma_skip_blanks(t: Seq<u8>, i: int)
    requires
        0 <= i <= t.len(),
    ensures
        i <= skip_blanks(t, i) <= t.len(),
        skip_blanks(t, i) > i ==> is_blank_byte(t[skip_blanks(t, i) - 1]),
    decreases t.len() - i,
{
    if i < t.len() && is_blank_byte(t[i]) {
        lemma_skip_blanks(t, i + 1);
    }
}

/// The byte at the cut of `strip_eol` is a line-end byte.
pub proof fn lemma_strip_eol(t: Seq<u8>, j: int)
    requires
        0 <= j <= t.len(),
    ensures
        0 <= strip_eol(t, j) <= j,
        strip_eol(t, j) < j ==> is_eol_byte(t[strip_eol(t, j)]),
    decreases j,
{
    if 0 < j && is_eol_byte(t[j - 1]) {
        lemma_strip_eol(t, j - 1);
    }
}

/// The text of `s[a..b]`, cut where ASCII bytes meet.
pub fn substr(s: &str, a: usize, b: usize) -> (r: &str)
    requires
        a <= b <= s.spec_bytes().len(),
        a == 0 || s.spec_bytes()[a - 1] < 0x80u8,
        b < s.spec_bytes().len() ==> s.spec_bytes()[b as int] < 0x80u8,
    ensures
        r.spec_bytes() == s.spec_bytes().subrange(a as int, b as int),
{
    let ghost sb = s.spec_bytes();
    proof {
        lemma_boundary_at(sb, a as int);
    }
    let (_, rest) = s.split_at(a);
    let ghost rb = rest.spec_bytes();
    proof {
        assert(rb =~= sb.subrange(a as int, sb.len() as int));
        if b < sb.len() {
            assert(rb[b - a] == sb[b as int]);
            assert(!is_continuation_byte(rb[b - a]));
            assert(is_char_boundary(rb, b - a));
        } else {
            assert(is_char_boundary(rb, rb.len() as int));
        }
    }
    let (mid, _) = rest.split_at(b - a);
    proof {
        assert(mid.spec_bytes() =~= sb.subrange(a as int, b as int));
    }
    mid
}

} // verus!
