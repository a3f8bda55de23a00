//! Facts about UTF-8 character boundaries: the positions that the lexical functions produce
//! on valid UTF-8 are boundaries, so a string can be cut there.
use vstd::prelude::*;
use vstd::utf8::{
    is_char_boundary, is_char_boundary_iff_not_is_continuation_byte,
    is_char_boundary_start_end_of_seq, is_continuation_byte, length_of_first_scalar,
    pop_first_scalar, valid_utf8, valid_utf8_split,
};
use crate::lexer::{ends_with_backslash, lemma_phys_end, logical_end, phys_end, section_range, value_range};
use crate::parser::IniParser;
use crate::scan::{line_match, scan_from, scan_step, ScanModel};
use crate::text::{
    back_ws, char_utf8, char_width_at, char_width_from, find_byte, find_char, lemma_back_ws_bounds,
    lemma_find_byte_bounds, lemma_find_char_bounds, lemma_skip_ws_bounds, occurs_at, skip_ws,
    trim_range, ws_width, ws_width_before,
};

verus! {

/// A position in valid UTF-8 is a boundary exactly when it is the end or its byte is not a
/// continuation byte.
pub proof fn lemma_boundary_iff(s: Seq<u8>, i: int)
    requires
        valid_utf8(s),
        0 <= i <= s.len(),
    ensures
        is_char_boundary(s, i) <==> (i == s.len() || !is_continuation_byte(s[i])),
{
    if i == s.len() {
        is_char_boundary_start_end_of_seq(s);
    } else {
        is_char_boundary_iff_not_is_continuation_byte(s, i);
    }
}

/// Past the character that starts at a boundary lies another boundary.
pub proof fn lemma_next_boundary(s: Seq<u8>, i: int)
    requires
        valid_utf8(s),
        is_char_boundary(s, i),
        0 <= i < s.len(),
    ensures
        is_char_boundary(s, i + length_of_first_scalar(s.subrange(i, s.len() as int))),
    decreases s.len(),
{
    let l0 = length_of_first_scalar(s);
    let tail = pop_first_scalar(s);
    assert(1 <= l0 <= s.len());
    if i == 0 {
        assert(s.subrange(0, s.len() as int) =~= s);
        reveal_with_fuel(is_char_boundary, 2);
    } else {
        assert(is_char_boundary(tail, i - l0));
        assert(0 <= i - l0);
        assert(tail.subrange(i - l0, tail.len() as int) =~= s.subrange(i, s.len() as int));
        lemma_next_boundary(tail, i - l0);
    }
}

/// Past the character that starts at a boundary, whose first byte has the given width,
/// lies another boundary.
pub proof fn lemma_boundary_after(s: Seq<u8>, i: int, w: int)
    requires
        valid_utf8(s),
        is_char_boundary(s, i),
        0 <= i < s.len(),
        w == 1 ==> s[i] <= 0x7f,
        w == 2 ==> 0xc0 <= s[i] <= 0xdf,
        w == 3 ==> 0xe0 <= s[i] <= 0xef,
        w == 4 ==> 0xf0 <= s[i] <= 0xf7,
        1 <= w <= 4,
    ensures
        is_char_boundary(s, i + w),
{
    lemma_next_boundary(s, i);
    let suf = s.subrange(i, s.len() as int);
    assert(suf[0] == s[i]);
}

pub proof fn lemma_ws_boundary(s: Seq<u8>, i: int, hi: int)
    requires
        valid_utf8(s),
        is_char_boundary(s, i),
        ws_width(s, i, hi) > 0,
    ensures
        is_char_boundary(s, i + ws_width(s, i, hi)),
{
    lemma_boundary_after(s, i, ws_width(s, i, hi));
}

pub proof fn lemma_skip_ws_boundary(s: Seq<u8>, i: int, hi: int)
    requires
        valid_utf8(s),
        is_char_boundary(s, i),
    ensures
        is_char_boundary(s, skip_ws(s, i, hi)),
    decreases hi - i,
{
    if i < hi && ws_width(s, i, hi) > 0 {
        lemma_ws_boundary(s, i, hi);
        lemma_skip_ws_boundary(s, i + ws_width(s, i, hi), hi);
    }
}

pub proof fn lemma_back_ws_boundary(s: Seq<u8>, lo: int, j: int)
    requires
        valid_utf8(s),
        is_char_boundary(s, j),
        0 <= lo,
        j <= s.len(),
    ensures
        is_char_boundary(s, back_ws(s, lo, j)),
    decreases j - lo,
{
    if lo < j && ws_width_before(s, lo, j) > 0 {
        let k = j - ws_width_before(s, lo, j);
        assert(!is_continuation_byte(s[k]));
        lemma_boundary_iff(s, k);
        lemma_back_ws_boundary(s, lo, k);
    }
}

/// The first byte of the encoding of a character, and the width it announces.
pub proof fn lemma_char_utf8_first(c: char)
    ensures
        1 <= char_utf8(c).len() <= 4,
        char_utf8(c).len() == 1 ==> char_utf8(c)[0] <= 0x7f,
        char_utf8(c).len() == 2 ==> 0xc0 <= char_utf8(c)[0] <= 0xdf,
        char_utf8(c).len() == 3 ==> 0xe0 <= char_utf8(c)[0] <= 0xef,
        char_utf8(c).len() == 4 ==> 0xf0 <= char_utf8(c)[0] <= 0xf7,
{
    let v = c as u32 as int;
    assert(0 <= v <= 0x10ffff);
    if v < 0x80 {
    } else if v < 0x800 {
        assert(v / 64 < 32);
    } else if v < 0x10000 {
        assert(v / 4096 < 16);
    } else {
        assert(v / 262144 <= 4);
    }
}

pub proof fn lemma_char_width_from(s: Seq<u8>, i: int, hi: int, cs: Seq<char>, k: int)
    requires
        char_width_from(s, i, hi, cs, k) > 0,
    ensures
        exists|c: char|
            occurs_at(s, i, hi, char_utf8(c)) && char_utf8(c).len() == char_width_from(
                s,
                i,
                hi,
                cs,
                k,
            ),
    decreases cs.len() - k,
{
    if k < 0 || k >= cs.len() {
    } else if occurs_at(s, i, hi, char_utf8(cs[k])) {
        assert(occurs_at(s, i, hi, char_utf8(cs[k])));
    } else {
        lemma_char_width_from(s, i, hi, cs, k + 1);
    }
}

/// Where a character of `cs` occurs at a boundary, the position past it is a boundary too,
/// and so is the position itself.
pub proof fn lemma_char_boundary(s: Seq<u8>, i: int, hi: int, cs: Seq<char>)
    requires
        valid_utf8(s),
        char_width_at(s, i, hi, cs) > 0,
    ensures
        is_char_boundary(s, i),
        is_char_boundary(s, i) ==> is_char_boundary(s, i + char_width_at(s, i, hi, cs)),
        i + char_width_at(s, i, hi, cs) <= hi,
{
    lemma_char_width_from(s, i, hi, cs, 0);
    let c = choose|c: char|
        occurs_at(s, i, hi, char_utf8(c)) && char_utf8(c).len() == char_width_at(s, i, hi, cs);
    lemma_char_utf8_first(c);
    assert(s[i + 0] == char_utf8(c)[0]);
    lemma_boundary_iff(s, i);
    lemma_boundary_after(s, i, char_utf8(c).len() as int);
}

pub proof fn lemma_find_char_boundary(s: Seq<u8>, i: int, hi: int, cs: Seq<char>)
    requires
        valid_utf8(s),
        is_char_boundary(s, hi),
    ensures
        is_char_boundary(s, find_char(s, i, hi, cs)),
    decreases hi - i,
{
    if i >= hi {
    } else if char_width_at(s, i, hi, cs) > 0 {
        lemma_char_boundary(s, i, hi, cs);
    } else {
        lemma_find_char_boundary(s, i + 1, hi, cs);
    }
}

pub proof fn lemma_find_byte_boundary(s: Seq<u8>, i: int, hi: int, b: u8)
    requires
        valid_utf8(s),
        is_char_boundary(s, hi),
        b <= 0x7f,
        0 <= i,
        hi <= s.len(),
    ensures
        is_char_boundary(s, find_byte(s, i, hi, b)),
    decreases hi - i,
{
    if i >= hi {
    } else if s[i] == b {
        lemma_boundary_iff(s, i);
    } else {
        lemma_find_byte_boundary(s, i + 1, hi, b);
    }
}

/// A boundary of valid `s` inside `s[lo..hi]`, where `lo` and `hi` are boundaries, is a
/// boundary of that piece, and the piece is valid.
pub proof fn lemma_piece_boundary(s: Seq<u8>, lo: int, hi: int, i: int)
    requires
        valid_utf8(s),
        is_char_boundary(s, lo),
        is_char_boundary(s, hi),
        0 <= lo <= i <= hi <= s.len(),
        is_char_boundary(s, i),
    ensures
        valid_utf8(s.subrange(lo, hi)),
        is_char_boundary(s.subrange(lo, hi), i - lo),
{
    lemma_piece_valid(s, lo, hi);
    let p = s.subrange(lo, hi);
    lemma_boundary_iff(s, i);
    lemma_boundary_iff(p, i - lo);
}

pub proof fn lemma_piece_valid(s: Seq<u8>, lo: int, hi: int)
    requires
        valid_utf8(s),
        is_char_boundary(s, lo),
        is_char_boundary(s, hi),
        0 <= lo <= hi <= s.len(),
    ensures
        valid_utf8(s.subrange(lo, hi)),
{
    valid_utf8_split(s, lo);
    let suf = s.subrange(lo, s.len() as int);
    lemma_boundary_iff(s, hi);
    lemma_boundary_iff(suf, hi - lo);
    valid_utf8_split(suf, hi - lo);
    assert(suf.subrange(0, hi - lo) =~= s.subrange(lo, hi));
}

/// A boundary of the piece `s[lo..hi]` is a boundary of `s`.
pub proof fn lemma_boundary_of_piece(s: Seq<u8>, lo: int, hi: int, i: int)
    requires
        valid_utf8(s),
        is_char_boundary(s, lo),
        is_char_boundary(s, hi),
        0 <= lo <= hi <= s.len(),
        0 <= i <= hi - lo,
        is_char_boundary(s.subrange(lo, hi), i),
    ensures
        is_char_boundary(s, lo + i),
{
    lemma_piece_valid(s, lo, hi);
    let p = s.subrange(lo, hi);
    lemma_boundary_iff(p, i);
    lemma_boundary_iff(s, lo + i);
}

} // verus!

verus! {

pub proof fn lemma_find_char_found(s: Seq<u8>, i: int, hi: int, cs: Seq<char>)
    requires
        find_char(s, i, hi, cs) < hi,
    ensures
        char_width_at(s, find_char(s, i, hi, cs), hi, cs) > 0,
    decreases hi - i,
{
    if i >= hi {
    } else if char_width_at(s, i, hi, cs) > 0 {
    } else {
        lemma_find_char_found(s, i + 1, hi, cs);
    }
}

/// The name range of a section header of valid UTF-8 lies on boundaries.
pub proof fn lemma_section_range_boundary(line: Seq<u8>)
    requires
        valid_utf8(line),
    ensures
        section_range(line) matches Some((a, b)) ==> is_char_boundary(line, a)
            && is_char_boundary(line, b),
{
    let n = line.len() as int;
    is_char_boundary_start_end_of_seq(line);
    let (t0, t1) = trim_range(line, 0, n);
    lemma_skip_ws_bounds(line, 0, n);
    lemma_skip_ws_boundary(line, 0, n);
    lemma_back_ws_bounds(line, t0, n);
    lemma_back_ws_boundary(line, t0, n);
    if t0 < t1 && line[t0] == 0x5b {
        lemma_boundary_after(line, t0, 1);
        let close = find_byte(line, t0 + 1, t1, 0x5d);
        lemma_find_byte_bounds(line, t0 + 1, t1, 0x5d);
        lemma_find_byte_boundary(line, t0 + 1, t1, 0x5d);
        if close < t1 {
            lemma_skip_ws_bounds(line, t0 + 1, close);
            lemma_skip_ws_boundary(line, t0 + 1, close);
            let a = skip_ws(line, t0 + 1, close);
            lemma_back_ws_boundary(line, a, close);
        }
    }
}

/// The value range of a key/value line of valid UTF-8 lies on boundaries.
pub proof fn lemma_value_range_boundary(
    line: Seq<u8>,
    key: Seq<u8>,
    comments: Seq<char>,
    delims: Seq<char>,
)
    requires
        valid_utf8(line),
    ensures
        value_range(line, key, comments, delims) matches Some((a, b)) ==> is_char_boundary(
            line,
            a,
        ) && is_char_boundary(line, b) && 0 <= a <= b <= line.len(),
{
    let n = line.len() as int;
    is_char_boundary_start_end_of_seq(line);
    let cut = find_char(line, 0, n, comments);
    lemma_find_char_bounds(line, 0, n, comments);
    lemma_find_char_boundary(line, 0, n, comments);
    let d = find_char(line, 0, cut, delims);
    lemma_find_char_bounds(line, 0, cut, delims);
    if d < cut {
        lemma_find_char_found(line, 0, cut, delims);
        lemma_char_boundary(line, d, cut, delims);
        let after = d + char_width_at(line, d, cut, delims);
        lemma_skip_ws_bounds(line, after, cut);
        lemma_skip_ws_boundary(line, after, cut);
        let vs = skip_ws(line, after, cut);
        if vs < cut {
            lemma_back_ws_bounds(line, vs, cut);
            lemma_back_ws_boundary(line, vs, cut);
        }
    }
}

/// The end of a physical line is a boundary.
pub proof fn lemma_phys_end_boundary(s: Seq<u8>, p: int)
    requires
        valid_utf8(s),
        0 <= p <= s.len(),
    ensures
        is_char_boundary(s, phys_end(s, p)),
    decreases s.len() - p,
{
    if p >= s.len() {
        is_char_boundary_start_end_of_seq(s);
    } else if s[p] == 0x0a {
        lemma_boundary_iff(s, p);
        lemma_boundary_after(s, p, 1);
    } else {
        lemma_phys_end_boundary(s, p + 1);
    }
}

/// The end of a logical line is a boundary.
pub proof fn lemma_logical_end_boundary(s: Seq<u8>, p: int, continuation: bool)
    requires
        valid_utf8(s),
        0 <= p <= s.len(),
    ensures
        is_char_boundary(s, logical_end(s, p, continuation)),
    decreases s.len() - p,
{
    lemma_phys_end(s, p);
    lemma_phys_end_boundary(s, p);
    let e = phys_end(s, p);
    if continuation && p < e && e < s.len() && ends_with_backslash(s, p, e) {
        lemma_logical_end_boundary(s, e, continuation);
    }
}

/// On valid UTF-8, the value range that a scan reports lies on boundaries.
pub proof fn lemma_scan_boundary(
    p: IniParser,
    section: Option<Seq<u8>>,
    key: Seq<u8>,
    s: Seq<u8>,
    pos: int,
    m: ScanModel,
)
    requires
        valid_utf8(s),
        0 <= pos <= s.len(),
        is_char_boundary(s, pos),
        m.processed == pos,
        m.found matches Some((a, b)) ==> is_char_boundary(s, a) && is_char_boundary(s, b),
    ensures
        scan_from(p, section, key, s, pos, m) matches Some(r) ==> (r.found matches Some((a, b))
            ==> is_char_boundary(s, a) && is_char_boundary(s, b)),
    decreases s.len() - pos,
{
    if m.done || pos < 0 || pos >= s.len() {
    } else {
        let e = logical_end(s, pos, p.line_continuation);
        if e <= pos || e > s.len() {
        } else {
            lemma_logical_end_boundary(s, pos, p.line_continuation);
            let line = s.subrange(pos, e);
            lemma_piece_valid(s, pos, e);
            lemma_value_range_boundary(
                line,
                key,
                p.comment_delimiters@,
                p.value_start_delimiters@,
            );
            match line_match(p, key, m, line) {
                Some((a, b)) => {
                    lemma_boundary_of_piece(s, pos, e, a);
                    lemma_boundary_of_piece(s, pos, e, b);
                },
                None => {},
            }
            match scan_step(p, section, key, m, line) {
                None => {},
                Some(m2) => {
                    lemma_scan_boundary(p, section, key, s, e, m2);
                },
            }
        }
    }
}

} // verus!
