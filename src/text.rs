//! Byte-level text primitives: Unicode whitespace in UTF-8, trimming, and matching the
//! UTF-8 encoding of a character.
use vstd::prelude::*;

verus! {

/// Is `(a, b, c)` the UTF-8 encoding of one of the three-byte Unicode whitespace characters
/// U+1680, U+2000..=U+200A, U+2028, U+2029, U+202F, U+205F or U+3000?
pub open spec fn is_ws3(a: u8, b: u8, c: u8) -> bool {
    ||| (a == 0xe1 && b == 0x9a && c == 0x80)
    ||| (a == 0xe2 && b == 0x80 && ((0x80 <= c && c <= 0x8a) || c == 0xa8 || c == 0xa9 || c
        == 0xaf))
    ||| (a == 0xe2 && b == 0x81 && c == 0x9f)
    ||| (a == 0xe3 && b == 0x80 && c == 0x80)
}

/// Width in bytes of the whitespace character whose UTF-8 encoding starts at `i` and ends
/// at or before `hi`, or 0 when there is none. Whitespace is Unicode's White_Space set:
/// U+0009..=U+000D, U+0020, U+0085, U+00A0 and the three-byte ones of `is_ws3`.
pub open spec fn ws_width(s: Seq<u8>, i: int, hi: int) -> int {
    if 0 <= i && i < hi && hi <= s.len() && (s[i] == 0x20 || (0x09 <= s[i] && s[i] <= 0x0d)) {
        1
    } else if 0 <= i && i + 2 <= hi && hi <= s.len() && s[i] == 0xc2 && (s[i + 1] == 0x85
        || s[i + 1] == 0xa0) {
        2
    } else if 0 <= i && i + 3 <= hi && hi <= s.len() && is_ws3(s[i], s[i + 1], s[i + 2]) {
        3
    } else {
        0
    }
}

/// Width in bytes of the whitespace character whose encoding ends at `j` and starts at or
/// after `lo`, or 0 when there is none.
pub open spec fn ws_width_before(s: Seq<u8>, lo: int, j: int) -> int {
    if lo <= j - 1 && ws_width(s, j - 1, j) == 1 {
        1
    } else if lo <= j - 2 && ws_width(s, j - 2, j) == 2 {
        2
    } else if lo <= j - 3 && ws_width(s, j - 3, j) == 3 {
        3
    } else {
        0
    }
}

/// The first position at or after `i` in `s[..hi]` where no whitespace character starts.
pub open spec fn skip_ws(s: Seq<u8>, i: int, hi: int) -> int
    decreases hi - i,
{
    if i < hi && ws_width(s, i, hi) > 0 {
        skip_ws(s, i + ws_width(s, i, hi), hi)
    } else {
        i
    }
}

/// The last position at or before `j` in `s[lo..]` where no whitespace character ends.
pub open spec fn back_ws(s: Seq<u8>, lo: int, j: int) -> int
    decreases j - lo,
{
    if lo < j && ws_width_before(s, lo, j) > 0 {
        back_ws(s, lo, j - ws_width_before(s, lo, j))
    } else {
        j
    }
}

/// `s[lo..hi]` with leading and trailing whitespace removed, as a pair of positions.
pub open spec fn trim_range(s: Seq<u8>, lo: int, hi: int) -> (int, int) {
    let a = skip_ws(s, lo, hi);
    (a, back_ws(s, a, hi))
}

/// `s` with leading and trailing whitespace removed.
pub open spec fn trimmed(s: Seq<u8>) -> Seq<u8> {
    let (a, b) = trim_range(s, 0, s.len() as int);
    s.subrange(a, b)
}

/// Is `s` empty or made of whitespace only?
pub open spec fn is_blank(s: Seq<u8>) -> bool {
    skip_ws(s, 0, s.len() as int) == s.len()
}

/// The UTF-8 encoding of a character.
pub open spec fn char_utf8(c: char) -> Seq<u8> {
    let v = c as u32 as int;
    if v < 0x80 {
        seq![v as u8]
    } else if v < 0x800 {
        seq![(0xc0 + v / 64) as u8, (0x80 + v % 64) as u8]
    } else if v < 0x10000 {
        seq![(0xe0 + v / 4096) as u8, (0x80 + (v / 64) % 64) as u8, (0x80 + v % 64) as u8]
    } else {
        seq![
            (0xf0 + v / 262144) as u8,
            (0x80 + (v / 4096) % 64) as u8,
            (0x80 + (v / 64) % 64) as u8,
            (0x80 + v % 64) as u8,
        ]
    }
}

/// Does `pat` occur in `s` at `i`, ending at or before `hi`?
pub open spec fn occurs_at(s: Seq<u8>, i: int, hi: int, pat: Seq<u8>) -> bool {
    &&& 0 <= i
    &&& i + pat.len() <= hi
    &&& hi <= s.len()
    &&& forall|k: int| 0 <= k < pat.len() ==> s[i + k] == pat[k]
}

/// Width of the encoding of the first character of `cs[k..]` that occurs at `i`, or 0.
pub open spec fn char_width_from(s: Seq<u8>, i: int, hi: int, cs: Seq<char>, k: int) -> int
    decreases cs.len() - k,
{
    if k < 0 || k >= cs.len() {
        0
    } else if occurs_at(s, i, hi, char_utf8(cs[k])) {
        char_utf8(cs[k]).len() as int
    } else {
        char_width_from(s, i, hi, cs, k + 1)
    }
}

/// Width of the encoding of the character of `cs` that occurs at `i`, or 0 when none does.
pub open spec fn char_width_at(s: Seq<u8>, i: int, hi: int, cs: Seq<char>) -> int {
    char_width_from(s, i, hi, cs, 0)
}

/// The first position in `s[i..hi]` where one of the characters `cs` occurs, or `hi`.
pub open spec fn find_char(s: Seq<u8>, i: int, hi: int, cs: Seq<char>) -> int
    decreases hi - i,
{
    if i >= hi {
        hi
    } else if char_width_at(s, i, hi, cs) > 0 {
        i
    } else {
        find_char(s, i + 1, hi, cs)
    }
}

/// The first position in `s[i..hi]` that holds the byte `b`, or `hi`.
pub open spec fn find_byte(s: Seq<u8>, i: int, hi: int, b: u8) -> int
    decreases hi - i,
{
    if i >= hi {
        hi
    } else if s[i] == b {
        i
    } else {
        find_byte(s, i + 1, hi, b)
    }
}

pub proof fn lemma_skip_ws_bounds(s: Seq<u8>, i: int, hi: int)
    requires
        i <= hi,
    ensures
        i <= skip_ws(s, i, hi) <= hi,
    decreases hi - i,
{
    if i < hi && ws_width(s, i, hi) > 0 {
        lemma_skip_ws_bounds(s, i + ws_width(s, i, hi), hi);
    }
}

pub proof fn lemma_back_ws_bounds(s: Seq<u8>, lo: int, j: int)
    requires
        lo <= j,
    ensures
        lo <= back_ws(s, lo, j) <= j,
    decreases j - lo,
{
    if lo < j && ws_width_before(s, lo, j) > 0 {
        lemma_back_ws_bounds(s, lo, j - ws_width_before(s, lo, j));
    }
}

pub proof fn lemma_find_char_bounds(s: Seq<u8>, i: int, hi: int, cs: Seq<char>)
    requires
        i <= hi,
    ensures
        i <= find_char(s, i, hi, cs) <= hi,
    decreases hi - i,
{
    if i < hi && !(char_width_at(s, i, hi, cs) > 0) {
        lemma_find_char_bounds(s, i + 1, hi, cs);
    }
}

pub proof fn lemma_find_byte_bounds(s: Seq<u8>, i: int, hi: int, b: u8)
    requires
        i <= hi,
    ensures
        i <= find_byte(s, i, hi, b) <= hi,
        find_byte(s, i, hi, b) < hi ==> s[find_byte(s, i, hi, b)] == b,
    decreases hi - i,
{
    if i < hi && s[i] != b {
        lemma_find_byte_bounds(s, i + 1, hi, b);
    }
}

/// Width of the whitespace character encoded at `i` of `s[..hi]`, or 0.
pub fn ws_width_exec(s: &[u8], i: usize, hi: usize) -> (w: usize)
    requires
        i <= hi <= s@.len(),
    ensures
        w == ws_width(s@, i as int, hi as int),
{
    if i >= hi {
        return 0;
    }
    let b = s[i];
    if b == 0x20 || (0x09 <= b && b <= 0x0d) {
        return 1;
    }
    if hi - i >= 2 && b == 0xc2 && (s[i + 1] == 0x85 || s[i + 1] == 0xa0) {
        return 2;
    }
    if hi - i >= 3 {
        let b1 = s[i + 1];
        let b2 = s[i + 2];
        if (b == 0xe1 && b1 == 0x9a && b2 == 0x80) || (b == 0xe2 && b1 == 0x80 && ((0x80 <= b2
            && b2 <= 0x8a) || b2 == 0xa8 || b2 == 0xa9 || b2 == 0xaf)) || (b == 0xe2 && b1 == 0x81
            && b2 == 0x9f) || (b == 0xe3 && b1 == 0x80 && b2 == 0x80) {
            return 3;
        }
    }
    0
}

/// Width of the whitespace character whose encoding ends at `j` and starts at or after `lo`.
pub fn ws_width_before_exec(s: &[u8], lo: usize, j: usize) -> (w: usize)
    requires
        lo <= j <= s@.len(),
    ensures
        w == ws_width_before(s@, lo as int, j as int),
{
    if j - lo >= 1 && ws_width_exec(s, j - 1, j) == 1 {
        1
    } else if j - lo >= 2 && ws_width_exec(s, j - 2, j) == 2 {
        2
    } else if j - lo >= 3 && ws_width_exec(s, j - 3, j) == 3 {
        3
    } else {
        0
    }
}

/// The first position at or after `i` in `s[..hi]` where no whitespace character starts.
pub fn skip_ws_exec(s: &[u8], i: usize, hi: usize) -> (r: usize)
    requires
        i <= hi <= s@.len(),
    ensures
        r == skip_ws(s@, i as int, hi as int),
        i <= r <= hi,
{
    let mut p = i;
    loop
        invariant
            i <= p <= hi <= s@.len(),
            skip_ws(s@, p as int, hi as int) == skip_ws(s@, i as int, hi as int),
        decreases hi - p,
    {
        let w = ws_width_exec(s, p, hi);
        if p >= hi || w == 0 {
            proof {
                lemma_skip_ws_bounds(s@, i as int, hi as int);
            }
            return p;
        }
        p = p + w;
    }
}

/// The last position at or before `j` in `s[lo..]` where no whitespace character ends.
pub fn back_ws_exec(s: &[u8], lo: usize, j: usize) -> (r: usize)
    requires
        lo <= j <= s@.len(),
    ensures
        r == back_ws(s@, lo as int, j as int),
        lo <= r <= j,
{
    let mut p = j;
    loop
        invariant
            lo <= p <= j <= s@.len(),
            back_ws(s@, lo as int, p as int) == back_ws(s@, lo as int, j as int),
        decreases p - lo,
    {
        let w = ws_width_before_exec(s, lo, p);
        if p <= lo || w == 0 {
            proof {
                lemma_back_ws_bounds(s@, lo as int, j as int);
            }
            return p;
        }
        p = p - w;
    }
}

/// `s[lo..hi]` with leading and trailing whitespace removed, as a pair of positions.
pub fn trim_range_exec(s: &[u8], lo: usize, hi: usize) -> (r: (usize, usize))
    requires
        lo <= hi <= s@.len(),
    ensures
        (r.0 as int, r.1 as int) == trim_range(s@, lo as int, hi as int),
        lo <= r.0 <= r.1 <= hi,
{
    let a = skip_ws_exec(s, lo, hi);
    let b = back_ws_exec(s, a, hi);
    (a, b)
}

/// The UTF-8 encoding of `c`.
pub fn char_utf8_exec(c: char) -> (r: Vec<u8>)
    ensures
        r@ == char_utf8(c),
{
    let v = c as u32;
    assert(v <= 0x10ffff) by {
        assert(c as u32 <= 0x10ffff);
    }
    if v < 0x80 {
        vec![v as u8]
    } else if v < 0x800 {
        vec![(0xc0 + v / 64) as u8, (0x80 + v % 64) as u8]
    } else if v < 0x10000 {
        vec![(0xe0 + v / 4096) as u8, (0x80 + (v / 64) % 64) as u8, (0x80 + v % 64) as u8]
    } else {
        vec![
            (0xf0 + v / 262144) as u8,
            (0x80 + (v / 4096) % 64) as u8,
            (0x80 + (v / 64) % 64) as u8,
            (0x80 + v % 64) as u8,
        ]
    }
}

/// Does `pat` occur in `s` at `i`, ending at or before `hi`?
pub fn occurs_at_exec(s: &[u8], i: usize, hi: usize, pat: &[u8]) -> (r: bool)
    requires
        i <= hi <= s@.len(),
    ensures
        r == occurs_at(s@, i as int, hi as int, pat@),
{
    if pat.len() > hi - i {
        return false;
    }
    let mut k: usize = 0;
    while k < pat.len()
        invariant
            i + pat@.len() <= hi <= s@.len(),
            k <= pat@.len(),
            forall|m: int| 0 <= m < k ==> s@[i + m] == pat@[m],
        decreases pat@.len() - k,
    {
        if s[i + k] != pat[k] {
            return false;
        }
        k = k + 1;
    }
    true
}

/// Width of the encoding of the character of `cs` that occurs at `i`, or 0 when none does.
pub fn char_width_at_exec(s: &[u8], i: usize, hi: usize, cs: &[char]) -> (w: usize)
    requires
        i <= hi <= s@.len(),
    ensures
        w == char_width_at(s@, i as int, hi as int, cs@),
        w <= hi - i,
{
    let mut k: usize = 0;
    while k < cs.len()
        invariant
            i <= hi <= s@.len(),
            k <= cs@.len(),
            char_width_from(s@, i as int, hi as int, cs@, k as int) == char_width_at(
                s@,
                i as int,
                hi as int,
                cs@,
            ),
        decreases cs@.len() - k,
    {
        let enc = char_utf8_exec(cs[k]);
        if occurs_at_exec(s, i, hi, enc.as_slice()) {
            return enc.len();
        }
        k = k + 1;
    }
    0
}

/// The first position in `s[i..hi]` where one of the characters `cs` occurs, or `hi`.
pub fn find_char_exec(s: &[u8], i: usize, hi: usize, cs: &[char]) -> (r: usize)
    requires
        i <= hi <= s@.len(),
    ensures
        r == find_char(s@, i as int, hi as int, cs@),
        i <= r <= hi,
{
    let mut p = i;
    while p < hi
        invariant
            i <= p <= hi <= s@.len(),
            find_char(s@, p as int, hi as int, cs@) == find_char(s@, i as int, hi as int, cs@),
        decreases hi - p,
    {
        if char_width_at_exec(s, p, hi, cs) > 0 {
            proof {
                lemma_find_char_bounds(s@, i as int, hi as int, cs@);
            }
            return p;
        }
        p = p + 1;
    }
    proof {
        lemma_find_char_bounds(s@, i as int, hi as int, cs@);
    }
    hi
}

/// The first position in `s[i..hi]` that holds the byte `b`, or `hi`.
pub fn find_byte_exec(s: &[u8], i: usize, hi: usize, b: u8) -> (r: usize)
    requires
        i <= hi <= s@.len(),
    ensures
        r == find_byte(s@, i as int, hi as int, b),
        i <= r <= hi,
{
    let mut p = i;
    while p < hi
        invariant
            i <= p <= hi <= s@.len(),
            find_byte(s@, p as int, hi as int, b) == find_byte(s@, i as int, hi as int, b),
        decreases hi - p,
    {
        if s[p] == b {
            proof {
                lemma_find_byte_bounds(s@, i as int, hi as int, b);
            }
            return p;
        }
        p = p + 1;
    }
    proof {
        lemma_find_byte_bounds(s@, i as int, hi as int, b);
    }
    hi
}

} // verus!
