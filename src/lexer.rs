//! The INI grammar on one logical line, and the assembly of logical lines from physical ones.
use vstd::prelude::*;
use crate::text::{
    back_ws, back_ws_exec, char_width_at, char_width_at_exec, find_byte, find_byte_exec, find_char,
    find_char_exec, skip_ws, skip_ws_exec, trim_range, trim_range_exec, trimmed,
};

verus! {

/// Where the name of the section header `line` stands, if `line` is a section header: the
/// trimmed line starts with `[`, and the name is what lies between it and the first `]`,
/// trimmed. Anything after the `]` is ignored.
pub open spec fn section_range(line: Seq<u8>) -> Option<(int, int)> {
    let (t0, t1) = trim_range(line, 0, line.len() as int);
    if t0 < t1 && line[t0] == 0x5b {
        let close = find_byte(line, t0 + 1, t1, 0x5d);
        if close < t1 {
            Some(trim_range(line, t0 + 1, close))
        } else {
            None
        }
    } else {
        None
    }
}

/// The name of the section that `line` opens, if it is a section header.
pub open spec fn section_name(line: Seq<u8>) -> Option<Seq<u8>> {
    match section_range(line) {
        Some((a, b)) => Some(line.subrange(a, b)),
        None => None,
    }
}

/// Where the value of `key` stands in `line`, if `line` assigns `key`.
///
/// The line is cut at the first comment character; the first delimiter before the cut
/// splits key from value; the trimmed text before it must equal the trimmed `key`; the value
/// runs from the first to past the last non-whitespace byte after the delimiter and before
/// the cut, or is the empty range just after the delimiter when there is none.
pub open spec fn value_range(line: Seq<u8>, key: Seq<u8>, comments: Seq<char>, delims: Seq<char>)
    -> Option<(int, int)> {
    let n = line.len() as int;
    let cut = find_char(line, 0, n, comments);
    let d = find_char(line, 0, cut, delims);
    if d >= cut {
        None
    } else {
        let (k0, k1) = trim_range(line, 0, d);
        if line.subrange(k0, k1) != trimmed(key) {
            None
        } else {
            let after = d + char_width_at(line, d, cut, delims);
            let vs = skip_ws(line, after, cut);
            if vs >= cut {
                Some((after, after))
            } else {
                Some((vs, back_ws(line, vs, cut)))
            }
        }
    }
}

/// End of the physical line that starts at `p`: just past its `\n`, or the end of `s`.
pub open spec fn phys_end(s: Seq<u8>, p: int) -> int
    decreases s.len() - p,
{
    if p >= s.len() {
        s.len() as int
    } else if s[p] == 0x0a {
        p + 1
    } else {
        phys_end(s, p + 1)
    }
}

/// Does the text of `s[p..e]`, trimmed, end with a backslash?
pub open spec fn ends_with_backslash(s: Seq<u8>, p: int, e: int) -> bool {
    let t = back_ws(s, p, e);
    p < t && s[t - 1] == 0x5c
}

/// End of the logical line that starts at `p`: with continuation on, a physical line whose
/// trimmed text ends with a backslash is joined with the next one, as long as one follows.
pub open spec fn logical_end(s: Seq<u8>, p: int, continuation: bool) -> int
    decreases s.len() - p,
{
    let e = phys_end(s, p);
    if continuation && p < e && e < s.len() && ends_with_backslash(s, p, e) {
        logical_end(s, e, continuation)
    } else {
        e
    }
}

pub proof fn lemma_phys_end(s: Seq<u8>, p: int)
    requires
        0 <= p <= s.len(),
    ensures
        p <= phys_end(s, p) <= s.len(),
        p < s.len() ==> p < phys_end(s, p),
    decreases s.len() - p,
{
    if p < s.len() && s[p] != 0x0a {
        lemma_phys_end(s, p + 1);
    }
}

pub proof fn lemma_logical_end(s: Seq<u8>, p: int, continuation: bool)
    requires
        0 <= p <= s.len(),
    ensures
        p <= logical_end(s, p, continuation) <= s.len(),
        p < s.len() ==> p < logical_end(s, p, continuation),
    decreases s.len() - p,
{
    lemma_phys_end(s, p);
    let e = phys_end(s, p);
    if continuation && p < e && e < s.len() && ends_with_backslash(s, p, e) {
        lemma_logical_end(s, e, continuation);
    }
}

/// Where the name of the section header `line` stands, if `line` is a section header.
pub fn section_range_exec(line: &[u8]) -> (r: Option<(usize, usize)>)
    ensures
        match r {
            Some((a, b)) => section_range(line@) == Some((a as int, b as int)) && a <= b
                <= line@.len(),
            None => section_range(line@) is None,
        },
{
    let (t0, t1) = trim_range_exec(line, 0, line.len());
    if t0 < t1 && line[t0] == 0x5b {
        let close = find_byte_exec(line, t0 + 1, t1, 0x5d);
        if close < t1 {
            Some(trim_range_exec(line, t0 + 1, close))
        } else {
            None
        }
    } else {
        None
    }
}

/// Are `a[a0..a1]` and `b[b0..b1]` the same bytes?
pub fn same_bytes(a: &[u8], a0: usize, a1: usize, b: &[u8], b0: usize, b1: usize) -> (r: bool)
    requires
        a0 <= a1 <= a@.len(),
        b0 <= b1 <= b@.len(),
    ensures
        r == (a@.subrange(a0 as int, a1 as int) == b@.subrange(b0 as int, b1 as int)),
{
    if a1 - a0 != b1 - b0 {
        assert(a@.subrange(a0 as int, a1 as int).len() != b@.subrange(b0 as int, b1 as int).len());
        return false;
    }
    let mut k: usize = 0;
    while k < a1 - a0
        invariant
            a0 <= a1 <= a@.len(),
            b0 <= b1 <= b@.len(),
            a1 - a0 == b1 - b0,
            k <= a1 - a0,
            forall|m: int| 0 <= m < k ==> #[trigger] a@[a0 + m] == b@[b0 + m],
        decreases a1 - a0 - k,
    {
        if a[a0 + k] != b[b0 + k] {
            assert(a@.subrange(a0 as int, a1 as int)[k as int] != b@.subrange(
                b0 as int,
                b1 as int,
            )[k as int]);
            return false;
        }
        k = k + 1;
    }
    assert forall|m: int| 0 <= m < a1 - a0 implies a@.subrange(a0 as int, a1 as int)[m]
        == b@.subrange(b0 as int, b1 as int)[m] by {
        assert(a@[a0 + m] == b@[b0 + m]);
    }
    assert(a@.subrange(a0 as int, a1 as int) =~= b@.subrange(b0 as int, b1 as int));
    true
}

/// Where the value of `key` stands in `line`, if `line` assigns `key`.
pub fn value_range_exec(line: &[u8], key: &[u8], comments: &[char], delims: &[char]) -> (r:
    Option<(usize, usize)>)
    ensures
        match r {
            Some((a, b)) => value_range(line@, key@, comments@, delims@) == Some(
                (a as int, b as int),
            ) && a <= b <= line@.len(),
            None => value_range(line@, key@, comments@, delims@) is None,
        },
{
    let n = line.len();
    let cut = find_char_exec(line, 0, n, comments);
    let d = find_char_exec(line, 0, cut, delims);
    if d >= cut {
        return None;
    }
    let (k0, k1) = trim_range_exec(line, 0, d);
    let (q0, q1) = trim_range_exec(key, 0, key.len());
    if !same_bytes(line, k0, k1, key, q0, q1) {
        return None;
    }
    let after = d + char_width_at_exec(line, d, cut, delims);
    let vs = skip_ws_exec(line, after, cut);
    if vs >= cut {
        Some((after, after))
    } else {
        let ve = back_ws_exec(line, vs, cut);
        Some((vs, ve))
    }
}

/// End of the physical line that starts at `p`.
pub fn phys_end_exec(s: &[u8], p: usize) -> (e: usize)
    requires
        p <= s@.len(),
    ensures
        e == phys_end(s@, p as int),
        p <= e <= s@.len(),
        p < s@.len() ==> p < e,
{
    let mut i = p;
    while i < s.len()
        invariant
            p <= i <= s@.len(),
            phys_end(s@, i as int) == phys_end(s@, p as int),
            forall|m: int| p <= m < i ==> s@[m] != 0x0a,
        decreases s@.len() - i,
    {
        if s[i] == 0x0a {
            proof {
                lemma_phys_end(s@, p as int);
            }
            return i + 1;
        }
        i = i + 1;
    }
    proof {
        lemma_phys_end(s@, p as int);
    }
    i
}

/// Does the text of `s[p..e]`, trimmed, end with a backslash?
pub fn ends_with_backslash_exec(s: &[u8], p: usize, e: usize) -> (r: bool)
    requires
        p <= e <= s@.len(),
    ensures
        r == ends_with_backslash(s@, p as int, e as int),
{
    let t = back_ws_exec(s, p, e);
    p < t && s[t - 1] == 0x5c
}

/// End of the logical line that starts at `p`.
pub fn logical_end_exec(s: &[u8], p: usize, continuation: bool) -> (e: usize)
    requires
        p <= s@.len(),
    ensures
        e == logical_end(s@, p as int, continuation),
        p <= e <= s@.len(),
        p < s@.len() ==> p < e,
{
    proof {
        lemma_logical_end(s@, p as int, continuation);
    }
    let mut q = p;
    loop
        invariant
            p <= q <= s@.len(),
            logical_end(s@, q as int, continuation) == logical_end(s@, p as int, continuation),
        decreases s@.len() - q,
    {
        let e = phys_end_exec(s, q);
        if continuation && q < e && e < s.len() && ends_with_backslash_exec(s, q, e) {
            q = e;
        } else {
            return e;
        }
    }
}

} // verus!
