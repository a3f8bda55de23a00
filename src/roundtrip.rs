//! Writing a key into a new section at the end of a file, read back: the file's other
//! lines keep their meaning, so the key reads back as the value written, and writing it a
//! second time changes nothing.
use vstd::prelude::*;
use crate::laws::{
    law_error_on_duplicates, law_use_first, law_use_last, match_in, next_in_section,
    occurrences, occurrences_from,
};
use crate::lexer::{
    ends_with_backslash, lemma_logical_end, lemma_phys_end, logical_end, phys_end, section_name,
    value_range,
};
use crate::parser::{DuplicateKeyStrategy, IniParser};
use crate::scan::{model_wf, scan, scan_from, scan_step, ScanModel};
use crate::text::{back_ws, trimmed, ws_width, ws_width_before};
use crate::write::{assignment, header, written};

verus! {

/// `t` is `s` from offset `k` on.
pub open spec fn is_suffix_at(s: Seq<u8>, k: int, t: Seq<u8>) -> bool {
    0 <= k <= s.len() && t == s.subrange(k, s.len() as int)
}

proof fn lemma_ws_width_shift(s: Seq<u8>, k: int, t: Seq<u8>, i: int, hi: int)
    requires
        is_suffix_at(s, k, t),
        k <= i,
    ensures
        ws_width(s, i, hi) == ws_width(t, i - k, hi - k),
{
    if 0 <= i && i < hi && hi <= s.len() {
        assert(s[i] == t[i - k]);
    }
    if 0 <= i && i + 2 <= hi && hi <= s.len() {
        assert(s[i + 1] == t[i + 1 - k]);
    }
    if 0 <= i && i + 3 <= hi && hi <= s.len() {
        assert(s[i + 2] == t[i + 2 - k]);
    }
}

pub proof fn lemma_back_ws_shift(s: Seq<u8>, k: int, t: Seq<u8>, lo: int, j: int)
    requires
        is_suffix_at(s, k, t),
        k <= lo,
    ensures
        back_ws(s, lo, j) - k == back_ws(t, lo - k, j - k),
    decreases j - lo,
{
    if lo <= j - 1 {
        lemma_ws_width_shift(s, k, t, j - 1, j);
    }
    if lo <= j - 2 {
        lemma_ws_width_shift(s, k, t, j - 2, j);
    }
    if lo <= j - 3 {
        lemma_ws_width_shift(s, k, t, j - 3, j);
    }
    assert(ws_width_before(s, lo, j) == ws_width_before(t, lo - k, j - k));
    if lo < j && ws_width_before(s, lo, j) > 0 {
        lemma_back_ws_shift(s, k, t, lo, j - ws_width_before(s, lo, j));
    }
}

pub proof fn lemma_phys_end_shift(s: Seq<u8>, k: int, t: Seq<u8>, p: int)
    requires
        is_suffix_at(s, k, t),
        k <= p,
    ensures
        phys_end(s, p) - k == phys_end(t, p - k),
    decreases s.len() - p,
{
    if p >= s.len() {
    } else {
        assert(s[p] == t[p - k]);
        if s[p] != 0x0a {
            lemma_phys_end_shift(s, k, t, p + 1);
        }
    }
}

proof fn lemma_logical_end_shift(s: Seq<u8>, k: int, t: Seq<u8>, p: int, c: bool)
    requires
        is_suffix_at(s, k, t),
        k <= p <= s.len(),
    ensures
        logical_end(s, p, c) - k == logical_end(t, p - k, c),
    decreases s.len() - p,
{
    lemma_phys_end_shift(s, k, t, p);
    lemma_phys_end(s, p);
    let e = phys_end(s, p);
    lemma_back_ws_shift(s, k, t, p, e);
    let b = back_ws(s, p, e);
    crate::text::lemma_back_ws_bounds(s, p, e);
    if p < b {
        assert(s[b - 1] == t[b - 1 - k]);
    }
    assert(ends_with_backslash(s, p, e) == ends_with_backslash(t, p - k, e - k));
    if c && p < e && e < s.len() && ends_with_backslash(s, p, e) {
        lemma_logical_end_shift(s, k, t, e, c);
    }
}

/// The occurrences `occ` moved `k` bytes further on.
pub open spec fn shifted(occ: Seq<(int, int)>, k: int) -> Seq<(int, int)> {
    occ.map_values(|r: (int, int)| (r.0 + k, r.1 + k))
}

/// The occurrences of a key from offset `p` on depend only on the bytes from `p` on.
pub proof fn lemma_occurrences_shift(
    pr: IniParser,
    section: Option<Seq<u8>>,
    key: Seq<u8>,
    s: Seq<u8>,
    k: int,
    t: Seq<u8>,
    p: int,
    ins: bool,
)
    requires
        is_suffix_at(s, k, t),
        k <= p <= s.len(),
    ensures
        occurrences_from(pr, section, key, s, p, ins) == shifted(
            occurrences_from(pr, section, key, t, p - k, ins),
            k,
        ),
    decreases s.len() - p,
{
    let c = pr.line_continuation;
    if p >= s.len() {
        assert(shifted(Seq::<(int, int)>::empty(), k) =~= Seq::<(int, int)>::empty());
    } else {
        lemma_logical_end_shift(s, k, t, p, c);
        lemma_logical_end(s, p, c);
        let e = logical_end(s, p, c);
        let line = s.subrange(p, e);
        assert(line =~= t.subrange(p - k, e - k));
        lemma_occurrences_shift(pr, section, key, s, k, t, e, next_in_section(section, ins, line));
        let rest_t = occurrences_from(
            pr,
            section,
            key,
            t,
            e - k,
            next_in_section(section, ins, line),
        );
        match match_in(pr, key, ins, line) {
            Some((a, b)) => {
                assert(shifted(seq![(p - k + a, p - k + b)] + rest_t, k) =~= seq![(p + a, p + b)]
                    + shifted(rest_t, k));
            },
            None => {
                assert(shifted(Seq::<(int, int)>::empty() + rest_t, k) =~= Seq::<
                    (int, int),
                >::empty() + shifted(rest_t, k));
            },
        }
    }
}


/// Does the last line of `x` end with a backslash, so that with continuation on it would
/// join whatever follows `x`?
pub open spec fn last_line_continued(x: Seq<u8>, continuation: bool) -> bool {
    continuation && exists|p: int|
        0 <= p < x.len() && phys_end(x, p) == x.len() && #[trigger] ends_with_backslash(
            x,
            p,
            x.len() as int,
        )
}

/// Is `x` empty, or does it end with a newline that no continuation carries past?
pub open spec fn closed(x: Seq<u8>, continuation: bool) -> bool {
    x.len() == 0 || (x.last() == 0x0a && !last_line_continued(x, continuation))
}

/// Does `s` hold no newline?
pub open spec fn no_newline(s: Seq<u8>) -> bool {
    forall|i: int| 0 <= i < s.len() ==> s[i] != 0x0a
}

/// Whether the target section is open after the lines of `s` from offset `pos` on.
pub open spec fn section_after(
    pr: IniParser,
    section: Option<Seq<u8>>,
    s: Seq<u8>,
    pos: int,
    ins: bool,
) -> bool
    decreases s.len() - pos,
{
    if pos < 0 || pos >= s.len() {
        ins
    } else {
        let e = logical_end(s, pos, pr.line_continuation);
        if e <= pos || e > s.len() {
            ins
        } else {
            section_after(pr, section, s, e, next_in_section(section, ins, s.subrange(pos, e)))
        }
    }
}

proof fn lemma_ws_width_prefix(x: Seq<u8>, s: Seq<u8>, i: int, hi: int)
    requires
        x.len() <= s.len(),
        x == s.subrange(0, x.len() as int),
        hi <= x.len(),
    ensures
        ws_width(s, i, hi) == ws_width(x, i, hi),
{
    if 0 <= i && i < hi {
        assert(s[i] == x[i]);
    }
    if 0 <= i && i + 2 <= hi {
        assert(s[i + 1] == x[i + 1]);
    }
    if 0 <= i && i + 3 <= hi {
        assert(s[i + 2] == x[i + 2]);
    }
}

pub proof fn lemma_back_ws_prefix(x: Seq<u8>, s: Seq<u8>, lo: int, j: int)
    requires
        x.len() <= s.len(),
        x == s.subrange(0, x.len() as int),
        j <= x.len(),
    ensures
        back_ws(s, lo, j) == back_ws(x, lo, j),
    decreases j - lo,
{
    lemma_ws_width_prefix(x, s, j - 1, j);
    lemma_ws_width_prefix(x, s, j - 2, j);
    lemma_ws_width_prefix(x, s, j - 3, j);
    if lo < j && ws_width_before(s, lo, j) > 0 {
        lemma_back_ws_prefix(x, s, lo, j - ws_width_before(s, lo, j));
    }
}

proof fn lemma_phys_end_prefix(x: Seq<u8>, s: Seq<u8>, p: int)
    requires
        x.len() <= s.len(),
        x == s.subrange(0, x.len() as int),
        x.len() > 0,
        x.last() == 0x0a,
        0 <= p < x.len(),
    ensures
        phys_end(s, p) == phys_end(x, p),
    decreases x.len() - p,
{
    assert(s[p] == x[p]);
    if x[p] != 0x0a {
        lemma_phys_end_prefix(x, s, p + 1);
    }
}

proof fn lemma_logical_end_prefix(x: Seq<u8>, s: Seq<u8>, p: int, c: bool)
    requires
        x.len() <= s.len(),
        x == s.subrange(0, x.len() as int),
        x.len() > 0,
        closed(x, c),
        0 <= p < x.len(),
    ensures
        logical_end(s, p, c) == logical_end(x, p, c),
    decreases x.len() - p,
{
    lemma_phys_end_prefix(x, s, p);
    lemma_phys_end(x, p);
    let e = phys_end(x, p);
    lemma_back_ws_prefix(x, s, p, e);
    let b = back_ws(x, p, e);
    crate::text::lemma_back_ws_bounds(x, p, e);
    if p < b {
        assert(s[b - 1] == x[b - 1]);
    }
    assert(ends_with_backslash(s, p, e) == ends_with_backslash(x, p, e));
    if e < x.len() {
        if c && ends_with_backslash(x, p, e) {
            lemma_logical_end_prefix(x, s, e, c);
        }
    } else {
        if c && ends_with_backslash(x, p, e) {
            assert(last_line_continued(x, c));
        }
    }
}

/// The occurrences in `x + y` are those in `x`, then those in `y` with the section state
/// that `x` leaves, when `x` ends with a line that does not run into `y`.
pub proof fn lemma_occurrences_prefix(
    pr: IniParser,
    section: Option<Seq<u8>>,
    key: Seq<u8>,
    x: Seq<u8>,
    s: Seq<u8>,
    pos: int,
    ins: bool,
)
    requires
        x.len() <= s.len(),
        x == s.subrange(0, x.len() as int),
        closed(x, pr.line_continuation),
        0 <= pos <= x.len(),
    ensures
        occurrences_from(pr, section, key, s, pos, ins) == occurrences_from(
            pr,
            section,
            key,
            x,
            pos,
            ins,
        ) + occurrences_from(
            pr,
            section,
            key,
            s,
            x.len() as int,
            section_after(pr, section, x, pos, ins),
        ),
    decreases x.len() - pos,
{
    let c = pr.line_continuation;
    if pos >= x.len() {
        assert(occurrences_from(pr, section, key, x, pos, ins) =~= Seq::<(int, int)>::empty());
        assert(occurrences_from(pr, section, key, s, pos, ins) =~= Seq::<(int, int)>::empty()
            + occurrences_from(pr, section, key, s, pos, ins));
    } else {
        lemma_logical_end_prefix(x, s, pos, c);
        lemma_logical_end(x, pos, c);
        let e = logical_end(x, pos, c);
        let line = x.subrange(pos, e);
        assert(line =~= s.subrange(pos, e));
        let ins2 = next_in_section(section, ins, line);
        lemma_occurrences_prefix(pr, section, key, x, s, e, ins2);
        let here = match match_in(pr, key, ins, line) {
            Some((a, b)) => seq![(pos + a, pos + b)],
            None => Seq::<(int, int)>::empty(),
        };
        let rx = occurrences_from(pr, section, key, x, e, ins2);
        let rs = occurrences_from(
            pr,
            section,
            key,
            s,
            x.len() as int,
            section_after(pr, section, x, e, ins2),
        );
        assert(here + (rx + rs) =~= (here + rx) + rs);
    }
}

/// A scan that finds nothing means the key occurs nowhere in its section.
pub proof fn lemma_nothing_found(
    pr: IniParser,
    section: Option<Seq<u8>>,
    key: Seq<u8>,
    value: Seq<u8>,
    s: Seq<u8>,
)
    requires
        scan(pr, section, key, s) matches Some(m) && m.found is None,
    ensures
        occurrences(pr, section, key, s).len() == 0,
{
    match pr.duplicate_keys {
        DuplicateKeyStrategy::UseFirst => law_use_first(pr, section, key, value, s),
        DuplicateKeyStrategy::UseLast => law_use_last(pr, section, key, value, s),
        DuplicateKeyStrategy::Error => law_error_on_duplicates(pr, section, key, value, s),
    }
}

/// A file whose key occurs exactly once in its section has that occurrence found, under
/// every policy.
pub proof fn lemma_single_occurrence(
    pr: IniParser,
    section: Option<Seq<u8>>,
    key: Seq<u8>,
    value: Seq<u8>,
    s: Seq<u8>,
)
    requires
        occurrences(pr, section, key, s).len() == 1,
    ensures
        scan(pr, section, key, s) matches Some(m) && m.found == Some(
            occurrences(pr, section, key, s)[0],
        ),
{
    let occ = occurrences(pr, section, key, s);
    match pr.duplicate_keys {
        DuplicateKeyStrategy::UseFirst => law_use_first(pr, section, key, value, s),
        DuplicateKeyStrategy::UseLast => {
            law_use_last(pr, section, key, value, s);
            assert(occ.last() == occ[0]);
        },
        DuplicateKeyStrategy::Error => law_error_on_duplicates(pr, section, key, value, s),
    }
}

proof fn lemma_phys_end_skip(s: Seq<u8>, p: int, q: int)
    requires
        0 <= p <= q <= s.len(),
        forall|i: int| p <= i < q ==> s[i] != 0x0a,
    ensures
        phys_end(s, p) == phys_end(s, q),
    decreases q - p,
{
    if p < q {
        lemma_phys_end_skip(s, p + 1, q);
    }
}

/// The header is the first logical line of the appended text.
proof fn lemma_header_line(c: bool, section: Seq<u8>, t: Seq<u8>, a: Seq<u8>)
    requires
        no_newline(section),
        t == header(section) + a,
    ensures
        logical_end(t, 0, c) == header(section).len(),
        t.subrange(0, header(section).len() as int) == header(section),
{
    let h = header(section);
    let hl = h.len() as int;
    assert forall|i: int| 0 <= i < hl - 1 implies t[i] != 0x0a by {
        if 1 <= i < hl - 2 {
            assert(t[i] == section[i - 1]);
        }
    }
    lemma_phys_end_skip(t, 0, hl - 1);
    assert(t[hl - 1] == 0x0a);
    assert(phys_end(t, hl - 1) == hl);
    assert(t[hl - 2] == 0x5d);
    assert(ws_width(t, hl - 1, hl) == 1);
    assert(ws_width_before(t, 0, hl) == 1);
    assert(ws_width(t, hl - 2, hl - 1) == 0);
    assert(ws_width_before(t, 0, hl - 1) == 0);
    assert(back_ws(t, 0, hl - 1) == hl - 1);
    assert(back_ws(t, 0, hl) == hl - 1);
    assert(!ends_with_backslash(t, 0, hl));
    assert(t.subrange(0, hl) =~= h);
}

/// The assignment is the second and last logical line of the appended text.
proof fn lemma_assignment_line(c: bool, h: Seq<u8>, key: Seq<u8>, value: Seq<u8>, t: Seq<u8>)
    requires
        no_newline(key),
        no_newline(value),
        t == h + assignment(key, value),
    ensures
        logical_end(t, h.len() as int, c) == t.len(),
        t.subrange(h.len() as int, t.len() as int) == assignment(key, value),
{
    let hl = h.len() as int;
    let tl = t.len() as int;
    assert forall|i: int| hl <= i < tl - 1 implies t[i] != 0x0a by {
        if hl <= i < hl + key.len() {
            assert(t[i] == key[i - hl]);
        } else if hl + key.len() + 1 <= i < tl - 1 {
            assert(t[i] == value[i - hl - key.len() - 1]);
        }
    }
    lemma_phys_end_skip(t, hl, tl - 1);
    assert(t[tl - 1] == 0x0a);
    assert(phys_end(t, tl - 1) == tl);
    assert(t.subrange(hl, tl) =~= assignment(key, value));
}

/// The appended text holds one occurrence of the key: the value of its second line.
proof fn lemma_appended_occurrences(
    pr: IniParser,
    section: Seq<u8>,
    key: Seq<u8>,
    value: Seq<u8>,
    ins0: bool,
)
    requires
        no_newline(section),
        no_newline(key),
        no_newline(value),
        section_name(header(section)) == Some(trimmed(section)),
        section_name(assignment(key, value)) is None,
        value_range(
            assignment(key, value),
            key,
            pr.comment_delimiters@,
            pr.value_start_delimiters@,
        ) == Some(((key.len() + 1) as int, (key.len() + 1 + value.len()) as int)),
    ensures
        ({
            let h = header(section);
            let start = (h.len() + key.len() + 1) as int;
            occurrences_from(pr, Some(section), key, h + assignment(key, value), 0, ins0) == seq![
                (start, start + value.len()),
            ]
        }),
{
    let c = pr.line_continuation;
    let sec = Some(section);
    let h = header(section);
    let a = assignment(key, value);
    let t = h + a;
    let hl = h.len() as int;
    let tl = t.len() as int;
    lemma_header_line(c, section, t, a);
    lemma_assignment_line(c, h, key, value, t);
    assert(match_in(pr, key, ins0, h) is None);
    assert(next_in_section(sec, ins0, h));
    let hit = (hl + key.len() + 1, hl + key.len() + 1 + value.len());
    assert(match_in(pr, key, true, a) == Some(
        ((key.len() + 1) as int, (key.len() + 1 + value.len()) as int),
    ));
    assert(occurrences_from(pr, sec, key, t, tl, true) =~= Seq::<(int, int)>::empty());
    assert(occurrences_from(pr, sec, key, t, hl, true) =~= seq![hit]);
    assert(occurrences_from(pr, sec, key, t, 0, ins0) =~= seq![hit]);
}

/// Appending the header and the assignment to a closed source without the key gives a
/// source where the key occurs once: in the appended line.
#[verifier::rlimit(100)]
proof fn lemma_out_occurrences(
    pr: IniParser,
    section: Seq<u8>,
    key: Seq<u8>,
    value: Seq<u8>,
    src: Seq<u8>,
)
    requires
        occurrences(pr, Some(section), key, src).len() == 0,
        closed(src, pr.line_continuation),
        no_newline(section),
        no_newline(key),
        no_newline(value),
        section_name(header(section)) == Some(trimmed(section)),
        section_name(assignment(key, value)) is None,
        value_range(
            assignment(key, value),
            key,
            pr.comment_delimiters@,
            pr.value_start_delimiters@,
        ) == Some(((key.len() + 1) as int, (key.len() + 1 + value.len()) as int)),
    ensures
        ({
            let start = (src.len() + header(section).len() + key.len() + 1) as int;
            occurrences(pr, Some(section), key, src + header(section) + assignment(key, value))
                == seq![(start, start + value.len())]
        }),
{
    let sec = Some(section);
    let h = header(section);
    let a = assignment(key, value);
    let t = h + a;
    let out = src + t;
    assert(src + h + a =~= out);
    let start = (src.len() + h.len() + key.len() + 1) as int;
    assert(out.subrange(0, src.len() as int) =~= src);
    lemma_occurrences_prefix(pr, sec, key, src, out, 0, false);
    let ins0 = section_after(pr, sec, src, 0, false);
    assert(t =~= out.subrange(src.len() as int, out.len() as int));
    lemma_occurrences_shift(pr, sec, key, out, src.len() as int, t, src.len() as int, ins0);
    lemma_appended_occurrences(pr, section, key, value, ins0);
    let hit = ((h.len() + key.len() + 1) as int, (h.len() + key.len() + 1 + value.len()) as int);
    assert(shifted(seq![hit], src.len() as int) =~= seq![(start, start + value.len())]);
    assert(occurrences_from(pr, sec, key, src, 0, false) =~= Seq::<(int, int)>::empty());
    assert(occurrences(pr, sec, key, out) =~= seq![(start, start + value.len())]);
}

/// Writing `value` for `key` in a section that `src` lacks appends the section header and
/// the line `key=value`. When the source ends with a closed line, when the header written
/// for the section names it, and when that line, on its own, assigns exactly `value` to
/// `key`, then reading the result finds `value`, and writing the same value again changes
/// nothing.
pub proof fn law_new_section_round_trip(
    pr: IniParser,
    section: Seq<u8>,
    key: Seq<u8>,
    value: Seq<u8>,
    src: Seq<u8>,
)
    requires
        scan(pr, Some(section), key, src) matches Some(m) && m.found is None && m.last_content
            is None,
        closed(src, pr.line_continuation),
        no_newline(section),
        no_newline(key),
        no_newline(value),
        section_name(header(section)) == Some(trimmed(section)),
        section_name(assignment(key, value)) is None,
        value_range(
            assignment(key, value),
            key,
            pr.comment_delimiters@,
            pr.value_start_delimiters@,
        ) == Some(((key.len() + 1) as int, (key.len() + 1 + value.len()) as int)),
    ensures
        ({
            let m = scan(pr, Some(section), key, src)->Some_0;
            let out = written(src, m, Some(section), key, value);
            let start = (src.len() + header(section).len() + key.len() + 1) as int;
            &&& out == src + header(section) + assignment(key, value)
            &&& out.subrange(start, start + value.len()) == value
            &&& scan(pr, Some(section), key, out) matches Some(m2) && m2.found == Some(
                (start, start + value.len()),
            ) && written(out, m2, Some(section), key, value) == out
        }),
{
    let sec = Some(section);
    let m = scan(pr, sec, key, src)->Some_0;
    crate::laws::lemma_scan_result_wf(pr, sec, key, src);
    let h = header(section);
    let a = assignment(key, value);
    let t = h + a;
    let out = written(src, m, sec, key, value);
    assert(out =~= src + t);
    assert(src + t =~= src + h + a);
    let start = (src.len() + h.len() + key.len() + 1) as int;
    assert(out.subrange(start, start + value.len()) =~= value);

    lemma_nothing_found(pr, sec, key, value, src);
    lemma_out_occurrences(pr, section, key, value, src);
    lemma_single_occurrence(pr, sec, key, value, out);
    let m2 = scan(pr, sec, key, out)->Some_0;
    assert(written(out, m2, sec, key, value) =~= out);
}

/// Where the last content ends at the current offset, the target section is open.
pub open spec fn content_open(m: ScanModel) -> bool {
    m.last_content == Some(m.processed) ==> m.in_section
}

/// A scan over a closed prefix `x` of `s` is the first part of the scan over `s`; the scan
/// over `x` ends at the end of `x` unless it stopped; the section state it ends in is the
/// one that `section_after` gives; it keeps `content_open`; and it only ever moves the last
/// content forward.
proof fn lemma_scan_prefix(
    pr: IniParser,
    section: Option<Seq<u8>>,
    key: Seq<u8>,
    x: Seq<u8>,
    s: Seq<u8>,
    pos: int,
    m: ScanModel,
)
    requires
        x.len() <= s.len(),
        x == s.subrange(0, x.len() as int),
        closed(x, pr.line_continuation),
        0 <= pos <= x.len(),
        m.processed == pos,
        model_wf(m),
        content_open(m),
    ensures
        scan_from(pr, section, key, s, pos, m) == (match scan_from(pr, section, key, x, pos, m) {
            None => None,
            Some(mx) => if mx.done {
                Some(mx)
            } else {
                scan_from(pr, section, key, s, x.len() as int, mx)
            },
        }),
        scan_from(pr, section, key, x, pos, m) matches Some(mx) ==> (mx.done || (mx.processed
            == x.len() && mx.in_section == section_after(pr, section, x, pos, m.in_section)))
            && model_wf(mx) && content_open(mx) && (mx.last_content == m.last_content || (
        mx.last_content matches Some(v) && v > pos)),
    decreases x.len() - pos,
{
    let c = pr.line_continuation;
    if m.done || pos >= x.len() {
    } else {
        lemma_logical_end_prefix(x, s, pos, c);
        lemma_logical_end(x, pos, c);
        let e = logical_end(x, pos, c);
        let line = x.subrange(pos, e);
        assert(line =~= s.subrange(pos, e));
        crate::laws::lemma_value_range_bounds(
            line,
            key,
            pr.comment_delimiters@,
            pr.value_start_delimiters@,
        );
        match scan_step(pr, section, key, m, line) {
            None => {},
            Some(m2) => {
                lemma_scan_prefix(pr, section, key, x, s, e, m2);
            },
        }
    }
}

/// After the offset `pos`, a scan moves the last content only forward.
proof fn lemma_scan_content_forward(
    pr: IniParser,
    section: Option<Seq<u8>>,
    key: Seq<u8>,
    s: Seq<u8>,
    pos: int,
    m: ScanModel,
)
    requires
        0 <= pos <= s.len(),
        m.processed == pos,
        model_wf(m),
    ensures
        scan_from(pr, section, key, s, pos, m) matches Some(r) ==> (r.last_content
            == m.last_content || (r.last_content matches Some(v) && v > pos)),
    decreases s.len() - pos,
{
    let c = pr.line_continuation;
    if m.done || pos >= s.len() {
    } else {
        lemma_logical_end(s, pos, c);
        let e = logical_end(s, pos, c);
        let line = s.subrange(pos, e);
        crate::laws::lemma_value_range_bounds(
            line,
            key,
            pr.comment_delimiters@,
            pr.value_start_delimiters@,
        );
        match scan_step(pr, section, key, m, line) {
            None => {},
            Some(m2) => {
                lemma_scan_content_forward(pr, section, key, s, e, m2);
            },
        }
    }
}

/// The line `key=value` put before `y`, in an open target section, is an occurrence of the
/// key; the occurrences after it are those of `y`.
proof fn lemma_inserted_line_occurrences(
    pr: IniParser,
    section: Option<Seq<u8>>,
    key: Seq<u8>,
    value: Seq<u8>,
    y: Seq<u8>,
)
    requires
        no_newline(key),
        no_newline(value),
        section_name(assignment(key, value)) is None,
        value_range(
            assignment(key, value),
            key,
            pr.comment_delimiters@,
            pr.value_start_delimiters@,
        ) == Some(((key.len() + 1) as int, (key.len() + 1 + value.len()) as int)),
        !(pr.line_continuation && ends_with_backslash(
            assignment(key, value),
            0,
            assignment(key, value).len() as int,
        )),
    ensures
        ({
            let a = assignment(key, value);
            occurrences_from(pr, section, key, a + y, 0, true) == seq![
                ((key.len() + 1) as int, (key.len() + 1 + value.len()) as int),
            ] + shifted(occurrences_from(pr, section, key, y, 0, true), a.len() as int)
        }),
{
    let c = pr.line_continuation;
    let a = assignment(key, value);
    let t = a + y;
    let al = a.len() as int;
    assert forall|i: int| 0 <= i < al - 1 implies t[i] != 0x0a by {
        if 0 <= i < key.len() {
            assert(t[i] == key[i]);
        } else if key.len() + 1 <= i < al - 1 {
            assert(t[i] == value[i - key.len() - 1]);
        }
    }
    lemma_phys_end_skip(t, 0, al - 1);
    assert(t[al - 1] == 0x0a);
    assert(phys_end(t, al - 1) == al);
    assert(a =~= t.subrange(0, al));
    lemma_back_ws_prefix(a, t, 0, al);
    crate::text::lemma_back_ws_bounds(a, 0, al);
    let b = back_ws(a, 0, al);
    if 0 < b {
        assert(t[b - 1] == a[b - 1]);
    }
    assert(ends_with_backslash(t, 0, al) == ends_with_backslash(a, 0, al));
    assert(logical_end(t, 0, c) == al);
    assert(t.subrange(0, al) =~= a);
    assert(y =~= t.subrange(al, t.len() as int));
    lemma_occurrences_shift(pr, section, key, t, al, y, al, true);
    assert(next_in_section(section, true, a));
}

/// Where a scan that found nothing puts the last content, the target section is open.
proof fn lemma_open_at_last_content(
    pr: IniParser,
    section: Option<Seq<u8>>,
    key: Seq<u8>,
    src: Seq<u8>,
)
    requires
        scan(pr, section, key, src) matches Some(m) && m.found is None && m.last_content is Some,
        closed(
            src.subrange(0, scan(pr, section, key, src)->Some_0.last_content->Some_0),
            pr.line_continuation,
        ),
    ensures
        ({
            let q = scan(pr, section, key, src)->Some_0.last_content->Some_0;
            &&& 0 <= q <= src.len()
            &&& section_after(
                pr,
                section,
                src.subrange(0, q),
                0,
                crate::scan::initial_model(section).in_section,
            )
        }),
{
    let m = scan(pr, section, key, src)->Some_0;
    let q = m.last_content->Some_0;
    crate::laws::lemma_scan_result_wf(pr, section, key, src);
    let x = src.subrange(0, q);
    let init = crate::scan::initial_model(section);
    assert(x =~= src.subrange(0, x.len() as int));
    lemma_scan_prefix(pr, section, key, x, src, 0, init);
    let mx = scan_from(pr, section, key, x, 0, init)->Some_0;
    assert(!mx.done);
    lemma_scan_content_forward(pr, section, key, src, q, mx);
}

/// The output of inserting `key=value` at the last content holds the key once: there.
#[verifier::rlimit(100)]
proof fn lemma_inserted_occurrences(
    pr: IniParser,
    section: Option<Seq<u8>>,
    key: Seq<u8>,
    value: Seq<u8>,
    src: Seq<u8>,
    q: int,
)
    requires
        0 <= q <= src.len(),
        occurrences(pr, section, key, src).len() == 0,
        section_after(
            pr,
            section,
            src.subrange(0, q),
            0,
            crate::scan::initial_model(section).in_section,
        ),
        closed(src.subrange(0, q), pr.line_continuation),
        no_newline(key),
        no_newline(value),
        section_name(assignment(key, value)) is None,
        value_range(
            assignment(key, value),
            key,
            pr.comment_delimiters@,
            pr.value_start_delimiters@,
        ) == Some(((key.len() + 1) as int, (key.len() + 1 + value.len()) as int)),
        !(pr.line_continuation && ends_with_backslash(
            assignment(key, value),
            0,
            assignment(key, value).len() as int,
        )),
    ensures
        ({
            let out = src.subrange(0, q) + assignment(key, value) + src.subrange(
                q,
                src.len() as int,
            );
            let start = q + key.len() + 1;
            occurrences(pr, section, key, out) == seq![(start, start + value.len())]
        }),
{
    let a = assignment(key, value);
    let x = src.subrange(0, q);
    let y = src.subrange(q, src.len() as int);
    let out = x + a + y;
    let start = q + key.len() + 1;
    let ins0 = crate::scan::initial_model(section).in_section;
    let insq = section_after(pr, section, x, 0, ins0);

    assert(x =~= src.subrange(0, x.len() as int));
    lemma_occurrences_prefix(pr, section, key, x, src, 0, ins0);
    assert(y =~= src.subrange(x.len() as int, src.len() as int));
    lemma_occurrences_shift(pr, section, key, src, q, y, q, insq);
    let occ_y = occurrences_from(pr, section, key, y, 0, insq);
    assert(shifted(occ_y, q).len() == occ_y.len());
    assert(occ_y.len() == 0);

    assert(x =~= out.subrange(0, x.len() as int));
    lemma_occurrences_prefix(pr, section, key, x, out, 0, ins0);
    assert(a + y =~= out.subrange(q, out.len() as int));
    lemma_occurrences_shift(pr, section, key, out, q, a + y, q, insq);
    lemma_inserted_line_occurrences(pr, section, key, value, y);
    assert(shifted(occ_y, a.len() as int) =~= Seq::<(int, int)>::empty());
    let hit = ((key.len() + 1) as int, (key.len() + 1 + value.len()) as int);
    assert(seq![hit] + Seq::<(int, int)>::empty() =~= seq![hit]);
    assert(shifted(seq![hit], q) =~= seq![(start, start + value.len())]);
    assert(occurrences_from(pr, section, key, x, 0, ins0) =~= Seq::<(int, int)>::empty());
}

/// Writing `value` for `key` where the key is absent but its section (or the global
/// namespace) is there inserts the line `key=value` just past the section's last non-blank
/// line. When the source up to that point ends with a closed line, and that line, on its
/// own, assigns exactly `value` to `key` and does not continue onto the next, then reading
/// the result finds `value`, and writing the same value again changes nothing.
pub proof fn law_inserted_key_round_trip(
    pr: IniParser,
    section: Option<Seq<u8>>,
    key: Seq<u8>,
    value: Seq<u8>,
    src: Seq<u8>,
)
    requires
        scan(pr, section, key, src) matches Some(m) && m.found is None && m.last_content is Some,
        closed(
            src.subrange(0, scan(pr, section, key, src)->Some_0.last_content->Some_0),
            pr.line_continuation,
        ),
        no_newline(key),
        no_newline(value),
        section_name(assignment(key, value)) is None,
        value_range(
            assignment(key, value),
            key,
            pr.comment_delimiters@,
            pr.value_start_delimiters@,
        ) == Some(((key.len() + 1) as int, (key.len() + 1 + value.len()) as int)),
        !(pr.line_continuation && ends_with_backslash(
            assignment(key, value),
            0,
            assignment(key, value).len() as int,
        )),
    ensures
        ({
            let m = scan(pr, section, key, src)->Some_0;
            let q = m.last_content->Some_0;
            let out = written(src, m, section, key, value);
            let start = q + key.len() + 1;
            &&& out == src.subrange(0, q) + assignment(key, value) + src.subrange(
                q,
                src.len() as int,
            )
            &&& out.subrange(start, start + value.len()) == value
            &&& scan(pr, section, key, out) matches Some(m2) && m2.found == Some(
                (start, start + value.len()),
            ) && written(out, m2, section, key, value) == out
        }),
{
    let m = scan(pr, section, key, src)->Some_0;
    let q = m.last_content->Some_0;
    crate::laws::lemma_scan_result_wf(pr, section, key, src);
    let a = assignment(key, value);
    let x = src.subrange(0, q);
    let y = src.subrange(q, src.len() as int);
    let out = written(src, m, section, key, value);
    assert(out =~= x + a + y);
    let start = q + key.len() + 1;
    assert(out.subrange(start, start + value.len()) =~= value);

    lemma_open_at_last_content(pr, section, key, src);
    lemma_nothing_found(pr, section, key, value, src);
    lemma_inserted_occurrences(pr, section, key, value, src, q);
    assert(out == x + a + y);
    lemma_single_occurrence(pr, section, key, value, out);
    let m2 = scan(pr, section, key, out)->Some_0;
    assert(written(out, m2, section, key, value) =~= out);
}

} // verus!
