//! What holds of the library across calls: the bytes outside the substitution are kept,
//! and which occurrence of a duplicated key counts under each policy.
use vstd::prelude::*;
use crate::boundary::lemma_char_width_from;
use crate::lexer::{lemma_logical_end, logical_end, section_name, value_range};
use crate::parser::{DuplicateKeyStrategy, IniParser};
use crate::scan::{
    initial_model, line_match, model_wf, opens_target, scan, scan_from, scan_step, ScanModel,
};
use crate::text::{
    char_utf8, char_width_at, char_width_from, find_char, occurs_at, lemma_back_ws_bounds, lemma_find_char_bounds,
    lemma_skip_ws_bounds, skip_ws,
};
use crate::write::{plan, splice, written};

verus! {

proof fn lemma_char_width_nonneg(s: Seq<u8>, i: int, hi: int, cs: Seq<char>, k: int)
    ensures
        char_width_from(s, i, hi, cs, k) >= 0,
    decreases cs.len() - k,
{
    if 0 <= k < cs.len() && !occurs_at(s, i, hi, char_utf8(cs[k])) {
        lemma_char_width_nonneg(s, i, hi, cs, k + 1);
    }
}

/// A value range lies within its line.
pub proof fn lemma_value_range_bounds(
    line: Seq<u8>,
    key: Seq<u8>,
    comments: Seq<char>,
    delims: Seq<char>,
)
    ensures
        value_range(line, key, comments, delims) matches Some((a, b)) ==> 0 <= a <= b
            <= line.len(),
{
    let n = line.len() as int;
    let cut = find_char(line, 0, n, comments);
    lemma_find_char_bounds(line, 0, n, comments);
    let d = find_char(line, 0, cut, delims);
    lemma_find_char_bounds(line, 0, cut, delims);
    if d < cut {
        let w = char_width_at(line, d, cut, delims);
        lemma_char_width_nonneg(line, d, cut, delims, 0);
        if w > 0 {
            lemma_char_width_from(line, d, cut, delims, 0);
        }
        let after = d + w;
        assert(after <= cut);
        lemma_skip_ws_bounds(line, after, cut);
        let vs = skip_ws(line, after, cut);
        if vs < cut {
            lemma_back_ws_bounds(line, vs, cut);
        }
    }
}

/// Every state that a scan goes through keeps the bounds of `model_wf`, and a scan that
/// found nothing has consumed the whole source.
pub proof fn lemma_scan_wf(
    p: IniParser,
    section: Option<Seq<u8>>,
    key: Seq<u8>,
    s: Seq<u8>,
    pos: int,
    m: ScanModel,
)
    requires
        0 <= pos <= s.len(),
        m.processed == pos,
        model_wf(m),
    ensures
        scan_from(p, section, key, s, pos, m) matches Some(r) ==> model_wf(r) && r.processed
            <= s.len() && (r.found is None ==> r.processed == s.len()),
    decreases s.len() - pos,
{
    if m.done || pos < 0 || pos >= s.len() {
    } else {
        lemma_logical_end(s, pos, p.line_continuation);
        let e = logical_end(s, pos, p.line_continuation);
        let line = s.subrange(pos, e);
        lemma_value_range_bounds(line, key, p.comment_delimiters@, p.value_start_delimiters@);
        match scan_step(p, section, key, m, line) {
            None => {},
            Some(m2) => {
                lemma_scan_wf(p, section, key, s, e, m2);
            },
        }
    }
}

/// The scan of a whole source, when it succeeds, keeps the bounds of `model_wf`.
pub proof fn lemma_scan_result_wf(p: IniParser, section: Option<Seq<u8>>, key: Seq<u8>, s: Seq<u8>)
    ensures
        scan(p, section, key, s) matches Some(r) ==> model_wf(r) && r.processed <= s.len() && (
        r.found is None ==> r.processed == s.len()),
{
    lemma_scan_wf(p, section, key, s, 0, initial_model(section));
}

/// Writing keeps every byte outside the substitution: the output is the source before the
/// substituted range, then the new text, then the source after the range.
pub proof fn law_bytes_outside_kept(
    p: IniParser,
    section: Option<Seq<u8>>,
    key: Seq<u8>,
    value: Seq<u8>,
    src: Seq<u8>,
)
    requires
        scan(p, section, key, src) is Some,
    ensures
        ({
            let m = scan(p, section, key, src)->Some_0;
            let (a, b, text) = plan(m, section, key, value);
            let out = written(src, m, section, key, value);
            &&& 0 <= a <= b <= src.len()
            &&& out.len() == src.len() - (b - a) + text.len()
            &&& out.subrange(0, a) == src.subrange(0, a)
            &&& out.subrange(a, a + text.len()) == text
            &&& out.subrange(a + text.len(), out.len() as int) == src.subrange(
                b,
                src.len() as int,
            )
        }),
{
    lemma_scan_result_wf(p, section, key, src);
    let m = scan(p, section, key, src)->Some_0;
    let (a, b, text) = plan(m, section, key, value);
    let out = written(src, m, section, key, value);
    assert(out.subrange(0, a) =~= src.subrange(0, a));
    assert(out.subrange(a, a + text.len()) =~= text);
    assert(out.subrange(a + text.len(), out.len() as int) =~= src.subrange(b, src.len() as int));
}

/// The section state after `line`, in state `in_section`.
pub open spec fn next_in_section(section: Option<Seq<u8>>, in_section: bool, line: Seq<u8>) -> bool {
    match section_name(line) {
        Some(name) => opens_target(section, name),
        None => in_section,
    }
}

/// Where the key's value stands in `line`, when `line` is a key/value line of the target
/// section, given whether the target section is open.
pub open spec fn match_in(p: IniParser, key: Seq<u8>, in_section: bool, line: Seq<u8>) -> Option<
    (int, int),
> {
    line_match(
        p,
        key,
        ScanModel { in_section, processed: 0, last_content: None, found: None, done: false },
        line,
    )
}

/// Every occurrence of the key in the target section from offset `pos` on, in order, as
/// byte ranges of its value; whatever the duplicate policy.
pub open spec fn occurrences_from(
    p: IniParser,
    section: Option<Seq<u8>>,
    key: Seq<u8>,
    s: Seq<u8>,
    pos: int,
    in_section: bool,
) -> Seq<(int, int)>
    decreases s.len() - pos,
{
    if pos < 0 || pos >= s.len() {
        Seq::empty()
    } else {
        let e = logical_end(s, pos, p.line_continuation);
        if e <= pos || e > s.len() {
            Seq::empty()
        } else {
            let line = s.subrange(pos, e);
            let here = match match_in(p, key, in_section, line) {
                Some((a, b)) => seq![(pos + a, pos + b)],
                None => Seq::empty(),
            };
            here + occurrences_from(
                p,
                section,
                key,
                s,
                e,
                next_in_section(section, in_section, line),
            )
        }
    }
}

/// Every occurrence of the key in the target section of `s`, in order.
pub open spec fn occurrences(p: IniParser, section: Option<Seq<u8>>, key: Seq<u8>, s: Seq<u8>) -> Seq<
    (int, int),
> {
    occurrences_from(p, section, key, s, 0, section is None)
}

pub proof fn lemma_use_last(
    p: IniParser,
    section: Option<Seq<u8>>,
    key: Seq<u8>,
    s: Seq<u8>,
    pos: int,
    m: ScanModel,
)
    requires
        p.duplicate_keys == DuplicateKeyStrategy::UseLast,
        !m.done,
        m.processed == pos,
        0 <= pos,
    ensures
        ({
            let occ = occurrences_from(p, section, key, s, pos, m.in_section);
            scan_from(p, section, key, s, pos, m) matches Some(r) && r.found == (if occ.len()
                > 0 {
                Some(occ.last())
            } else {
                m.found
            })
        }),
    decreases s.len() - pos,
{
    if pos >= s.len() {
    } else {
        let e = logical_end(s, pos, p.line_continuation);
        if e <= pos || e > s.len() {
        } else {
            let line = s.subrange(pos, e);
            let m2 = scan_step(p, section, key, m, line)->Some_0;
            assert(match_in(p, key, m.in_section, line) == line_match(p, key, m, line));
            lemma_use_last(p, section, key, s, e, m2);
            let rest = occurrences_from(
                p,
                section,
                key,
                s,
                e,
                next_in_section(section, m.in_section, line),
            );
            let occ = occurrences_from(p, section, key, s, pos, m.in_section);
            if rest.len() > 0 {
                match match_in(p, key, m.in_section, line) {
                    Some((a, b)) => {
                        assert(occ.last() == (seq![(pos + a, pos + b)] + rest).last());
                    },
                    None => {
                        assert(occ =~= rest);
                    },
                }
            } else {
                match match_in(p, key, m.in_section, line) {
                    Some((a, b)) => {
                        assert(occ =~= seq![(pos + a, pos + b)]);
                    },
                    None => {
                        assert(occ =~= rest);
                    },
                }
            }
        }
    }
}

pub proof fn lemma_use_first(
    p: IniParser,
    section: Option<Seq<u8>>,
    key: Seq<u8>,
    s: Seq<u8>,
    pos: int,
    m: ScanModel,
)
    requires
        p.duplicate_keys == DuplicateKeyStrategy::UseFirst,
        !m.done,
        m.processed == pos,
        0 <= pos,
    ensures
        ({
            let occ = occurrences_from(p, section, key, s, pos, m.in_section);
            scan_from(p, section, key, s, pos, m) matches Some(r) && r.found == (if occ.len()
                > 0 {
                Some(occ[0])
            } else {
                m.found
            })
        }),
    decreases s.len() - pos,
{
    if pos >= s.len() {
    } else {
        let e = logical_end(s, pos, p.line_continuation);
        if e <= pos || e > s.len() {
        } else {
            let line = s.subrange(pos, e);
            let m2 = scan_step(p, section, key, m, line)->Some_0;
            assert(match_in(p, key, m.in_section, line) == line_match(p, key, m, line));
            let occ = occurrences_from(p, section, key, s, pos, m.in_section);
            match match_in(p, key, m.in_section, line) {
                Some((a, b)) => {
                    assert(occ[0] == (pos + a, pos + b));
                },
                None => {
                    lemma_use_first(p, section, key, s, e, m2);
                    assert(occ =~= occurrences_from(
                        p,
                        section,
                        key,
                        s,
                        e,
                        next_in_section(section, m.in_section, line),
                    ));
                },
            }
        }
    }
}

pub proof fn lemma_error_policy(
    p: IniParser,
    section: Option<Seq<u8>>,
    key: Seq<u8>,
    s: Seq<u8>,
    pos: int,
    m: ScanModel,
)
    requires
        p.duplicate_keys == DuplicateKeyStrategy::Error,
        !m.done,
        m.processed == pos,
        0 <= pos,
    ensures
        ({
            let occ = occurrences_from(p, section, key, s, pos, m.in_section);
            let dup = occ.len() >= 2 || (occ.len() >= 1 && m.found is Some);
            &&& (scan_from(p, section, key, s, pos, m) is None <==> dup)
            &&& (!dup ==> (scan_from(p, section, key, s, pos, m) matches Some(r) && r.found == (
            if occ.len() > 0 {
                Some(occ[0])
            } else {
                m.found
            })))
        }),
    decreases s.len() - pos,
{
    if pos >= s.len() {
    } else {
        let e = logical_end(s, pos, p.line_continuation);
        if e <= pos || e > s.len() {
        } else {
            let line = s.subrange(pos, e);
            assert(match_in(p, key, m.in_section, line) == line_match(p, key, m, line));
            let occ = occurrences_from(p, section, key, s, pos, m.in_section);
            let rest = occurrences_from(
                p,
                section,
                key,
                s,
                e,
                next_in_section(section, m.in_section, line),
            );
            match match_in(p, key, m.in_section, line) {
                Some((a, b)) => {
                    assert(occ =~= seq![(pos + a, pos + b)] + rest);
                    if m.found is None {
                        let m2 = scan_step(p, section, key, m, line)->Some_0;
                        lemma_error_policy(p, section, key, s, e, m2);
                    }
                },
                None => {
                    assert(occ =~= rest);
                    let m2 = scan_step(p, section, key, m, line)->Some_0;
                    lemma_error_policy(p, section, key, s, e, m2);
                },
            }
        }
    }
}

/// Under `UseFirst`, the value that counts is the first occurrence of the key in its section,
/// and writing replaces that one and leaves every later occurrence as it was.
pub proof fn law_use_first(
    p: IniParser,
    section: Option<Seq<u8>>,
    key: Seq<u8>,
    value: Seq<u8>,
    s: Seq<u8>,
)
    requires
        p.duplicate_keys == DuplicateKeyStrategy::UseFirst,
    ensures
        ({
            let occ = occurrences(p, section, key, s);
            scan(p, section, key, s) matches Some(m) && (occ.len() > 0 ==> m.found == Some(occ[0])
                && written(s, m, section, key, value) == splice(s, occ[0].0, occ[0].1, value))
        }),
{
    lemma_use_first(p, section, key, s, 0, initial_model(section));
}

/// Under `UseLast`, the value that counts is the last occurrence of the key in its section,
/// and writing replaces that one and leaves every earlier occurrence as it was.
pub proof fn law_use_last(
    p: IniParser,
    section: Option<Seq<u8>>,
    key: Seq<u8>,
    value: Seq<u8>,
    s: Seq<u8>,
)
    requires
        p.duplicate_keys == DuplicateKeyStrategy::UseLast,
    ensures
        ({
            let occ = occurrences(p, section, key, s);
            scan(p, section, key, s) matches Some(m) && (occ.len() > 0 ==> m.found == Some(
                occ.last(),
            ) && written(s, m, section, key, value) == splice(
                s,
                occ.last().0,
                occ.last().1,
                value,
            ))
        }),
{
    lemma_use_last(p, section, key, s, 0, initial_model(section));
}

/// Under `Error`, the scan, and with it every read and write, fails exactly when the key
/// occurs twice or more in its section; otherwise its single occurrence is the one replaced.
pub proof fn law_error_on_duplicates(
    p: IniParser,
    section: Option<Seq<u8>>,
    key: Seq<u8>,
    value: Seq<u8>,
    s: Seq<u8>,
)
    requires
        p.duplicate_keys == DuplicateKeyStrategy::Error,
    ensures
        ({
            let occ = occurrences(p, section, key, s);
            &&& (scan(p, section, key, s) is None <==> occ.len() >= 2)
            &&& (occ.len() == 1 ==> (scan(p, section, key, s) matches Some(m) && m.found == Some(
                occ[0],
            ) && written(s, m, section, key, value) == splice(s, occ[0].0, occ[0].1, value)))
        }),
{
    lemma_error_policy(p, section, key, s, 0, initial_model(section));
}

} // verus!
