//! Writing over a key's existing value, read back: when the value's line is a logical line
//! of its own, the edited line is the only line that changes, so the key reads back as the
//! value written, and writing it a second time changes nothing.
use vstd::prelude::*;
use crate::laws::{
    law_error_on_duplicates, law_use_first, law_use_last, match_in, next_in_section,
    occurrences, occurrences_from,
};
use crate::lexer::{
    ends_with_backslash, lemma_phys_end, logical_end, phys_end, section_name, value_range,
};
use crate::parser::{DuplicateKeyStrategy, IniParser};
use crate::roundtrip::{
    closed, lemma_occurrences_prefix, lemma_occurrences_shift, no_newline, section_after,
    shifted,
};
use crate::scan::{initial_model, scan};
use crate::text::{
    char_utf8, char_width_at, char_width_from, find_char, lemma_find_char_bounds, occurs_at,
    skip_ws,
};
use crate::write::{splice, written};

verus! {

/// Start of the physical line that holds offset `i`: just past the last newline before it.
pub open spec fn line_start(s: Seq<u8>, i: int) -> int
    decreases i,
{
    if i <= 0 {
        0
    } else if s[i - 1] == 0x0a {
        i
    } else {
        line_start(s, i - 1)
    }
}

proof fn lemma_line_start(s: Seq<u8>, i: int)
    requires
        0 <= i <= s.len(),
    ensures
        0 <= line_start(s, i) <= i,
        line_start(s, i) > 0 ==> s[line_start(s, i) - 1] == 0x0a,
        forall|j: int| line_start(s, i) <= j < i ==> s[j] != 0x0a,
    decreases i,
{
    if i > 0 && s[i - 1] != 0x0a {
        lemma_line_start(s, i - 1);
    }
}

proof fn lemma_phys_end_skip(s: Seq<u8>, p: int, q: int)
    requires
        0 <= p <= q <= s.len(),
        forall|i: int| p <= i < q ==> s[i] != 0x0a,
    ensures
        phys_end(s, p) == phys_end(s, q),
    decreases q - p,
{
    if p < q {
        lemma_phys_end_skip(s, p + 1, q);
    }
}

/// A physical line of a source that ends with a newline ends with that newline.
proof fn lemma_phys_end_newline(s: Seq<u8>, p: int)
    requires
        0 <= p < s.len(),
        s.last() == 0x0a,
    ensures
        s[phys_end(s, p) - 1] == 0x0a,
    decreases s.len() - p,
{
    if s[p] != 0x0a {
        lemma_phys_end_newline(s, p + 1);
    }
}

/// A logical line of a source that ends with a newline ends with a newline.
proof fn lemma_logical_end_newline(s: Seq<u8>, p: int, c: bool)
    requires
        0 <= p < s.len(),
        s.last() == 0x0a,
    ensures
        s[logical_end(s, p, c) - 1] == 0x0a,
    decreases s.len() - p,
{
    lemma_phys_end(s, p);
    lemma_phys_end_newline(s, p);
    let e = phys_end(s, p);
    if c && p < e && e < s.len() && crate::lexer::ends_with_backslash(s, p, e) {
        lemma_logical_end_newline(s, e, c);
    }
}

proof fn lemma_char_width_member(s: Seq<u8>, i: int, hi: int, cs: Seq<char>, k: int)
    requires
        char_width_from(s, i, hi, cs, k) > 0,
    ensures
        exists|j: int|
            0 <= j < cs.len() && occurs_at(s, i, hi, char_utf8(cs[j])) && char_utf8(cs[j]).len()
                == char_width_from(s, i, hi, cs, k),
    decreases cs.len() - k,
{
    if k < 0 || k >= cs.len() {
    } else if occurs_at(s, i, hi, char_utf8(cs[k])) {
    } else {
        lemma_char_width_member(s, i, hi, cs, k + 1);
    }
}

/// An encoding that ends with a newline byte is the newline's.
proof fn lemma_char_utf8_newline(c: char)
    requires
        char_utf8(c).last() == 0x0a,
    ensures
        c == '\n',
{
    let v = c as u32 as int;
    if v >= 0x80 {
        assert(0 <= v % 64 < 64);
        assert(char_utf8(c).last() >= 0x80);
    }
}

/// The value of a line that ends with a newline starts before that newline, when the
/// newline is not a delimiter.
proof fn lemma_value_before_newline(line: Seq<u8>, key: Seq<u8>, comments: Seq<char>, delims: Seq<char>)
    requires
        line.len() > 0,
        line.last() == 0x0a,
        !delims.contains('\n'),
    ensures
        value_range(line, key, comments, delims) matches Some((a, b)) ==> 0 <= a < line.len(),
{
    crate::laws::lemma_value_range_bounds(line, key, comments, delims);
    let n = line.len() as int;
    let cut = find_char(line, 0, n, comments);
    lemma_find_char_bounds(line, 0, n, comments);
    let d = find_char(line, 0, cut, delims);
    lemma_find_char_bounds(line, 0, cut, delims);
    if d < cut {
        crate::boundary::lemma_find_char_found(line, 0, cut, delims);
        let w = char_width_at(line, d, cut, delims);
        lemma_char_width_member(line, d, cut, delims, 0);
        let j = choose|j: int|
            0 <= j < delims.len() && occurs_at(line, d, cut, char_utf8(delims[j]))
                && char_utf8(delims[j]).len() == w;
        let enc = char_utf8(delims[j]);
        if d + w == n {
            assert(line[d + (enc.len() - 1)] == enc[enc.len() - 1]);
            lemma_char_utf8_newline(delims[j]);
            assert(delims.contains('\n'));
        }
        let after = d + w;
        let vs = skip_ws(line, after, cut);
        crate::text::lemma_skip_ws_bounds(line, after, cut);
    }
}

/// Every occurrence from offset `pos` on starts at or after `pos`, and within `s`.
proof fn lemma_occurrences_after(
    pr: IniParser,
    section: Option<Seq<u8>>,
    key: Seq<u8>,
    s: Seq<u8>,
    pos: int,
    ins: bool,
)
    requires
        0 <= pos,
    ensures
        forall|i: int|
            0 <= i < occurrences_from(pr, section, key, s, pos, ins).len() ==> pos
                <= #[trigger] occurrences_from(pr, section, key, s, pos, ins)[i].0,
    decreases s.len() - pos,
{
    if pos >= s.len() {
    } else {
        let e = logical_end(s, pos, pr.line_continuation);
        if e <= pos || e > s.len() {
        } else {
            let line = s.subrange(pos, e);
            crate::laws::lemma_value_range_bounds(
                line,
                key,
                pr.comment_delimiters@,
                pr.value_start_delimiters@,
            );
            let ins2 = next_in_section(section, ins, line);
            lemma_occurrences_after(pr, section, key, s, e, ins2);
            let occ = occurrences_from(pr, section, key, s, pos, ins);
            let rest = occurrences_from(pr, section, key, s, e, ins2);
            let here = match match_in(pr, key, ins, line) {
                Some((a, b)) => seq![(pos + a, pos + b)],
                None => Seq::<(int, int)>::empty(),
            };
            assert(occ == here + rest);
            assert forall|i: int| 0 <= i < occ.len() implies pos <= #[trigger] occ[i].0 by {
                if i >= here.len() {
                    assert(occ[i] == rest[i - here.len()]);
                }
            }
        }
    }
}

/// In a source that ends with a newline, read line by line, every occurrence starts before
/// the end, when the newline is not a delimiter.
proof fn lemma_occurrences_before_end(
    pr: IniParser,
    section: Option<Seq<u8>>,
    key: Seq<u8>,
    s: Seq<u8>,
    pos: int,
    ins: bool,
)
    requires
        0 <= pos,
        s.len() > 0,
        s.last() == 0x0a,
        !pr.value_start_delimiters@.contains('\n'),
    ensures
        forall|i: int|
            0 <= i < occurrences_from(pr, section, key, s, pos, ins).len() ==> #[trigger] occurrences_from(
                pr,
                section,
                key,
                s,
                pos,
                ins,
            )[i].0 < s.len(),
    decreases s.len() - pos,
{
    if pos >= s.len() {
    } else {
        crate::lexer::lemma_logical_end(s, pos, pr.line_continuation);
        let e = logical_end(s, pos, pr.line_continuation);
        let line = s.subrange(pos, e);
        lemma_logical_end_newline(s, pos, pr.line_continuation);
        lemma_value_before_newline(
            line,
            key,
            pr.comment_delimiters@,
            pr.value_start_delimiters@,
        );
        let ins2 = next_in_section(section, ins, line);
        lemma_occurrences_before_end(pr, section, key, s, e, ins2);
        let occ = occurrences_from(pr, section, key, s, pos, ins);
        let rest = occurrences_from(pr, section, key, s, e, ins2);
        let here = match match_in(pr, key, ins, line) {
            Some((a, b)) => seq![(pos + a, pos + b)],
            None => Seq::<(int, int)>::empty(),
        };
        assert(occ == here + rest);
        assert forall|i: int| 0 <= i < occ.len() implies #[trigger] occ[i].0 < s.len() by {
            if i >= here.len() {
                assert(occ[i] == rest[i - here.len()]);
            }
        }
    }
}

/// The occurrence, if any, that `line`, starting at `start`, holds in section state `ins`.
pub open spec fn line_hit(pr: IniParser, key: Seq<u8>, ins: bool, line: Seq<u8>, start: int) -> Seq<
    (int, int),
> {
    match match_in(pr, key, ins, line) {
        Some((a, b)) => seq![(start + a, start + b)],
        None => Seq::empty(),
    }
}

/// With continuation on, the line that starts at `ls` is a logical line of its own: the
/// line before it does not continue onto it, and it does not continue onto the next.
pub open spec fn line_alone(continuation: bool, s: Seq<u8>, ls: int) -> bool {
    continuation ==> (closed(s.subrange(0, ls), true) && !(phys_end(s, ls) < s.len()
        && ends_with_backslash(s, ls, phys_end(s, ls))))
}

proof fn lemma_line_alone(c: bool, s: Seq<u8>, ls: int)
    requires
        0 <= ls < s.len(),
        ls == 0 || s[ls - 1] == 0x0a,
        line_alone(c, s, ls),
    ensures
        closed(s.subrange(0, ls), c),
        logical_end(s, ls, c) == phys_end(s, ls),
{
    let x = s.subrange(0, ls);
    if ls > 0 {
        assert(x.last() == s[ls - 1]);
    }
    lemma_phys_end(s, ls);
}

/// Read line by line, the occurrences of a source split at the start `ls` of a line: those
/// before it, the line's own, and those after it.
proof fn lemma_split_at_line(
    pr: IniParser,
    section: Option<Seq<u8>>,
    key: Seq<u8>,
    s: Seq<u8>,
    ls: int,
)
    requires
        0 <= ls < s.len(),
        ls == 0 || s[ls - 1] == 0x0a,
        line_alone(pr.line_continuation, s, ls),
    ensures
        ({
            let ins0 = initial_model(section).in_section;
            let x = s.subrange(0, ls);
            let e = phys_end(s, ls);
            let line = s.subrange(ls, e);
            let i = section_after(pr, section, x, 0, ins0);
            &&& ls < e <= s.len()
            &&& occurrences(pr, section, key, s) == occurrences_from(pr, section, key, x, 0, ins0)
                + line_hit(pr, key, i, line, ls) + shifted(
                occurrences_from(
                    pr,
                    section,
                    key,
                    s.subrange(e, s.len() as int),
                    0,
                    next_in_section(section, i, line),
                ),
                e,
            )
        }),
{
    let ins0 = initial_model(section).in_section;
    let x = s.subrange(0, ls);
    lemma_phys_end(s, ls);
    let e = phys_end(s, ls);
    let line = s.subrange(ls, e);
    let i = section_after(pr, section, x, 0, ins0);
    assert(x =~= s.subrange(0, x.len() as int));
    lemma_line_alone(pr.line_continuation, s, ls);
    lemma_occurrences_prefix(pr, section, key, x, s, 0, ins0);
    let i2 = next_in_section(section, i, line);
    let t = s.subrange(e, s.len() as int);
    lemma_occurrences_shift(pr, section, key, s, e, t, e, i2);
    let rest = occurrences_from(pr, section, key, s, e, i2);
    assert(occurrences_from(pr, section, key, s, ls, i) == line_hit(pr, key, i, line, ls) + rest);
    assert(occurrences_from(pr, section, key, x, 0, ins0) + (line_hit(pr, key, i, line, ls)
        + rest) =~= occurrences_from(pr, section, key, x, 0, ins0) + line_hit(
        pr,
        key,
        i,
        line,
        ls,
    ) + rest);
}

/// The value that a scan finds is an occurrence; under `UseFirst` the first, under
/// `UseLast` the last, under `Error` the only one.
proof fn lemma_found_occurrence(
    pr: IniParser,
    section: Option<Seq<u8>>,
    key: Seq<u8>,
    s: Seq<u8>,
)
    requires
        scan(pr, section, key, s) matches Some(m) && m.found is Some,
    ensures
        ({
            let occ = occurrences(pr, section, key, s);
            let f = scan(pr, section, key, s)->Some_0.found->Some_0;
            &&& occ.len() > 0
            &&& pr.duplicate_keys == DuplicateKeyStrategy::UseFirst ==> f == occ[0]
            &&& pr.duplicate_keys == DuplicateKeyStrategy::UseLast ==> f == occ.last()
            &&& pr.duplicate_keys == DuplicateKeyStrategy::Error ==> occ.len() == 1 && f == occ[0]
        }),
{
    let init = initial_model(section);
    match pr.duplicate_keys {
        DuplicateKeyStrategy::UseFirst => crate::laws::lemma_use_first(pr, section, key, s, 0, init),
        DuplicateKeyStrategy::UseLast => crate::laws::lemma_use_last(pr, section, key, s, 0, init),
        DuplicateKeyStrategy::Error => crate::laws::lemma_error_policy(pr, section, key, s, 0, init),
    }
}

/// The value that a line-by-line scan finds sits in the line that holds its start; that
/// line is a key/value line of the open target section; and the occurrences that the
/// policy passes over lie outside it.
proof fn lemma_found_in_line(pr: IniParser, section: Option<Seq<u8>>, key: Seq<u8>, s: Seq<u8>)
    requires
        !pr.value_start_delimiters@.contains('\n'),
        scan(pr, section, key, s) matches Some(m) && m.found is Some,
        line_alone(
            pr.line_continuation,
            s,
            line_start(s, scan(pr, section, key, s)->Some_0.found->Some_0.0),
        ),
    ensures
        ({
            let (a, b) = scan(pr, section, key, s)->Some_0.found->Some_0;
            let ins0 = initial_model(section).in_section;
            let ls = line_start(s, a);
            let x = s.subrange(0, ls);
            let e = phys_end(s, ls);
            let line = s.subrange(ls, e);
            let i = section_after(pr, section, x, 0, ins0);
            let before = occurrences_from(pr, section, key, x, 0, ins0);
            let after = occurrences_from(pr, section, key, s.subrange(e, s.len() as int), 0, i);
            &&& 0 <= ls <= a <= b <= e <= s.len()
            &&& ls < s.len()
            &&& (ls == 0 || s[ls - 1] == 0x0a)
            &&& i
            &&& match_in(pr, key, true, line) == Some((a - ls, b - ls))
            &&& section_name(line) is None
            &&& next_in_section(section, i, line) == i
            &&& (pr.duplicate_keys == DuplicateKeyStrategy::UseFirst ==> before.len() == 0)
            &&& (pr.duplicate_keys == DuplicateKeyStrategy::UseLast ==> after.len() == 0)
            &&& (pr.duplicate_keys == DuplicateKeyStrategy::Error ==> before.len() == 0
                && after.len() == 0)
        }),
{
    let (a, b) = scan(pr, section, key, s)->Some_0.found->Some_0;
    let ins0 = initial_model(section).in_section;
    let occ = occurrences(pr, section, key, s);
    lemma_found_occurrence(pr, section, key, s);
    let k: int = if pr.duplicate_keys == DuplicateKeyStrategy::UseLast {
        occ.len() - 1
    } else {
        0
    };
    assert(occ[k] == (a, b));
    lemma_occurrences_after(pr, section, key, s, 0, ins0);
    crate::laws::lemma_scan_result_wf(pr, section, key, s);
    assert(s.len() > 0) by {
        if s.len() == 0 {
            assert(occ.len() == 0);
        }
    }
    if s.last() == 0x0a {
        lemma_occurrences_before_end(pr, section, key, s, 0, ins0);
    }
    lemma_line_start(s, a);
    let ls = line_start(s, a);
    assert(ls < s.len()) by {
        if a == s.len() {
            assert(s[a - 1] != 0x0a);
        }
    }
    lemma_split_at_line(pr, section, key, s, ls);
    let x = s.subrange(0, ls);
    let e = phys_end(s, ls);
    let line = s.subrange(ls, e);
    let i = section_after(pr, section, x, 0, ins0);
    let t = s.subrange(e, s.len() as int);
    let i2 = next_in_section(section, i, line);
    let before = occurrences_from(pr, section, key, x, 0, ins0);
    let here = line_hit(pr, key, i, line, ls);
    let after = occurrences_from(pr, section, key, t, 0, i2);
    let sh = shifted(after, e);
    assert(occ == before + here + sh);
    // Everything before the line starts before it.
    if ls > 0 {
        assert(x.last() == 0x0a);
        lemma_occurrences_before_end(pr, section, key, x, 0, ins0);
    }
    // Everything after the line starts at or after its end, which lies past the value.
    lemma_occurrences_after(pr, section, key, t, 0, i2);
    lemma_phys_end_skip(s, ls, a);
    lemma_phys_end(s, a);
    assert(forall|j: int| 0 <= j < sh.len() ==> #[trigger] sh[j].0 >= e) by {
        assert forall|j: int| 0 <= j < sh.len() implies #[trigger] sh[j].0 >= e by {
            assert(sh[j] == (after[j].0 + e, after[j].1 + e));
            assert(after[j].0 >= 0);
        }
    }
    assert(here.len() == 1 && here[0] == (a, b)) by {
        if k < before.len() {
            assert(occ[k] == before[k]);
            assert(before[k].0 < ls);
        } else if k >= before.len() + here.len() {
            assert(occ[k] == sh[k - before.len() - here.len()]);
            assert(sh.len() > 0);
            assert(t.len() > 0);
        }
        assert(occ[k] == here[k - before.len()]);
    }
    crate::laws::lemma_value_range_bounds(
        line,
        key,
        pr.comment_delimiters@,
        pr.value_start_delimiters@,
    );
    if pr.duplicate_keys == DuplicateKeyStrategy::UseFirst {
        if before.len() > 0 {
            assert(occ[0] == before[0]);
            assert(before[0].0 < ls);
        }
    }
    if pr.duplicate_keys == DuplicateKeyStrategy::UseLast {
        if after.len() > 0 {
            assert(occ.last() == sh[sh.len() - 1]);
            assert(t.len() > 0);
        }
    }
}

/// The line that holds offset `a` of `src`, with `src[a..b]` replaced by `value`.
pub open spec fn edited_line(src: Seq<u8>, a: int, b: int, value: Seq<u8>) -> Seq<u8> {
    let ls = line_start(src, a);
    src.subrange(ls, a) + value + src.subrange(b, phys_end(src, ls))
}

/// Does the edited line, on its own, assign exactly `value` to `key`?
pub open spec fn edited_line_assigns(
    pr: IniParser,
    key: Seq<u8>,
    value: Seq<u8>,
    src: Seq<u8>,
    a: int,
    b: int,
) -> bool {
    let line = edited_line(src, a, b, value);
    let ls = line_start(src, a);
    &&& section_name(line) is None
    &&& value_range(line, key, pr.comment_delimiters@, pr.value_start_delimiters@) == Some(
        (a - ls, a - ls + value.len()),
    )
}

/// The conditions under which the edited line stands for the source's line: the old and
/// new values hold no newline, the line is a logical line of its own before and after the
/// edit, and the edited line, on its own, assigns exactly `value` to `key`.
pub open spec fn replaceable(pr: IniParser, key: Seq<u8>, value: Seq<u8>, src: Seq<u8>, a: int, b: int) -> bool {
    let ls = line_start(src, a);
    let e = phys_end(src, ls);
    let edited = edited_line(src, a, b, value);
    &&& no_newline(value)
    &&& no_newline(src.subrange(a, b))
    &&& line_alone(pr.line_continuation, src, ls)
    &&& (pr.line_continuation ==> !(e < src.len() && ends_with_backslash(edited, 0, edited.len() as int)))
    &&& edited_line_assigns(pr, key, value, src, a, b)
}

/// In the output, the edited line starts where the source's line did, ends where it ended
/// moved by the change in length, and is followed by the same bytes.
#[verifier::rlimit(100)]
proof fn lemma_output_line(pr: IniParser, value: Seq<u8>, src: Seq<u8>, a: int, b: int)
    requires
        0 <= line_start(src, a) <= a <= b <= phys_end(src, line_start(src, a)) <= src.len(),
        line_start(src, a) < src.len(),
        edited_line(src, a, b, value).len() > 0,
        no_newline(value),
        no_newline(src.subrange(a, b)),
        line_alone(pr.line_continuation, src, line_start(src, a)),
        pr.line_continuation ==> !(phys_end(src, line_start(src, a)) < src.len()
            && ends_with_backslash(
            edited_line(src, a, b, value),
            0,
            edited_line(src, a, b, value).len() as int,
        )),
    ensures
        ({
            let ls = line_start(src, a);
            let e = phys_end(src, ls);
            let out = splice(src, a, b, value);
            let d = value.len() - (b - a);
            &&& out.subrange(0, ls) == src.subrange(0, ls)
            &&& ls < out.len()
            &&& (ls == 0 || out[ls - 1] == 0x0a)
            &&& phys_end(out, ls) == e + d
            &&& out.subrange(ls, e + d) == edited_line(src, a, b, value)
            &&& out.subrange(e + d, out.len() as int) == src.subrange(e, src.len() as int)
            &&& line_alone(pr.line_continuation, out, ls)
        }),
{
    let ls = line_start(src, a);
    lemma_line_start(src, a);
    let e = phys_end(src, ls);
    let out = splice(src, a, b, value);
    let vl = value.len() as int;
    let d = vl - (b - a);
    let edited = edited_line(src, a, b, value);
    let x = src.subrange(0, ls);
    assert(out.subrange(0, ls) =~= x);
    if ls > 0 {
        assert(out[ls - 1] == src[ls - 1]);
    }
    assert forall|j: int| ls <= j < a implies out[j] != 0x0a by {
        assert(out[j] == src[j]);
    }
    lemma_phys_end_skip(out, ls, a);
    assert forall|j: int| a <= j < a + vl implies out[j] != 0x0a by {
        assert(out[j] == value[j - a]);
    }
    lemma_phys_end_skip(out, a, a + vl);
    let tail = src.subrange(b, src.len() as int);
    assert(tail =~= out.subrange(a + vl, out.len() as int));
    crate::roundtrip::lemma_phys_end_shift(out, a + vl, tail, a + vl);
    crate::roundtrip::lemma_phys_end_shift(src, b, tail, b);
    assert forall|j: int| a <= j < b implies src[j] != 0x0a by {
        assert(src[j] == src.subrange(a, b)[j - a]);
    }
    lemma_phys_end_skip(src, a, b);
    lemma_phys_end_skip(src, ls, a);
    let e2 = phys_end(out, ls);
    assert(e2 == e + d);
    assert(out.subrange(ls, e2) =~= edited);
    assert(out.subrange(e2, out.len() as int) =~= src.subrange(e, src.len() as int));
    if pr.line_continuation {
        let t = out.subrange(ls, out.len() as int);
        crate::roundtrip::lemma_back_ws_shift(out, ls, t, ls, e2);
        assert(edited =~= t.subrange(0, edited.len() as int));
        crate::roundtrip::lemma_back_ws_prefix(edited, t, 0, edited.len() as int);
        let bw = crate::text::back_ws(out, ls, e2);
        crate::text::lemma_back_ws_bounds(out, ls, e2);
        if ls < bw {
            assert(out[bw - 1] == edited[bw - 1 - ls]);
        }
        assert(ends_with_backslash(out, ls, e2) == ends_with_backslash(
            edited,
            0,
            edited.len() as int,
        ));
        assert(out.subrange(0, ls) =~= x);
    }
}

/// Read line by line, the output's occurrences are the source's, with the replaced one
/// moved to the new value and the later ones shifted by the change in length.
#[verifier::rlimit(100)]
proof fn lemma_output_split(
    pr: IniParser,
    section: Option<Seq<u8>>,
    key: Seq<u8>,
    value: Seq<u8>,
    src: Seq<u8>,
)
    requires
        !pr.value_start_delimiters@.contains('\n'),
        scan(pr, section, key, src) matches Some(m) && m.found is Some,
        replaceable(
            pr,
            key,
            value,
            src,
            scan(pr, section, key, src)->Some_0.found->Some_0.0,
            scan(pr, section, key, src)->Some_0.found->Some_0.1,
        ),
    ensures
        ({
            let (a, b) = scan(pr, section, key, src)->Some_0.found->Some_0;
            let ins0 = initial_model(section).in_section;
            let ls = line_start(src, a);
            let x = src.subrange(0, ls);
            let e = phys_end(src, ls);
            let i = section_after(pr, section, x, 0, ins0);
            let before = occurrences_from(pr, section, key, x, 0, ins0);
            let after = occurrences_from(pr, section, key, src.subrange(e, src.len() as int), 0, i);
            let out = splice(src, a, b, value);
            occurrences(pr, section, key, out) == before + seq![(a, a + value.len())] + shifted(
                after,
                e + value.len() - (b - a),
            )
        }),
{
    let (a, b) = scan(pr, section, key, src)->Some_0.found->Some_0;
    lemma_found_in_line(pr, section, key, src);
    let ins0 = initial_model(section).in_section;
    let ls = line_start(src, a);
    let x = src.subrange(0, ls);
    let e = phys_end(src, ls);
    let out = splice(src, a, b, value);
    let vl = value.len() as int;
    let edited = edited_line(src, a, b, value);
    assert(edited.len() > 0) by {
        if edited.len() == 0 {
            assert(value_range(edited, key, pr.comment_delimiters@, pr.value_start_delimiters@)
                is None);
        }
    }
    lemma_output_line(pr, value, src, a, b);
    lemma_split_at_line(pr, section, key, out, ls);
    assert(match_in(pr, key, true, edited) == Some((a - ls, a - ls + vl)));
    assert(line_hit(pr, key, true, edited, ls) =~= seq![(a, a + vl)]);
    assert(next_in_section(section, true, edited));
}

/// Writing `value` over the value that a scan finds replaces it in place. When the newline
/// is not a delimiter, the old and new values hold no newline, the value's line is a
/// logical line of its own before and after the edit, and the edited line, on its own,
/// assigns exactly `value` to `key`, then reading the result finds `value` there, and
/// writing the same value again changes nothing.
pub proof fn law_replaced_value_round_trip(
    pr: IniParser,
    section: Option<Seq<u8>>,
    key: Seq<u8>,
    value: Seq<u8>,
    src: Seq<u8>,
)
    requires
        !pr.value_start_delimiters@.contains('\n'),
        scan(pr, section, key, src) matches Some(m) && m.found is Some,
        replaceable(
            pr,
            key,
            value,
            src,
            scan(pr, section, key, src)->Some_0.found->Some_0.0,
            scan(pr, section, key, src)->Some_0.found->Some_0.1,
        ),
    ensures
        ({
            let m = scan(pr, section, key, src)->Some_0;
            let (a, b) = m.found->Some_0;
            let out = written(src, m, section, key, value);
            &&& out == splice(src, a, b, value)
            &&& out.subrange(a, a + value.len()) == value
            &&& scan(pr, section, key, out) matches Some(m2) && m2.found == Some(
                (a, a + value.len()),
            ) && written(out, m2, section, key, value) == out
        }),
{
    let m = scan(pr, section, key, src)->Some_0;
    let (a, b) = m.found->Some_0;
    lemma_found_in_line(pr, section, key, src);
    lemma_output_split(pr, section, key, value, src);
    let out = splice(src, a, b, value);
    let vl = value.len() as int;
    assert(out.subrange(a, a + vl) =~= value);
    let ins0 = initial_model(section).in_section;
    let ls = line_start(src, a);
    let x = src.subrange(0, ls);
    let e = phys_end(src, ls);
    let i = section_after(pr, section, x, 0, ins0);
    let before = occurrences_from(pr, section, key, x, 0, ins0);
    let after = occurrences_from(pr, section, key, src.subrange(e, src.len() as int), 0, i);
    let sh = shifted(after, e + vl - (b - a));
    let occ = occurrences(pr, section, key, out);
    assert(occ == before + seq![(a, a + vl)] + sh);
    let init = initial_model(section);
    match pr.duplicate_keys {
        DuplicateKeyStrategy::UseFirst => {
            assert(occ[0] == (a, a + vl));
            crate::laws::lemma_use_first(pr, section, key, out, 0, init);
        },
        DuplicateKeyStrategy::UseLast => {
            assert(sh.len() == 0);
            assert(occ.last() == (a, a + vl));
            crate::laws::lemma_use_last(pr, section, key, out, 0, init);
        },
        DuplicateKeyStrategy::Error => {
            assert(sh.len() == 0);
            assert(occ =~= seq![(a, a + vl)]);
            crate::laws::lemma_error_policy(pr, section, key, out, 0, init);
        },
    }
    let m2 = scan(pr, section, key, out)->Some_0;
    assert(written(out, m2, section, key, value) =~= out);
}

} // verus!
