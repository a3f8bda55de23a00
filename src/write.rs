//! The write path: where the new text goes, and a windowed copy of the source that puts it
//! there while every other byte passes through unchanged.
use vstd::prelude::*;
use vstd::string::StringSliceAdditionalSpecFns;
use crate::error::Error;
use crate::parser::IniParser;
use crate::scan::{is_duplicate_error, opt_bytes, scan, ScanModel, ScanResult};

verus! {

/// Size of the copy buffer of `IniParser::write_value`.
pub const WRITE_BUFFER_SIZE: usize = 8192;

/// The line `key=value` followed by a newline.
pub open spec fn assignment(key: Seq<u8>, value: Seq<u8>) -> Seq<u8> {
    key + seq![0x3du8] + value + seq![0x0au8]
}

/// The header line `[section]` followed by a newline.
pub open spec fn header(section: Seq<u8>) -> Seq<u8> {
    seq![0x5bu8] + section + seq![0x5du8, 0x0au8]
}

/// The substitution that writing `value` for `key` makes, given what the scan reported: the
/// value's own range when the key was found; else an insertion of `key=value` just past the
/// last non-blank line of the section; else, at the end of the source, the line preceded by
/// a header when a section was asked for.
pub open spec fn plan(m: ScanModel, section: Option<Seq<u8>>, key: Seq<u8>, value: Seq<u8>) -> (
    int,
    int,
    Seq<u8>,
) {
    match m.found {
        Some((a, b)) => (a, b, value),
        None => match m.last_content {
            Some(q) => (q, q, assignment(key, value)),
            None => match section {
                Some(s) => (m.processed, m.processed, header(s) + assignment(key, value)),
                None => (m.processed, m.processed, assignment(key, value)),
            },
        },
    }
}

/// `src` with `src[a..b]` replaced by `text`.
pub open spec fn splice(src: Seq<u8>, a: int, b: int, text: Seq<u8>) -> Seq<u8> {
    src.subrange(0, a) + text + src.subrange(b, src.len() as int)
}

/// `x` held within `[lo, hi]`.
pub open spec fn clamp(x: int, lo: int, hi: int) -> int {
    if x < lo {
        lo
    } else if x > hi {
        hi
    } else {
        x
    }
}

/// What the copy emits for the window of source bytes `chunk` that starts at offset `ws`:
/// the window's bytes before `a`, the text when `a` falls in the window, and the window's
/// bytes from `b` on.
pub open spec fn window_piece(sub: (int, int, Seq<u8>), ws: int, chunk: Seq<u8>) -> Seq<u8> {
    let (a, b, text) = sub;
    let we = ws + chunk.len();
    chunk.subrange(0, clamp(a, ws, we) - ws) + (if ws <= a && a < we {
        text
    } else {
        Seq::empty()
    }) + chunk.subrange(clamp(b, ws, we) - ws, chunk.len() as int)
}

/// What the copy has emitted once the first `w` bytes of `src` went through it.
pub open spec fn copied_prefix(sub: (int, int, Seq<u8>), src: Seq<u8>, w: int) -> Seq<u8> {
    let (a, b, text) = sub;
    if w <= a {
        src.subrange(0, w)
    } else {
        src.subrange(0, a) + text + src.subrange(if b < w { b } else { w }, w)
    }
}

/// What writing `value` for `key` in `section` makes of `src`, given the scan's report.
pub open spec fn written(
    src: Seq<u8>,
    m: ScanModel,
    section: Option<Seq<u8>>,
    key: Seq<u8>,
    value: Seq<u8>,
) -> Seq<u8> {
    let (a, b, text) = plan(m, section, key, value);
    splice(src, a, b, text)
}

/// Copying window by window, with windows of any sizes, emits what copying the whole
/// source at once would: one more window of `n` bytes extends the output by exactly the
/// piece that `window_piece` gives.
pub proof fn law_window_copy(sub: (int, int, Seq<u8>), src: Seq<u8>, w: int, n: int)
    requires
        0 <= sub.0 <= sub.1 <= src.len(),
        0 <= w,
        0 <= n,
        w + n <= src.len(),
    ensures
        copied_prefix(sub, src, w) + window_piece(sub, w, src.subrange(w, w + n))
            == copied_prefix(sub, src, w + n),
{
    let (a, b, text) = sub;
    let chunk = src.subrange(w, w + n);
    let we = w + n;
    let lhs = copied_prefix(sub, src, w) + window_piece(sub, w, chunk);
    let rhs = copied_prefix(sub, src, w + n);
    if we <= a {
        assert(lhs =~= rhs);
    } else if w <= a {
        assert(lhs =~= rhs);
    } else if b <= w {
        assert(lhs =~= rhs);
    } else {
        assert(lhs =~= rhs);
    }
}

/// A substitution: replace `source[start..end]` by `text`.
pub struct Substitution {
    pub start: usize,
    pub end: usize,
    pub text: Vec<u8>,
}

impl View for Substitution {
    type V = (int, int, Seq<u8>);

    open spec fn view(&self) -> (int, int, Seq<u8>) {
        (self.start as int, self.end as int, self.text@)
    }
}

/// Appends the bytes of `b` to `out`.
pub fn append_bytes(out: &mut Vec<u8>, b: &[u8])
    ensures
        final(out)@ == old(out)@ + b@,
{
    let ghost start = out@;
    let mut i: usize = 0;
    while i < b.len()
        invariant
            i <= b@.len(),
            out@ == start + b@.subrange(0, i as int),
        decreases b@.len() - i,
    {
        out.push(b[i]);
        i = i + 1;
        assert(out@ =~= start + b@.subrange(0, i as int));
    }
    assert(b@.subrange(0, b@.len() as int) =~= b@);
}

/// The substitution that writing `value` for `key` in `section` makes, given the scan's
/// report.
pub fn plan_substitution(scan: &ScanResult, section: Option<&str>, key: &str, value: &str) -> (r:
    Substitution)
    ensures
        r@ == plan(scan@, opt_bytes(section), key.spec_bytes(), value.spec_bytes()),
{
    let mut text: Vec<u8> = Vec::new();
    match &scan.value_range {
        Some(range) => {
            append_bytes(&mut text, value.as_bytes());
            assert(text@ =~= value.spec_bytes());
            Substitution { start: range.start, end: range.end, text }
        },
        None => {
            let at = match scan.last_content_byte_in_section {
                Some(q) => q,
                None => {
                    if let Some(s) = section {
                        text.push(0x5b);
                        append_bytes(&mut text, s.as_bytes());
                        text.push(0x5d);
                        text.push(0x0a);
                    }
                    scan.total_bytes
                },
            };
            let ghost head = text@;
            append_bytes(&mut text, key.as_bytes());
            text.push(0x3d);
            append_bytes(&mut text, value.as_bytes());
            text.push(0x0a);
            assert(text@ =~= head + assignment(key.spec_bytes(), value.spec_bytes()));
            proof {
                if scan.last_content_byte_in_section is None {
                    if let Some(s) = section {
                        assert(head =~= header(s.spec_bytes()));
                    } else {
                        assert(head =~= Seq::<u8>::empty());
                    }
                } else {
                    assert(head =~= Seq::<u8>::empty());
                }
            }
            Substitution { start: at, end: at, text }
        },
    }
}

/// Emits what the copy makes of the window `chunk` of source bytes that starts at offset
/// `window_start`.
pub fn emit_window(sub: &Substitution, window_start: usize, chunk: &[u8], out: &mut Vec<u8>)
    requires
        window_start + chunk@.len() <= usize::MAX,
    ensures
        final(out)@ == old(out)@ + window_piece(sub@, window_start as int, chunk@),
{
    let ws = window_start;
    let we = window_start + chunk.len();
    let pre_end = if sub.start < ws {
        ws
    } else if sub.start > we {
        we
    } else {
        sub.start
    };
    let post_start = if sub.end < ws {
        ws
    } else if sub.end > we {
        we
    } else {
        sub.end
    };
    let ghost start = out@;
    append_bytes(out, vstd::slice::slice_subrange(chunk, 0, pre_end - ws));
    if ws <= sub.start && sub.start < we {
        append_bytes(out, sub.text.as_slice());
    }
    append_bytes(out, vstd::slice::slice_subrange(chunk, post_start - ws, chunk.len()));
    assert(out@ =~= start + window_piece(sub@, window_start as int, chunk@));
}

/// Emits the text when its place is the end of the source, which no window holds.
pub fn emit_tail(sub: &Substitution, total: usize, out: &mut Vec<u8>)
    ensures
        final(out)@ == old(out)@ + (if sub.start >= total {
            sub.text@
        } else {
            Seq::empty()
        }),
{
    if sub.start >= total {
        append_bytes(out, sub.text.as_slice());
    } else {
        assert(out@ =~= out@ + Seq::<u8>::empty());
    }
}

impl IniParser {
    /// Writes `value` for `key` in `section` into a copy of `source`, copying through a
    /// buffer of `buffer_size` bytes. Fails only with a duplicate key error.
    pub fn write_value_buffered(
        &self,
        source: &[u8],
        section: Option<&str>,
        key: &str,
        value: &str,
        buffer_size: usize,
    ) -> (r: Result<Vec<u8>, Error>)
        requires
            buffer_size >= 1,
        ensures
            match scan(*self, opt_bytes(section), key.spec_bytes(), source@) {
                Some(m) => r matches Ok(out) && out@ == written(
                    source@,
                    m,
                    opt_bytes(section),
                    key.spec_bytes(),
                    value.spec_bytes(),
                ),
                None => r matches Err(e) && is_duplicate_error(e, section, key),
            },
    {
        let res = match self.value_byte_range(source, section, key) {
            Ok(res) => res,
            Err(e) => {
                return Err(e);
            },
        };
        let sub = plan_substitution(&res, section, key, value);
        let mut out: Vec<u8> = Vec::new();
        let mut ws: usize = 0;
        assert(copied_prefix(sub@, source@, 0) =~= Seq::<u8>::empty());
        while ws < source.len()
            invariant
                ws <= source@.len(),
                buffer_size >= 1,
                0 <= sub@.0 <= sub@.1 <= source@.len(),
                out@ == copied_prefix(sub@, source@, ws as int),
            decreases source@.len() - ws,
        {
            let n = if buffer_size < source.len() - ws {
                buffer_size
            } else {
                source.len() - ws
            };
            let chunk = vstd::slice::slice_subrange(source, ws, ws + n);
            emit_window(&sub, ws, chunk, &mut out);
            proof {
                law_window_copy(sub@, source@, ws as int, n as int);
            }
            ws = ws + n;
        }
        emit_tail(&sub, source.len(), &mut out);
        assert(out@ =~= splice(source@, sub@.0, sub@.1, sub@.2));
        Ok(out)
    }

    /// Writes `value` for `key` in `section` (the global namespace when `None`) into a copy
    /// of `source`. Fails only with a duplicate key error.
    pub fn write_value(&self, source: &[u8], section: Option<&str>, key: &str, value: &str) -> (r:
        Result<Vec<u8>, Error>)
        ensures
            match scan(*self, opt_bytes(section), key.spec_bytes(), source@) {
                Some(m) => r matches Ok(out) && out@ == written(
                    source@,
                    m,
                    opt_bytes(section),
                    key.spec_bytes(),
                    value.spec_bytes(),
                ),
                None => r matches Err(e) && is_duplicate_error(e, section, key),
            },
    {
        self.write_value_buffered(source, section, key, value, WRITE_BUFFER_SIZE)
    }
}

} // verus!
