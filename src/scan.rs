//! The scanner: one pass over the logical lines of a source that keeps track of the target
//! section and records where the target key's value stands.
use vstd::prelude::*;
use std::ops::Range;
use vstd::string::StringSliceAdditionalSpecFns;
use crate::error::Error;
use crate::lexer::{
    logical_end, logical_end_exec, section_name, section_range_exec, value_range,
    value_range_exec,
};
use crate::parser::{DuplicateKeyStrategy, IniParser};
use crate::text::{is_blank, skip_ws_exec, trim_range_exec, trimmed};

verus! {

/// The state of a scan, as mathematical values.
pub ghost struct ScanModel {
    /// Whether the lines seen last belong to the target section.
    pub in_section: bool,
    /// Bytes of the source consumed so far.
    pub processed: int,
    /// Offset just past the last non-blank line of the target section seen so far.
    pub last_content: Option<int>,
    /// The value of the target key that counts so far, as a half-open byte range.
    pub found: Option<(int, int)>,
    /// Whether the scan has stopped at a first match.
    pub done: bool,
}

/// Does a header naming `name` open the target section? The global namespace is never
/// reopened by a header.
pub open spec fn opens_target(section: Option<Seq<u8>>, name: Seq<u8>) -> bool {
    match section {
        Some(t) => trimmed(t) == name,
        None => false,
    }
}

/// The state before the first line: inside the target only when the target is the global
/// namespace.
pub open spec fn initial_model(section: Option<Seq<u8>>) -> ScanModel {
    ScanModel {
        in_section: section is None,
        processed: 0,
        last_content: if section is None {
            Some(0)
        } else {
            None
        },
        found: None,
        done: false,
    }
}

/// Where the key's value stands in `line`, when `line` is a key/value line of the target
/// section.
pub open spec fn line_match(p: IniParser, key: Seq<u8>, m: ScanModel, line: Seq<u8>) -> Option<
    (int, int),
> {
    if section_name(line) is None && m.in_section {
        value_range(line, key, p.comment_delimiters@, p.value_start_delimiters@)
    } else {
        None
    }
}

/// The state after one logical line, or `None` when the line is a second match under
/// `DuplicateKeyStrategy::Error`.
pub open spec fn scan_step(
    p: IniParser,
    section: Option<Seq<u8>>,
    key: Seq<u8>,
    m: ScanModel,
    line: Seq<u8>,
) -> Option<ScanModel> {
    let end = m.processed + line.len();
    let ins = match section_name(line) {
        Some(name) => opens_target(section, name),
        None => m.in_section,
    };
    let content = if ins && !is_blank(line) {
        Some(end)
    } else {
        m.last_content
    };
    let next = ScanModel { in_section: ins, processed: end, last_content: content, ..m };
    match line_match(p, key, m, line) {
        None => Some(next),
        Some((a, b)) => {
            let hit = Some((m.processed + a, m.processed + b));
            match p.duplicate_keys {
                DuplicateKeyStrategy::UseFirst => Some(ScanModel { found: hit, done: true, ..next }),
                DuplicateKeyStrategy::UseLast => Some(ScanModel { found: hit, ..next }),
                DuplicateKeyStrategy::Error => if m.found is Some {
                    None
                } else {
                    Some(ScanModel { found: hit, ..next })
                },
            }
        },
    }
}

/// The scan of `s` from offset `pos` on, in state `m`.
pub open spec fn scan_from(
    p: IniParser,
    section: Option<Seq<u8>>,
    key: Seq<u8>,
    s: Seq<u8>,
    pos: int,
    m: ScanModel,
) -> Option<ScanModel>
    decreases s.len() - pos,
{
    if m.done || pos < 0 || pos >= s.len() {
        Some(m)
    } else {
        let e = logical_end(s, pos, p.line_continuation);
        if e <= pos || e > s.len() {
            Some(m)
        } else {
            match scan_step(p, section, key, m, s.subrange(pos, e)) {
                None => None,
                Some(m2) => scan_from(p, section, key, s, e, m2),
            }
        }
    }
}

/// The scan of the whole source `s`, or `None` when it ends in a duplicate key error.
pub open spec fn scan(p: IniParser, section: Option<Seq<u8>>, key: Seq<u8>, s: Seq<u8>) -> Option<
    ScanModel,
> {
    scan_from(p, section, key, s, 0, initial_model(section))
}

/// What the scanner reports.
pub struct ScanResult {
    /// Bytes of the source consumed.
    pub total_bytes: usize,
    /// Offset just past the last non-blank line of the target section, or `None` when the
    /// section never appeared.
    pub last_content_byte_in_section: Option<usize>,
    /// Byte range of the value of the key, or `None` when the key was not found.
    pub value_range: Option<Range<usize>>,
}

/// The state of a scan in progress, fed one logical line at a time.
pub struct ScanState {
    /// Whether the lines seen last belong to the target section.
    pub in_section: bool,
    /// Bytes of the source consumed so far.
    pub bytes_processed: usize,
    /// Offset just past the last non-blank line of the target section seen so far.
    pub last_content: Option<usize>,
    /// Byte range of the value that counts so far.
    pub value_range: Option<Range<usize>>,
    /// Whether the scan has stopped at a first match; no more lines are needed.
    pub done: bool,
}

pub open spec fn opt_int(o: Option<usize>) -> Option<int> {
    match o {
        Some(v) => Some(v as int),
        None => None,
    }
}

pub open spec fn opt_range(o: Option<Range<usize>>) -> Option<(int, int)> {
    match o {
        Some(r) => Some((r.start as int, r.end as int)),
        None => None,
    }
}

pub open spec fn opt_bytes(o: Option<&str>) -> Option<Seq<u8>> {
    match o {
        Some(s) => Some(s.spec_bytes()),
        None => None,
    }
}

pub open spec fn opt_chars(o: Option<&str>) -> Option<Seq<char>> {
    match o {
        Some(s) => Some(s@),
        None => None,
    }
}

pub open spec fn opt_string_chars(o: Option<String>) -> Option<Seq<char>> {
    match o {
        Some(s) => Some(s@),
        None => None,
    }
}

impl View for ScanState {
    type V = ScanModel;

    open spec fn view(&self) -> ScanModel {
        ScanModel {
            in_section: self.in_section,
            processed: self.bytes_processed as int,
            last_content: opt_int(self.last_content),
            found: opt_range(self.value_range),
            done: self.done,
        }
    }
}

impl View for ScanResult {
    type V = ScanModel;

    open spec fn view(&self) -> ScanModel {
        ScanModel {
            in_section: false,
            processed: self.total_bytes as int,
            last_content: opt_int(self.last_content_byte_in_section),
            found: opt_range(self.value_range),
            done: false,
        }
    }
}

/// The bounds that every state of a scan keeps.
pub open spec fn model_wf(m: ScanModel) -> bool {
    &&& 0 <= m.processed
    &&& (m.last_content matches Some(q) ==> 0 <= q <= m.processed)
    &&& (m.found matches Some((a, b)) ==> 0 <= a <= b <= m.processed)
    &&& (m.done ==> m.found is Some)
}

/// Do two models agree on what a scan reports?
pub open spec fn same_report(a: ScanModel, b: ScanModel) -> bool {
    &&& a.processed == b.processed
    &&& a.last_content == b.last_content
    &&& a.found == b.found
}

/// The duplicate key error for `key` in `section`.
pub open spec fn is_duplicate_error(r: Error, section: Option<&str>, key: &str) -> bool {
    match r {
        Error::DuplicateKey { key: k, section: sec } => k@ == key@ && opt_string_chars(sec)
            == opt_chars(section),
        _ => false,
    }
}

pub fn duplicate_error(section: Option<&str>, key: &str) -> (r: Error)
    ensures
        is_duplicate_error(r, section, key),
{
    let sec = match section {
        Some(s) => Some(s.to_owned()),
        None => None,
    };
    Error::DuplicateKey { key: key.to_owned(), section: sec }
}

/// Does a header naming `line[a..b]` open the target section?
fn opens_target_exec(section: Option<&str>, line: &[u8], a: usize, b: usize) -> (r: bool)
    requires
        a <= b <= line@.len(),
    ensures
        r == opens_target(opt_bytes(section), line@.subrange(a as int, b as int)),
{
    match section {
        Some(t) => {
            let tb = t.as_bytes();
            let (t0, t1) = trim_range_exec(tb, 0, tb.len());
            crate::lexer::same_bytes(tb, t0, t1, line, a, b)
        },
        None => false,
    }
}

impl ScanState {
    /// The state before the first line of a scan for a key of `section`.
    pub fn new(section: Option<&str>) -> (r: ScanState)
        ensures
            r@ == initial_model(opt_bytes(section)),
    {
        let global = section.is_none();
        ScanState {
            in_section: global,
            bytes_processed: 0,
            last_content: if global {
                Some(0)
            } else {
                None
            },
            value_range: None,
            done: false,
        }
    }

    /// Consumes one logical line. Fails with `Error::DuplicateKey` on a second match under
    /// `DuplicateKeyStrategy::Error`; otherwise the state follows `scan_step`.
    pub fn feed_line(
        &mut self,
        parser: &IniParser,
        section: Option<&str>,
        key: &str,
        line: &[u8],
    ) -> (r: Result<(), Error>)
        requires
            old(self).bytes_processed + line@.len() <= usize::MAX,
            model_wf(old(self)@),
        ensures
            r is Ok ==> model_wf(final(self)@),
            match scan_step(*parser, opt_bytes(section), key.spec_bytes(), old(self)@, line@) {
                Some(m) => r is Ok && final(self)@ == m,
                None => r matches Err(e) && is_duplicate_error(e, section, key),
            },
    {
        let ghost m = self@;
        let end = self.bytes_processed + line.len();
        let header = section_range_exec(line);
        let was_in = self.in_section;
        let ins = match header {
            Some((a, b)) => opens_target_exec(section, line, a, b),
            None => self.in_section,
        };
        let blank = skip_ws_exec(line, 0, line.len()) == line.len();
        let cand = if header.is_none() && was_in {
            value_range_exec(line, key.as_bytes(), parser.comment_delimiters, parser.value_start_delimiters)
        } else {
            None
        };
        if let Some((a, b)) = cand {
            let hit = Range { start: self.bytes_processed + a, end: self.bytes_processed + b };
            match parser.duplicate_keys {
                DuplicateKeyStrategy::UseFirst => {
                    self.done = true;
                },
                DuplicateKeyStrategy::UseLast => {},
                DuplicateKeyStrategy::Error => {
                    if self.value_range.is_some() {
                        return Err(duplicate_error(section, key));
                    }
                },
            }
            self.value_range = Some(hit);
        }
        self.in_section = ins;
        self.bytes_processed = end;
        if ins && !blank {
            self.last_content = Some(end);
        }
        Ok(())
    }

    /// What the scan reports once no line is left or the scan is done.
    pub fn finish(self) -> (r: ScanResult)
        ensures
            same_report(r@, self@),
    {
        ScanResult {
            total_bytes: self.bytes_processed,
            last_content_byte_in_section: self.last_content,
            value_range: self.value_range,
        }
    }
}

impl IniParser {
    /// Scans the whole of `source` for `key` in `section` (the global namespace when `None`).
    pub fn value_byte_range(&self, source: &[u8], section: Option<&str>, key: &str) -> (r:
        Result<ScanResult, Error>)
        ensures
            match scan(*self, opt_bytes(section), key.spec_bytes(), source@) {
                Some(m) => r matches Ok(res) && same_report(res@, m),
                None => r matches Err(e) && is_duplicate_error(e, section, key),
            },
            r matches Ok(res) ==> res.total_bytes <= source@.len() && model_wf(res@) && (
            res.value_range is None ==> res.total_bytes == source@.len()),
    {
        let mut st = ScanState::new(section);
        let mut pos: usize = 0;
        while pos < source.len() && !st.done
            invariant
                pos <= source@.len(),
                st.bytes_processed == pos,
                model_wf(st@),
                scan(*self, opt_bytes(section), key.spec_bytes(), source@) == scan_from(
                    *self,
                    opt_bytes(section),
                    key.spec_bytes(),
                    source@,
                    pos as int,
                    st@,
                ),
            decreases source@.len() - pos,
        {
            let e = logical_end_exec(source, pos, self.line_continuation);
            let line = vstd::slice::slice_subrange(source, pos, e);
            match st.feed_line(self, section, key, line) {
                Ok(()) => {},
                Err(err) => {
                    return Err(err);
                },
            }
            pos = e;
        }
        Ok(st.finish())
    }
}

} // verus!
