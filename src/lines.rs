//! The lexical functions on `&str` lines, as callers use them.
use vstd::prelude::*;
use std::ops::Range;
use vstd::string::StringSliceAdditionalSpecFns;
use vstd::utf8::{encode_utf8_valid_utf8, is_char_boundary_start_end_of_seq};
use crate::boundary::{
    lemma_boundary_after, lemma_boundary_iff, lemma_back_ws_boundary, lemma_piece_boundary,
    lemma_section_range_boundary, lemma_skip_ws_boundary,
};
use crate::lexer::{section_name, section_range_exec, value_range, value_range_exec};
use crate::parser::IniParser;
use crate::scan::opt_range;
use crate::text::{trim_range, trim_range_exec};

verus! {

/// `s` trimmed of whitespace, and then of one `"` at each end when both ends hold one.
pub open spec fn unquoted_range(s: Seq<u8>) -> (int, int) {
    let (a, b) = trim_range(s, 0, s.len() as int);
    if b - a >= 2 && s[a] == 0x22 && s[b - 1] == 0x22 {
        (a + 1, b - 1)
    } else {
        (a, b)
    }
}

/// The bytes `s[a..b]` of `s` as a string slice, where `a` and `b` are boundaries.
pub(crate) fn cut_str(s: &str, a: usize, b: usize) -> (r: &str)
    requires
        a <= b <= s.spec_bytes().len(),
        vstd::utf8::is_char_boundary(s.spec_bytes(), a as int),
        vstd::utf8::is_char_boundary(s.spec_bytes(), b as int),
    ensures
        r.spec_bytes() == s.spec_bytes().subrange(a as int, b as int),
{
    let ghost bytes = s.spec_bytes();
    proof {
        encode_utf8_valid_utf8(s@);
        is_char_boundary_start_end_of_seq(bytes);
        lemma_piece_boundary(bytes, a as int, bytes.len() as int, b as int);
    }
    let (_, rest) = s.split_at(a);
    let (piece, _) = rest.split_at(b - a);
    assert(piece.spec_bytes() =~= bytes.subrange(a as int, b as int));
    piece
}

/// The name of the section that `line` opens, if it is a section header.
pub fn try_section_from_line(line: &str) -> (r: Option<&str>)
    ensures
        match section_name(line.spec_bytes()) {
            Some(name) => r matches Some(t) && t.spec_bytes() == name,
            None => r is None,
        },
{
    let bytes = line.as_bytes();
    match section_range_exec(bytes) {
        Some((a, b)) => {
            proof {
                encode_utf8_valid_utf8(line@);
                lemma_section_range_boundary(bytes@);
            }
            Some(cut_str(line, a, b))
        },
        None => None,
    }
}

/// `text` trimmed of whitespace, and then of one `"` at each end when both ends hold one.
pub fn trim_whitespace_and_quotes(text: &str) -> (r: &str)
    ensures
        r.spec_bytes() == text.spec_bytes().subrange(
            unquoted_range(text.spec_bytes()).0,
            unquoted_range(text.spec_bytes()).1,
        ),
{
    let bytes = text.as_bytes();
    let ghost s = bytes@;
    let n = bytes.len();
    let (a, b) = trim_range_exec(bytes, 0, n);
    proof {
        encode_utf8_valid_utf8(text@);
        is_char_boundary_start_end_of_seq(s);
        lemma_skip_ws_boundary(s, 0, n as int);
        lemma_back_ws_boundary(s, a as int, n as int);
    }
    if b - a >= 2 && bytes[a] == 0x22 && bytes[b - 1] == 0x22 {
        proof {
            lemma_boundary_after(s, a as int, 1);
            lemma_boundary_iff(s, b - 1);
        }
        cut_str(text, a + 1, b - 1)
    } else {
        cut_str(text, a, b)
    }
}

impl IniParser {
    /// Where the value of `key` stands in `line`, as a byte range, if `line` assigns `key`.
    pub fn try_value(&self, line: &str, key: &str) -> (r: Option<Range<usize>>)
        ensures
            opt_range(r) == value_range(
                line.spec_bytes(),
                key.spec_bytes(),
                self.comment_delimiters@,
                self.value_start_delimiters@,
            ),
    {
        match value_range_exec(
            line.as_bytes(),
            key.as_bytes(),
            self.comment_delimiters,
            self.value_start_delimiters,
        ) {
            Some((a, b)) => Some(Range { start: a, end: b }),
            None => None,
        }
    }
}

} // verus!
