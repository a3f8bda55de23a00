//! The configuration that every scan consults.
use vstd::prelude::*;

verus! {

/// Which occurrence of a key counts when it appears more than once in its section.
#[derive(Copy, Clone, PartialEq, Eq, Hash, Debug, Structural)]
pub enum DuplicateKeyStrategy {
    /// The last occurrence counts.
    UseLast,
    /// The first occurrence counts; scanning stops there.
    UseFirst,
    /// A second occurrence is an error.
    Error,
}

impl Default for DuplicateKeyStrategy {
    fn default() -> (r: Self)
        ensures
            r == DuplicateKeyStrategy::UseLast,
    {
        DuplicateKeyStrategy::UseLast
    }
}

/// Reads and writes values of INI files with the given settings.
#[derive(Clone, PartialEq, Eq, Hash, Debug)]
pub struct IniParser {
    /// Characters that start a comment running to the end of the line.
    pub comment_delimiters: &'static [char],
    /// Whether a comment after a `key=value` on the same line is recognised.
    pub trailing_comments: bool,
    /// Characters that separate a key from its value.
    pub value_start_delimiters: &'static [char],
    /// Whether a line whose trimmed text ends with `\` continues on the next line.
    pub line_continuation: bool,
    /// How a key that occurs more than once in its section is handled.
    pub duplicate_keys: DuplicateKeyStrategy,
}

impl Default for IniParser {
    /// Comments start with `#` or `;`, `=` separates key and value, trailing comments and
    /// line continuation are on, and the last of duplicate keys counts.
    fn default() -> (r: Self)
        ensures
            r.comment_delimiters@ == seq!['#', ';'],
            r.trailing_comments,
            r.value_start_delimiters@ == seq!['='],
            r.line_continuation,
            r.duplicate_keys == DuplicateKeyStrategy::UseLast,
    {
        let comments: &'static [char] = &['#', ';'];
        let delimiters: &'static [char] = &['='];
        let r = IniParser {
            comment_delimiters: comments,
            trailing_comments: true,
            value_start_delimiters: delimiters,
            line_continuation: true,
            duplicate_keys: DuplicateKeyStrategy::UseLast,
        };
        assert(r.comment_delimiters@ =~= seq!['#', ';']);
        assert(r.value_start_delimiters@ =~= seq!['=']);
        r
    }
}

} // verus!
