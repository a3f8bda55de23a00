//! The read path: the raw text of a value, and its conversion into a typed value.
use vstd::prelude::*;
use vstd::string::StringSliceAdditionalSpecFns;
use vstd::utf8::{
    decode_utf8, encode_utf8, encode_utf8_decode_utf8, encode_utf8_valid_utf8,
    is_char_boundary_start_end_of_seq,
};
use crate::boundary::lemma_scan_boundary;
use crate::error::{Error, ParseError};
use crate::parser::IniParser;
use crate::scan::{initial_model, is_duplicate_error, opt_bytes, scan};
use crate::text::{trim_range, trim_range_exec};
use crate::lines::{trim_whitespace_and_quotes, unquoted_range};

verus! {

/// A type that a raw INI value can be parsed into.
pub trait FromIniStr: Sized {
    /// Is `r` what parsing the raw value `text` gives?
    spec fn ini_parse(text: Seq<char>, r: Result<Self, ParseError>) -> bool;

    /// Parses the raw value `ini_str`.
    fn from_ini_str(ini_str: &str) -> (r: Result<Self, ParseError>)
        ensures
            Self::ini_parse(ini_str@, r),
    ;
}

/// The byte `b` in ASCII lower case.
pub open spec fn ascii_lower(b: u8) -> u8 {
    if 0x41 <= b <= 0x5a {
        (b + 32) as u8
    } else {
        b
    }
}

/// Is `s[a..b]`, in ASCII lower case, the word `word`?
pub open spec fn is_word_ci(s: Seq<u8>, a: int, b: int, word: Seq<u8>) -> bool {
    &&& b - a == word.len()
    &&& forall|k: int| 0 <= k < word.len() ==> ascii_lower(s[a + k]) == word[k]
}

/// The boolean that `bytes` stands for: after trimming, one of `1`, `yes`, `on`, `true`
/// or one of `0`, `no`, `off`, `false`, in any ASCII case.
pub open spec fn bool_value(bytes: Seq<u8>) -> Result<bool, ParseError> {
    let (a, b) = trim_range(bytes, 0, bytes.len() as int);
    if is_word_ci(bytes, a, b, seq![0x31u8]) || is_word_ci(bytes, a, b, seq![0x79u8, 0x65, 0x73])
        || is_word_ci(bytes, a, b, seq![0x6fu8, 0x6e]) || is_word_ci(
        bytes,
        a,
        b,
        seq![0x74u8, 0x72, 0x75, 0x65],
    ) {
        Ok(true)
    } else if is_word_ci(bytes, a, b, seq![0x30u8]) || is_word_ci(bytes, a, b, seq![0x6eu8, 0x6f])
        || is_word_ci(bytes, a, b, seq![0x6fu8, 0x66, 0x66]) || is_word_ci(
        bytes,
        a,
        b,
        seq![0x66u8, 0x61, 0x6c, 0x73, 0x65],
    ) {
        Ok(false)
    } else {
        Err(ParseError::Bool)
    }
}

fn is_word_ci_exec(s: &[u8], a: usize, b: usize, word: &[u8]) -> (r: bool)
    requires
        a <= b <= s@.len(),
    ensures
        r == is_word_ci(s@, a as int, b as int, word@),
{
    if b - a != word.len() {
        return false;
    }
    let mut k: usize = 0;
    while k < word.len()
        invariant
            a <= b <= s@.len(),
            b - a == word@.len(),
            k <= word@.len(),
            forall|m: int| 0 <= m < k ==> #[trigger] ascii_lower(s@[a + m]) == word@[m],
        decreases word@.len() - k,
    {
        let c = s[a + k];
        let lower = if 0x41 <= c && c <= 0x5a {
            c + 32
        } else {
            c
        };
        if lower != word[k] {
            return false;
        }
        k = k + 1;
    }
    true
}

impl FromIniStr for bool {
    open spec fn ini_parse(text: Seq<char>, r: Result<bool, ParseError>) -> bool {
        r == bool_value(encode_utf8(text))
    }

    fn from_ini_str(ini_str: &str) -> (r: Result<bool, ParseError>) {
        let s = ini_str.as_bytes();
        let (a, b) = trim_range_exec(s, 0, s.len());
        let one: &[u8] = &[0x31u8];
        let yes: &[u8] = &[0x79u8, 0x65, 0x73];
        let on: &[u8] = &[0x6fu8, 0x6e];
        let tru: &[u8] = &[0x74u8, 0x72, 0x75, 0x65];
        let zero: &[u8] = &[0x30u8];
        let no: &[u8] = &[0x6eu8, 0x6f];
        let off: &[u8] = &[0x6fu8, 0x66, 0x66];
        let fals: &[u8] = &[0x66u8, 0x61, 0x6c, 0x73, 0x65];
        assert(one@ =~= seq![0x31u8]);
        assert(yes@ =~= seq![0x79u8, 0x65, 0x73]);
        assert(on@ =~= seq![0x6fu8, 0x6e]);
        assert(tru@ =~= seq![0x74u8, 0x72, 0x75, 0x65]);
        assert(zero@ =~= seq![0x30u8]);
        assert(no@ =~= seq![0x6eu8, 0x6f]);
        assert(off@ =~= seq![0x6fu8, 0x66, 0x66]);
        assert(fals@ =~= seq![0x66u8, 0x61, 0x6c, 0x73, 0x65]);
        if is_word_ci_exec(s, a, b, one) || is_word_ci_exec(s, a, b, yes) || is_word_ci_exec(
            s,
            a,
            b,
            on,
        ) || is_word_ci_exec(s, a, b, tru) {
            Ok(true)
        } else if is_word_ci_exec(s, a, b, zero) || is_word_ci_exec(s, a, b, no) || is_word_ci_exec(
            s,
            a,
            b,
            off,
        ) || is_word_ci_exec(s, a, b, fals) {
            Ok(false)
        } else {
            Err(ParseError::Bool)
        }
    }
}

impl FromIniStr for String {
    open spec fn ini_parse(text: Seq<char>, r: Result<String, ParseError>) -> bool {
        let bytes = encode_utf8(text);
        let (a, b) = unquoted_range(bytes);
        r matches Ok(v) && encode_utf8(v@) == bytes.subrange(a, b)
    }

    fn from_ini_str(ini_str: &str) -> (r: Result<String, ParseError>) {
        let t = trim_whitespace_and_quotes(ini_str);
        Ok(t.to_owned())
    }
}

impl FromIniStr for char {
    open spec fn ini_parse(text: Seq<char>, r: Result<char, ParseError>) -> bool {
        if text.len() == 1 {
            r == Ok::<char, ParseError>(text[0])
        } else {
            r == Err::<char, ParseError>(ParseError::Char)
        }
    }

    fn from_ini_str(ini_str: &str) -> (r: Result<char, ParseError>) {
        if ini_str.unicode_len() == 1 {
            Ok(ini_str.get_char(0))
        } else {
            Err(ParseError::Char)
        }
    }
}

impl IniParser {
    /// The raw text of the value of `key` in `section`: whitespace-trimmed, quotes kept.
    /// `None` when the key is absent; a duplicate key error under
    /// `DuplicateKeyStrategy::Error` when it occurs twice.
    pub fn value_unaltered(&self, source: &str, section: Option<&str>, key: &str) -> (r: Result<
        Option<String>,
        Error,
    >)
        ensures
            match scan(*self, opt_bytes(section), key.spec_bytes(), source.spec_bytes()) {
                None => r matches Err(e) && is_duplicate_error(e, section, key),
                Some(m) => match m.found {
                    None => r matches Ok(None),
                    Some((a, b)) => r matches Ok(Some(v)) && encode_utf8(v@)
                        == source.spec_bytes().subrange(a, b),
                },
            },
    {
        let bytes = source.as_bytes();
        let res = match self.value_byte_range(bytes, section, key) {
            Ok(res) => res,
            Err(e) => {
                return Err(e);
            },
        };
        match res.value_range {
            None => Ok(None),
            Some(range) => {
                proof {
                    encode_utf8_valid_utf8(source@);
                    is_char_boundary_start_end_of_seq(bytes@);
                    lemma_scan_boundary(
                        *self,
                        opt_bytes(section),
                        key.spec_bytes(),
                        bytes@,
                        0,
                        initial_model(opt_bytes(section)),
                    );
                }
                let piece = crate::lines::cut_str(source, range.start, range.end);
                Ok(Some(piece.to_owned()))
            },
        }
    }

    /// Reads the value of `key` in `section` (the global namespace when `None`) and parses
    /// its raw text into a `T`.
    pub fn read_value<T: FromIniStr>(&self, source: &str, section: Option<&str>, key: &str) -> (r:
        Result<Option<T>, Error>)
        ensures
            match scan(*self, opt_bytes(section), key.spec_bytes(), source.spec_bytes()) {
                None => r matches Err(e) && is_duplicate_error(e, section, key),
                Some(m) => match m.found {
                    None => r matches Ok(None),
                    Some((a, b)) => {
                        let text = decode_utf8(source.spec_bytes().subrange(a, b));
                        match r {
                            Ok(Some(v)) => T::ini_parse(text, Ok(v)),
                            Err(Error::Parse(e)) => T::ini_parse(text, Err(e)),
                            _ => false,
                        }
                    },
                },
            },
    {
        let raw = match self.value_unaltered(source, section, key) {
            Ok(Some(raw)) => raw,
            Ok(None) => {
                return Ok(None);
            },
            Err(e) => {
                return Err(e);
            },
        };
        proof {
            encode_utf8_decode_utf8(raw@);
        }
        match T::from_ini_str(raw.as_str()) {
            Ok(v) => Ok(Some(v)),
            Err(e) => Err(Error::new_parse(e)),
        }
    }
}

} // verus!
