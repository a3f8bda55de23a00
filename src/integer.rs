//! Decimal integers as raw INI values: an optional sign and at least one ASCII digit.
use vstd::prelude::*;
use vstd::utf8::encode_utf8;
use crate::error::ParseError;
use crate::read::FromIniStr;

verus! {

/// Are all bytes of `s` ASCII digits, and is there at least one?
pub open spec fn is_digits(s: Seq<u8>) -> bool {
    &&& s.len() >= 1
    &&& forall|i: int| 0 <= i < s.len() ==> 0x30 <= #[trigger] s[i] <= 0x39
}

/// The number that the decimal digits `s` write.
pub open spec fn digit_value(s: Seq<u8>) -> int
    decreases s.len(),
{
    if s.len() == 0 {
        0
    } else {
        digit_value(s.drop_last()) * 10 + (s.last() as int - 0x30)
    }
}

/// The integer that `s` writes: `+` or, where `signed`, `-`, then decimal digits.
pub open spec fn integer_value(s: Seq<u8>, signed: bool) -> Option<int> {
    let body = s.subrange(1, s.len() as int);
    if s.len() >= 1 && s[0] == 0x2b {
        if is_digits(body) {
            Some(digit_value(body))
        } else {
            None
        }
    } else if signed && s.len() >= 1 && s[0] == 0x2d {
        if is_digits(body) {
            Some(-digit_value(body))
        } else {
            None
        }
    } else if is_digits(s) {
        Some(digit_value(s))
    } else {
        None
    }
}

/// The integer that `text` writes, if it lies in `[lo, hi]`.
pub open spec fn integer_in(text: Seq<char>, signed: bool, lo: int, hi: int) -> Option<int> {
    match integer_value(encode_utf8(text), signed) {
        Some(v) => if lo <= v <= hi {
            Some(v)
        } else {
            None
        },
        None => None,
    }
}

proof fn lemma_digit_value_nonneg(s: Seq<u8>)
    requires
        forall|i: int| 0 <= i < s.len() ==> 0x30 <= #[trigger] s[i] <= 0x39,
    ensures
        digit_value(s) >= 0,
    decreases s.len(),
{
    if s.len() > 0 {
        assert(s.drop_last().len() < s.len());
        assert forall|i: int| 0 <= i < s.drop_last().len() implies 0x30 <= #[trigger] s.drop_last()[i]
            <= 0x39 by {
            assert(s.drop_last()[i] == s[i]);
        }
        lemma_digit_value_nonneg(s.drop_last());
    }
}

/// The number that the digits `s[start..]` write, if they are digits and it is at most
/// `limit`.
fn parse_magnitude(s: &[u8], start: usize, limit: u128) -> (r: Option<u128>)
    requires
        start <= s@.len(),
        limit >= 9,
    ensures
        ({
            let body = s@.subrange(start as int, s@.len() as int);
            match r {
                Some(v) => is_digits(body) && v == digit_value(body),
                None => !(is_digits(body) && digit_value(body) <= limit),
            }
        }),
{
    let ghost body = s@.subrange(start as int, s@.len() as int);
    if start == s.len() {
        return None;
    }
    let mut v: u128 = 0;
    let mut big = false;
    let mut i = start;
    assert(s@.subrange(start as int, start as int) =~= Seq::<u8>::empty());
    while i < s.len()
        invariant
            start <= i <= s@.len(),
            limit >= 9,
            body == s@.subrange(start as int, s@.len() as int),
            forall|k: int| start <= k < i ==> 0x30 <= #[trigger] s@[k] <= 0x39,
            !big ==> v == digit_value(s@.subrange(start as int, i as int)) && v <= limit,
            big ==> digit_value(s@.subrange(start as int, i as int)) > limit,
        decreases s@.len() - i,
    {
        let b = s[i];
        if b < 0x30 || b > 0x39 {
            assert(body[i - start] == b);
            return None;
        }
        let ghost prev = s@.subrange(start as int, i as int);
        let ghost next = s@.subrange(start as int, i + 1);
        assert(next.drop_last() =~= prev);
        assert(digit_value(next) == digit_value(prev) * 10 + (b as int - 0x30));
        let d = (b - 0x30) as u128;
        if !big {
            if v > (limit - d) / 10 {
                assert(v * 10 + d > limit) by (nonlinear_arith)
                    requires
                        v > (limit - d) / 10,
                        d <= 9,
                        limit >= 9,
                ;
                big = true;
            } else {
                assert(v * 10 + d <= limit) by (nonlinear_arith)
                    requires
                        v <= (limit - d) / 10,
                        d <= 9,
                        limit >= 9,
                ;
                v = v * 10 + d;
            }
        } else {
            assert(digit_value(prev) * 10 + (b as int - 0x30) > limit) by (nonlinear_arith)
                requires
                    digit_value(prev) > limit,
                    limit >= 9,
                    b >= 0x30,
            ;
        }
        i = i + 1;
    }
    assert(s@.subrange(start as int, s@.len() as int) =~= body);
    if big {
        None
    } else {
        Some(v)
    }
}

/// The integer that `s` writes, as a sign and a magnitude, if it lies in
/// `[-neg_limit, pos_limit]`.
pub fn parse_integer(s: &[u8], signed: bool, neg_limit: u128, pos_limit: u128) -> (r: Option<
    (bool, u128),
>)
    requires
        pos_limit >= 9,
        neg_limit >= 9,
    ensures
        match integer_value(s@, signed) {
            Some(v) => if -(neg_limit as int) <= v <= pos_limit {
                r matches Some((neg, m)) && v == (if neg {
                    -(m as int)
                } else {
                    m as int
                }) && (if neg {
                    m <= neg_limit
                } else {
                    m <= pos_limit
                })
            } else {
                r is None
            },
            None => r is None,
        },
        integer_value(s@, false) matches Some(v) ==> v >= 0,
{
    proof {
        let body = s@.subrange(1, s@.len() as int);
        if is_digits(body) {
            lemma_digit_value_nonneg(body);
        }
        if is_digits(s@) {
            lemma_digit_value_nonneg(s@);
        }
    }
    if s.len() >= 1 && s[0] == 0x2b {
        match parse_magnitude(s, 1, pos_limit) {
            Some(m) => {
                if m <= pos_limit {
                    Some((false, m))
                } else {
                    None
                }
            },
            None => None,
        }
    } else if signed && s.len() >= 1 && s[0] == 0x2d {
        match parse_magnitude(s, 1, neg_limit) {
            Some(m) => {
                if m <= neg_limit {
                    Some((true, m))
                } else {
                    None
                }
            },
            None => None,
        }
    } else {
        assert(s@.subrange(0, s@.len() as int) =~= s@);
        match parse_magnitude(s, 0, pos_limit) {
            Some(m) => {
                proof {
                    lemma_digit_value_nonneg(s@);
                }
                if m <= pos_limit {
                    Some((false, m))
                } else {
                    None
                }
            },
            None => {
                proof {
                    if is_digits(s@) {
                        lemma_digit_value_nonneg(s@);
                    }
                }
                None
            },
        }
    }
}

/// `m` with the sign `neg`, as an `i128`.
fn signed_value(neg: bool, m: u128) -> (r: i128)
    requires
        neg ==> m <= 0x8000_0000_0000_0000_0000_0000_0000_0000,
        !neg ==> m <= 0x7fff_ffff_ffff_ffff_ffff_ffff_ffff_ffff,
    ensures
        r == (if neg {
            -(m as int)
        } else {
            m as int
        }),
{
    if !neg {
        m as i128
    } else if m == 0x8000_0000_0000_0000_0000_0000_0000_0000 {
        i128::MIN
    } else {
        -(m as i128)
    }
}

impl FromIniStr for u8 {
    open spec fn ini_parse(text: Seq<char>, r: Result<u8, ParseError>) -> bool {
        match integer_in(text, false, 0, u8::MAX as int) {
            Some(v) => r == Ok::<u8, ParseError>(v as u8),
            None => r == Err::<u8, ParseError>(ParseError::Integer),
        }
    }

    fn from_ini_str(ini_str: &str) -> (r: Result<u8, ParseError>) {
        match parse_integer(ini_str.as_bytes(), false, 9, u8::MAX as u128) {
            Some((_, m)) => Ok(m as u8),
            None => Err(ParseError::Integer),
        }
    }
}

impl FromIniStr for u16 {
    open spec fn ini_parse(text: Seq<char>, r: Result<u16, ParseError>) -> bool {
        match integer_in(text, false, 0, u16::MAX as int) {
            Some(v) => r == Ok::<u16, ParseError>(v as u16),
            None => r == Err::<u16, ParseError>(ParseError::Integer),
        }
    }

    fn from_ini_str(ini_str: &str) -> (r: Result<u16, ParseError>) {
        match parse_integer(ini_str.as_bytes(), false, 9, u16::MAX as u128) {
            Some((_, m)) => Ok(m as u16),
            None => Err(ParseError::Integer),
        }
    }
}

impl FromIniStr for u32 {
    open spec fn ini_parse(text: Seq<char>, r: Result<u32, ParseError>) -> bool {
        match integer_in(text, false, 0, u32::MAX as int) {
            Some(v) => r == Ok::<u32, ParseError>(v as u32),
            None => r == Err::<u32, ParseError>(ParseError::Integer),
        }
    }

    fn from_ini_str(ini_str: &str) -> (r: Result<u32, ParseError>) {
        match parse_integer(ini_str.as_bytes(), false, 9, u32::MAX as u128) {
            Some((_, m)) => Ok(m as u32),
            None => Err(ParseError::Integer),
        }
    }
}

impl FromIniStr for u64 {
    open spec fn ini_parse(text: Seq<char>, r: Result<u64, ParseError>) -> bool {
        match integer_in(text, false, 0, u64::MAX as int) {
            Some(v) => r == Ok::<u64, ParseError>(v as u64),
            None => r == Err::<u64, ParseError>(ParseError::Integer),
        }
    }

    fn from_ini_str(ini_str: &str) -> (r: Result<u64, ParseError>) {
        match parse_integer(ini_str.as_bytes(), false, 9, u64::MAX as u128) {
            Some((_, m)) => Ok(m as u64),
            None => Err(ParseError::Integer),
        }
    }
}

impl FromIniStr for u128 {
    open spec fn ini_parse(text: Seq<char>, r: Result<u128, ParseError>) -> bool {
        match integer_in(text, false, 0, u128::MAX as int) {
            Some(v) => r == Ok::<u128, ParseError>(v as u128),
            None => r == Err::<u128, ParseError>(ParseError::Integer),
        }
    }

    fn from_ini_str(ini_str: &str) -> (r: Result<u128, ParseError>) {
        match parse_integer(ini_str.as_bytes(), false, 9, u128::MAX as u128) {
            Some((_, m)) => Ok(m as u128),
            None => Err(ParseError::Integer),
        }
    }
}

impl FromIniStr for usize {
    open spec fn ini_parse(text: Seq<char>, r: Result<usize, ParseError>) -> bool {
        match integer_in(text, false, 0, usize::MAX as int) {
            Some(v) => r == Ok::<usize, ParseError>(v as usize),
            None => r == Err::<usize, ParseError>(ParseError::Integer),
        }
    }

    fn from_ini_str(ini_str: &str) -> (r: Result<usize, ParseError>) {
        match parse_integer(ini_str.as_bytes(), false, 9, usize::MAX as u128) {
            Some((_, m)) => Ok(m as usize),
            None => Err(ParseError::Integer),
        }
    }
}

impl FromIniStr for i8 {
    open spec fn ini_parse(text: Seq<char>, r: Result<i8, ParseError>) -> bool {
        match integer_in(text, true, i8::MIN as int, i8::MAX as int) {
            Some(v) => r == Ok::<i8, ParseError>(v as i8),
            None => r == Err::<i8, ParseError>(ParseError::Integer),
        }
    }

    fn from_ini_str(ini_str: &str) -> (r: Result<i8, ParseError>) {
        match parse_integer(ini_str.as_bytes(), true, i8::MAX as u128 + 1, i8::MAX as u128) {
            Some((neg, m)) => Ok(signed_value(neg, m) as i8),
            None => Err(ParseError::Integer),
        }
    }
}

impl FromIniStr for i16 {
    open spec fn ini_parse(text: Seq<char>, r: Result<i16, ParseError>) -> bool {
        match integer_in(text, true, i16::MIN as int, i16::MAX as int) {
            Some(v) => r == Ok::<i16, ParseError>(v as i16),
            None => r == Err::<i16, ParseError>(ParseError::Integer),
        }
    }

    fn from_ini_str(ini_str: &str) -> (r: Result<i16, ParseError>) {
        match parse_integer(ini_str.as_bytes(), true, i16::MAX as u128 + 1, i16::MAX as u128) {
            Some((neg, m)) => Ok(signed_value(neg, m) as i16),
            None => Err(ParseError::Integer),
        }
    }
}

impl FromIniStr for i32 {
    open spec fn ini_parse(text: Seq<char>, r: Result<i32, ParseError>) -> bool {
        match integer_in(text, true, i32::MIN as int, i32::MAX as int) {
            Some(v) => r == Ok::<i32, ParseError>(v as i32),
            None => r == Err::<i32, ParseError>(ParseError::Integer),
        }
    }

    fn from_ini_str(ini_str: &str) -> (r: Result<i32, ParseError>) {
        match parse_integer(ini_str.as_bytes(), true, i32::MAX as u128 + 1, i32::MAX as u128) {
            Some((neg, m)) => Ok(signed_value(neg, m) as i32),
            None => Err(ParseError::Integer),
        }
    }
}

impl FromIniStr for i64 {
    open spec fn ini_parse(text: Seq<char>, r: Result<i64, ParseError>) -> bool {
        match integer_in(text, true, i64::MIN as int, i64::MAX as int) {
            Some(v) => r == Ok::<i64, ParseError>(v as i64),
            None => r == Err::<i64, ParseError>(ParseError::Integer),
        }
    }

    fn from_ini_str(ini_str: &str) -> (r: Result<i64, ParseError>) {
        match parse_integer(ini_str.as_bytes(), true, i64::MAX as u128 + 1, i64::MAX as u128) {
            Some((neg, m)) => Ok(signed_value(neg, m) as i64),
            None => Err(ParseError::Integer),
        }
    }
}

impl FromIniStr for i128 {
    open spec fn ini_parse(text: Seq<char>, r: Result<i128, ParseError>) -> bool {
        match integer_in(text, true, i128::MIN as int, i128::MAX as int) {
            Some(v) => r == Ok::<i128, ParseError>(v as i128),
            None => r == Err::<i128, ParseError>(ParseError::Integer),
        }
    }

    fn from_ini_str(ini_str: &str) -> (r: Result<i128, ParseError>) {
        match parse_integer(ini_str.as_bytes(), true, 0x8000_0000_0000_0000_0000_0000_0000_0000, i128::MAX as u128) {
            Some((neg, m)) => Ok(signed_value(neg, m)),
            None => Err(ParseError::Integer),
        }
    }
}

impl FromIniStr for isize {
    open spec fn ini_parse(text: Seq<char>, r: Result<isize, ParseError>) -> bool {
        match integer_in(text, true, isize::MIN as int, isize::MAX as int) {
            Some(v) => r == Ok::<isize, ParseError>(v as isize),
            None => r == Err::<isize, ParseError>(ParseError::Integer),
        }
    }

    fn from_ini_str(ini_str: &str) -> (r: Result<isize, ParseError>) {
        match parse_integer(ini_str.as_bytes(), true, isize::MAX as u128 + 1, isize::MAX as u128) {
            Some((neg, m)) => Ok(signed_value(neg, m) as isize),
            None => Err(ParseError::Integer),
        }
    }
}

} // verus!
