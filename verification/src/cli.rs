//! Reading the counts given on the command line of the evolution program.
use vstd::prelude::*;

verus! {

/// Why a count could not be read; the same kinds, in the same order of
/// detection, as the standard library's integer parsing.
#[derive(Debug, Clone, Copy, PartialEq, Eq, Structural)]
pub enum CountError {
    Empty,
    InvalidDigit,
    PosOverflow,
}

impl CountError {
    /// The standard library's description of the error.
    pub fn message(&self) -> (m: &'static str)
        ensures
            m@ == match *self {
                CountError::Empty => "cannot parse integer from empty string"@,
                CountError::InvalidDigit => "invalid digit found in string"@,
                CountError::PosOverflow => "number too large to fit in target type"@,
            },
    {
        match self {
            CountError::Empty => "cannot parse integer from empty string",
            CountError::InvalidDigit => "invalid digit found in string",
            CountError::PosOverflow => "number too large to fit in target type",
        }
    }
}

pub open spec fn is_digit(b: u8) -> bool {
    48 <= b <= 57
}

/// Reads decimal digits from left to right onto `acc`: the first byte that is
/// not a digit is an invalid digit, the first digit that takes the number past
/// `usize::MAX` an overflow.
pub open spec fn read_digits(s: Seq<u8>, acc: int) -> Result<int, CountError>
    decreases s.len(),
{
    if s.len() == 0 {
        Ok(acc)
    } else if !is_digit(s[0]) {
        Err(CountError::InvalidDigit)
    } else {
        let next = acc * 10 + (s[0] - 48);
        if next > usize::MAX {
            Err(CountError::PosOverflow)
        } else {
            read_digits(s.skip(1), next)
        }
    }
}

/// What reading a count from `s` gives: an optional leading `+`, then decimal digits.
pub open spec fn count_of(s: Seq<u8>) -> Result<int, CountError> {
    if s.len() == 0 {
        Err(CountError::Empty)
    } else if (s[0] == 43 || s[0] == 45) && s.len() == 1 {
        Err(CountError::InvalidDigit)
    } else if s[0] == 43 {
        read_digits(s.skip(1), 0)
    } else {
        read_digits(s, 0)
    }
}

/// Reads a count written in decimal, with an optional leading `+`.
pub fn parse_count(text: &[u8]) -> (res: Result<usize, CountError>)
    ensures
        match res {
            Ok(n) => count_of(text@) == Ok::<int, CountError>(n as int),
            Err(e) => count_of(text@) == Err::<int, CountError>(e),
        },
{
    let len = text.len();
    if len == 0 {
        return Err(CountError::Empty);
    }
    if (text[0] == 43 || text[0] == 45) && len == 1 {
        return Err(CountError::InvalidDigit);
    }
    let start: usize = if text[0] == 43 {
        1
    } else {
        0
    };
    let ghost digits = text@.skip(start as int);
    let mut acc: usize = 0;
    let mut i: usize = start;
    proof {
        assert(text@.skip(0) =~= text@);
    }
    while i < len
        invariant
            len == text@.len(),
            start <= i <= len,
            digits == text@.skip(start as int),
            count_of(text@) == read_digits(digits, 0),
            read_digits(text@.skip(i as int), acc as int) == read_digits(digits, 0),
        decreases len - i,
    {
        let b = text[i];
        proof {
            assert(text@.skip(i as int)[0] == b);
            assert(text@.skip(i as int).skip(1) =~= text@.skip(i + 1));
        }
        if b < 48 || b > 57 {
            return Err(CountError::InvalidDigit);
        }
        let digit = (b - 48) as usize;
        match acc.checked_mul(10) {
            None => {
                return Err(CountError::PosOverflow);
            },
            Some(m) => match m.checked_add(digit) {
                None => {
                    return Err(CountError::PosOverflow);
                },
                Some(next) => {
                    acc = next;
                },
            },
        }
        i = i + 1;
    }
    proof {
        assert(text@.skip(i as int).len() == 0);
    }
    Ok(acc)
}

/// A count given on the command line, or `default` when none is given.
pub fn parse_argument(argument: Option<&[u8]>, default: usize) -> (res: Result<usize, CountError>)
    ensures
        argument is None ==> res == Ok::<usize, CountError>(default),
        argument matches Some(text) ==> match res {
            Ok(n) => count_of(text@) == Ok::<int, CountError>(n as int),
            Err(e) => count_of(text@) == Err::<int, CountError>(e),
        },
{
    match argument {
        Some(text) => parse_count(text),
        None => Ok(default),
    }
}

} // verus!
