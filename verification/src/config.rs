//! Configuration resolution: turning raw command-line values (source names
//! and the textual values of the line-count and byte-count options) into a
//! validated `Config`, or a configuration error.

use vstd::prelude::*;
use vstd::string::*;

verus! {

/// A decimal digit character.
pub open spec fn is_digit_char(c: char) -> bool {
    48 <= c as u32 <= 57
}

/// Numeric value of a decimal digit character.
pub open spec fn digit_value(c: char) -> nat
    recommends
        is_digit_char(c),
{
    ((c as u32) - 48) as nat
}

/// Value of a sequence of decimal digit characters, most significant first.
pub open spec fn dec_value(s: Seq<char>) -> nat
    decreases s.len(),
{
    if s.len() == 0 {
        0
    } else {
        dec_value(s.drop_last()) * 10 + digit_value(s.last())
    }
}

/// The digit portion of a count literal: everything after an optional
/// leading plus sign.
pub open spec fn digits_of(s: Seq<char>) -> Seq<char> {
    if s.len() > 0 && s[0] == '+' {
        s.skip(1)
    } else {
        s
    }
}

/// A well-formed count literal: an optional leading plus sign followed by
/// one or more decimal digits (the grammar `usize` parsing accepts).
pub open spec fn is_count_literal(s: Seq<char>) -> bool {
    &&& digits_of(s).len() > 0
    &&& forall|i: int| 0 <= i < digits_of(s).len() ==> is_digit_char(#[trigger] digits_of(s)[i])
}

/// The numeric value denoted by a count literal.
pub open spec fn literal_value(s: Seq<char>) -> nat {
    dec_value(digits_of(s))
}

/// A count literal is accepted when it is well formed, strictly positive,
/// and fits in `usize`.
pub open spec fn accepted_count(s: Seq<char>) -> bool {
    &&& is_count_literal(s)
    &&& 0 < literal_value(s) <= usize::MAX
}

/// The value of a digit sequence only grows as more digits are appended.
proof fn lemma_dec_value_take_le(s: Seq<char>, i: int)
    requires
        0 <= i <= s.len(),
    ensures
        dec_value(s.take(i)) <= dec_value(s),
    decreases s.len() - i,
{
    if i == s.len() {
        assert(s.take(i) =~= s);
    } else {
        lemma_dec_value_take_le(s.drop_last(), i);
        assert(s.drop_last().take(i) =~= s.take(i));
        assert(dec_value(s.drop_last()) * 10 >= dec_value(s.drop_last()));
    }
}

/// Parses a strictly positive integer from its decimal text.
///
/// Returns the parsed value exactly when the text is a well-formed count
/// literal whose value is positive and fits in `usize`; otherwise returns
/// the offending text itself as the error.
pub fn parse_positive_int(val: &str) -> (r: Result<usize, String>)
    ensures
        match r {
            Ok(n) => accepted_count(val@) && n == literal_value(val@),
            Err(e) => e@ == val@ && !accepted_count(val@),
        },
{
    let len = val.unicode_len();
    let start: usize = if len > 0 && val.get_char(0) == '+' {
        1
    } else {
        0
    };
    let ghost digits = digits_of(val@);
    proof {
        assert(digits =~= val@.subrange(start as int, len as int));
    }
    if start >= len {
        return Err(val.to_owned());
    }
    let mut n: usize = 0;
    let mut i: usize = start;
    while i < len
        invariant
            start <= i <= len,
            len == val@.len(),
            start <= 1,
            digits == digits_of(val@),
            digits =~= val@.subrange(start as int, len as int),
            forall|j: int| 0 <= j < i - start ==> is_digit_char(#[trigger] digits[j]),
            n == dec_value(digits.take(i - start)),
        decreases len - i,
    {
        let c = val.get_char(i);
        let u = c as u32;
        if u < 48 || u > 57 {
            assert(!is_digit_char(digits[i - start]));
            return Err(val.to_owned());
        }
        let d = (u - 48) as usize;
        proof {
            assert(digits.take(i - start + 1).drop_last() =~= digits.take(i - start));
            assert(digits.take(i - start + 1).last() == digits[i - start]);
        }
        if n > (usize::MAX - d) / 10 {
            proof {
                assert(n * 10 + d > usize::MAX) by (nonlinear_arith)
                    requires
                        n > (usize::MAX - d) / 10,
                        d <= 9,
                {}
                assert(dec_value(digits.take(i - start + 1)) > usize::MAX);
                lemma_dec_value_take_le(digits, i - start + 1);
            }
            return Err(val.to_owned());
        }
        proof {
            assert(n * 10 + d <= usize::MAX) by (nonlinear_arith)
                requires
                    n <= (usize::MAX - d) / 10,
                    d <= 9,
            {}
        }
        n = n * 10 + d;
        i = i + 1;
    }
    proof {
        assert(digits.take(len - start) =~= digits);
    }
    if n == 0 {
        Err(val.to_owned())
    } else {
        Ok(n)
    }
}

/// Which prefix of each source the run emits: a number of lines or a
/// number of bytes. Exactly one of the two governs a run.
#[derive(Debug, Clone, Copy, PartialEq, Eq)]
pub enum CountMode {
    Lines(usize),
    Bytes(usize),
}

/// A validated configuration: the sources to read, in order, and the
/// active count mode.
#[derive(Debug)]
pub struct Config {
    pub sources: Vec<String>,
    pub mode: CountMode,
}

impl Config {
    /// There is at least one source, and the active count is positive.
    pub open spec fn well_formed(&self) -> bool {
        &&& self.sources@.len() > 0
        &&& match self.mode {
            CountMode::Lines(n) => n > 0,
            CountMode::Bytes(n) => n > 0,
        }
    }
}

/// Why a set of command-line values was rejected.
#[derive(Debug, Clone, PartialEq, Eq)]
pub enum ConfigError {
    /// The line-count option's value, which is not a positive integer.
    IllegalLineCount(String),
    /// The byte-count option's value, which is not a positive integer.
    IllegalByteCount(String),
    /// Both count options were given explicitly.
    ConflictingCounts,
}

impl ConfigError {
    /// The message shown to the user for this error.
    pub open spec fn message_chars(&self) -> Seq<char> {
        match self {
            ConfigError::IllegalLineCount(v) => "illegal line count -- "@ + v@,
            ConfigError::IllegalByteCount(v) => "illegal byte count -- "@ + v@,
            ConfigError::ConflictingCounts => "the line count and the byte count cannot both be given"@,
        }
    }

    /// Renders the message shown to the user for this error.
    pub fn message(&self) -> (r: String)
        ensures
            r@ == self.message_chars(),
    {
        match self {
            ConfigError::IllegalLineCount(v) => {
                let mut out = String::new();
                out.append("illegal line count -- ");
                out.append(v.as_str());
                assert(out@ =~= self.message_chars());
                out
            },
            ConfigError::IllegalByteCount(v) => {
                let mut out = String::new();
                out.append("illegal byte count -- ");
                out.append(v.as_str());
                assert(out@ =~= self.message_chars());
                out
            },
            ConfigError::ConflictingCounts => {
                let out = String::from_str("the line count and the byte count cannot both be given");
                out
            },
        }
    }
}

/// Resolves raw command-line values into a configuration.
///
/// `sources` holds the positional source names (empty means standard
/// input), and the two options hold the textual values of the line-count
/// and byte-count options, when given. The two options are mutually
/// exclusive; each must be a strictly positive integer; the line count
/// defaults to ten.
pub fn resolve_config(sources: Vec<String>, lines_arg: Option<String>, bytes_arg: Option<String>) -> (r: Result<
    Config,
    ConfigError,
>)
    ensures
        match r {
            Ok(c) => {
                &&& !(lines_arg is Some && bytes_arg is Some)
                &&& (match lines_arg {
                    Some(l) => accepted_count(l@),
                    None => true,
                })
                &&& (match bytes_arg {
                    Some(b) => accepted_count(b@),
                    None => true,
                })
                &&& c.well_formed()
                &&& (match bytes_arg {
                    Some(b) => c.mode == CountMode::Bytes(literal_value(b@) as usize),
                    None => c.mode == CountMode::Lines(
                        match lines_arg {
                            Some(l) => literal_value(l@) as usize,
                            None => 10,
                        },
                    ),
                })
                &&& (if sources@.len() == 0 {
                    c.sources@.len() == 1 && c.sources@[0]@ == "-"@
                } else {
                    c.sources == sources
                })
            },
            Err(e) => match e {
                ConfigError::ConflictingCounts => lines_arg is Some && bytes_arg is Some,
                ConfigError::IllegalLineCount(v) => {
                    &&& !(lines_arg is Some && bytes_arg is Some)
                    &&& lines_arg matches Some(l) && v@ == l@ && !accepted_count(l@)
                },
                ConfigError::IllegalByteCount(v) => {
                    &&& !(lines_arg is Some && bytes_arg is Some)
                    &&& (match lines_arg {
                        Some(l) => accepted_count(l@),
                        None => true,
                    })
                    &&& bytes_arg matches Some(b) && v@ == b@ && !accepted_count(b@)
                },
            },
        },
{
    if lines_arg.is_some() && bytes_arg.is_some() {
        return Err(ConfigError::ConflictingCounts);
    }
    let lines: usize = match &lines_arg {
        Some(l) => match parse_positive_int(l.as_str()) {
            Ok(n) => n,
            Err(v) => {
                return Err(ConfigError::IllegalLineCount(v));
            },
        },
        None => 10,
    };
    let mode: CountMode = match &bytes_arg {
        Some(b) => match parse_positive_int(b.as_str()) {
            Ok(n) => CountMode::Bytes(n),
            Err(v) => {
                return Err(ConfigError::IllegalByteCount(v));
            },
        },
        None => CountMode::Lines(lines),
    };
    let mut sources = sources;
    if sources.len() == 0 {
        sources.push(String::from_str("-"));
    }
    Ok(Config { sources, mode })
}

} // verus!
