//! The settings of a run: the bound on probes in flight, and the name of the
//! file the surviving entries are written to.
use vstd::prelude::*;
use vstd::string::StringSliceAdditionalSpecFns;

verus! {

/// The bound on probes in flight when none is given.
pub const DEFAULT_CONCURRENCY: usize = 15;

/// Why a given concurrency bound is refused.
#[derive(Debug, Clone, Copy, PartialEq, Eq)]
pub enum ConfigError {
    /// The text is not a decimal number that fits in a `usize`.
    NotANumber,
    /// The number is zero: no probe could ever start.
    NotPositive,
}

pub open spec fn is_digit(b: u8) -> bool {
    0x30u8 <= b <= 0x39u8
}

pub open spec fn all_digits(s: Seq<u8>) -> bool {
    forall|i: int| 0 <= i < s.len() ==> is_digit(#[trigger] s[i])
}

/// The value of a string of decimal digits.
pub open spec fn digits_value(s: Seq<u8>) -> nat
    decreases s.len(),
{
    if s.len() == 0 {
        0
    } else {
        digits_value(s.drop_last()) * 10 + (s.last() - 0x30u8) as nat
    }
}

/// The text without the one `+` sign it may start with.
pub open spec fn unsigned_part(s: Seq<u8>) -> Seq<u8> {
    if s.len() > 0 && s[0] == 0x2bu8 {
        s.drop_first()
    } else {
        s
    }
}

/// The number that the text `s` spells, in the form that `usize` takes from
/// a string: an optional `+`, then one or more decimal digits, of a value
/// that fits.
pub open spec fn spec_parse_usize(s: Seq<u8>) -> Option<nat> {
    let d = unsigned_part(s);
    if d.len() > 0 && all_digits(d) && digits_value(d) <= usize::MAX {
        Some(digits_value(d))
    } else {
        None
    }
}

/// The bound that the setting `arg` gives (`None`: no setting).
pub open spec fn spec_concurrency(arg: Option<Seq<u8>>) -> Result<usize, ConfigError> {
    match arg {
        None => Ok(DEFAULT_CONCURRENCY),
        Some(s) => match spec_parse_usize(s) {
            None => Err(ConfigError::NotANumber),
            Some(n) => if n == 0 {
                Err(ConfigError::NotPositive)
            } else {
                Ok(n as usize)
            },
        },
    }
}

proof fn lemma_digits_value_grows(s: Seq<u8>, i: int, j: int)
    requires
        0 <= i <= j <= s.len(),
        all_digits(s),
    ensures
        digits_value(s.subrange(0, i)) <= digits_value(s.subrange(0, j)),
    decreases j - i,
{
    if i < j {
        lemma_digits_value_grows(s, i, j - 1);
        assert(s.subrange(0, j).drop_last() =~= s.subrange(0, j - 1));
    }
}

/// The bound on probes in flight for the setting `arg`: `DEFAULT_CONCURRENCY`
/// when there is none, else the positive number it spells.
pub fn parse_concurrency(arg: Option<&str>) -> (r: Result<usize, ConfigError>)
    ensures
        r == spec_concurrency(
            match arg {
                Some(s) => Some(s.spec_bytes()),
                None => None,
            },
        ),
{
    let text = match arg {
        None => {
            return Ok(DEFAULT_CONCURRENCY);
        },
        Some(text) => text,
    };
    let s = text.as_bytes();
    let start: usize = if s.len() > 0 && s[0] == 0x2bu8 {
        1
    } else {
        0
    };
    let ghost d = unsigned_part(s@);
    assert(d =~= s@.subrange(start as int, s@.len() as int));
    if start == s.len() {
        return Err(ConfigError::NotANumber);
    }
    let mut value: usize = 0;
    let mut i: usize = start;
    while i < s.len()
        invariant
            start <= i <= s@.len(),
            arg == Some(text),
            s@ == text.spec_bytes(),
            d == unsigned_part(s@),
            d =~= s@.subrange(start as int, s@.len() as int),
            all_digits(d.subrange(0, i - start)),
            value == digits_value(d.subrange(0, i - start)),
        decreases s@.len() - i,
    {
        let b = s[i];
        let ghost prev = d.subrange(0, i - start);
        let ghost next = d.subrange(0, i - start + 1);
        assert(next.drop_last() =~= prev);
        if b < 0x30u8 || b > 0x39u8 {
            assert(d[i - start] == b);
            return Err(ConfigError::NotANumber);
        }
        let digit = (b - 0x30u8) as usize;
        let grown = match value.checked_mul(10) {
            Some(t) => t.checked_add(digit),
            None => None,
        };
        match grown {
            Some(v) => {
                value = v;
            },
            None => {
                proof {
                    if all_digits(d) {
                        lemma_digits_value_grows(d, i - start + 1, d.len() as int);
                        assert(d.subrange(0, d.len() as int) =~= d);
                    }
                }
                return Err(ConfigError::NotANumber);
            },
        }
        i = i + 1;
    }
    assert(d.subrange(0, d.len() as int) =~= d);
    if value == 0 {
        Err(ConfigError::NotPositive)
    } else {
        Ok(value)
    }
}

/// The name of the file the surviving entries go to: `new` before the name
/// of the catalog file.
pub open spec fn spec_output_name(input: Seq<char>) -> Seq<char> {
    seq!['n', 'e', 'w'] + input
}

pub fn output_file_name(input: &str) -> (r: String)
    ensures
        r@ == spec_output_name(input@),
{
    let prefix = "new";
    proof {
        reveal_strlit("new");
    }
    let r = prefix.to_owned().concat(input);
    assert(prefix@ =~= seq!['n', 'e', 'w']);
    r
}

} // verus!
