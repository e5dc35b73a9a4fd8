//! The cache size budget given on the command line.
use vstd::prelude::*;

verus! {

/// Why a budget was refused.
#[derive(Clone, Copy, Debug, PartialEq, Eq, Structural)]
pub enum ConfigError {
    /// The text is not a byte size such as `10 GB`.
    Unparsable,
    /// A budget of zero bytes leaves room for nothing.
    Zero,
}

/// The byte count that `bytefmt::parse` reads from a text, if it reads one.
pub uninterp spec fn byte_count_of(s: Seq<char>) -> Option<u64>;

/// Relies on `bytefmt::parse`: it reads sizes such as `123`, `1.5 KiB` or
/// `10 GB` from the text alone, and fails on anything else. Its pattern takes
/// any Unicode decimal digit, which std's float parser then refuses with a
/// panic, so only ASCII text is handed to it.
#[verifier::external_body]
fn parse_byte_size(s: &str) -> (r: Option<u64>)
    requires
        vstd::utf8::is_ascii_chars(s@),
    ensures
        r == byte_count_of(s@),
{
    bytefmt::parse(s).ok()
}

/// What a parsed size means as a budget.
pub open spec fn budget_of(parsed: Option<u64>) -> Result<u64, ConfigError> {
    match parsed {
        None => Err(ConfigError::Unparsable),
        Some(0) => Err(ConfigError::Zero),
        Some(n) => Ok(n),
    }
}

/// Accepts a parsed size as a budget unless it is missing or zero.
pub fn budget_from(parsed: Option<u64>) -> (r: Result<u64, ConfigError>)
    ensures
        r == budget_of(parsed),
{
    match parsed {
        None => Err(ConfigError::Unparsable),
        Some(n) => {
            if n == 0 {
                Err(ConfigError::Zero)
            } else {
                Ok(n)
            }
        },
    }
}

/// Reads a cache budget such as `10 GB`; zero is refused, and so is text
/// that is not ASCII. That also refuses the few non-ASCII spellings the parser
/// would read (a Kelvin sign for `k`): which characters are safe to hand it
/// depends on Unicode's digit tables, which nothing here can state.
pub fn non_zero_bytes(input: &str) -> (r: Result<u64, ConfigError>)
    ensures
        vstd::utf8::is_ascii_chars(input@) ==> r == budget_of(byte_count_of(input@)),
        !vstd::utf8::is_ascii_chars(input@) ==> r == Err::<u64, ConfigError>(ConfigError::Unparsable),
{
    if !input.is_ascii() {
        return Err(ConfigError::Unparsable);
    }
    budget_from(parse_byte_size(input))
}

} // verus!
