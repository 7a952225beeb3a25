//! Parsing of decimal strings into arbitrary-precision naturals.
use vstd::prelude::*;
use num_bigint::BigUint;
use std::str::FromStr;
use crate::FactorError;
use crate::bigint::nat_of;

verus! {

/// An ASCII decimal digit.
pub open spec fn is_ascii_digit(c: char) -> bool {
    48 <= c as u32 <= 57
}

/// The numeric value of an ASCII decimal digit.
pub open spec fn digit_val(c: char) -> nat {
    (c as u32 - 48) as nat
}

/// The number a big-endian string of decimal digits denotes; underscore
/// separators are skipped.
pub open spec fn dec_value(s: Seq<char>) -> nat
    decreases s.len(),
{
    if s.len() == 0 {
        0
    } else {
        let rest = dec_value(s.drop_last());
        if s.last() == '_' {
            rest
        } else {
            rest * 10 + digit_val(s.last())
        }
    }
}

/// The digits of a decimal string once a single leading plus sign is
/// stripped; a doubled sign is left in place (and never validates).
pub open spec fn decimal_body(s: Seq<char>) -> Seq<char> {
    if s.len() >= 1 && s[0] == '+' && !(s.len() >= 2 && s[1] == '+') {
        s.subrange(1, s.len() as int)
    } else {
        s
    }
}

/// The strings that parse as a decimal natural: after the optional sign, a
/// leading digit followed by digits or underscore separators.
pub open spec fn valid_decimal(s: Seq<char>) -> bool {
    let b = decimal_body(s);
    &&& b.len() >= 1
    &&& is_ascii_digit(b[0])
    &&& forall|i: int| 0 <= i < b.len() ==> (is_ascii_digit(#[trigger] b[i]) || b[i] == '_')
}

/// Relies on `FromStr for BigUint`, that is `from_str_radix` at radix 10:
/// it strips one leading '+', rejects an empty or '_'-led remainder and any
/// character other than a digit or '_', and reads the digits big-endian.
#[verifier::external_body]
fn big_from_decimal_str(s: &str) -> (r: Option<BigUint>)
    ensures
        r is Some <==> valid_decimal(s@),
        r matches Some(b) ==> nat_of(b) == dec_value(decimal_body(s@)),
{
    match BigUint::from_str(s) {
        Ok(b) => Some(b),
        Err(_) => None,
    }
}

/// Parses a decimal string into a natural number, rejecting anything that
/// is not a valid non-negative integer literal.
pub fn parse_natural(s: &str) -> (r: Result<BigUint, FactorError>)
    ensures
        r is Ok <==> valid_decimal(s@),
        r matches Ok(b) ==> nat_of(b) == dec_value(decimal_body(s@)),
        r matches Err(e) ==> e == FactorError::InvalidInput,
{
    match big_from_decimal_str(s) {
        Some(b) => Ok(b),
        None => Err(FactorError::InvalidInput),
    }
}

} // verus!
