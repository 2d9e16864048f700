//! Binary numerals of any length, written out in decimal.

use crate::text::{chars_of, trim_end, trimmed_len};
use num::bigint::BigUint;
use num_traits::Num;
use vstd::prelude::*;
use vstd::string::StrSliceExecFns;

verus! {

/// Why a text is not a binary numeral.
pub enum NumeralFault {
    /// There is nothing after the sign.
    Empty,
    /// A character is neither a binary digit nor an underscore after the
    /// first digit.
    InvalidDigit,
}

impl NumeralFault {
    /// The words that report the fault.
    pub open spec fn text(self) -> Seq<char> {
        match self {
            NumeralFault::Empty => "cannot parse integer from empty string"@,
            NumeralFault::InvalidDigit => "invalid digit found in string"@,
        }
    }
}

/// The numeral without its sign: one `+` at the start is dropped, unless a
/// second `+` follows it.
pub open spec fn unsigned(s: Seq<char>) -> Seq<char> {
    if s.len() > 0 && s[0] == '+' && (s.len() == 1 || s[1] != '+') {
        s.drop_first()
    } else {
        s
    }
}

/// The character may stand in a binary numeral.
pub open spec fn is_binary_char(c: char) -> bool {
    c == '0' || c == '1' || c == '_'
}

/// What is wrong with a numeral, if anything: after the sign it must start
/// with a digit and hold only binary digits and underscores.
pub open spec fn numeral_fault(s: Seq<char>) -> Option<NumeralFault> {
    let b = unsigned(s);
    if b.len() == 0 {
        Some(NumeralFault::Empty)
    } else if b[0] == '_' || exists|i: int| 0 <= i < b.len() && !is_binary_char(#[trigger] b[i]) {
        Some(NumeralFault::InvalidDigit)
    } else {
        None
    }
}

/// The number that binary digits denote, the most significant digit first.
/// Underscores between the digits do not count.
pub open spec fn binary_value(b: Seq<char>) -> nat
    decreases b.len(),
{
    if b.len() == 0 {
        0
    } else if b.last() == '_' {
        binary_value(b.drop_last())
    } else {
        2 * binary_value(b.drop_last()) + if b.last() == '1' { 1nat } else { 0nat }
    }
}

/// The decimal digits of a number, without leading zeros.
pub open spec fn decimal(n: nat) -> Seq<char>
    decreases n,
{
    if n < 10 {
        seq![(0x30 + n) as char]
    } else {
        decimal(n / 10).push((0x30 + n % 10) as char)
    }
}

/// What converting the numeral `s` gives: its value in decimal, or the words
/// that report what is wrong with it.
pub open spec fn converted(s: Seq<char>) -> Result<Seq<char>, Seq<char>> {
    match numeral_fault(s) {
        Some(fault) => Err(fault.text()),
        None => Ok(decimal(binary_value(unsigned(s)))),
    }
}

/// Reads `s` with `BigUint::from_str_radix` of the crate num-bigint, in radix
/// 2, and writes the number with `BigUint::to_str_radix` in radix 10.  Nothing
/// of this is proved.  It is taken from the crate that it accepts one `+`
/// before the digits and underscores after the first digit, that it reports an
/// empty numeral and a wrong character in the words given here, and that it
/// writes the digits of the number without leading zeros.
#[verifier::external_body]
fn radix2_to_decimal(s: &str) -> (res: Result<String, String>)
    ensures
        match res {
            Ok(d) => converted(s@) == Ok::<Seq<char>, Seq<char>>(d@),
            Err(m) => converted(s@) == Err::<Seq<char>, Seq<char>>(m@),
        },
{
    match BigUint::from_str_radix(s, 2) {
        Ok(n) => Ok(n.to_str_radix(10)),
        Err(e) => Err(e.to_string()),
    }
}

/// Converts a line that holds a binary numeral to the decimal numeral of the
/// same number.  White space at the end of the line does not count.  Where
/// the line holds no numeral, the words that say why come back as the error.
pub fn binary_to_decimal(line: &str) -> (res: Result<String, String>)
    ensures
        match res {
            Ok(d) => converted(trim_end(line@)) == Ok::<Seq<char>, Seq<char>>(d@),
            Err(m) => converted(trim_end(line@)) == Err::<Seq<char>, Seq<char>>(m@),
        },
{
    let text = chars_of(line);
    let n = trimmed_len(&text);
    let kept = line.substring_char(0, n);
    assert(kept@ =~= trim_end(line@));
    radix2_to_decimal(kept)
}

} // verus!
