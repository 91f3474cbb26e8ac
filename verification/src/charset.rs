//! The fixed character classes of the codec: the unreserved set and the hexadecimal digits.
use vstd::prelude::*;

verus! {

/// The byte `%`, which starts an escape.
pub const PERCENT: u8 = 0x25;

/// Whether the encoder leaves `b` as it is: an ASCII letter or digit, or one of `-`, `.`, `_`, `~`.
pub open spec fn is_unreserved(b: u8) -> bool {
    ||| 0x30 <= b <= 0x39  // 0-9
    ||| 0x41 <= b <= 0x5a  // A-Z
    ||| 0x61 <= b <= 0x7a  // a-z
    ||| b == 0x2d  // -
    ||| b == 0x2e  // .
    ||| b == 0x5f  // _
    ||| b == 0x7e  // ~
}

/// Tells whether the encoder leaves `b` as it is.
pub fn unreserved(b: u8) -> (res: bool)
    ensures
        res == is_unreserved(b),
{
    (0x30 <= b && b <= 0x39) || (0x41 <= b && b <= 0x5a) || (0x61 <= b && b <= 0x7a) || b == 0x2d
        || b == 0x2e || b == 0x5f || b == 0x7e
}

/// The value of the hexadecimal digit `d`, in either case; `None` where `d` is no such digit.
pub open spec fn hex_value(d: u8) -> Option<u8> {
    if 0x30 <= d <= 0x39 {
        Some((d - 0x30) as u8)
    } else if 0x41 <= d <= 0x46 {
        Some((d - 0x41 + 10) as u8)
    } else if 0x61 <= d <= 0x66 {
        Some((d - 0x61 + 10) as u8)
    } else {
        None
    }
}

/// The uppercase hexadecimal digit that stands for `n`, for `n` below 16.
pub open spec fn upper_hex(n: u8) -> u8
    recommends
        n < 16,
{
    if n < 10 {
        (0x30 + n) as u8
    } else {
        (0x41 + n - 10) as u8
    }
}

/// Whether `d` is one of `0-9`, `A-F`.
pub open spec fn is_upper_hex(d: u8) -> bool {
    0x30 <= d <= 0x39 || 0x41 <= d <= 0x46
}

/// Reads one hexadecimal digit, upper or lower case.
pub fn from_hex_digit(digit: u8) -> (res: Option<u8>)
    ensures
        res == hex_value(digit),
{
    if 0x30 <= digit && digit <= 0x39 {
        Some(digit - 0x30)
    } else if 0x41 <= digit && digit <= 0x46 {
        Some(digit - 0x41 + 10)
    } else if 0x61 <= digit && digit <= 0x66 {
        Some(digit - 0x61 + 10)
    } else {
        None
    }
}

/// Writes a value below 16 as one uppercase hexadecimal digit.
pub fn to_hex_digit(digit: u8) -> (res: u8)
    requires
        digit < 16,
    ensures
        res == upper_hex(digit),
{
    if digit < 10 {
        0x30 + digit
    } else {
        0x41 - 10 + digit
    }
}

/// An uppercase hexadecimal digit is read back as the value it was written for.
pub proof fn lemma_hex_digit_round_trip(n: u8)
    requires
        n < 16,
    ensures
        is_upper_hex(upper_hex(n)),
        is_unreserved(upper_hex(n)),
        hex_value(upper_hex(n)) == Some(n),
{
}

} // verus!
