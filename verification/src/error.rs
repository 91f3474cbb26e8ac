//! The decoder's error, and how it reads.
use vstd::pervasive::unreached;
use vstd::prelude::*;
use vstd::string::*;
use std::string::FromUtf8Error;
use crate::utf8::{ascii_text, is_ascii_bytes, lemma_ascii_bytes, string_from_utf8, string_push};

verus! {

/// Why a text could not be decoded.
#[derive(Debug)]
pub enum FromUrlEncodingError {
    /// Never returned; kept so that older callers still build.
    UriCharacterError { character: char, index: usize },
    /// The decoded bytes are no UTF-8. Holds the standard library's account of it.
    Utf8CharacterError { error: FromUtf8Error },
}

/// The decimal digits of `n`, as ASCII bytes, without leading zeros.
pub open spec fn decimal(n: nat) -> Seq<u8>
    decreases n,
{
    if n < 10 {
        seq![(0x30 + n) as u8]
    } else {
        decimal(n / 10).push((0x30 + n % 10) as u8)
    }
}

/// What the error reads as where it names a character and its place.
pub open spec fn uri_character_message(character: char, index: usize) -> Seq<char> {
    "invalid URI char ["@ + seq![character] + "] at ["@ + ascii_text(decimal(index as nat)) + "]"@
}

/// Appends the decimal digits of `n` to `out`.
fn push_decimal(out: &mut Vec<u8>, n: usize)
    ensures
        final(out)@ == old(out)@ + decimal(n as nat),
    decreases n,
{
    if n >= 10 {
        push_decimal(out, n / 10);
    }
    out.push(0x30 + (n % 10) as u8);
    assert(out@ =~= old(out)@ + decimal(n as nat));
}

/// Decimal digits are ASCII.
proof fn lemma_decimal_ascii(n: nat)
    ensures
        is_ascii_bytes(decimal(n)),
    decreases n,
{
    if n >= 10 {
        lemma_decimal_ascii(n / 10);
    }
}

impl FromUrlEncodingError {
    /// The standard library's error that lies behind this one, if one does.
    pub fn source(&self) -> (res: Option<&FromUtf8Error>)
        ensures
            match self {
                FromUrlEncodingError::UriCharacterError { .. } => res is None,
                FromUrlEncodingError::Utf8CharacterError { error } => res == Some(error),
            },
    {
        match self {
            FromUrlEncodingError::UriCharacterError { .. } => None,
            FromUrlEncodingError::Utf8CharacterError { error } => Some(error),
        }
    }

    /// The error in words. For decoded bytes that are no UTF-8, the words end with what the
    /// standard library says of them.
    pub fn to_string(&self) -> (res: String)
        ensures
            match self {
                FromUrlEncodingError::UriCharacterError { character, index } => res@
                    == uri_character_message(*character, *index),
                FromUrlEncodingError::Utf8CharacterError { error } => exists|shown: String|
                    #[trigger] to_string_from_display_ensures::<FromUtf8Error>(error, shown) && res@
                        == "invalid utf8 char: "@ + shown@,
            },
    {
        match self {
            FromUrlEncodingError::UriCharacterError { character, index } => {
                let mut digits: Vec<u8> = Vec::new();
                push_decimal(&mut digits, *index);
                proof {
                    lemma_decimal_ascii(*index as nat);
                    assert(digits@ =~= decimal(*index as nat));
                    lemma_ascii_bytes(digits@);
                }
                let mut text = String::from_str("invalid URI char [");
                string_push(&mut text, *character);
                text.append("] at [");
                match string_from_utf8(digits) {
                    Ok(number) => {
                        proof {
                            vstd::utf8::encode_utf8_decode_utf8(number@);
                        }
                        text.append(number.as_str());
                    },
                    Err(_) => unreached(),
                }
                text.append("]");
                text
            },
            FromUrlEncodingError::Utf8CharacterError { error } => {
                let shown = error.to_string();
                let mut text = String::from_str("invalid utf8 char: ");
                text.append(shown.as_str());
                text
            },
        }
    }
}

} // verus!
