//! Decoding: `%XX` back to bytes, leniently, and the bytes back to text.
use vstd::prelude::*;
use vstd::string::*;
use vstd::utf8::*;
use crate::charset::{from_hex_digit, hex_value, PERCENT};
use crate::error::FromUrlEncodingError;
use crate::utf8::string_from_utf8;

verus! {

/// Whether `s` starts with a well-formed escape: `%` and two hexadecimal digits.
pub open spec fn is_escape(s: Seq<u8>) -> bool {
    &&& s.len() >= 3
    &&& s[0] == PERCENT
    &&& hex_value(s[1]) is Some
    &&& hex_value(s[2]) is Some
}

/// The byte that the escape at the start of `s` stands for.
pub open spec fn escape_value(s: Seq<u8>) -> u8
    recommends
        is_escape(s),
{
    (hex_value(s[1])->0 * 16 + hex_value(s[2])->0) as u8
}

/// How many bytes the decoder takes from the front of a non-empty `s` in one step.
///
/// A byte other than `%` goes alone. A `%` takes the byte after it along, if there is one, and
/// the byte after that too, if there is one and the first was a hexadecimal digit.
pub open spec fn step_len(s: Seq<u8>) -> int
    recommends
        s.len() > 0,
{
    if s[0] != PERCENT || s.len() == 1 {
        1
    } else if hex_value(s[1]) is None || s.len() == 2 {
        2
    } else {
        3
    }
}

/// The bytes that `s` decodes to.
///
/// Each step takes `step_len` bytes: a well-formed escape gives the one byte it stands for,
/// anything else is kept as it stands, a malformed escape included.
pub open spec fn percent_decode(s: Seq<u8>) -> Seq<u8>
    decreases s.len(),
{
    if s.len() == 0 {
        Seq::empty()
    } else {
        let n = step_len(s);
        let head = if is_escape(s) {
            seq![escape_value(s)]
        } else {
            s.take(n)
        };
        head + percent_decode(s.skip(n))
    }
}

/// The text that `text` decodes to, or `None` where the decoded bytes are no UTF-8.
pub open spec fn decoded_text(text: Seq<char>) -> Option<Seq<char>> {
    let bytes = percent_decode(encode_utf8(text));
    if valid_utf8(bytes) {
        Some(decode_utf8(bytes))
    } else {
        None
    }
}

/// Decodes percent-encoded text.
///
/// A `%` that two hexadecimal digits do not follow is no error: it stays in the output, and so
/// does what was read with it. `+` stays `+`. The one failure is decoded bytes that are no UTF-8.
pub fn decode(string: &str) -> (res: Result<String, FromUrlEncodingError>)
    ensures
        match decoded_text(string@) {
            Some(text) => res matches Ok(s) && s@ == text,
            None => res matches Err(FromUrlEncodingError::Utf8CharacterError { .. }),
        },
{
    let bytes = string.as_bytes();
    let len = bytes.len();
    let mut out: Vec<u8> = Vec::with_capacity(len);
    let mut i: usize = 0;
    assert(bytes@.skip(0) =~= bytes@);
    while i < len
        invariant
            len == bytes@.len(),
            i <= len,
            out@ + percent_decode(bytes@.skip(i as int)) == percent_decode(bytes@),
        decreases len - i,
    {
        let ghost rest = bytes@.skip(i as int);
        let ghost before = out@;
        let b = bytes[i];
        if b != PERCENT || len - i == 1 {
            out.push(b);
            i += 1;
        } else {
            let first = bytes[i + 1];
            match from_hex_digit(first) {
                Some(first_val) if len - i > 2 => {
                    let second = bytes[i + 2];
                    match from_hex_digit(second) {
                        Some(second_val) => {
                            assert((first_val << 4) | second_val == first_val * 16 + second_val)
                                by (bit_vector)
                                requires
                                    first_val < 16,
                                    second_val < 16,
                            ;
                            out.push((first_val << 4) | second_val);
                        },
                        None => {
                            out.push(PERCENT);
                            out.push(first);
                            out.push(second);
                        },
                    }
                    i += 3;
                },
                _ => {
                    out.push(PERCENT);
                    out.push(first);
                    i += 2;
                },
            }
        }
        proof {
            // one step of the decoder: `head` is what it gave for the bytes it took
            let head = out@.skip(before.len() as int);
            assert(rest.skip(step_len(rest)) =~= bytes@.skip(i as int));
            assert(percent_decode(rest) =~= head + percent_decode(bytes@.skip(i as int)));
            assert(out@ =~= before + head);
        }
    }
    assert(bytes@.skip(len as int) =~= Seq::<u8>::empty());
    assert(out@ =~= percent_decode(bytes@));
    match string_from_utf8(out) {
        Ok(text) => {
            proof {
                encode_utf8_decode_utf8(text@);
            }
            Ok(text)
        },
        Err(error) => Err(FromUrlEncodingError::Utf8CharacterError { error }),
    }
}

} // verus!
