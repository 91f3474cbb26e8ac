//! What holds of encoding and decoding together.
use vstd::prelude::*;
use vstd::utf8::*;
use crate::charset::{is_unreserved, lemma_hex_digit_round_trip, PERCENT};
use crate::dec::{decoded_text, escape_value, is_escape, percent_decode, step_len};
use crate::enc::{encode_byte, encoded_text, lemma_encoded_text_bytes, percent_encode};
use crate::utf8::lemma_encode_utf8_concat;

verus! {

/// Decoding undoes encoding, for any bytes at all.
pub proof fn lemma_decode_inverts_encode(data: Seq<u8>)
    ensures
        percent_decode(percent_encode(data)) == data,
    decreases data.len(),
{
    if data.len() == 0 {
        assert(percent_decode(percent_encode(data)) =~= data);
    } else {
        let b = data[0];
        let head = encode_byte(b);
        let rest = percent_encode(data.skip(1));
        let text = head + rest;
        lemma_decode_inverts_encode(data.skip(1));
        assert(text.skip(head.len() as int) =~= rest);
        if is_unreserved(b) {
            assert(step_len(text) == 1);
            assert(text.take(1) =~= seq![b]);
        } else {
            lemma_hex_digit_round_trip((b / 16) as u8);
            lemma_hex_digit_round_trip((b % 16) as u8);
            assert(is_escape(text));
            assert(step_len(text) == 3);
            assert(escape_value(text) == b);
        }
        assert(percent_decode(text) =~= seq![b] + data.skip(1));
        assert(seq![b] + data.skip(1) =~= data);
    }
}

/// Round trip: text that was encoded decodes, without failure, to the text it was.
pub proof fn lemma_round_trip(text: Seq<char>)
    ensures
        decoded_text(encoded_text(encode_utf8(text))) == Some(text),
{
    let data = encode_utf8(text);
    lemma_encoded_text_bytes(data, encoded_text(data));
    lemma_decode_inverts_encode(data);
    encode_utf8_valid_utf8(text);
    encode_utf8_decode_utf8(text);
}

/// Bytes without a `%` decode to themselves.
pub proof fn lemma_decode_without_percent(bytes: Seq<u8>)
    requires
        !bytes.contains(PERCENT),
    ensures
        percent_decode(bytes) == bytes,
    decreases bytes.len(),
{
    if bytes.len() == 0 {
        assert(percent_decode(bytes) =~= bytes);
    } else {
        let rest = bytes.skip(1);
        assert(bytes[0] != PERCENT);
        assert(!rest.contains(PERCENT)) by {
            if rest.contains(PERCENT) {
                let i = choose|i: int| 0 <= i < rest.len() && rest[i] == PERCENT;
                assert(bytes[i + 1] == PERCENT);
            }
        }
        lemma_decode_without_percent(rest);
        assert(percent_decode(bytes) =~= bytes);
    }
}

/// Text without the character `%` has no byte `%` in its UTF-8 form.
pub proof fn lemma_utf8_without_percent(text: Seq<char>)
    requires
        !text.contains('%'),
    ensures
        !encode_utf8(text).contains(PERCENT),
    decreases text.len(),
{
    if text.len() > 0 {
        let c = text[0] as u32;
        let head = encode_scalar(c);
        let rest = encode_utf8(text.drop_first());
        assert(c != 0x25) by {
            char_is_scalar(text[0]);
            char_u32_cast(text[0], c);
            assert(text[0] != '%');
            assert('%' as u32 == 0x25);
        }
        assert(!text.drop_first().contains('%')) by {
            if text.drop_first().contains('%') {
                let i = choose|i: int|
                    0 <= i < text.drop_first().len() && text.drop_first()[i] == '%';
                assert(text[i + 1] == '%');
            }
        }
        lemma_utf8_without_percent(text.drop_first());
        assert(forall|i: int| 0 <= i < head.len() ==> head[i] != 0x25) by {
            assert(leading_byte_width_1(c) != 0x25 || !has_width_1_encoding(c)) by (bit_vector)
                requires
                    c != 0x25,
            ;
            assert(leading_byte_width_2(c) != 0x25 && leading_byte_width_3(c) != 0x25
                && leading_byte_width_4(c) != 0x25 && last_continuation_byte(c) != 0x25
                && second_last_continuation_byte(c) != 0x25 && third_last_continuation_byte(c)
                != 0x25) by (bit_vector);
        }
        if (head + rest).contains(PERCENT) {
            let i = choose|i: int| 0 <= i < (head + rest).len() && (head + rest)[i] == PERCENT;
            if i >= head.len() {
                assert(rest[i - head.len()] == PERCENT);
            }
        }
    }
}

/// Text without a `%` decodes to itself.
pub proof fn lemma_decode_plain_text(text: Seq<char>)
    requires
        !text.contains('%'),
    ensures
        decoded_text(text) == Some(text),
{
    lemma_utf8_without_percent(text);
    lemma_decode_without_percent(encode_utf8(text));
    encode_utf8_valid_utf8(text);
    encode_utf8_decode_utf8(text);
}

/// Text written into a string chunk by chunk is the text that encoding gives at once: a
/// string whose bytes grew by the encoded form of `data` grew by the encoded text of `data`.
pub proof fn lemma_written_text(data: Seq<u8>, before: Seq<char>, after: Seq<char>)
    requires
        encode_utf8(after) == encode_utf8(before) + percent_encode(data),
    ensures
        after == before + encoded_text(data),
{
    lemma_encoded_text_bytes(data, encoded_text(data));
    lemma_encode_utf8_concat(before, encoded_text(data));
    encode_utf8_decode_utf8(after);
    encode_utf8_decode_utf8(before + encoded_text(data));
}

} // verus!
