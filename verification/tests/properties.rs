use std::borrow::Cow;
use urlencoding::{decode, encode, encode_binary, FromUrlEncodingError};

fn is_unreserved(b: u8) -> bool {
    b.is_ascii_alphanumeric() || b == b'-' || b == b'.' || b == b'_' || b == b'~'
}

fn is_upper_hex(b: u8) -> bool {
    b.is_ascii_digit() || (b'A'..=b'F').contains(&b)
}

fn samples() -> Vec<String> {
    let mut all = vec![
        String::new(),
        String::from("plain"),
        String::from("hello world"),
        String::from("100%"),
        String::from("%"),
        String::from("%2"),
        String::from("%2g"),
        String::from("%20"),
        String::from("%%%"),
        String::from("a+b c/d?e=f&g#h"),
        String::from("na\u{ef}ve caf\u{e9}"),
        String::from("\u{4f60}\u{597d}"),
        String::from("\u{1f600} smile"),
        String::from("\u{0}\u{1}\u{7f}\u{80}\u{7ff}\u{800}\u{ffff}\u{10000}\u{10ffff}"),
    ];
    let mut ascii = String::new();
    for b in 0u8..128 {
        ascii.push(b as char);
    }
    all.push(ascii);
    all
}

#[test]
fn round_trip_gives_the_text_back() {
    for text in samples() {
        let encoded = encode(&text);
        assert_eq!(decode(&encoded).unwrap(), text, "through {:?}", encoded);
    }
}

#[test]
fn round_trip_of_every_single_byte_as_latin_text() {
    for code in 0u32..=0xff {
        let text = char::from_u32(code).unwrap().to_string();
        assert_eq!(decode(&encode(&text)).unwrap(), text);
    }
}

#[test]
fn output_holds_unreserved_bytes_and_uppercase_escapes_only() {
    let mut every_byte = Vec::new();
    for b in 0u8..=255 {
        every_byte.push(b);
    }
    let mut inputs: Vec<Vec<u8>> = vec![every_byte];
    for text in samples() {
        inputs.push(text.into_bytes());
    }
    for input in inputs {
        let encoded = encode_binary(&input);
        let bytes = encoded.as_bytes();
        for i in 0..bytes.len() {
            let escape = bytes[i] == b'%'
                && i + 2 < bytes.len()
                && is_upper_hex(bytes[i + 1])
                && is_upper_hex(bytes[i + 2]);
            assert!(is_unreserved(bytes[i]) || escape, "byte {} of {:?}", i, encoded);
        }
    }
}

#[test]
fn every_byte_is_encoded_by_its_own_rule() {
    for b in 0u8..=255 {
        let expected = if is_unreserved(b) {
            (b as char).to_string()
        } else {
            format!("%{:02X}", b)
        };
        assert_eq!(encode_binary(&[b]), expected);
    }
}

#[test]
fn encoded_length_is_one_or_three_for_each_byte() {
    let input = b"ab c\xff-";
    assert_eq!(encode_binary(input).len(), 4 + 2 * 3);
}

#[test]
fn decode_of_text_without_percent_is_the_text() {
    for text in ["", "plain", "a+b c/d?e=f&g#h", "\u{4f60}\u{597d}", "\u{1f600}", "~-._"] {
        assert_eq!(decode(text).unwrap(), text);
    }
}

#[test]
fn borrowed_exactly_when_every_byte_is_unreserved() {
    let inputs: [&[u8]; 8] =
        [b"", b"abc", b"A-Z_a.z~09", b"a b", b" ", b"%", b"abc\x80", b"\xff"];
    for input in inputs {
        let all_safe = input.iter().all(|b| is_unreserved(*b));
        let encoded = encode_binary(input);
        assert_eq!(matches!(encoded, Cow::Borrowed(_)), all_safe, "for {:?}", input);
        let mut expected = String::new();
        for b in input {
            if is_unreserved(*b) {
                expected.push(*b as char);
            } else {
                expected.push_str(&format!("%{:02X}", b));
            }
        }
        assert_eq!(encoded, expected);
    }
}

#[test]
fn borrowed_result_is_the_input_itself() {
    let input = String::from("already-safe_1.0~");
    match encode_binary(input.as_bytes()) {
        Cow::Borrowed(text) => assert_eq!(text.as_ptr(), input.as_ptr()),
        Cow::Owned(_) => panic!("expected the input back"),
    }
}

#[test]
fn decode_invalid_utf8_fails() {
    match decode("%FF") {
        Err(FromUrlEncodingError::Utf8CharacterError { error }) => {
            assert_eq!(error.as_bytes(), &[0xFFu8]);
            assert_eq!(error.utf8_error().valid_up_to(), 0);
            assert_eq!(error.utf8_error().error_len(), Some(1));
        }
        other => panic!("expected a UTF-8 failure, got {:?}", other),
    }
}

#[test]
fn decode_truncated_utf8_fails() {
    match decode("ok%E4%BD") {
        Err(FromUrlEncodingError::Utf8CharacterError { error }) => {
            assert_eq!(error.as_bytes(), b"ok\xe4\xbd");
            assert_eq!(error.utf8_error().valid_up_to(), 2);
            assert_eq!(error.utf8_error().error_len(), None);
        }
        other => panic!("expected a UTF-8 failure, got {:?}", other),
    }
}

#[test]
fn decode_fails_on_overlong_surrogate_and_stray_bytes() {
    for text in ["%C0%80", "%ED%A0%80", "%80", "%F5%80%80%80", "a%FEb"] {
        assert!(
            matches!(decode(text), Err(FromUrlEncodingError::Utf8CharacterError { .. })),
            "for {:?}",
            text
        );
    }
}

#[test]
fn decode_accepts_the_ends_of_each_utf8_width() {
    assert_eq!(decode("%00").unwrap(), "\u{0}");
    assert_eq!(decode("%7F").unwrap(), "\u{7f}");
    assert_eq!(decode("%C2%80").unwrap(), "\u{80}");
    assert_eq!(decode("%DF%BF").unwrap(), "\u{7ff}");
    assert_eq!(decode("%E0%A0%80").unwrap(), "\u{800}");
    assert_eq!(decode("%EF%BF%BF").unwrap(), "\u{ffff}");
    assert_eq!(decode("%F0%90%80%80").unwrap(), "\u{10000}");
    assert_eq!(decode("%F4%8F%BF%BF").unwrap(), "\u{10ffff}");
}

#[test]
fn decode_joins_raw_and_escaped_bytes_of_one_character() {
    // the first byte of the character stands raw in the text, the second is escaped
    let text = String::from_utf8(vec![b'%', b'C', b'3', b'%', b'A', b'9']).unwrap();
    assert_eq!(decode(&text).unwrap(), "\u{e9}");
}
