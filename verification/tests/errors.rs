use urlencoding::{decode, FromUrlEncodingError};

#[test]
fn utf8_error_reads_as_the_standard_account() {
    let error = decode("%FF").unwrap_err();
    assert_eq!(
        error.to_string(),
        "invalid utf8 char: invalid utf-8 sequence of 1 bytes from index 0"
    );
    let cut = decode("abc%E4%BD").unwrap_err();
    assert_eq!(
        cut.to_string(),
        "invalid utf8 char: incomplete utf-8 byte sequence from index 3"
    );
}

#[test]
fn utf8_error_has_the_standard_error_as_source() {
    let error = decode("x%80").unwrap_err();
    let source = error.source().expect("a UTF-8 failure has a source");
    assert_eq!(source.as_bytes(), b"x\x80");
    assert_eq!(source.utf8_error().valid_up_to(), 1);
    match &error {
        FromUrlEncodingError::Utf8CharacterError { error: inner } => assert_eq!(inner, source),
        other => panic!("expected a UTF-8 failure, got {:?}", other),
    }
}

#[test]
fn uri_character_error_reads_with_character_and_index() {
    let error = FromUrlEncodingError::UriCharacterError { character: '#', index: 0 };
    assert_eq!(error.to_string(), "invalid URI char [#] at [0]");
    let far = FromUrlEncodingError::UriCharacterError { character: '\u{e9}', index: 1234567890 };
    assert_eq!(far.to_string(), "invalid URI char [\u{e9}] at [1234567890]");
    let nine = FromUrlEncodingError::UriCharacterError { character: ' ', index: 9 };
    assert_eq!(nine.to_string(), "invalid URI char [ ] at [9]");
    let ten = FromUrlEncodingError::UriCharacterError { character: ' ', index: 10 };
    assert_eq!(ten.to_string(), "invalid URI char [ ] at [10]");
    let most = FromUrlEncodingError::UriCharacterError { character: 'x', index: usize::MAX };
    assert_eq!(most.to_string(), format!("invalid URI char [x] at [{}]", usize::MAX));
}

#[test]
fn uri_character_error_has_no_source() {
    let error = FromUrlEncodingError::UriCharacterError { character: '#', index: 3 };
    assert!(error.source().is_none());
}

#[test]
fn error_shows_in_debug() {
    let error = FromUrlEncodingError::UriCharacterError { character: '#', index: 3 };
    assert_eq!(format!("{:?}", error), "UriCharacterError { character: '#', index: 3 }");
    assert!(format!("{:?}", decode("%FF").unwrap_err()).starts_with("Utf8CharacterError"));
}
