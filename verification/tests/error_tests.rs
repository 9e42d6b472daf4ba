use oxidize_pdf::error::{OxidizePdfError, ParseError};

#[test]
fn test_parse_error_conversion() {
    let io_error = std::io::Error::new(std::io::ErrorKind::NotFound, "File not found");
    let parse_error = ParseError::Io(io_error);
    let oxidize_error = OxidizePdfError::from_parse_error(parse_error);
    match oxidize_error {
        OxidizePdfError::ParseError(m) => assert!(m.starts_with("IO error: ")),
    }
}

#[test]
fn test_parse_error_messages() {
    let errors = vec![
        ParseError::InvalidHeader,
        ParseError::UnsupportedVersion("2.5".to_string()),
        ParseError::InvalidXRef,
        ParseError::InvalidTrailer,
        ParseError::CircularReference,
        ParseError::EncryptionNotSupported,
    ];
    for error in errors {
        let message = error.message();
        assert!(!message.is_empty());
    }
}

#[test]
fn test_parse_error_message_texts() {
    assert_eq!(ParseError::InvalidHeader.message(), "Invalid PDF header");
    assert_eq!(
        ParseError::UnsupportedVersion("2.5".to_string()).message(),
        "Unsupported PDF version: 2.5"
    );
    assert_eq!(
        ParseError::SyntaxError { position: 42, message: "bad".to_string() }.message(),
        "Syntax error at position 42: bad"
    );
    assert_eq!(
        ParseError::StreamLengthMismatch { declared: 10, actual: 7 }.message(),
        "Stream length mismatch: declared 10 bytes, but found endstream at 7 bytes"
    );
    assert_eq!(ParseError::InvalidReference(12, 3).message(), "Invalid object reference: 12 3 R");
    assert_eq!(ParseError::EmptyFile.message(), "File is empty (0 bytes)");
}

#[test]
fn test_parse_error_conversion_keeps_message() {
    let e = OxidizePdfError::from_parse_error(ParseError::MissingKey("Root".to_string()));
    match e {
        OxidizePdfError::ParseError(m) => assert_eq!(m, "Missing required key: Root"),
    }
}
