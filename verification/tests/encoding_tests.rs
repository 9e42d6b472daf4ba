use oxidize_pdf::encoding::{
    decode_text, decode_text_with_encoding, EncodingOptions, EncodingType, EnhancedDecoder,
};

#[test]
fn test_utf8_decoding() {
    let decoder = EnhancedDecoder::new();
    let options = EncodingOptions::default();

    let utf8_text = "Hello, 世界!";
    let bytes = utf8_text.as_bytes();

    let result = decoder.decode(bytes, &options).unwrap();
    assert_eq!(result.text, utf8_text);
    assert_eq!(result.detected_encoding, Some(EncodingType::Utf8));
    assert_eq!(result.replacement_count, 0);
}

#[test]
fn test_latin1_decoding() {
    let decoder = EnhancedDecoder::new();
    let options = EncodingOptions::default();

    let bytes = vec![0x48, 0x65, 0x6C, 0x6C, 0x6F, 0x2C, 0x20, 0xE9, 0xE8, 0xE7];

    let result = decoder.decode(&bytes, &options).unwrap();
    assert!(result.text.contains("éèç"));
}

#[test]
fn test_windows1252_decoding() {
    let decoder = EnhancedDecoder::new();
    let options = EncodingOptions::default();

    let bytes = vec![0x80, 0x20, 0x91, 0x48, 0x65, 0x6C, 0x6C, 0x6F, 0x92];

    let result = decoder.decode(&bytes, &options).unwrap();
    assert!(result.text.contains("€"));
    assert!(result.text.contains('\u{2018}'));
    assert!(result.text.contains('\u{2019}'));
}

#[test]
fn test_lenient_mode() {
    let decoder = EnhancedDecoder::new();
    let mut options = EncodingOptions::default();
    options.lenient_mode = true;
    options.preferred_encoding = Some(EncodingType::Utf8);

    let bytes = vec![0xFF, 0xFE, 0x48, 0x65, 0x6C, 0x6C, 0x6F];

    let result = decoder.decode(&bytes, &options).unwrap();
    assert!(
        result.replacement_count > 0,
        "Expected replacement chars, got {}",
        result.replacement_count
    );
    assert!(result.text.contains("Hello"));
}

#[test]
fn test_encoding_detection() {
    let decoder = EnhancedDecoder::new();

    let utf8_bytes = "Hello, 世界!".as_bytes();
    assert_eq!(decoder.detect_encoding(utf8_bytes), Some(EncodingType::Utf8));

    let win1252_bytes = vec![0x80, 0x20, 0x48, 0x65, 0x6C, 0x6C, 0x6F];
    let detected = decoder.detect_encoding(&win1252_bytes);
    assert!(matches!(
        detected,
        Some(EncodingType::Windows1252) | Some(EncodingType::Latin1)
    ));
}

#[test]
fn test_specific_encoding() {
    let decoder = EnhancedDecoder::new();

    let bytes = vec![0xC9];

    let latin1_result = decoder
        .decode_with_encoding(&bytes, EncodingType::Latin1, false)
        .unwrap();
    assert_eq!(latin1_result, "É");

    let win1252_result = decoder
        .decode_with_encoding(&bytes, EncodingType::Windows1252, false)
        .unwrap();
    assert_eq!(win1252_result, "É");
}

#[test]
fn test_convenience_functions() {
    let utf8_text = "Hello, world!";
    let bytes = utf8_text.as_bytes();

    let decoded = decode_text(bytes).unwrap();
    assert_eq!(decoded, utf8_text);

    let latin1_bytes = vec![0x48, 0x65, 0x6C, 0x6C, 0x6F, 0xE9];
    let decoded = decode_text_with_encoding(&latin1_bytes, EncodingType::Latin1).unwrap();
    assert!(decoded.contains("é"));
}

#[test]
fn utf8_strict_decoding_rejects_invalid_bytes() {
    let decoder = EnhancedDecoder::new();
    let result = decoder.decode_with_encoding(&[0xFF, 0x41], EncodingType::Utf8, false);
    assert!(result.is_err());
    let lenient = decoder
        .decode_with_encoding(&[0xFF, 0x41], EncodingType::Utf8, true)
        .unwrap();
    assert_eq!(lenient, "\u{FFFD}A");
}

#[test]
fn macroman_maps_high_bytes() {
    let decoder = EnhancedDecoder::new();
    let text = decoder
        .decode_with_encoding(&[0x80, 0x8E], EncodingType::MacRoman, false)
        .unwrap();
    assert_eq!(text, "Äé");
}

#[test]
fn encoding_type_names() {
    assert_eq!(EncodingType::Utf8.name(), "UTF-8");
    assert_eq!(EncodingType::Latin1.name(), "ISO 8859-1 (Latin-1)");
}

#[test]
fn test_latin1_each_byte_same_code_point() {
    let d = EnhancedDecoder::new();
    let bytes: Vec<u8> = (0u8..=255).collect();
    for enc in [EncodingType::Latin1, EncodingType::PdfDocEncoding] {
        for lenient in [false, true] {
            let s = d.decode_with_encoding(&bytes, enc, lenient).unwrap();
            let expected: String = bytes.iter().map(|b| char::from(*b)).collect();
            assert_eq!(s, expected);
        }
    }
    assert_eq!(d.decode_with_encoding(&[0xC9], EncodingType::Latin1, false).unwrap(), "É");
}

#[test]
fn test_macroman_strict_and_lenient() {
    let d = EnhancedDecoder::new();
    assert_eq!(d.decode_with_encoding(&[0x41, 0x80, 0xA5], EncodingType::MacRoman, false).unwrap(), "AÄ•");
    assert!(d.decode_with_encoding(&[0x41, 0xB0], EncodingType::MacRoman, false).is_err());
    let s = d.decode_with_encoding(&[0x41, 0xB0, 0x80], EncodingType::MacRoman, true).unwrap();
    assert_eq!(s, "A\u{FFFD}Ä");
    assert_eq!(s.chars().count(), 3);
}

#[test]
fn test_decode_error_messages() {
    let d = EnhancedDecoder::new();
    let err = |r: Result<String, oxidize_pdf::error::PdfError>| match r {
        Err(oxidize_pdf::error::PdfError::EncodingError(m)) => m,
        Ok(_) => panic!("expected an error"),
    };
    assert_eq!(err(d.decode_with_encoding(&[0x41, 0xB0, 0xC0], EncodingType::MacRoman, false)), "Invalid MacRoman character: 0xB0");
    assert_eq!(
        err(d.decode_with_encoding(&[0x41, 0xFF], EncodingType::Utf8, false)),
        "UTF-8 decoding failed: invalid utf-8 sequence of 1 bytes from index 1"
    );
}

#[test]
fn test_character_decoder_trait() {
    use_character_decoder(&EnhancedDecoder::new());
}

fn use_character_decoder<D: oxidize_pdf::encoding::CharacterDecoder>(d: &D) {
    assert_eq!(d.decode_with_encoding(&[0xC9], EncodingType::Latin1, false).unwrap(), "É");
    assert_eq!(d.detect_encoding(b"plain ascii"), Some(EncodingType::Utf8));
    let options = EncodingOptions::default();
    assert_eq!(d.decode(b"hello", &options).unwrap().text, "hello");
}

#[test]
fn test_clear_log_keeps_results() {
    let mut d = EnhancedDecoder::new();
    let before = d.decode_with_encoding(&[0x41, 0xB0], EncodingType::MacRoman, true).unwrap();
    d.clear_log();
    assert!(d.get_issues().is_empty());
    assert_eq!(d.decode_with_encoding(&[0x41, 0xB0], EncodingType::MacRoman, true).unwrap(), before);
}
