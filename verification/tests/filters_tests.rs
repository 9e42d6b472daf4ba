use flate2::write::{DeflateEncoder, ZlibEncoder};
use flate2::Compression;
use oxidize_pdf::filters::{
    apply_filter, decode_ascii85, decode_ascii_hex, decode_flate, decode_stream, Filter,
    FilterEntry,
};
use oxidize_pdf::parse_options::ParseOptions;
use std::io::Write;

fn zlib_compress(original: &[u8]) -> Vec<u8> {
    let mut encoder = ZlibEncoder::new(Vec::new(), Compression::default());
    encoder.write_all(original).unwrap();
    encoder.finish().unwrap()
}

#[test]
fn test_ascii_hex_decode() {
    let data = b"48656C6C6F>";
    let result = decode_ascii_hex(data).unwrap();
    assert_eq!(result, b"Hello");

    let data = b"48 65 6C 6C 6F>";
    let result = decode_ascii_hex(data).unwrap();
    assert_eq!(result, b"Hello");

    let data = b"48656C6C6>";
    let result = decode_ascii_hex(data).unwrap();
    assert_eq!(result, b"Hell`");
}

#[test]
fn test_ascii85_decode() {
    let data = b"87cURD]j7BEbo80~>";
    let result = decode_ascii85(data).unwrap();
    assert_eq!(result, b"Hello world!");

    let data = b"z~>";
    let result = decode_ascii85(data).unwrap();
    assert_eq!(result, &[0, 0, 0, 0]);
}

#[test]
fn test_filter_from_name() {
    assert_eq!(Filter::from_name("ASCIIHexDecode"), Some(Filter::ASCIIHexDecode));
    assert_eq!(Filter::from_name("ASCII85Decode"), Some(Filter::ASCII85Decode));
    assert_eq!(Filter::from_name("LZWDecode"), Some(Filter::LZWDecode));
    assert_eq!(Filter::from_name("FlateDecode"), Some(Filter::FlateDecode));
    assert_eq!(Filter::from_name("RunLengthDecode"), Some(Filter::RunLengthDecode));
    assert_eq!(Filter::from_name("CCITTFaxDecode"), Some(Filter::CCITTFaxDecode));
    assert_eq!(Filter::from_name("JBIG2Decode"), Some(Filter::JBIG2Decode));
    assert_eq!(Filter::from_name("DCTDecode"), Some(Filter::DCTDecode));
    assert_eq!(Filter::from_name("JPXDecode"), Some(Filter::JPXDecode));
    assert_eq!(Filter::from_name("Crypt"), Some(Filter::Crypt));
    assert_eq!(Filter::from_name("UnknownFilter"), None);
}

#[test]
fn test_filter_equality() {
    assert_eq!(Filter::ASCIIHexDecode, Filter::ASCIIHexDecode);
    assert_ne!(Filter::ASCIIHexDecode, Filter::ASCII85Decode);
    assert_ne!(Filter::FlateDecode, Filter::LZWDecode);
}

#[test]
fn test_filter_clone() {
    let filter = Filter::FlateDecode;
    let cloned = filter.clone();
    assert_eq!(filter, cloned);
}

#[test]
fn test_filter_name_round_trip() {
    let all = [
        Filter::ASCIIHexDecode,
        Filter::ASCII85Decode,
        Filter::LZWDecode,
        Filter::FlateDecode,
        Filter::RunLengthDecode,
        Filter::CCITTFaxDecode,
        Filter::JBIG2Decode,
        Filter::DCTDecode,
        Filter::JPXDecode,
        Filter::Crypt,
    ];
    for f in all {
        assert_eq!(Filter::from_name(&f.name()), Some(f));
    }
    assert_eq!(Filter::FlateDecode.name(), "FlateDecode");
}

#[test]
fn test_decode_stream_no_filter() {
    let data = b"Hello, world!";
    let options = ParseOptions::default();
    let result = decode_stream(data, None, &options).unwrap();
    assert_eq!(result, data);
}

#[test]
fn test_decode_stream_single_filter() {
    let data = b"48656C6C6F>";
    let entry = FilterEntry::Name("ASCIIHexDecode".to_string());
    let options = ParseOptions::default();
    let result = decode_stream(data, Some(&entry), &options).unwrap();
    assert_eq!(result, b"Hello");
}

#[test]
fn test_decode_stream_invalid_filter() {
    let data = b"test data";
    let entry = FilterEntry::Name("UnknownFilter".to_string());
    let options = ParseOptions::default();
    let result = decode_stream(data, Some(&entry), &options);
    assert!(result.is_err());
    assert!(result.unwrap_err().message().contains("Unknown filter: UnknownFilter"));
}

#[test]
fn test_decode_stream_filter_array() {
    let data = b"48656C6C6F>";
    let entry = FilterEntry::Array(vec![Some("ASCIIHexDecode".to_string())]);
    let options = ParseOptions::default();
    let result = decode_stream(data, Some(&entry), &options).unwrap();
    assert_eq!(result, b"Hello");
}

#[test]
fn test_decode_stream_filter_array_chain() {
    // ASCIIHex of the ASCII85 text of "Hello world!"
    let a85 = b"87cURD]j7BEbo80~>";
    let mut hex = String::new();
    for b in a85 {
        hex.push_str(&format!("{:02X}", b));
    }
    hex.push('>');
    let entry = FilterEntry::Array(vec![
        Some("ASCIIHexDecode".to_string()),
        Some("ASCII85Decode".to_string()),
    ]);
    let options = ParseOptions::default();
    let result = decode_stream(hex.as_bytes(), Some(&entry), &options).unwrap();
    assert_eq!(result, b"Hello world!");
}

#[test]
fn test_decode_stream_invalid_filter_in_array() {
    let entry = FilterEntry::Array(vec![Some("ASCIIHexDecode".to_string()), None]);
    let options = ParseOptions::default();
    let result = decode_stream(b"41>", Some(&entry), &options);
    assert!(result.unwrap_err().message().contains("Invalid filter in array"));
}

#[test]
fn test_decode_stream_invalid_filter_type() {
    let data = b"test data";
    let options = ParseOptions::default();
    let result = decode_stream(data, Some(&FilterEntry::Other), &options);
    assert!(result.is_err());
    assert!(result.unwrap_err().message().contains("Invalid Filter type"));
}

#[test]
fn test_ascii_hex_decode_empty() {
    let data = b">";
    let result = decode_ascii_hex(data).unwrap();
    assert!(result.is_empty());
}

#[test]
fn test_ascii_hex_decode_invalid() {
    let data = b"GG>";
    let result = decode_ascii_hex(data);
    assert!(result.is_err());
}

#[test]
fn test_ascii_hex_decode_no_terminator() {
    let data = b"48656C6C6F";
    let result = decode_ascii_hex(data).unwrap();
    assert_eq!(result, b"Hello");
}

#[test]
fn test_ascii_hex_decode_stops_at_terminator() {
    let result = decode_ascii_hex(b"4142>4344").unwrap();
    assert_eq!(result, b"AB");
}

#[test]
fn test_ascii85_decode_empty() {
    let data = b"~>";
    let result = decode_ascii85(data).unwrap();
    assert!(result.is_empty());
}

#[test]
fn test_ascii85_decode_invalid() {
    let data = b"invalid~>";
    let result = decode_ascii85(data);
    assert!(result.is_err());
}

#[test]
fn test_ascii85_decode_partial_group() {
    // "Hi" is encoded as the partial group "88/"
    let result = decode_ascii85(b"88/~>").unwrap();
    assert_eq!(result, b"Hi");
}

#[test]
fn test_flate_decode() {
    let original = b"Hello, compressed world!";
    let compressed = zlib_compress(original);
    let options = ParseOptions::default();
    let result = decode_flate(&compressed, &options).unwrap();
    assert_eq!(result, original);
}

#[test]
fn test_flate_decode_corrupt_stream() {
    let corrupt_data = b"This is not valid compressed data!";
    let strict_options = ParseOptions::strict();
    let result = decode_flate(corrupt_data, &strict_options);
    assert!(result.is_err());

    let tolerant_options = ParseOptions::tolerant();
    let result = decode_flate(corrupt_data, &tolerant_options);
    assert!(result.is_err() || result.is_ok());
}

#[test]
fn test_flate_decode_raw_deflate() {
    let original = b"Raw deflate data without zlib wrapper";
    let mut encoder = DeflateEncoder::new(Vec::new(), Compression::default());
    encoder.write_all(original).unwrap();
    let compressed = encoder.finish().unwrap();

    let strict_options = ParseOptions::strict();
    let result = decode_flate(&compressed, &strict_options);
    assert!(result.is_err());

    let tolerant_options = ParseOptions::tolerant();
    let result = decode_flate(&compressed, &tolerant_options);
    assert!(result.is_ok());
    assert_eq!(result.unwrap(), original);
}

#[test]
fn test_flate_decode_not_supported() {
    let data = b"compressed data";
    let options = ParseOptions::default();
    let result = decode_flate(data, &options);
    assert!(result.is_err());
}

#[test]
fn test_flate_decode_error_message() {
    let options = ParseOptions::default();
    let err = decode_flate(b"garbage", &options).unwrap_err();
    assert!(err.message().starts_with("Stream decode error: Flate decode error: "));
}

#[test]
fn test_apply_filter() {
    let data = b"48656C6C6F>";
    let options = ParseOptions::default();
    let result = apply_filter(data, Filter::ASCIIHexDecode, &options).unwrap();
    assert_eq!(result, b"Hello");
}

#[test]
fn test_apply_filter_flate() {
    let compressed = zlib_compress(b"abcabcabc");
    let options = ParseOptions::default();
    let result = apply_filter(&compressed, Filter::FlateDecode, &options).unwrap();
    assert_eq!(result, b"abcabcabc");
}

#[test]
fn test_apply_filter_unsupported() {
    let data = b"test data";
    let unsupported_filters = vec![
        Filter::LZWDecode,
        Filter::RunLengthDecode,
        Filter::CCITTFaxDecode,
        Filter::JBIG2Decode,
        Filter::DCTDecode,
        Filter::JPXDecode,
        Filter::Crypt,
    ];
    let options = ParseOptions::default();
    for filter in unsupported_filters {
        let result = apply_filter(data, filter, &options);
        assert!(result.is_err());
    }
    let err = apply_filter(data, Filter::LZWDecode, &options).unwrap_err();
    assert!(err.message().contains("Filter LZWDecode not yet implemented"));
}

#[test]
fn test_ascii_hex_roundtrip_all_bytes() {
    let bytes: Vec<u8> = (0u8..=255).collect();
    let mut encoded: Vec<u8> = Vec::new();
    for b in &bytes {
        encoded.extend_from_slice(format!("{b:02X}").as_bytes());
    }
    encoded.push(b'>');
    assert_eq!(decode_ascii_hex(&encoded).unwrap(), bytes);
}

#[test]
fn test_ascii85_roundtrip_whole_groups() {
    let bytes: Vec<u8> = (0u8..=255).chain([0, 0, 0, 0, 255, 255, 255, 255]).collect();
    assert_eq!(bytes.len() % 4, 0);
    let mut encoded: Vec<u8> = b"<~".to_vec();
    for group in bytes.chunks(4) {
        let v = u32::from_be_bytes([group[0], group[1], group[2], group[3]]) as u64;
        let mut digits = [0u8; 5];
        let mut rest = v;
        for k in (0..5).rev() {
            digits[k] = 33 + (rest % 85) as u8;
            rest /= 85;
        }
        encoded.extend_from_slice(&digits);
    }
    encoded.extend_from_slice(b"~>");
    assert_eq!(decode_ascii85(&encoded).unwrap(), bytes);
}

#[test]
fn test_ascii_hex_law_cases() {
    assert_eq!(decode_ascii_hex(b"de ad\nBE\tef>").unwrap(), vec![0xDE, 0xAD, 0xBE, 0xEF]);
    assert_eq!(decode_ascii_hex(b"4>zz").unwrap(), vec![0x40]);
    assert_eq!(decode_ascii_hex(b">").unwrap(), Vec::<u8>::new());
    assert!(decode_ascii_hex(b"GG>").is_err());
}

#[test]
fn test_ascii85_group_out_of_range() {
    match decode_ascii85(b"<~uuuuu~>") {
        Err(oxidize_pdf::error::ParseError::StreamDecodeError(m)) => {
            assert_eq!(m, "Invalid ASCII85 group: value out of range")
        }
        _ => panic!("expected a range error"),
    }
    assert_eq!(decode_ascii85(b"<~s8W-!~>").unwrap(), vec![0xFF, 0xFF, 0xFF, 0xFF]);
}

/// Standard ASCII85 text of `bytes` (with `z` for zero groups), without frame.
fn ascii85_text(bytes: &[u8]) -> Vec<u8> {
    let mut out = Vec::new();
    for chunk in bytes.chunks(4) {
        let mut group = [0u8; 4];
        group[..chunk.len()].copy_from_slice(chunk);
        let v = u32::from_be_bytes(group) as u64;
        if chunk.len() == 4 && v == 0 {
            out.push(b'z');
            continue;
        }
        let mut digits = [0u8; 5];
        let mut rest = v;
        for k in (0..5).rev() {
            digits[k] = 33 + (rest % 85) as u8;
            rest /= 85;
        }
        out.extend_from_slice(&digits[..chunk.len() + 1]);
    }
    out
}

#[test]
fn test_ascii85_law_cases() {
    for bytes in [
        b"Hello".to_vec(),
        vec![0, 0, 0, 0, 1, 2],
        vec![0xFF],
        vec![0xFF, 0xFE, 0xFD],
        vec![],
        vec![0x54, 0x01, 0xFE, 0xAB, 9],
    ] {
        let text = ascii85_text(&bytes);
        let mut framed = b"<~".to_vec();
        framed.extend_from_slice(&text);
        framed.extend_from_slice(b"~>");
        assert_eq!(decode_ascii85(&framed).unwrap(), bytes);
        let mut spaced: Vec<u8> = Vec::new();
        for b in &text {
            spaced.push(*b);
            spaced.push(b' ');
        }
        spaced.extend_from_slice(b"\n~>");
        assert_eq!(decode_ascii85(&spaced).unwrap(), bytes);
    }
    assert_eq!(ascii85_text(&[0x54, 0x01, 0xFE, 0xAB])[0], b'<');
}
