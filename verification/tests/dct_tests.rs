use oxidize_pdf::filter_impls::dct::{decode_dct, parse_jpeg_info, validate_jpeg, JpegColorSpace, JpegInfo};
#[test]
fn test_validate_jpeg_too_short() {
    let data = vec![0xFF, 0xD8];
    let result = validate_jpeg(&data);
    assert!(result.is_err());
}

#[test]
fn test_validate_jpeg_missing_soi() {
    let data = vec![0x00, 0x00, 0xFF, 0xD9];
    let result = validate_jpeg(&data);
    assert!(result.is_err());
}

#[test]
fn test_minimal_valid_jpeg() {
    // Minimal valid JPEG with SOI, APP0, SOF0, SOS, and EOI
    let data = vec![
        // SOI
        0xFF, 0xD8, // APP0 (JFIF)
        0xFF, 0xE0, 0x00, 0x10, // Length = 16
        b'J', b'F', b'I', b'F', 0x00, // Identifier
        0x01, 0x01, // Version
        0x00, // Units
        0x00, 0x01, 0x00, 0x01, // X/Y density
        0x00, 0x00, // Thumbnail size
        // SOF0
        0xFF, 0xC0, 0x00, 0x0B, // Length = 11
        0x08, // Bits per sample
        0x00, 0x10, // Height = 16
        0x00, 0x10, // Width = 16
        0x01, // Components = 1 (grayscale)
        0x01, 0x11, 0x00, // Component 1 parameters
        // SOS
        0xFF, 0xDA, 0x00, 0x08, // Length = 8
        0x01, // Components in scan
        0x01, 0x00, // Component selector and tables
        0x00, 0x3F, 0x00, // Spectral selection
        // Fake scan data
        0x00, 0x00, // EOI
        0xFF, 0xD9,
    ];

    let result = parse_jpeg_info(&data);
    assert!(result.is_ok());

    let info = result.unwrap();
    assert_eq!(info.width, 16);
    assert_eq!(info.height, 16);
    assert_eq!(info.components, 1);
    assert_eq!(info.bits_per_component, 8);
    assert_eq!(info.color_space, JpegColorSpace::Gray);
}

#[test]
fn test_color_space_detection() {
    // Test RGB detection with Adobe marker
    let data = vec![
        // SOI
        0xFF, 0xD8, // Adobe APP14 marker
        0xFF, 0xEE, 0x00, 0x0E, // Length = 14 (includes length bytes)
        b'A', b'd', b'o', b'b', b'e', // Identifier (5 bytes)
        0x00, 0x64, // Version (2 bytes)
        0x00, 0x00, 0x00, 0x00, // Flags (4 bytes)
        0x00, // Transform = 0 (RGB) (1 byte) = 12 bytes total data
        // SOF0 with 3 components
        0xFF, 0xC0, 0x00, 0x11, // Length = 17
        0x08, // Bits per sample
        0x00, 0x10, // Height = 16
        0x00, 0x10, // Width = 16
        0x03, // Components = 3
        0x01, 0x11, 0x00, // Component 1
        0x02, 0x11, 0x00, // Component 2
        0x03, 0x11, 0x00, // Component 3
        // EOI
        0xFF, 0xD9,
    ];

    let result = parse_jpeg_info(&data);
    if let Err(e) = &result {
        println!("Parse error in test_color_space_detection: {:?}", e);
    }
    assert!(result.is_ok());
    let info = result.unwrap();
    assert_eq!(info.components, 3);
    assert_eq!(info.color_space, JpegColorSpace::RGB);
}

#[test]
fn test_decode_dct_returns_original() {
    let data = vec![
        0xFF, 0xD8, // SOI
        0xFF, 0xD9, // EOI
    ];

    let result = decode_dct(&data);
    assert!(result.is_ok());
    assert_eq!(result.unwrap(), data);
}

// Additional comprehensive tests

#[test]
fn test_parse_jpeg_empty_data() {
    let data = vec![];
    let result = parse_jpeg_info(&data);
    assert!(result.is_err());
    assert!(result.unwrap_err().message().contains("too short"));
}

#[test]
fn test_parse_jpeg_only_soi() {
    let data = vec![0xFF, 0xD8];
    let result = parse_jpeg_info(&data);
    assert!(result.is_err());
}

#[test]
fn test_validate_jpeg_missing_eoi() {
    let data = vec![
        0xFF, 0xD8, // SOI
        0xFF, 0xC0, 0x00, 0x0B, // SOF0
        0x08, 0x00, 0x10, 0x00, 0x10, 0x01, 0x01, 0x11, 0x00,
        // Missing EOI
    ];
    let result = validate_jpeg(&data);
    assert!(result.is_err());
}

#[test]
fn test_validate_jpeg_with_padding_after_eoi() {
    let data = vec![
        0xFF, 0xD8, // SOI
        0xFF, 0xD9, // EOI
        0x00, 0x00, 0x00, // Padding
    ];
    let result = validate_jpeg(&data);
    assert!(result.is_ok()); // Should find EOI even with padding
}

#[test]
fn test_jpeg_info_clone() {
    let info = JpegInfo {
        width: 100,
        height: 200,
        components: 3,
        bits_per_component: 8,
        color_space: JpegColorSpace::RGB,
    };

    let cloned = info.clone();
    assert_eq!(cloned.width, info.width);
    assert_eq!(cloned.height, info.height);
    assert_eq!(cloned.components, info.components);
    assert_eq!(cloned.bits_per_component, info.bits_per_component);
    assert_eq!(cloned.color_space, info.color_space);
}

#[test]
fn test_jpeg_info_debug() {
    let info = JpegInfo {
        width: 100,
        height: 200,
        components: 3,
        bits_per_component: 8,
        color_space: JpegColorSpace::RGB,
    };

    let debug_str = format!("{:?}", info);
    assert!(debug_str.contains("JpegInfo"));
    assert!(debug_str.contains("width: 100"));
    assert!(debug_str.contains("height: 200"));
}

#[test]
fn test_jpeg_color_space_variants() {
    assert_eq!(format!("{:?}", JpegColorSpace::Gray), "Gray");
    assert_eq!(format!("{:?}", JpegColorSpace::RGB), "RGB");
    assert_eq!(format!("{:?}", JpegColorSpace::CMYK), "CMYK");
    assert_eq!(format!("{:?}", JpegColorSpace::YCbCr), "YCbCr");
}

#[test]
fn test_jpeg_color_space_copy() {
    let cs1 = JpegColorSpace::RGB;
    let cs2 = cs1; // Copy
    assert_eq!(cs1, cs2);
}

#[test]
fn test_parse_jpeg_progressive() {
    let data = vec![
        0xFF, 0xD8, // SOI
        // SOF2 (progressive)
        0xFF, 0xC2, 0x00, 0x0B, // Length = 11
        0x08, // Bits per sample
        0x00, 0x20, // Height = 32
        0x00, 0x20, // Width = 32
        0x01, // Components = 1
        0x01, 0x11, 0x00, // Component parameters
        0xFF, 0xD9, // EOI
    ];

    let result = parse_jpeg_info(&data);
    assert!(result.is_ok());
    let info = result.unwrap();
    assert_eq!(info.width, 32);
    assert_eq!(info.height, 32);
}

#[test]
fn test_parse_jpeg_arithmetic() {
    let data = vec![
        0xFF, 0xD8, // SOI
        // SOF9 (arithmetic)
        0xFF, 0xC9, 0x00, 0x0B, // Length = 11
        0x08, // Bits per sample
        0x00, 0x40, // Height = 64
        0x00, 0x40, // Width = 64
        0x01, // Components = 1
        0x01, 0x11, 0x00, // Component parameters
        0xFF, 0xD9, // EOI
    ];

    let result = parse_jpeg_info(&data);
    assert!(result.is_ok());
    let info = result.unwrap();
    assert_eq!(info.width, 64);
    assert_eq!(info.height, 64);
}

#[test]
fn test_parse_jpeg_cmyk() {
    let data = vec![
        0xFF, 0xD8, // SOI
        // SOF0 with 4 components (CMYK)
        0xFF, 0xC0, 0x00, 0x14, // Length = 20
        0x08, // Bits per sample
        0x00, 0x10, // Height = 16
        0x00, 0x10, // Width = 16
        0x04, // Components = 4 (CMYK)
        0x01, 0x11, 0x00, // Component 1
        0x02, 0x11, 0x00, // Component 2
        0x03, 0x11, 0x00, // Component 3
        0x04, 0x11, 0x00, // Component 4
        0xFF, 0xD9, // EOI
    ];

    let result = parse_jpeg_info(&data);
    assert!(result.is_ok());
    let info = result.unwrap();
    assert_eq!(info.components, 4);
    assert_eq!(info.color_space, JpegColorSpace::CMYK);
}

#[test]
fn test_parse_jpeg_ycbcr_default() {
    // 3 components without Adobe marker defaults to YCbCr
    let data = vec![
        0xFF, 0xD8, // SOI
        // SOF0 with 3 components
        0xFF, 0xC0, 0x00, 0x11, // Length = 17
        0x08, // Bits per sample
        0x00, 0x10, // Height = 16
        0x00, 0x10, // Width = 16
        0x03, // Components = 3
        0x01, 0x11, 0x00, // Component 1
        0x02, 0x11, 0x00, // Component 2
        0x03, 0x11, 0x00, // Component 3
        0xFF, 0xD9, // EOI
    ];

    let result = parse_jpeg_info(&data);
    assert!(result.is_ok());
    let info = result.unwrap();
    assert_eq!(info.color_space, JpegColorSpace::YCbCr);
}

#[test]
fn test_parse_jpeg_invalid_component_count() {
    let data = vec![
        0xFF, 0xD8, // SOI
        // SOF0 with invalid component count
        0xFF, 0xC0, 0x00, 0x0B, // Length = 11
        0x08, // Bits per sample
        0x00, 0x10, // Height = 16
        0x00, 0x10, // Width = 16
        0x05, // Components = 5 (unsupported)
        0x01, 0x11, 0x00, // Component parameters
        0xFF, 0xD9, // EOI
    ];

    let result = parse_jpeg_info(&data);
    assert!(result.is_err());
    assert!(result
        .unwrap_err()
        .message()
        .contains("Unsupported JPEG component count"));
}

#[test]
fn test_parse_jpeg_invalid_marker() {
    let data = vec![
        0xFF, 0xD8, // SOI
        0x00, 0xFF, // Invalid marker (not 0xFF first)
        0xFF, 0xD9, // EOI
    ];

    let result = parse_jpeg_info(&data);
    assert!(result.is_err());
    assert!(result
        .unwrap_err()
        .message()
        .contains("Invalid JPEG marker"));
}

#[test]
fn test_parse_jpeg_segment_too_short() {
    let data = vec![
        0xFF, 0xD8, // SOI
        0xFF, 0xC0, 0x00, 0x01, // Length = 1 (too short)
        0xFF, 0xD9, // EOI
    ];

    let result = parse_jpeg_info(&data);
    assert!(result.is_err());
}

#[test]
fn test_parse_jpeg_segment_extends_beyond_data() {
    let data = vec![
        0xFF, 0xD8, // SOI
        0xFF, 0xC0, 0xFF,
        0xFF, // Length = 65535 (way too long)
              // Not enough data follows
    ];

    let result = parse_jpeg_info(&data);
    assert!(result.is_err());
    assert!(result
        .unwrap_err()
        .message()
        .contains("extends beyond data"));
}

#[test]
fn test_parse_jpeg_with_restart_markers() {
    let data = vec![
        0xFF, 0xD8, // SOI
        0xFF, 0xD0, // RST0 (standalone marker)
        0xFF, 0xD1, // RST1
        0xFF, 0xD7, // RST7
        // SOF0
        0xFF, 0xC0, 0x00, 0x0B, // Length = 11
        0x08, // Bits per sample
        0x00, 0x10, // Height = 16
        0x00, 0x10, // Width = 16
        0x01, // Components = 1
        0x01, 0x11, 0x00, // Component parameters
        0xFF, 0xD9, // EOI
    ];

    let result = parse_jpeg_info(&data);
    assert!(result.is_ok());
}

#[test]
fn test_parse_jpeg_with_padding_bytes() {
    let data = vec![
        0xFF, 0xD8, // SOI
        0xFF, 0xFF, 0xFF, // Padding bytes
        // SOF0
        0xFF, 0xC0, 0x00, 0x0B, // Length = 11
        0x08, // Bits per sample
        0x00, 0x10, // Height = 16
        0x00, 0x10, // Width = 16
        0x01, // Components = 1
        0x01, 0x11, 0x00, // Component parameters
        0xFF, 0xD9, // EOI
    ];

    let result = parse_jpeg_info(&data);
    assert!(result.is_ok());
}

#[test]
fn test_parse_jpeg_missing_dimensions() {
    let data = vec![
        0xFF, 0xD8, // SOI
        // No SOF marker (no dimensions)
        0xFF, 0xD9, // EOI
    ];

    let result = parse_jpeg_info(&data);
    assert!(result.is_err());
    assert!(result
        .unwrap_err()
        .message()
        .contains("dimensions not found"));
}

#[test]
fn test_parse_jpeg_with_sos_scan_data() {
    let data = vec![
        0xFF, 0xD8, // SOI
        // SOF0
        0xFF, 0xC0, 0x00, 0x0B, // Length = 11
        0x08, // Bits per sample
        0x00, 0x10, // Height = 16
        0x00, 0x10, // Width = 16
        0x01, // Components = 1
        0x01, 0x11, 0x00, // Component parameters
        // SOS
        0xFF, 0xDA, 0x00, 0x08, // Length = 8
        0x01, // Components in scan
        0x01, 0x00, // Component selector
        0x00, 0x3F, 0x00, // Spectral selection
        // Scan data with escaped 0xFF
        0x12, 0x34, 0xFF, 0x00, 0x56, 0x78, // EOI
        0xFF, 0xD9,
    ];

    let result = parse_jpeg_info(&data);
    assert!(result.is_ok());
}

#[test]
fn test_parse_jpeg_different_bits_per_component() {
    let data = vec![
        0xFF, 0xD8, // SOI
        // SOF0
        0xFF, 0xC0, 0x00, 0x0B, // Length = 11
        0x0C, // Bits per sample = 12
        0x00, 0x10, // Height = 16
        0x00, 0x10, // Width = 16
        0x01, // Components = 1
        0x01, 0x11, 0x00, // Component parameters
        0xFF, 0xD9, // EOI
    ];

    let result = parse_jpeg_info(&data);
    assert!(result.is_ok());
    let info = result.unwrap();
    assert_eq!(info.bits_per_component, 12);
}

#[test]
fn test_parse_jpeg_adobe_transform_non_zero() {
    // Test YCbCr detection with Adobe marker transform != 0
    let data = vec![
        0xFF, 0xD8, // SOI
        // Adobe APP14 marker
        0xFF, 0xEE, 0x00, 0x0E, // Length = 14
        b'A', b'd', b'o', b'b', b'e', // Identifier
        0x00, 0x64, // Version
        0x00, 0x00, 0x00, 0x00, // Flags
        0x01, // Transform = 1 (YCbCr)
        // SOF0 with 3 components
        0xFF, 0xC0, 0x00, 0x11, // Length = 17
        0x08, // Bits per sample
        0x00, 0x10, // Height = 16
        0x00, 0x10, // Width = 16
        0x03, // Components = 3
        0x01, 0x11, 0x00, // Component 1
        0x02, 0x11, 0x00, // Component 2
        0x03, 0x11, 0x00, // Component 3
        0xFF, 0xD9, // EOI
    ];

    let result = parse_jpeg_info(&data);
    assert!(result.is_ok());
    let info = result.unwrap();
    assert_eq!(info.color_space, JpegColorSpace::YCbCr);
}

#[test]
fn test_parse_jpeg_large_dimensions() {
    let data = vec![
        0xFF, 0xD8, // SOI
        // SOF0
        0xFF, 0xC0, 0x00, 0x0B, // Length = 11
        0x08, // Bits per sample
        0xFF, 0xFF, // Height = 65535
        0xFF, 0xFF, // Width = 65535
        0x01, // Components = 1
        0x01, 0x11, 0x00, // Component parameters
        0xFF, 0xD9, // EOI
    ];

    let result = parse_jpeg_info(&data);
    assert!(result.is_ok());
    let info = result.unwrap();
    assert_eq!(info.width, 65535);
    assert_eq!(info.height, 65535);
}

#[test]
fn test_decode_dct_validates_structure() {
    let invalid_data = vec![0x00, 0x00, 0x00, 0x00];
    let result = decode_dct(&invalid_data);
    assert!(result.is_err());
}

#[test]
fn test_parse_jpeg_with_app1_exif() {
    let data = vec![
        0xFF, 0xD8, // SOI
        // APP1 (EXIF)
        0xFF, 0xE1, 0x00, 0x0A, // Length = 10
        b'E', b'x', b'i', b'f', 0x00, 0x00, // Exif header
        0x00, 0x00, // Extra data
        // SOF0
        0xFF, 0xC0, 0x00, 0x0B, // Length = 11
        0x08, // Bits per sample
        0x00, 0x10, // Height = 16
        0x00, 0x10, // Width = 16
        0x01, // Components = 1
        0x01, 0x11, 0x00, // Component parameters
        0xFF, 0xD9, // EOI
    ];

    let result = parse_jpeg_info(&data);
    assert!(result.is_ok());
}
