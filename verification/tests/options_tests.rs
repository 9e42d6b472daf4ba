use oxidize_pdf::objects::{PdfName, PdfObject, PdfString};
use oxidize_pdf::parse_options::ParseOptions;
use oxidize_pdf::reader::DocumentMetadata;

#[test]
fn test_document_metadata_struct() {
    let metadata = DocumentMetadata {
        title: Some("Title".to_string()),
        author: Some("Author".to_string()),
        subject: Some("Subject".to_string()),
        keywords: Some("Keywords".to_string()),
        creator: Some("Creator".to_string()),
        producer: Some("Producer".to_string()),
        creation_date: Some("D:20240101".to_string()),
        modification_date: Some("D:20240102".to_string()),
        version: "1.5".to_string(),
        page_count: Some(10),
    };

    assert_eq!(metadata.title, Some("Title".to_string()));
    assert_eq!(metadata.page_count, Some(10));
}

#[test]
fn test_document_metadata_default() {
    let metadata = DocumentMetadata::default();
    assert!(metadata.title.is_none());
    assert!(metadata.author.is_none());
    assert!(metadata.subject.is_none());
    assert!(metadata.keywords.is_none());
    assert!(metadata.creator.is_none());
    assert!(metadata.producer.is_none());
    assert!(metadata.creation_date.is_none());
    assert!(metadata.modification_date.is_none());
    assert_eq!(metadata.version, "".to_string());
    assert!(metadata.page_count.is_none());
}

#[test]
fn test_document_metadata_clone() {
    let metadata = DocumentMetadata {
        title: Some("Test".to_string()),
        version: "1.4".to_string(),
        ..Default::default()
    };

    let cloned = metadata.clone();
    assert_eq!(cloned.title, Some("Test".to_string()));
    assert_eq!(cloned.version, "1.4".to_string());
}

#[test]
fn test_parse_options_default() {
    let options = ParseOptions::default();
    assert!(!options.lenient_streams);
    assert_eq!(options.max_recovery_bytes, 1000);
    assert!(!options.collect_warnings);
}

#[test]
fn test_parse_options_clone() {
    let mut options = ParseOptions::default();
    options.lenient_streams = true;
    options.max_recovery_bytes = 2000;
    options.collect_warnings = true;
    let cloned = options.clone();
    assert!(cloned.lenient_streams);
    assert_eq!(cloned.max_recovery_bytes, 2000);
    assert!(cloned.collect_warnings);
}

#[test]
fn test_stream_length_options_default() {
    let options = ParseOptions::default();

    assert!(!options.lenient_streams);
    assert!(!options.collect_warnings);
    assert_eq!(options.max_recovery_bytes, 1000);
    assert!(options.lenient_encoding);
    assert_eq!(options.preferred_encoding, None);
    assert!(!options.lenient_syntax);
}

#[test]
fn test_stream_length_options_lenient_preset() {
    let options = ParseOptions::lenient();

    assert!(options.lenient_streams);
    assert!(options.collect_warnings);
    assert!(options.lenient_encoding);
    assert!(options.lenient_syntax);
    assert_eq!(options.max_recovery_bytes, 5000);
}

#[test]
fn test_stream_length_options_strict_preset() {
    let options = ParseOptions::strict();

    assert!(!options.lenient_streams);
    assert!(!options.collect_warnings);
    assert!(!options.lenient_encoding);
    assert!(!options.lenient_syntax);
    assert_eq!(options.max_recovery_bytes, 0);
}

#[test]
fn test_stream_length_options_custom_lenient() {
    let options = ParseOptions {
        lenient_streams: true,
        max_recovery_bytes: 2000,
        collect_warnings: true,
        ..Default::default()
    };

    assert!(options.lenient_streams);
    assert!(options.collect_warnings);
    assert_eq!(options.max_recovery_bytes, 2000);
}

#[test]
fn test_stream_length_options_custom_strict() {
    let options = ParseOptions {
        lenient_streams: false,
        collect_warnings: false,
        max_recovery_bytes: 0,
        ..Default::default()
    };

    assert!(!options.lenient_streams);
    assert!(!options.collect_warnings);
    assert_eq!(options.max_recovery_bytes, 0);
}

#[test]
fn test_parse_options_builder_pattern() {
    // Test building ParseOptions with different configurations
    let lenient_with_warnings = ParseOptions {
        lenient_streams: true,
        collect_warnings: true,
        max_recovery_bytes: 3000,
        ..ParseOptions::default()
    };

    assert!(lenient_with_warnings.lenient_streams);
    assert!(lenient_with_warnings.collect_warnings);
    assert_eq!(lenient_with_warnings.max_recovery_bytes, 3000);

    let strict_no_warnings = ParseOptions {
        lenient_streams: false,
        collect_warnings: false,
        max_recovery_bytes: 0,
        ..ParseOptions::default()
    };

    assert!(!strict_no_warnings.lenient_streams);
    assert!(!strict_no_warnings.collect_warnings);
    assert_eq!(strict_no_warnings.max_recovery_bytes, 0);
}

#[test]
fn test_stream_parsing_configurations() {
    // Test different combinations of stream parsing options

    let configs = vec![
        ("default", ParseOptions::default()),
        ("lenient", ParseOptions::lenient()),
        ("strict", ParseOptions::strict()),
        (
            "custom_lenient",
            ParseOptions {
                lenient_streams: true,
                max_recovery_bytes: 10000,
                collect_warnings: true,
                lenient_encoding: true,
                lenient_syntax: true,
                ..Default::default()
            },
        ),
        (
            "custom_strict",
            ParseOptions {
                lenient_streams: false,
                max_recovery_bytes: 0,
                collect_warnings: false,
                lenient_encoding: false,
                lenient_syntax: false,
                ..Default::default()
            },
        ),
    ];

    for (name, config) in configs {
        match name {
            "default" => {
                assert!(!config.lenient_streams);
                assert_eq!(config.max_recovery_bytes, 1000);
            }
            "lenient" => {
                assert!(config.lenient_streams);
                assert!(config.collect_warnings);
                assert_eq!(config.max_recovery_bytes, 5000);
            }
            "strict" => {
                assert!(!config.lenient_streams);
                assert!(!config.collect_warnings);
                assert_eq!(config.max_recovery_bytes, 0);
            }
            "custom_lenient" => {
                assert!(config.lenient_streams);
                assert_eq!(config.max_recovery_bytes, 10000);
                assert!(config.collect_warnings);
            }
            "custom_strict" => {
                assert!(!config.lenient_streams);
                assert_eq!(config.max_recovery_bytes, 0);
                assert!(!config.collect_warnings);
            }
            _ => panic!("Unknown config"),
        }
    }
}

#[test]
fn test_recovery_presets() {
    let tolerant = ParseOptions::tolerant();
    assert!(tolerant.recover_from_stream_errors);
    assert!(!tolerant.ignore_corrupt_streams);
    assert!(tolerant.partial_content_allowed);
    assert_eq!(tolerant.max_recovery_attempts, 5);

    let skip = ParseOptions::skip_errors();
    assert!(skip.recover_from_stream_errors);
    assert!(skip.ignore_corrupt_streams);
    assert!(skip.partial_content_allowed);
    assert_eq!(skip.max_recovery_attempts, 1);

    let strict = ParseOptions::strict();
    assert!(!strict.recover_from_stream_errors);
    assert_eq!(strict.max_recovery_attempts, 0);
}

#[test]
fn test_pdf_object_creation() {
    let integer_obj = PdfObject::Integer(42);
    let negative_obj = PdfObject::Integer(-1);
    let zero_obj = PdfObject::Integer(0);
    let reference_obj = PdfObject::Reference(5, 0);
    let string_obj = PdfObject::String(PdfString::new(b"not a length".to_vec()));
    let null_obj = PdfObject::Null;

    match integer_obj {
        PdfObject::Integer(val) => assert_eq!(val, 42),
        _ => panic!("Expected integer object"),
    }
    match negative_obj {
        PdfObject::Integer(val) => assert_eq!(val, -1),
        _ => panic!("Expected negative integer object"),
    }
    match zero_obj {
        PdfObject::Integer(val) => assert_eq!(val, 0),
        _ => panic!("Expected zero integer object"),
    }
    match reference_obj {
        PdfObject::Reference(obj_num, gen_num) => {
            assert_eq!(obj_num, 5);
            assert_eq!(gen_num, 0);
        }
        _ => panic!("Expected reference object"),
    }
    match string_obj {
        PdfObject::String(_) => (),
        _ => panic!("Expected string object"),
    }
    match null_obj {
        PdfObject::Null => (),
        _ => panic!("Expected null object"),
    }
}

#[test]
fn test_stream_length_error_scenarios() {
    let valid_length = PdfObject::Integer(100);
    match valid_length {
        PdfObject::Integer(len) if len >= 0 => assert_eq!(len, 100),
        _ => panic!("Should be valid positive integer"),
    }
    let negative_length = PdfObject::Integer(-5);
    match negative_length {
        PdfObject::Integer(len) if len < 0 => assert_eq!(len, -5),
        _ => panic!("Should be negative integer"),
    }
    let reference_length = PdfObject::Reference(10, 0);
    match reference_length {
        PdfObject::Reference(obj_num, gen_num) => {
            assert_eq!(obj_num, 10);
            assert_eq!(gen_num, 0);
        }
        _ => panic!("Should be reference object"),
    }
    let invalid_length = PdfObject::String(PdfString::new(b"invalid".to_vec()));
    match invalid_length {
        PdfObject::String(_) => {}
        _ => panic!("Should be string object"),
    }
}

#[test]
fn test_stream_length_reference_types() {
    let direct = PdfObject::Integer(1024);
    assert!(matches!(direct, PdfObject::Integer(1024)));
    let indirect = PdfObject::Reference(15, 0);
    assert!(matches!(indirect, PdfObject::Reference(15, 0)));
    let zero = PdfObject::Integer(0);
    assert!(matches!(zero, PdfObject::Integer(0)));
    let large = PdfObject::Integer(1_000_000);
    assert!(matches!(large, PdfObject::Integer(1_000_000)));

    // 42.5 is kept as the text it is written with.
    let invalid_types = vec![
        PdfObject::Null,
        PdfObject::Boolean(true),
        PdfObject::Real("42.5".to_string()),
        PdfObject::String(PdfString::new(b"length".to_vec())),
        PdfObject::Name(PdfName::new("Length".to_string())),
    ];
    for invalid_type in invalid_types {
        match invalid_type {
            PdfObject::Integer(_) => panic!("Should not be integer"),
            PdfObject::Reference(_, _) => panic!("Should not be reference"),
            _ => (),
        }
    }
}
