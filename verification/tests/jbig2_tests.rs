use oxidize_pdf::filter_impls::jbig2::{decode_jbig2, decode_jbig2_with_params, Jbig2DecodeParams, Jbig2Decoder};
use oxidize_pdf::objects::{PdfDictionary, PdfObject};

#[test]
fn test_jbig2_decode_params_default() {
    let params = Jbig2DecodeParams::default();
    assert!(params.jbig2_globals.is_none());
}

#[test]
fn test_jbig2_decode_params_from_globals_entry() {
    let params = Jbig2DecodeParams::from_globals_entry(true);
    assert!(params.jbig2_globals.is_some());
    let params = Jbig2DecodeParams::from_globals_entry(false);
    assert!(params.jbig2_globals.is_none());
}

#[test]
fn test_jbig2_decoder_creation() {
    let params = Jbig2DecodeParams::default();
    let decoder = Jbig2Decoder::new(params);
    assert!(decoder.params.jbig2_globals.is_none());
}

#[test]
fn test_jbig2_decode_too_short() {
    let data = vec![0x01, 0x02, 0x03];
    let result = decode_jbig2(&data, None);
    assert!(result.is_err());
}

#[test]
fn test_jbig2_decode_embedded_stream() {
    let data = vec![0x00; 50];
    let result = decode_jbig2(&data, None);
    assert!(result.is_ok());
}

#[test]
fn test_jbig2_decode_with_file_header() {
    let mut data = vec![0x97, 0x4A, 0x42, 0x32, 0x0D, 0x0A, 0x1A, 0x0A];
    data.push(0x00);
    let result = decode_jbig2(&data, None);
    assert!(result.is_ok());
    let decoded = result.unwrap();
    assert!(!decoded.is_empty());
}

#[test]
fn test_jbig2_segment_header_parsing() {
    let decoder = Jbig2Decoder::new(Jbig2DecodeParams::default());
    let data = vec![
        0x00, 0x00, 0x00, 0x01, // Segment number: 1
        0x04, // Flags: segment type 4, short page association
        0x00, // Page association: 0
        0x00, 0x00, 0x00, 0x10, // Data length: 16
        0x00, // Extra byte to meet minimum length
    ];
    let result = decoder.parse_segment_header(&data);
    assert!(result.is_ok());
    let segment = result.unwrap();
    assert_eq!(segment.segment_number, 1);
    assert_eq!(segment.segment_type, 4);
    assert_eq!(segment.page_association, 0);
    assert_eq!(segment.data_length, 16);
}

#[test]
fn test_jbig2_segment_header_too_short() {
    let decoder = Jbig2Decoder::new(Jbig2DecodeParams::default());
    let data = vec![0x00, 0x01, 0x02];
    let result = decoder.parse_segment_header(&data);
    assert!(result.is_err());
}

#[test]
fn test_jbig2_decode_no_params() {
    let data = vec![0x00; 100];
    let result = decode_jbig2(&data, None);
    assert!(result.is_ok());
}

#[test]
fn test_jbig2_decode_with_globals() {
    let data = vec![0x00; 100];
    let result = decode_jbig2_with_params(&data, Some(Jbig2DecodeParams::from_globals_entry(true)));
    assert!(result.is_ok());
}

#[test]
fn test_jbig2_file_id_check() {
    let mut correct_id = vec![0x97, 0x4A, 0x42, 0x32, 0x0D, 0x0A, 0x1A, 0x0A];
    correct_id.push(0x00);
    correct_id.extend_from_slice(&[0x00; 20]);
    let result = decode_jbig2(&correct_id, None);
    assert!(result.is_ok());

    let mut wrong_id = vec![0x00, 0x01, 0x02, 0x03, 0x04, 0x05, 0x06, 0x07];
    wrong_id.push(0x00);
    wrong_id.extend_from_slice(&[0x00; 20]);
    let result2 = decode_jbig2(&wrong_id, None);
    assert!(result2.is_ok());
}

#[test]
fn test_jbig2_segment_types() {
    let decoder = Jbig2Decoder::new(Jbig2DecodeParams::default());
    let segment_types = vec![0u8, 4, 6, 7, 36, 38, 39];
    for seg_type in segment_types {
        let mut data = vec![
            0x00, 0x00, 0x00, 0x01, // Segment number
            seg_type, // Flags with segment type
            0x00, // Page association
            0x00, 0x00, 0x00, 0x08, // Data length: 8
            0x00, // Padding
        ];
        data.extend_from_slice(&[0xFF; 8]);
        let result = decoder.parse_segment_header(&data);
        assert!(result.is_ok());
        let segment = result.unwrap();
        assert_eq!(segment.segment_type, seg_type);
    }
}

#[test]
fn test_jbig2_segment_header_long_page_association() {
    let decoder = Jbig2Decoder::new(Jbig2DecodeParams::default());
    let data = vec![
        0x00, 0x00, 0x00, 0x02, // Segment number: 2
        0x46, // Flags: type 6, long page association
        0x00, 0x00, 0x01, 0x00, // Page association: 256
        0x00, 0x00, 0x00, 0x20, // Data length: 32
    ];
    let segment = decoder.parse_segment_header(&data).unwrap();
    assert_eq!(segment.segment_number, 2);
    assert_eq!(segment.segment_type, 6);
    assert_eq!(segment.page_association, 256);
    assert_eq!(segment.data_length, 32);
}

#[test]
fn test_jbig2_decode_params_from_dict() {
    let mut dict = PdfDictionary::new();
    dict.insert("JBIG2Globals".to_string(), PdfObject::Reference(10, 0));
    let params = Jbig2DecodeParams::from_dict(&dict);
    assert!(params.jbig2_globals.is_some());
    assert!(Jbig2DecodeParams::from_dict(&PdfDictionary::new()).jbig2_globals.is_none());
}

#[test]
fn test_jbig2_outcome_law_examples() {
    let d = Jbig2Decoder::new(Jbig2DecodeParams::default());
    let id = [0x97u8, 0x4A, 0x42, 0x32, 0x0D, 0x0A, 0x1A, 0x0A];
    let mut file = id.to_vec();
    file.push(0x00);
    assert_eq!(d.decode(&file).unwrap(), file);
    let mut random_access = id.to_vec();
    random_access.push(0x01);
    assert!(d.decode(&random_access).is_err());
    assert!(d.decode(&[1, 2, 3]).is_err());
    let plain = [5u8; 9];
    assert!(!d.decode(&plain).unwrap().is_empty());
}
