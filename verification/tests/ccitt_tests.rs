use oxidize_pdf::filter_impls::ccitt::{
    decode_ccitt, decode_ccitt_with_params, BitReader, CcittDecodeParams, CcittK, Group3OneDDecoder, Group4Decoder,
};
use oxidize_pdf::objects::{PdfDictionary, PdfObject};

#[test]
fn test_ccitt_decode_params_default() {
    let params = CcittDecodeParams::default();
    assert_eq!(params.k, CcittK::Group3OneDimensional);
    assert_eq!(params.columns, 1728);
    assert_eq!(params.rows, 0);
    assert!(!params.end_of_line);
    assert!(!params.encoded_byte_align);
    assert!(params.end_of_block);
    assert!(!params.black_is_1);
    assert_eq!(params.damaged_rows_before_error, 0);
}

#[test]
fn test_bit_reader_read_bit() {
    let data = vec![0b10110000];
    let mut reader = BitReader::new(&data);

    assert_eq!(reader.read_bit(), Some(1));
    assert_eq!(reader.read_bit(), Some(0));
    assert_eq!(reader.read_bit(), Some(1));
    assert_eq!(reader.read_bit(), Some(1));
    assert_eq!(reader.read_bit(), Some(0));
}

#[test]
fn test_bit_reader_read_bits() {
    let data = vec![0b10110010, 0b11000000];
    let mut reader = BitReader::new(&data);

    assert_eq!(reader.read_bits(4), Some(0b1011));
    assert_eq!(reader.read_bits(6), Some(0b001011));
}

#[test]
fn test_bit_reader_align_to_byte() {
    let data = vec![0b10110010, 0b11000000];
    let mut reader = BitReader::new(&data);

    reader.read_bits(3);
    reader.align_to_byte();
    assert_eq!(reader.read_bits(8), Some(0b11000000));
}

#[test]
fn test_ccitt_k_values() {
    assert_eq!(CcittK::Group4.to_i32(), -1);
    assert_eq!(CcittK::Group3OneDimensional.to_i32(), 0);
    assert_eq!(CcittK::Group3TwoDimensional.to_i32(), 1);
}

#[test]
fn test_group3_decoder_creation() {
    let params = CcittDecodeParams::default();
    let decoder = Group3OneDDecoder::new(params);
    assert_eq!(decoder.params.k, CcittK::Group3OneDimensional);
}

#[test]
fn test_group4_decoder_creation() {
    let params = CcittDecodeParams {
        k: CcittK::Group4,
        ..Default::default()
    };
    let decoder = Group4Decoder::new(params);
    assert_eq!(decoder.params.k, CcittK::Group4);
}

#[test]
fn test_bit_reader_empty_data() {
    let data = vec![];
    let mut reader = BitReader::new(&data);

    assert_eq!(reader.read_bit(), None);
    assert_eq!(reader.read_bits(8), None);
    assert!(!reader.has_data());
}

#[test]
fn test_bit_reader_read_beyond_end() {
    let data = vec![0xFF];
    let mut reader = BitReader::new(&data);

    for _ in 0..8 {
        assert_eq!(reader.read_bit(), Some(1));
    }

    assert_eq!(reader.read_bit(), None);
}

#[test]
fn test_bit_reader_read_bits_max() {
    let data = vec![0xFF, 0xFF, 0xFF];
    let mut reader = BitReader::new(&data);

    assert_eq!(reader.read_bits(16), Some(0xFFFF));

    let mut reader = BitReader::new(&data);
    assert_eq!(reader.read_bits(17), None);
}

#[test]
fn test_bit_reader_mixed_operations() {
    let data = vec![0b10101010, 0b11001100];
    let mut reader = BitReader::new(&data);

    assert_eq!(reader.read_bit(), Some(1));
    assert_eq!(reader.read_bits(3), Some(0b010));
    assert_eq!(reader.read_bit(), Some(1));
    assert_eq!(reader.read_bits(5), Some(0b01011));
}

#[test]
fn test_bit_reader_has_data() {
    let data = vec![0xFF];
    let mut reader = BitReader::new(&data);

    assert!(reader.has_data());

    for _ in 0..7 {
        reader.read_bit();
        assert!(reader.has_data());
    }

    reader.read_bit();
    assert!(!reader.has_data());
}

#[test]
fn test_group3_decoder_skip_eol() {
    let params = CcittDecodeParams {
        end_of_line: true,
        ..Default::default()
    };
    let decoder = Group3OneDDecoder::new(params);

    let data = vec![0b00000000, 0b00010000];
    let mut reader = BitReader::new(&data);

    let result = decoder.skip_eol(&mut reader);
    assert!(result.is_ok());
}

#[test]
fn test_group3_decoder_skip_eol_not_required() {
    let params = CcittDecodeParams {
        end_of_line: false,
        ..Default::default()
    };
    let decoder = Group3OneDDecoder::new(params);

    let data = vec![0xFF, 0xFF];
    let mut reader = BitReader::new(&data);

    let result = decoder.skip_eol(&mut reader);
    assert!(result.is_ok());
}

#[test]
fn test_group3_decoder_add_row_to_result() {
    let params = CcittDecodeParams {
        black_is_1: false,
        ..Default::default()
    };
    let decoder = Group3OneDDecoder::new(params);

    let row = vec![1, 0, 1, 0, 1, 0, 1, 0];
    let mut result = Vec::new();

    decoder.add_row_to_result(&row, &mut result);
    assert_eq!(result, vec![0b01010101]);
}

#[test]
fn test_group3_decoder_add_row_to_result_black_is_1() {
    let params = CcittDecodeParams {
        black_is_1: true,
        ..Default::default()
    };
    let decoder = Group3OneDDecoder::new(params);

    let row = vec![1, 0, 1, 0, 1, 0, 1, 0];
    let mut result = Vec::new();

    decoder.add_row_to_result(&row, &mut result);
    assert_eq!(result, vec![0b10101010]);
}

#[test]
fn test_group3_decoder_add_row_partial_byte() {
    let params = CcittDecodeParams {
        black_is_1: true,
        ..Default::default()
    };
    let decoder = Group3OneDDecoder::new(params);

    let row = vec![1, 0, 1];
    let mut result = Vec::new();

    decoder.add_row_to_result(&row, &mut result);
    assert_eq!(result, vec![0b10100000]);
}

#[test]
fn test_group3_decoder_decode_white_run() {
    let params = CcittDecodeParams::default();
    let decoder = Group3OneDDecoder::new(params);

    let data = vec![0b00110000, 0b00000000, 0b00000000];
    let mut reader = BitReader::new(&data);

    let result = decoder.decode_white_run(&mut reader);
    assert!(result.is_ok());
}

#[test]
fn test_group3_decoder_decode_black_run() {
    let params = CcittDecodeParams::default();
    let decoder = Group3OneDDecoder::new(params);

    let data = vec![0b00100000, 0b00000000, 0b00000000];
    let mut reader = BitReader::new(&data);

    let result = decoder.decode_black_run(&mut reader);
    assert!(result.is_ok());
}

#[test]
fn test_group4_decoder_basic() {
    let params = CcittDecodeParams {
        k: CcittK::Group4,
        columns: 16,
        rows: 2,
        ..Default::default()
    };
    let decoder = Group4Decoder::new(params);

    let data = vec![0xFF, 0x00, 0xFF, 0x00];
    let result = decoder.decode(&data);
    assert!(result.is_ok());
    assert_eq!(result.unwrap().len(), 4);
}

#[test]
fn test_group4_decoder_padding() {
    let params = CcittDecodeParams {
        k: CcittK::Group4,
        columns: 16,
        rows: 3,
        ..Default::default()
    };
    let decoder = Group4Decoder::new(params);

    let data = vec![0xFF, 0x00];
    let result = decoder.decode(&data);
    assert!(result.is_ok());
    assert_eq!(result.unwrap().len(), 6);
}

#[test]
fn test_group4_decoder_unlimited_rows() {
    let params = CcittDecodeParams {
        k: CcittK::Group4,
        columns: 8,
        rows: 0,
        ..Default::default()
    };
    let decoder = Group4Decoder::new(params);

    let data = vec![0xFF, 0x00, 0xFF, 0x00];
    let result = decoder.decode(&data);
    assert!(result.is_ok());
    assert_eq!(result.unwrap().len(), 4);
}

#[test]
fn test_ccitt_k_debug() {
    assert_eq!(format!("{:?}", CcittK::Group4), "Group4");
    assert_eq!(
        format!("{:?}", CcittK::Group3OneDimensional),
        "Group3OneDimensional"
    );
    assert_eq!(
        format!("{:?}", CcittK::Group3TwoDimensional),
        "Group3TwoDimensional"
    );
}

#[test]
fn test_ccitt_k_clone() {
    let k1 = CcittK::Group4;
    let k2 = k1.clone();
    assert_eq!(k1, k2);
}

#[test]
fn test_ccitt_decode_params_clone() {
    let params1 = CcittDecodeParams {
        k: CcittK::Group4,
        columns: 2048,
        rows: 1024,
        end_of_line: true,
        encoded_byte_align: true,
        end_of_block: false,
        black_is_1: true,
        damaged_rows_before_error: 10,
    };

    let params2 = params1.clone();
    assert_eq!(params1.k, params2.k);
    assert_eq!(params1.columns, params2.columns);
    assert_eq!(params1.rows, params2.rows);
    assert_eq!(params1.end_of_line, params2.end_of_line);
    assert_eq!(params1.encoded_byte_align, params2.encoded_byte_align);
    assert_eq!(params1.end_of_block, params2.end_of_block);
    assert_eq!(params1.black_is_1, params2.black_is_1);
    assert_eq!(
        params1.damaged_rows_before_error,
        params2.damaged_rows_before_error
    );
}

#[test]
fn test_ccitt_decode_params_debug() {
    let params = CcittDecodeParams::default();
    let debug_str = format!("{:?}", params);
    assert!(debug_str.contains("CcittDecodeParams"));
    assert!(debug_str.contains("columns: 1728"));
}

#[test]
fn test_group3_decoder_encoded_byte_align() {
    let params = CcittDecodeParams {
        encoded_byte_align: true,
        columns: 8,
        rows: 1,
        ..Default::default()
    };
    let decoder = Group3OneDDecoder::new(params);

    let data = vec![0xFF, 0xFF, 0xFF];
    let result = decoder.decode(&data);
    assert!(result.is_ok());
}

/// A dictionary with the given entries.
fn dict_of(entries: Vec<(&str, PdfObject)>) -> PdfDictionary {
    let mut dict = PdfDictionary::new();
    for (k, v) in entries {
        dict.insert(k.to_string(), v);
    }
    dict
}

#[test]
fn test_ccitt_decode_params_from_dict() {
    let dict = dict_of(vec![
        ("K", PdfObject::Integer(-1)),
        ("Columns", PdfObject::Integer(2048)),
        ("Rows", PdfObject::Integer(1024)),
        ("EndOfLine", PdfObject::Boolean(true)),
        ("BlackIs1", PdfObject::Boolean(true)),
    ]);
    let params = CcittDecodeParams::from_dict(&dict);
    assert_eq!(params.k, CcittK::Group4);
    assert_eq!(params.columns, 2048);
    assert_eq!(params.rows, 1024);
    assert!(params.end_of_line);
    assert!(params.black_is_1);
}

#[test]
fn test_ccitt_decode_params_from_entries() {
    let params = CcittDecodeParams::from_entries(
        Some(-1),
        Some(2048),
        None,
        Some(1024),
        None,
        Some(true),
        None,
        None,
        Some(true),
        None,
    );
    assert_eq!(params.k, CcittK::Group4);
    assert_eq!(params.columns, 2048);
    assert_eq!(params.rows, 1024);
    assert!(params.end_of_line);
    assert!(params.black_is_1);
}

#[test]
fn test_ccitt_decode_params_width_height_aliases() {
    let dict = dict_of(vec![("Width", PdfObject::Integer(800)), ("Height", PdfObject::Integer(600))]);
    let params = CcittDecodeParams::from_dict(&dict);
    assert_eq!(params.columns, 800);
    assert_eq!(params.rows, 600);
}

#[test]
fn test_ccitt_decode_params_validation() {
    let dict = dict_of(vec![("Columns", PdfObject::Integer(-10)), ("Rows", PdfObject::Integer(-5))]);
    let params = CcittDecodeParams::from_dict(&dict);
    assert_eq!(params.columns, 1);
    assert_eq!(params.rows, 0);
}

#[test]
fn test_ccitt_decode_params_invalid_k_values() {
    let mut dict = PdfDictionary::new();
    dict.insert("K".to_string(), PdfObject::Integer(-5));
    let params = CcittDecodeParams::from_dict(&dict);
    assert_eq!(params.k, CcittK::Group3OneDimensional);
    dict.insert("K".to_string(), PdfObject::Integer(100));
    let params = CcittDecodeParams::from_dict(&dict);
    assert_eq!(params.k, CcittK::Group3TwoDimensional);
}

#[test]
fn test_ccitt_decode_group4_basic() {
    let data = vec![0xFF, 0x00, 0xFF, 0x00];
    let dict = dict_of(vec![
        ("K", PdfObject::Integer(-1)),
        ("Columns", PdfObject::Integer(16)),
        ("Rows", PdfObject::Integer(2)),
    ]);
    let result = decode_ccitt(&data, Some(&dict));
    assert!(result.is_ok());
    let decoded = result.unwrap();
    assert_eq!(decoded.len(), 4);
    assert_eq!(decoded, vec![0xFF, 0x00, 0xFF, 0x00]);
}

#[test]
fn test_ccitt_decode_group3_basic() {
    let data = vec![0x00, 0x01, 0xFF, 0xFE];
    let dict = dict_of(vec![
        ("K", PdfObject::Integer(0)),
        ("Columns", PdfObject::Integer(8)),
        ("Rows", PdfObject::Integer(1)),
    ]);
    let result = decode_ccitt(&data, Some(&dict));
    assert!(result.is_ok());
}

#[test]
fn test_ccitt_decode_no_params() {
    let data = vec![0x00, 0x10, 0x00, 0x00];
    let result = decode_ccitt(&data, None);
    assert!(result.is_ok() || result.is_err());
    let empty_result = decode_ccitt(&[], None);
    assert!(empty_result.is_ok() || empty_result.is_err());
}

#[test]
fn test_ccitt_decode_params_all_fields() {
    let dict = dict_of(vec![
        ("K", PdfObject::Integer(1)),
        ("Columns", PdfObject::Integer(1000)),
        ("Rows", PdfObject::Integer(500)),
        ("EndOfLine", PdfObject::Boolean(true)),
        ("EncodedByteAlign", PdfObject::Boolean(true)),
        ("EndOfBlock", PdfObject::Boolean(false)),
        ("BlackIs1", PdfObject::Boolean(true)),
        ("DamagedRowsBeforeError", PdfObject::Integer(5)),
    ]);
    let params = CcittDecodeParams::from_dict(&dict);
    assert_eq!(params.k, CcittK::Group3TwoDimensional);
    assert_eq!(params.columns, 1000);
    assert_eq!(params.rows, 500);
    assert!(params.end_of_line);
    assert!(params.encoded_byte_align);
    assert!(!params.end_of_block);
    assert!(params.black_is_1);
    assert_eq!(params.damaged_rows_before_error, 5);
}

#[test]
fn test_decode_ccitt_group3_2d() {
    let data = vec![0x00, 0x01, 0xFF, 0xFE];
    let dict = dict_of(vec![
        ("K", PdfObject::Integer(1)),
        ("Columns", PdfObject::Integer(8)),
        ("Rows", PdfObject::Integer(1)),
    ]);
    let result = decode_ccitt(&data, Some(&dict));
    assert!(result.is_ok());
}

#[test]
fn test_decode_ccitt_different_column_sizes() {
    let data = vec![0x00, 0x10, 0x00, 0x00, 0x00, 0x00, 0x00, 0x00];
    let mut dict = dict_of(vec![("Columns", PdfObject::Integer(1)), ("Rows", PdfObject::Integer(1))]);
    let result = decode_ccitt(&data, Some(&dict));
    assert!(result.is_ok() || result.is_err());

    dict.insert("K".to_string(), PdfObject::Integer(-1));
    dict.insert("Columns".to_string(), PdfObject::Integer(10000));
    dict.insert("Rows".to_string(), PdfObject::Integer(1));
    let result = decode_ccitt(&data, Some(&dict));
    assert!(result.is_ok() || result.is_err());
}

#[test]
fn test_decode_ccitt_with_params() {
    let data = vec![0xFF, 0x00, 0xFF, 0x00];
    let params = CcittDecodeParams::from_entries(Some(-1), Some(16), None, Some(2), None, None, None, None, None, None);
    assert_eq!(decode_ccitt_with_params(&data, Some(params)).unwrap(), vec![0xFF, 0x00, 0xFF, 0x00]);
}

#[test]
fn test_decode_ccitt_empty_data() {
    let data = vec![];
    let result = decode_ccitt(&data, None);
    assert!(result.is_ok());
    assert!(result.unwrap().is_empty());
}

#[test]
fn group3_row_of_white_then_black_runs() {
    // White run: make-up attempt 00000 (none), terminating 0010xxxx (1 pixel);
    // black run: make-up attempt 000000 (none), terminating 011xxxxx (3 pixels);
    // then white: 00000 + 0011xxxx (0 pixels), black: 000000 + 010xxxxx (2 pixels),
    // and the remaining pixels white.
    let params = CcittDecodeParams {
        columns: 8,
        rows: 1,
        black_is_1: true,
        ..Default::default()
    };
    let decoder = Group3OneDDecoder::new(params);
    // white 1: 00000 00100000 | black 3: 000000 01100000
    // white 2: 00000 00010000 | black 2: 000000 01000000
    let bits = "000000010000000000001100000000000001000000000001000000";
    let mut data = Vec::new();
    let mut byte = 0u8;
    let mut n = 0;
    for c in bits.chars() {
        byte = (byte << 1) | if c == '1' { 1 } else { 0 };
        n += 1;
        if n == 8 {
            data.push(byte);
            byte = 0;
            n = 0;
        }
    }
    if n > 0 {
        data.push(byte << (8 - n));
    }
    let decoded = decoder.decode(&data).unwrap();
    // pixels 0, 1 1 1, 0 0, 1 1 with black as 1
    assert_eq!(decoded, vec![0b01110011]);
}

#[test]
fn group4_output_cuts_long_data() {
    let params = CcittDecodeParams {
        k: CcittK::Group4,
        columns: 9,
        rows: 1,
        ..Default::default()
    };
    let decoder = Group4Decoder::new(params);
    let decoded = decoder.decode(&[1, 2, 3, 4]).unwrap();
    assert_eq!(decoded, vec![1, 2]);
}

#[test]
fn eol_required_but_missing_is_an_error() {
    let params = CcittDecodeParams {
        end_of_line: true,
        ..Default::default()
    };
    let decoder = Group3OneDDecoder::new(params);
    let data = vec![0xFF, 0xFF];
    let mut reader = BitReader::new(&data);
    assert!(decoder.skip_eol(&mut reader).is_err());
    assert!(!reader.has_data());
}

#[test]
fn white_run_on_short_data_is_an_error() {
    let decoder = Group3OneDDecoder::new(CcittDecodeParams::default());
    let data = vec![0xFF];
    let mut reader = BitReader::new(&data);
    assert!(decoder.decode_white_run(&mut reader).is_err());
}

#[test]
fn test_packed_row_bit_positions() {
    let params = CcittDecodeParams { black_is_1: true, ..Default::default() };
    let decoder = Group3OneDDecoder::new(params);
    let row: Vec<u8> = vec![1, 0, 1, 1, 0, 0, 0, 1, 1, 0, 1];
    let mut out = Vec::new();
    decoder.add_row_to_result(&row, &mut out);
    assert_eq!(out.len(), (row.len() + 7) / 8);
    for (j, bit) in row.iter().enumerate() {
        assert_eq!((out[j / 8] >> (7 - j % 8)) & 1, *bit);
    }
    for j in row.len()..8 * out.len() {
        assert_eq!((out[j / 8] >> (7 - j % 8)) & 1, 0);
    }
}
