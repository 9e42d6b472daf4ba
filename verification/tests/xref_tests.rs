use oxidize_pdf::error::ParseError;
use oxidize_pdf::xref::{
    find_xref_offset_in, parse_xref_entry, stream_params, XRefEntry, XRefEntryExt, XRefStream,
    XRefTable,
};

#[test]
fn test_parse_xref_entry() {
    let entry1 = parse_xref_entry("0000000000 65535 f ").unwrap();
    assert_eq!(entry1.offset, 0);
    assert_eq!(entry1.generation, 65535);
    assert!(!entry1.in_use);

    let entry2 = parse_xref_entry("0000000017 00000 n ").unwrap();
    assert_eq!(entry2.offset, 17);
    assert_eq!(entry2.generation, 0);
    assert!(entry2.in_use);
}

#[test]
fn test_parse_xref_entry_errors() {
    assert!(matches!(parse_xref_entry("0000000017 0000"), Err(ParseError::InvalidXRef)));
    assert!(matches!(parse_xref_entry("000000001x 00000 n"), Err(ParseError::InvalidXRef)));
    assert!(matches!(parse_xref_entry("0000000017 00000 x"), Err(ParseError::InvalidXRef)));
    assert!(matches!(parse_xref_entry("0000000017 99999 n"), Err(ParseError::InvalidXRef)));
}

#[test]
fn test_parse_xref_entry_trims_line() {
    let entry = parse_xref_entry("  0000000100 00002 n \r\n").unwrap();
    assert_eq!(entry, XRefEntry { offset: 100, generation: 2, in_use: true });
}

#[test]
fn test_find_xref_offset() {
    let tail = b"trailer\n<< /Size 3 >>\nstartxref\n  1234 \n%%EOF";
    assert_eq!(find_xref_offset_in(tail).unwrap(), 1234);
}

#[test]
fn test_find_xref_offset_missing() {
    assert!(matches!(find_xref_offset_in(b"%%EOF"), Err(ParseError::InvalidXRef)));
    assert!(matches!(find_xref_offset_in(b"startxref\nabc\n"), Err(ParseError::InvalidXRef)));
    assert!(matches!(find_xref_offset_in(b"startxref"), Err(ParseError::InvalidXRef)));
}

#[test]
fn test_find_xref_offset_with_invalid_utf8() {
    let tail = b"\xFF\xFEstartxref\r\n99\r\n%%EOF";
    // the invalid bytes stay on the line before: "startxref" is not found alone
    assert!(find_xref_offset_in(tail).is_err());
    let tail2 = b"\xFF\nstartxref\r\n99\r\n%%EOF";
    assert_eq!(find_xref_offset_in(tail2).unwrap(), 99);
}

fn lines(text: &str) -> Vec<String> {
    text.split('\n').map(|l| l.to_string()).collect()
}

#[test]
fn test_parse_traditional_lines() {
    let mut table: XRefTable<()> = XRefTable::new();
    let ls = lines("\n0 3\n0000000000 65535 f \n0000000009 00000 n \n0000000074 00000 n \ntrailer\n<< /Size 3 >>");
    let read = table.parse_traditional_lines(&ls).unwrap();
    assert_eq!(read, 6);
    assert_eq!(table.len(), 3);
    assert_eq!(
        table.get_entry(0),
        Some(&XRefEntry { offset: 0, generation: 65535, in_use: false })
    );
    assert_eq!(
        table.get_entry(2),
        Some(&XRefEntry { offset: 74, generation: 0, in_use: true })
    );
    assert!(table.get_entry(3).is_none());
}

#[test]
fn test_parse_traditional_lines_subsections() {
    let mut table: XRefTable<()> = XRefTable::new();
    let ls = lines("0 1\n0000000000 65535 f \n5 2\n0000000100 00000 n \n0000000200 00001 n \ntrailer");
    let read = table.parse_traditional_lines(&ls).unwrap();
    assert_eq!(read, 6);
    assert_eq!(table.len(), 3);
    assert_eq!(table.get_entry(6).unwrap().offset, 200);
    assert_eq!(table.get_entry(6).unwrap().generation, 1);
}

#[test]
fn test_parse_traditional_lines_bad_header() {
    let mut table: XRefTable<()> = XRefTable::new();
    let ls = lines("0 3 7\ntrailer");
    assert!(matches!(table.parse_traditional_lines(&ls), Err(ParseError::InvalidXRef)));
}

#[test]
fn test_xref_table_basics() {
    let mut table: XRefTable<String> = XRefTable::new();
    assert!(table.is_empty());
    assert!(table.trailer().is_none());
    table.add_entry(1, XRefEntry { offset: 15, generation: 0, in_use: true });
    assert_eq!(table.len(), 1);
    assert!(!table.is_empty());
    assert!(!table.is_compressed(1));
    table.add_extended_entry(
        2,
        XRefEntryExt {
            basic: XRefEntry { offset: 0, generation: 0, in_use: true },
            compressed_info: Some((9, 4)),
        },
    );
    assert!(table.is_compressed(2));
    assert_eq!(table.get_extended_entry(2).unwrap().compressed_info, Some((9, 4)));
    table.set_trailer(Some("trailer".to_string()));
    assert_eq!(table.trailer().unwrap(), "trailer");
}

#[test]
fn test_stream_params_default_index() {
    let (pairs, widths) = stream_params(Some(3), None, Some(vec![Some(1), Some(2), Some(1)])).unwrap();
    assert_eq!(pairs, vec![(0, 3)]);
    assert_eq!(widths, vec![1, 2, 1]);
}

#[test]
fn test_stream_params_errors() {
    let w = || Some(vec![Some(1), Some(2), Some(1)]);
    assert!(matches!(stream_params(None, None, w()), Err(ParseError::MissingKey(k)) if k == "Size"));
    assert!(matches!(stream_params(Some(3), None, None), Err(ParseError::MissingKey(k)) if k == "W"));
    let e = stream_params(Some(3), None, Some(vec![Some(1), Some(2)])).unwrap_err();
    assert!(e.message().contains("W array must have exactly 3 elements"));
    let e = stream_params(Some(3), Some(None), w()).unwrap_err();
    assert!(e.message().contains("Index must be an array"));
    let e = stream_params(Some(3), Some(Some(vec![Some(1)])), w()).unwrap_err();
    assert!(e.message().contains("Index array must have even number of elements"));
    let e = stream_params(Some(3), Some(Some(vec![Some(1), None])), w()).unwrap_err();
    assert!(e.message().contains("Index values must be integers"));
    let e = stream_params(Some(3), None, Some(vec![Some(1), None, Some(1)])).unwrap_err();
    assert!(e.message().contains("W values must be integers"));
}

#[test]
fn test_xref_stream_parse() {
    let data = vec![
        0, 0, 0, 255, // free
        1, 0, 17, 0, // in use at 17
        2, 0, 5, 1, // compressed in stream 5 at index 1
    ];
    let w = Some(vec![Some(1), Some(2), Some(1)]);
    let xs = XRefStream::parse("dict".to_string(), Some(3), None, w, Ok(data)).unwrap();
    assert_eq!(xs.trailer(), "dict");
    assert_eq!(
        xs.get_entry(0),
        Some(&XRefEntry { offset: 0, generation: 255, in_use: false })
    );
    assert_eq!(
        xs.get_entry(1),
        Some(&XRefEntry { offset: 17, generation: 0, in_use: true })
    );
    assert_eq!(
        xs.get_entry(2),
        Some(&XRefEntry { offset: 0, generation: 0, in_use: true })
    );
    let table = XRefTable::from_stream(xs);
    assert!(table.is_compressed(2));
    assert_eq!(table.get_extended_entry(2).unwrap().compressed_info, Some((5, 1)));
    assert_eq!(table.trailer().unwrap(), "dict");
}

#[test]
fn test_xref_stream_truncated() {
    let w = Some(vec![Some(1), Some(2), Some(1)]);
    let r = XRefStream::parse((), Some(2), None, w, Ok(vec![1, 0, 17, 0, 1]));
    let e = r.err().unwrap();
    assert!(e.message().contains("Xref stream data truncated"));
}

#[test]
fn test_locate_object() {
    let mut table: XRefTable<()> = XRefTable::new();
    table.add_entry(1, XRefEntry { offset: 100, generation: 0, in_use: true });
    table.add_entry(2, XRefEntry { offset: 0, generation: 3, in_use: false });
    let basic = XRefEntry { offset: 0, generation: 0, in_use: true };
    table.add_entry(3, basic);
    table.add_extended_entry(3, XRefEntryExt { basic, compressed_info: Some((9, 4)) });
    assert_eq!(table.locate(1, 0).unwrap(), oxidize_pdf::xref::ObjectLocation::AtOffset(100));
    assert!(matches!(table.locate(1, 1), Err(oxidize_pdf::error::ParseError::InvalidReference(1, 1))));
    assert_eq!(table.locate(2, 7).unwrap(), oxidize_pdf::xref::ObjectLocation::Free);
    assert_eq!(table.locate(3, 0).unwrap(), oxidize_pdf::xref::ObjectLocation::Compressed(9, 4));
    assert!(matches!(table.locate(5, 0), Err(oxidize_pdf::error::ParseError::InvalidReference(5, 0))));
}
