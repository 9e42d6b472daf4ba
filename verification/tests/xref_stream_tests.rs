use flate2::read::ZlibDecoder;
use oxidize_pdf::error::ParseError;
use oxidize_pdf::objects::{PdfArray, PdfDictionary, PdfName, PdfObject};
use oxidize_pdf::parse_options::ParseOptions;
use oxidize_pdf::xref_stream::{
    bytes_needed, read_field, write_field, XRefEntry, XRefStream, XRefStreamBuilder,
};
use std::io::Read;

#[test]
fn test_read_field() {
    assert_eq!(read_field(&[0x00]), 0);
    assert_eq!(read_field(&[0xFF]), 255);
    assert_eq!(read_field(&[0x01, 0x23]), 0x0123);
    assert_eq!(read_field(&[0x12, 0x34, 0x56]), 0x123456);
}

#[test]
fn test_write_field() {
    let mut data = Vec::new();
    write_field(&mut data, 0x1234, 2);
    assert_eq!(data, vec![0x12, 0x34]);

    data.clear();
    write_field(&mut data, 0xFF, 1);
    assert_eq!(data, vec![0xFF]);

    data.clear();
    write_field(&mut data, 0x123456, 3);
    assert_eq!(data, vec![0x12, 0x34, 0x56]);
}

#[test]
fn test_bytes_needed() {
    assert_eq!(bytes_needed(0), 1);
    assert_eq!(bytes_needed(0xFF), 1);
    assert_eq!(bytes_needed(0x100), 2);
    assert_eq!(bytes_needed(0xFFFF), 2);
    assert_eq!(bytes_needed(0x10000), 3);
    assert_eq!(bytes_needed(0xFFFFFF), 3);
    assert_eq!(bytes_needed(0x1000000), 4);
}

#[test]
fn test_write_then_read_field() {
    for (value, width) in [(0u64, 1usize), (0xABCD, 2), (0x0102_0304_0506_0708, 8), (7, 3)] {
        let mut data = Vec::new();
        write_field(&mut data, value, width);
        assert_eq!(data.len(), width);
        assert_eq!(read_field(&data), value);
    }
}

fn sample_builder() -> XRefStreamBuilder {
    let mut builder = XRefStreamBuilder::new();
    builder.add_entry(0, XRefEntry::Free { next_free_object: 0, generation: 65535 });
    builder.add_entry(1, XRefEntry::InUse { offset: 15, generation: 0 });
    builder.add_entry(2, XRefEntry::Compressed { stream_object_number: 5, index_within_stream: 0 });
    builder
}

#[test]
fn test_xref_stream_builder() {
    let result = sample_builder().build();
    assert!(result.is_ok());
    let (dict, _data) = result.unwrap();
    assert_eq!(
        dict.get("Type").and_then(|o| o.as_name()).map(|n| n.0.as_str()),
        Some("XRef")
    );
    assert!(dict.get("W").is_some());
    assert!(dict.get("Size").is_some());
    assert!(dict.get("Filter").is_some());
}

#[test]
fn test_xref_stream_builder_dictionary_values() {
    let mut builder = sample_builder();
    builder.add_trailer_entry("Root", PdfObject::Reference(1, 0));
    let (dict, _data) = builder.build().unwrap();
    assert_eq!(dict.get("Root"), Some(&PdfObject::Reference(1, 0)));
    assert_eq!(
        dict.get("W"),
        Some(&PdfObject::Array(PdfArray(vec![
            PdfObject::Integer(1),
            PdfObject::Integer(1),
            PdfObject::Integer(2)
        ])))
    );
    assert_eq!(dict.get("Size"), Some(&PdfObject::Integer(3)));
    assert_eq!(dict.get("Index"), None);
    assert_eq!(dict.get("Length"), Some(&PdfObject::Integer(12)));
    assert_eq!(
        dict.get("Filter").and_then(|o| o.as_name()).map(|n| n.0.as_str()),
        Some("FlateDecode")
    );
}

#[test]
fn test_xref_stream_builder_layout_sorted() {
    let mut builder = XRefStreamBuilder::new();
    builder.add_entry(12, XRefEntry::InUse { offset: 70000, generation: 1 });
    builder.add_entry(10, XRefEntry::InUse { offset: 15, generation: 0 });
    builder.add_entry(11, XRefEntry::Free { next_free_object: 0, generation: 3 });
    let (sorted, layout, data) = builder.build_layout();
    let nums: Vec<u32> = sorted.iter().map(|(n, _)| *n).collect();
    assert_eq!(nums, vec![10, 11, 12]);
    assert_eq!(layout.widths, vec![1, 3, 1]);
    assert_eq!(layout.size, 13);
    assert_eq!(layout.index, Some((10, 3)));
    assert_eq!(layout.length, 15);
    assert_eq!(data.len(), 15);
    assert_eq!(&data[0..5], &[1, 0, 0, 15, 0]);
}

#[test]
fn test_xref_stream_builder_round_trip() {
    let builder = sample_builder();
    let (sorted, layout, _) = builder.build_layout();
    let (dict, compressed) = builder.build().unwrap();
    let stream = XRefStream::parse(dict, compressed, &ParseOptions::default()).unwrap();
    assert_eq!(stream.data.len(), layout.length);
    assert_eq!(stream.widths, layout.widths);
    assert_eq!(stream.index, vec![(0, layout.size)]);
    let entries = stream.to_xref_entries().unwrap();
    assert_eq!(entries, sorted);
}

#[test]
fn test_xref_stream_builder_wide_index_within_stream() {
    let mut builder = XRefStreamBuilder::new();
    builder.add_entry(0, XRefEntry::Compressed { stream_object_number: 5, index_within_stream: 300 });
    let (dict, compressed) = builder.build().unwrap();
    let mut decoded = Vec::new();
    ZlibDecoder::new(&compressed[..]).read_to_end(&mut decoded).unwrap();
    let stream = XRefStream::parse(dict, compressed, &ParseOptions::default()).unwrap();
    assert_eq!(stream.data, decoded);
    assert_eq!(stream.widths, vec![1, 2, 2]);
    assert_eq!(
        stream.to_xref_entries().unwrap(),
        vec![(0, XRefEntry::Compressed { stream_object_number: 5, index_within_stream: 300 })]
    );
}

#[test]
fn test_xref_stream_builder_wide_next_free_object() {
    let mut builder = XRefStreamBuilder::new();
    builder.add_entry(0, XRefEntry::Free { next_free_object: 70000, generation: 0 });
    let (sorted, layout, _) = builder.build_layout();
    assert_eq!(layout.widths, vec![1, 3, 1]);
    let (dict, compressed) = builder.build().unwrap();
    let stream = XRefStream::parse(dict, compressed, &ParseOptions::default()).unwrap();
    assert_eq!(stream.to_xref_entries().unwrap(), sorted);
}

#[test]
fn test_zero_width_type_field_defaults_to_in_use() {
    let xs = XRefStream {
        dict: PdfDictionary::new(),
        data: vec![0x03, 0xE8, 0x00],
        widths: vec![0, 2, 1],
        index: vec![(3, 1)],
    };
    assert_eq!(
        xs.to_xref_entries().unwrap(),
        vec![(3, XRefEntry::InUse { offset: 1000, generation: 0 })]
    );
}

fn int_array(values: &[i64]) -> PdfObject {
    PdfObject::Array(PdfArray(values.iter().map(|v| PdfObject::Integer(*v)).collect()))
}

#[test]
fn test_xref_stream_parse_unfiltered() {
    let mut dict = PdfDictionary::new();
    dict.insert("W".to_string(), int_array(&[1, 2, 1]));
    dict.insert("Size".to_string(), PdfObject::Integer(2));
    dict.insert("Prev".to_string(), PdfObject::Integer(4321));
    let data = vec![1, 0x00, 0x0F, 0, 1, 0x01, 0x00, 0];
    let xs = XRefStream::parse(dict, data.clone(), &ParseOptions::default()).unwrap();
    assert_eq!(xs.widths, vec![1, 2, 1]);
    assert_eq!(xs.index, vec![(0, 2)]);
    assert_eq!(xs.data, data);
    assert!(!xs.is_hybrid());
    assert_eq!(xs.get_prev_offset(), Some(4321));
    assert_eq!(xs.get_xref_stm_offset(), None);
    assert_eq!(xs.trailer_dict().get("Size"), Some(&PdfObject::Integer(2)));
    assert_eq!(
        xs.to_xref_entries().unwrap(),
        vec![
            (0, XRefEntry::InUse { offset: 15, generation: 0 }),
            (1, XRefEntry::InUse { offset: 256, generation: 0 }),
        ]
    );
}

#[test]
fn test_xref_stream_parse_index_and_hybrid() {
    let mut dict = PdfDictionary::new();
    dict.insert("W".to_string(), int_array(&[1, 1, 1]));
    dict.insert("Index".to_string(), int_array(&[10, 1, 20, 2, 99]));
    dict.insert("XRefStm".to_string(), PdfObject::Integer(777));
    let xs = XRefStream::parse(dict, vec![], &ParseOptions::default()).unwrap();
    assert_eq!(xs.index, vec![(10, 1), (20, 2)]);
    assert!(xs.is_hybrid());
    assert_eq!(xs.get_xref_stm_offset(), Some(777));
}

fn size_dict() -> PdfDictionary {
    let mut d = PdfDictionary::new();
    d.insert("Size".to_string(), PdfObject::Integer(1));
    d
}

fn syntax_message(r: Result<XRefStream<PdfDictionary>, ParseError>) -> String {
    match r {
        Err(ParseError::SyntaxError { position: 0, message }) => message,
        _ => panic!("expected a syntax error"),
    }
}

#[test]
fn test_xref_stream_parse_errors() {
    let opts = ParseOptions::default();
    match XRefStream::parse(size_dict(), vec![], &opts) {
        Err(ParseError::MissingKey(k)) => assert_eq!(k, "W array in xref stream"),
        _ => panic!("expected a missing key"),
    }
    let mut d = size_dict();
    d.insert("W".to_string(), PdfObject::Array(PdfArray(vec![PdfObject::Integer(1), PdfObject::Null, PdfObject::Integer(1)])));
    assert_eq!(syntax_message(XRefStream::parse(d, vec![], &opts)), "Invalid width in W array");
    let mut d = size_dict();
    d.insert("W".to_string(), int_array(&[1, 2]));
    assert_eq!(syntax_message(XRefStream::parse(d, vec![], &opts)), "W array must have 3 elements, found 2");
    let mut d = size_dict();
    d.insert("W".to_string(), int_array(&[1, 2, 1]));
    d.insert("Index".to_string(), PdfObject::Array(PdfArray(vec![PdfObject::Null, PdfObject::Integer(1)])));
    assert_eq!(syntax_message(XRefStream::parse(d, vec![], &opts)), "Invalid first object number in Index");
    let mut d = size_dict();
    d.insert("W".to_string(), int_array(&[1, 2, 1]));
    d.insert("Index".to_string(), PdfObject::Array(PdfArray(vec![PdfObject::Integer(0), PdfObject::Null])));
    assert_eq!(syntax_message(XRefStream::parse(d, vec![], &opts)), "Invalid count in Index");
    let mut d = PdfDictionary::new();
    d.insert("W".to_string(), int_array(&[1, 2, 1]));
    match XRefStream::parse(d, vec![], &opts) {
        Err(ParseError::MissingKey(k)) => assert_eq!(k, "Size in xref stream"),
        _ => panic!("expected a missing key"),
    }
    let mut d = size_dict();
    d.insert("W".to_string(), int_array(&[1, 2, 1]));
    d.insert("Filter".to_string(), PdfObject::Name(PdfName("Bogus".to_string())));
    match XRefStream::parse(d, vec![], &opts) {
        Err(ParseError::StreamDecodeError(m)) => assert_eq!(m, "Unknown filter: PdfName(\"Bogus\")"),
        _ => panic!("expected a decode error"),
    }
}

#[test]
fn test_xref_stream_parse_filter_array() {
    let mut d = PdfDictionary::new();
    d.insert("W".to_string(), int_array(&[1, 1, 1]));
    d.insert("Size".to_string(), PdfObject::Integer(1));
    d.insert(
        "Filter".to_string(),
        PdfObject::Array(PdfArray(vec![PdfObject::Integer(3), PdfObject::Name(PdfName("ASCIIHexDecode".to_string()))])),
    );
    let xs = XRefStream::parse(d, b"010203>".to_vec(), &ParseOptions::default()).unwrap();
    assert_eq!(xs.data, vec![1, 2, 3]);
}

#[test]
fn test_xref_entry_parsing() {
    let entry_data = vec![1, 0x03, 0xE8, 0];
    let xref_stream = XRefStream {
        dict: (),
        data: entry_data,
        widths: vec![1, 2, 1],
        index: vec![(10, 1)],
    };
    let entries = xref_stream.to_xref_entries().unwrap();
    assert_eq!(entries.len(), 1);
    let (obj_num, entry) = &entries[0];
    assert_eq!(*obj_num, 10);
    match entry {
        XRefEntry::InUse { offset, generation } => {
            assert_eq!(*offset, 1000);
            assert_eq!(*generation, 0);
        }
        _ => panic!("Expected InUse entry"),
    }
}

#[test]
fn test_compressed_entry_parsing() {
    let entry_data = vec![2, 0x00, 0x05, 0x00, 0x03];
    let xref_stream = XRefStream {
        dict: (),
        data: entry_data,
        widths: vec![1, 2, 2],
        index: vec![(20, 1)],
    };
    let entries = xref_stream.to_xref_entries().unwrap();
    assert_eq!(entries.len(), 1);
    let (obj_num, entry) = &entries[0];
    assert_eq!(*obj_num, 20);
    match entry {
        XRefEntry::Compressed { stream_object_number, index_within_stream } => {
            assert_eq!(*stream_object_number, 5);
            assert_eq!(*index_within_stream, 3);
        }
        _ => panic!("Expected Compressed entry"),
    }
}

#[test]
fn test_multiple_index_ranges() {
    let entry_data = vec![
        0, 0, 0, 0xFF, 0xFF, // Free object 0
        1, 0, 0x0A, 0, 0, // InUse object 1 at offset 10
        1, 0, 0x14, 0, 0, // InUse object 10 at offset 20
        1, 0, 0x1E, 0, 0, // InUse object 11 at offset 30
    ];
    let xref_stream = XRefStream {
        dict: (),
        data: entry_data,
        widths: vec![1, 2, 2],
        index: vec![(0, 2), (10, 2)],
    };
    let entries = xref_stream.to_xref_entries().unwrap();
    assert_eq!(entries.len(), 4);
    assert_eq!(entries[0].0, 0);
    assert_eq!(entries[1].0, 1);
    assert_eq!(entries[2].0, 10);
    assert_eq!(entries[3].0, 11);
}
