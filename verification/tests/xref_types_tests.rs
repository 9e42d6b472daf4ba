use oxidize_pdf::xref_types::{XRefEntryInfo, XRefEntryType};

#[test]
fn test_xref_entry_type_from_value() {
    assert_eq!(XRefEntryType::from_value(0), XRefEntryType::Free);
    assert_eq!(XRefEntryType::from_value(1), XRefEntryType::Uncompressed);
    assert_eq!(XRefEntryType::from_value(2), XRefEntryType::Compressed);
    assert_eq!(XRefEntryType::from_value(53), XRefEntryType::Custom(53));
    assert_eq!(XRefEntryType::from_value(255), XRefEntryType::Custom(255));
    assert_eq!(XRefEntryType::from_value(256), XRefEntryType::Free);
}

#[test]
fn test_is_in_use() {
    assert!(!XRefEntryType::Free.is_in_use());
    assert!(XRefEntryType::Uncompressed.is_in_use());
    assert!(XRefEntryType::Compressed.is_in_use());
    assert!(XRefEntryType::Custom(53).is_in_use());
}

#[test]
fn test_entry_info() {
    let info = XRefEntryInfo::new(XRefEntryType::Uncompressed, 1234, 5);
    assert_eq!(info.get_offset(), Some(1234));
    assert_eq!(info.get_generation(), 5);
    assert_eq!(info.get_compressed_info(), None);

    let compressed = XRefEntryInfo::new(XRefEntryType::Compressed, 10, 20);
    assert_eq!(compressed.get_offset(), None);
    assert_eq!(compressed.get_generation(), 0);
    assert_eq!(compressed.get_compressed_info(), Some((10, 20)));
}

#[test]
fn test_entry_type_value_round_trip() {
    for v in 0u64..=255 {
        assert_eq!(XRefEntryType::from_value(v).to_value() as u64, v);
    }
    for t in [XRefEntryType::Free, XRefEntryType::Uncompressed, XRefEntryType::Compressed, XRefEntryType::Custom(9)] {
        assert_eq!(XRefEntryType::from_value(t.to_value() as u64), t);
    }
}

#[test]
fn test_free_entry_info() {
    let free = XRefEntryInfo::new(XRefEntryType::Free, 7, 3);
    assert_eq!(free.get_offset(), None);
    assert_eq!(free.get_generation(), 3);
    assert_eq!(free.get_compressed_info(), None);
}
