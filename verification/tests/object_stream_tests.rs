use oxidize_pdf::object_stream::XRefEntryType;

#[test]
fn test_xref_entry_type_free() {
    let entry = XRefEntryType::Free {
        next_free_obj: 42,
        generation: 1,
    };

    let simple = entry.to_simple_entry();
    assert_eq!(simple.offset, 0, "Free entry should have offset 0");
    assert_eq!(simple.generation, 1, "Should preserve generation");
    assert!(!simple.in_use, "Free entry should not be in use");
}

#[test]
fn test_xref_entry_type_in_use() {
    let entry = XRefEntryType::InUse {
        offset: 1024,
        generation: 2,
    };

    let simple = entry.to_simple_entry();
    assert_eq!(simple.offset, 1024, "Should preserve offset");
    assert_eq!(simple.generation, 2, "Should preserve generation");
    assert!(simple.in_use, "In-use entry should be marked as in use");
}

#[test]
fn test_xref_entry_type_compressed() {
    let entry = XRefEntryType::Compressed {
        stream_obj_num: 10,
        index_in_stream: 5,
    };

    let simple = entry.to_simple_entry();
    assert_eq!(simple.offset, 0, "Compressed entry should have offset 0");
    assert_eq!(
        simple.generation, 0,
        "Compressed entry should have generation 0"
    );
    assert!(simple.in_use, "Compressed entry should be marked as in use");
}

#[test]
fn test_xref_entry_type_equality() {
    let free1 = XRefEntryType::Free {
        next_free_obj: 42,
        generation: 1,
    };
    let free2 = XRefEntryType::Free {
        next_free_obj: 42,
        generation: 1,
    };
    let free3 = XRefEntryType::Free {
        next_free_obj: 43,
        generation: 1,
    };

    assert_eq!(free1, free2, "Identical free entries should be equal");
    assert_ne!(free1, free3, "Different free entries should not be equal");

    let in_use = XRefEntryType::InUse {
        offset: 1024,
        generation: 0,
    };
    assert_ne!(free1, in_use, "Free and in-use entries should not be equal");
}

#[test]
fn test_xref_entry_type_clone() {
    let original = XRefEntryType::Compressed {
        stream_obj_num: 15,
        index_in_stream: 3,
    };

    let cloned = original;
    assert_eq!(original, cloned, "Cloned entry should equal original");
}

#[test]
fn test_xref_entry_type_copy() {
    let original = XRefEntryType::InUse {
        offset: 2048,
        generation: 5,
    };

    let copied = original; // Copy trait
    assert_eq!(original, copied, "Copied entry should equal original");
}

#[test]
fn test_xref_entry_type_debug() {
    let entries = [
        XRefEntryType::Free {
            next_free_obj: 42,
            generation: 1,
        },
        XRefEntryType::InUse {
            offset: 1024,
            generation: 2,
        },
        XRefEntryType::Compressed {
            stream_obj_num: 10,
            index_in_stream: 5,
        },
    ];

    for entry in &entries {
        let debug_str = format!("{:?}", entry);
        assert!(!debug_str.is_empty(), "Debug output should not be empty");
        // Each variant should show its specific field names
        match entry {
            XRefEntryType::Free { .. } => assert!(debug_str.contains("Free")),
            XRefEntryType::InUse { .. } => assert!(debug_str.contains("InUse")),
            XRefEntryType::Compressed { .. } => assert!(debug_str.contains("Compressed")),
        }
    }
}
