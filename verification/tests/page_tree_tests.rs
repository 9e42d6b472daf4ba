use oxidize_pdf::error::ParseError;
use oxidize_pdf::objects::{PdfDictionary, PdfName, PdfObject};
use oxidize_pdf::page_tree::{kid_count, merge_inherited, select_kid};

fn name(s: &str) -> PdfObject {
    PdfObject::Name(PdfName(s.to_string()))
}

#[test]
fn test_merge_inherited_prefers_inherited_values() {
    let mut node = PdfDictionary::new();
    node.insert("Type".to_string(), name("Pages"));
    node.insert("Rotate".to_string(), PdfObject::Integer(90));
    node.insert("MediaBox".to_string(), PdfObject::Integer(1));
    let mut inherited = PdfDictionary::new();
    inherited.insert("Rotate".to_string(), PdfObject::Integer(180));
    inherited.insert("Other".to_string(), PdfObject::Boolean(true));
    let merged = merge_inherited(&node, Some(&inherited));
    assert_eq!(merged.get("Rotate"), Some(&PdfObject::Integer(180)));
    assert_eq!(merged.get("MediaBox"), Some(&PdfObject::Integer(1)));
    assert_eq!(merged.get("Other"), Some(&PdfObject::Boolean(true)));
    assert_eq!(merged.get("Type"), None);
    assert_eq!(merged.get("CropBox"), None);
}

#[test]
fn test_merge_inherited_without_inherited() {
    let mut node = PdfDictionary::new();
    node.insert("Resources".to_string(), PdfObject::Dictionary(PdfDictionary::new()));
    node.insert("Kids".to_string(), PdfObject::Null);
    let merged = merge_inherited(&node, None);
    assert_eq!(merged.get("Resources"), Some(&PdfObject::Dictionary(PdfDictionary::new())));
    assert_eq!(merged.get("Kids"), None);
    assert_eq!(merged.0.len(), 1);
}

#[test]
fn test_kid_count() {
    let mut pages = PdfDictionary::new();
    pages.insert("Type".to_string(), name("Pages"));
    pages.insert("Count".to_string(), PdfObject::Integer(7));
    assert_eq!(kid_count(&pages).unwrap(), 7);

    let mut page = PdfDictionary::new();
    page.insert("Type".to_string(), name("Page"));
    assert_eq!(kid_count(&page).unwrap(), 1);

    let mut no_count = PdfDictionary::new();
    no_count.insert("Type".to_string(), name("Pages"));
    match kid_count(&no_count) {
        Err(ParseError::MissingKey(k)) => assert_eq!(k, "Count"),
        _ => panic!("expected a missing Count"),
    }
    match kid_count(&PdfDictionary::new()) {
        Err(ParseError::MissingKey(k)) => assert_eq!(k, "Type"),
        _ => panic!("expected a missing Type"),
    }
}

#[test]
fn test_select_kid() {
    let counts = vec![2, 0, 3, 1];
    assert_eq!(select_kid(&counts, 0), Some((0, 0)));
    assert_eq!(select_kid(&counts, 1), Some((0, 1)));
    assert_eq!(select_kid(&counts, 2), Some((2, 0)));
    assert_eq!(select_kid(&counts, 4), Some((2, 2)));
    assert_eq!(select_kid(&counts, 5), Some((3, 0)));
    assert_eq!(select_kid(&counts, 6), None);
    assert_eq!(select_kid(&Vec::new(), 0), None);
}

#[test]
fn test_page_node_step() {
    use_page_node_cases();
}

fn use_page_node_cases() {
    let mut pages = PdfDictionary::new();
    pages.insert("Type".to_string(), name("Pages"));
    pages.insert("Kids".to_string(), PdfObject::Array(oxidize_pdf::objects::PdfArray(vec![])));
    assert_eq!(oxidize_pdf::page_tree::page_node(&pages, 3).unwrap(), oxidize_pdf::page_tree::PageNode::Pages);

    let mut no_kids = PdfDictionary::new();
    no_kids.insert("Type".to_string(), name("Pages"));
    match oxidize_pdf::page_tree::page_node(&no_kids, 0) {
        Err(ParseError::MissingKey(k)) => assert_eq!(k, "Kids"),
        _ => panic!("expected a missing Kids"),
    }

    let mut page = PdfDictionary::new();
    page.insert("Type".to_string(), name("Page"));
    assert_eq!(oxidize_pdf::page_tree::page_node(&page, 0).unwrap(), oxidize_pdf::page_tree::PageNode::Page);
    match oxidize_pdf::page_tree::page_node(&page, 1) {
        Err(ParseError::SyntaxError { position: 0, message }) => assert_eq!(message, "Page index mismatch"),
        _ => panic!("expected a mismatch"),
    }

    let mut other = PdfDictionary::new();
    other.insert("Type".to_string(), name("Catalog"));
    match oxidize_pdf::page_tree::page_node(&other, 0) {
        Err(ParseError::SyntaxError { position: 0, message }) => {
            assert_eq!(message, "Invalid page tree node type: Catalog")
        }
        _ => panic!("expected an invalid type"),
    }
    match oxidize_pdf::page_tree::page_not_found() {
        ParseError::SyntaxError { position: 0, message } => assert_eq!(message, "Page not found in tree"),
        _ => panic!("expected a syntax error"),
    }
}

#[test]
fn test_detect_encryption() {
    use_detect_encryption();
}

fn use_detect_encryption() {
    let mut trailer = PdfDictionary::new();
    assert!(!oxidize_pdf::encryption_handler::EncryptionHandler::detect_encryption(&trailer));
    trailer.insert("Encrypt".to_string(), PdfObject::Reference(5, 0));
    assert!(oxidize_pdf::encryption_handler::EncryptionHandler::detect_encryption(&trailer));
}
