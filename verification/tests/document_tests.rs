use oxidize_pdf::header::PdfHeader;
use oxidize_pdf::xref::{find_xref_offset_in, XRefEntry, XRefTable};

/// A minimal valid PDF with correct xref offsets.
fn create_minimal_pdf() -> Vec<u8> {
    create_pdf_with_version("1.4")
}

/// A minimal PDF with a given version.
fn create_pdf_with_version(version: &str) -> Vec<u8> {
    let header = format!("%PDF-{}\n", version);
    let obj1_start = header.len();
    let obj1 = b"1 0 obj\n<< /Type /Catalog /Pages 2 0 R >>\nendobj\n";
    let obj2_start = obj1_start + obj1.len();
    let obj2 = b"2 0 obj\n<< /Type /Pages /Kids [] /Count 0 >>\nendobj\n";
    let xref_start = obj2_start + obj2.len();

    let xref = format!(
        "xref\n0 3\n0000000000 65535 f \n{:010} 00000 n \n{:010} 00000 n \ntrailer\n<< /Size 3 /Root 1 0 R >>\nstartxref\n{}\n%%EOF",
        obj1_start, obj2_start, xref_start
    );

    let mut content = header.into_bytes();
    content.extend_from_slice(obj1);
    content.extend_from_slice(obj2);
    content.extend_from_slice(xref.as_bytes());
    content
}

#[test]
fn test_minimal_pdf_structure() {
    let pdf = create_minimal_pdf();
    assert!(pdf.starts_with(b"%PDF-1.4\n"));
    assert!(pdf.ends_with(b"%%EOF"));
    let pdf_str = String::from_utf8_lossy(&pdf);
    assert!(pdf_str.contains("xref"));
    assert!(pdf_str.contains("startxref"));
}

#[test]
fn test_pdf_with_version() {
    let pdf = create_pdf_with_version("1.7");
    assert!(pdf.starts_with(b"%PDF-1.7\n"));
    let pdf2 = create_pdf_with_version("2.0");
    assert!(pdf2.starts_with(b"%PDF-2.0\n"));
}

#[test]
fn test_minimal_pdf_header_and_xref() {
    let pdf = create_minimal_pdf();
    let header = PdfHeader::parse(&pdf).unwrap();
    assert_eq!(header.version.major, 1);
    assert_eq!(header.version.minor, 4);

    let tail_start = pdf.len().saturating_sub(1024);
    let offset = find_xref_offset_in(&pdf[tail_start..]).unwrap() as usize;
    assert!(pdf[offset..].starts_with(b"xref"));

    let section = String::from_utf8_lossy(&pdf[offset..]).to_string();
    let lines: Vec<String> = section.split('\n').skip(1).map(|l| l.to_string()).collect();
    let mut table: XRefTable<()> = XRefTable::new();
    let read = table.parse_traditional_lines(&lines).unwrap();
    assert_eq!(lines[read - 1].trim(), "trailer");
    assert_eq!(table.len(), 3);
    assert_eq!(
        table.get_entry(1),
        Some(&XRefEntry { offset: 9, generation: 0, in_use: true })
    );
}
