use oxidize_pdf::error::ParseError;
use oxidize_pdf::lexer::Lexer;
use oxidize_pdf::objects::{PdfArray, PdfDictionary, PdfName, PdfObject, PdfStream, PdfString};
use oxidize_pdf::parse_options::ParseOptions;

/// The value of a number object as an `f64`, as callers read it.
fn as_real(obj: &PdfObject) -> Option<f64> {
    match obj {
        PdfObject::Real(text) => Some(text.parse::<f64>().unwrap()),
        PdfObject::Integer(i) => Some(*i as f64),
        _ => None,
    }
}

/// A real-number object written as `text`.
fn real_text(text: &str) -> PdfObject {
    PdfObject::Real(text.to_string())
}

#[test]
fn test_pdf_string_methods() {
    let string_data = b"Hello, World!".to_vec();
    let pdf_string = PdfString(string_data.clone());

    assert_eq!(pdf_string.as_bytes(), string_data);
    assert_eq!(pdf_string.as_str().unwrap(), "Hello, World!");
    assert_eq!(pdf_string.0.len(), 13);
    assert!(!pdf_string.0.is_empty());

    let empty_string = PdfString(vec![]);
    assert!(empty_string.0.is_empty());
    assert_eq!(empty_string.0.len(), 0);

    let binary_data = vec![0xFF, 0xFE, 0x00, 0x48, 0x00, 0x69];
    let binary_string = PdfString(binary_data.clone());
    assert_eq!(binary_string.as_bytes(), binary_data);
    assert!(binary_string.as_str().is_err());
}

#[test]
fn test_pdf_name_methods() {
    let name_str = "Type".to_string();
    let pdf_name = PdfName(name_str.clone());

    assert_eq!(pdf_name.as_str(), name_str);
    assert_eq!(pdf_name.0.len(), 4);
    assert!(!pdf_name.0.is_empty());

    let empty_name = PdfName("".to_string());
    assert!(empty_name.0.is_empty());
    assert_eq!(empty_name.0.len(), 0);

    let special_name = PdfName("Font#20Name".to_string());
    assert_eq!(special_name.as_str(), "Font#20Name");
    assert_eq!(special_name.0.len(), 11);
}

#[test]
fn test_pdf_constructors() {
    let s = PdfString::new(b"abc".to_vec());
    assert_eq!(s.as_bytes(), b"abc");
    let n = PdfName::new("Root".to_string());
    assert_eq!(n.as_str(), "Root");
}

#[test]
fn test_parse_simple_objects() {
    let input = b"null true false 123 -456 3.14 /Name (Hello)";
    let mut lexer = Lexer::new(input, 0);

    assert_eq!(PdfObject::parse(&mut lexer).unwrap(), PdfObject::Null);
    assert_eq!(PdfObject::parse(&mut lexer).unwrap(), PdfObject::Boolean(true));
    assert_eq!(PdfObject::parse(&mut lexer).unwrap(), PdfObject::Boolean(false));
    assert_eq!(PdfObject::parse(&mut lexer).unwrap(), PdfObject::Integer(123));
    assert_eq!(PdfObject::parse(&mut lexer).unwrap(), PdfObject::Integer(-456));
    let r = PdfObject::parse(&mut lexer).unwrap();
    assert_eq!(as_real(&r), Some(3.14));
    assert_eq!(PdfObject::parse(&mut lexer).unwrap(), PdfObject::Name(PdfName("Name".to_string())));
    assert_eq!(PdfObject::parse(&mut lexer).unwrap(), PdfObject::String(PdfString(b"Hello".to_vec())));
}

#[test]
fn test_parse_array() {
    let input = b"[100 200 300 /Name (test)]";
    let mut lexer = Lexer::new(input, 0);

    let obj = PdfObject::parse(&mut lexer).unwrap();
    let array = obj.as_array().unwrap();

    assert_eq!(array.len(), 5);
    assert_eq!(array.get(0).unwrap().as_integer(), Some(100));
    assert_eq!(array.get(1).unwrap().as_integer(), Some(200));
    assert_eq!(array.get(2).unwrap().as_integer(), Some(300));
    assert_eq!(array.get(3).unwrap().as_name().unwrap().as_str(), "Name");
    assert_eq!(array.get(4).unwrap().as_string().unwrap().as_bytes(), b"test");
}

#[test]
fn test_parse_array_with_references() {
    let input = b"[1 0 R 2 0 R]";
    let mut lexer = Lexer::new(input, 0);

    let obj = PdfObject::parse(&mut lexer).unwrap();
    let array = obj.as_array().unwrap();

    assert_eq!(array.len(), 2);
    assert!(array.get(0).unwrap().as_reference().is_some());
    assert!(array.get(1).unwrap().as_reference().is_some());
}

#[test]
fn test_parse_dictionary() {
    let input = b"<< /Type /Page /Parent 1 0 R /MediaBox [0 0 612 792] >>";
    let mut lexer = Lexer::new(input, 0);

    let obj = PdfObject::parse(&mut lexer).unwrap();
    let dict = obj.as_dict().unwrap();

    assert_eq!(dict.get_type(), Some("Page"));
    assert!(dict.get("Parent").unwrap().as_reference().is_some());
    assert!(dict.get("MediaBox").unwrap().as_array().is_some());
}

#[test]
fn test_pdf_object_null() {
    let obj = PdfObject::Null;
    assert!(obj.is_null());
    assert_eq!(obj.as_bool(), None);
    assert_eq!(obj.as_integer(), None);
    assert_eq!(as_real(&obj), None);
    assert_eq!(obj.as_string(), None);
    assert_eq!(obj.as_name(), None);
    assert_eq!(obj.as_array(), None);
    assert_eq!(obj.as_dict(), None);
    assert_eq!(obj.as_stream(), None);
    assert_eq!(obj.as_reference(), None);
}

#[test]
fn test_pdf_object_boolean() {
    let obj_true = PdfObject::Boolean(true);
    let obj_false = PdfObject::Boolean(false);

    assert!(!obj_true.is_null());
    assert_eq!(obj_true.as_bool(), Some(true));
    assert_eq!(obj_false.as_bool(), Some(false));

    assert_eq!(obj_true.as_integer(), None);
    assert_eq!(as_real(&obj_true), None);
    assert_eq!(obj_true.as_string(), None);
    assert_eq!(obj_true.as_name(), None);
    assert_eq!(obj_true.as_array(), None);
    assert_eq!(obj_true.as_dict(), None);
    assert_eq!(obj_true.as_stream(), None);
    assert_eq!(obj_true.as_reference(), None);
}

#[test]
fn test_pdf_object_integer() {
    let obj = PdfObject::Integer(42);

    assert!(!obj.is_null());
    assert_eq!(obj.as_bool(), None);
    assert_eq!(obj.as_integer(), Some(42));
    assert_eq!(as_real(&obj), Some(42.0));
    assert_eq!(obj.as_string(), None);
    assert_eq!(obj.as_name(), None);
    assert_eq!(obj.as_array(), None);
    assert_eq!(obj.as_dict(), None);
    assert_eq!(obj.as_stream(), None);
    assert_eq!(obj.as_reference(), None);

    let obj_neg = PdfObject::Integer(-123);
    assert_eq!(obj_neg.as_integer(), Some(-123));
    assert_eq!(as_real(&obj_neg), Some(-123.0));

    let obj_large = PdfObject::Integer(9999999999);
    assert_eq!(obj_large.as_integer(), Some(9999999999));
    assert_eq!(as_real(&obj_large), Some(9999999999.0));
}

#[test]
fn test_pdf_object_real() {
    let obj = real_text("3.14159");

    assert!(!obj.is_null());
    assert_eq!(obj.as_bool(), None);
    assert_eq!(obj.as_integer(), None);
    assert_eq!(as_real(&obj), Some(3.14159));
    assert_eq!(obj.as_string(), None);
    assert_eq!(obj.as_name(), None);
    assert_eq!(obj.as_array(), None);
    assert_eq!(obj.as_dict(), None);
    assert_eq!(obj.as_stream(), None);
    assert_eq!(obj.as_reference(), None);

    assert_eq!(as_real(&real_text("-2.71828")), Some(-2.71828));
    assert_eq!(as_real(&real_text("0.0")), Some(0.0));
    assert_eq!(as_real(&real_text("0.000001")), Some(0.000001));
    assert_eq!(as_real(&real_text("1e10")), Some(1e10));
}

#[test]
fn test_pdf_object_string() {
    let string_data = b"Hello World".to_vec();
    let pdf_string = PdfString(string_data.clone());
    let obj = PdfObject::String(pdf_string);

    assert!(!obj.is_null());
    assert_eq!(obj.as_bool(), None);
    assert_eq!(obj.as_integer(), None);
    assert_eq!(as_real(&obj), None);
    assert!(obj.as_string().is_some());
    assert_eq!(obj.as_string().unwrap().as_bytes(), string_data);
    assert_eq!(obj.as_name(), None);
    assert_eq!(obj.as_array(), None);
    assert_eq!(obj.as_dict(), None);
    assert_eq!(obj.as_stream(), None);
    assert_eq!(obj.as_reference(), None);
}

#[test]
fn test_pdf_object_name() {
    let name_str = "Type".to_string();
    let pdf_name = PdfName(name_str.clone());
    let obj = PdfObject::Name(pdf_name);

    assert!(!obj.is_null());
    assert_eq!(obj.as_bool(), None);
    assert_eq!(obj.as_integer(), None);
    assert_eq!(as_real(&obj), None);
    assert_eq!(obj.as_string(), None);
    assert!(obj.as_name().is_some());
    assert_eq!(obj.as_name().unwrap().as_str(), name_str);
    assert_eq!(obj.as_array(), None);
    assert_eq!(obj.as_dict(), None);
    assert_eq!(obj.as_stream(), None);
    assert_eq!(obj.as_reference(), None);
}

#[test]
fn test_pdf_object_array() {
    let mut array = PdfArray::new();
    array.push(PdfObject::Integer(1));
    array.push(PdfObject::Integer(2));
    array.push(PdfObject::Integer(3));
    let obj = PdfObject::Array(array);

    assert!(!obj.is_null());
    assert_eq!(obj.as_bool(), None);
    assert_eq!(obj.as_integer(), None);
    assert_eq!(as_real(&obj), None);
    assert_eq!(obj.as_string(), None);
    assert_eq!(obj.as_name(), None);
    assert!(obj.as_array().is_some());
    assert_eq!(obj.as_array().unwrap().len(), 3);
    assert_eq!(obj.as_dict(), None);
    assert_eq!(obj.as_stream(), None);
    assert_eq!(obj.as_reference(), None);
}

#[test]
fn test_pdf_object_dictionary() {
    let mut dict = PdfDictionary::new();
    dict.insert("Type".to_string(), PdfObject::Name(PdfName("Page".to_string())));
    dict.insert("Count".to_string(), PdfObject::Integer(5));
    let obj = PdfObject::Dictionary(dict);

    assert!(!obj.is_null());
    assert_eq!(obj.as_bool(), None);
    assert_eq!(obj.as_integer(), None);
    assert_eq!(as_real(&obj), None);
    assert_eq!(obj.as_string(), None);
    assert_eq!(obj.as_name(), None);
    assert_eq!(obj.as_array(), None);
    assert!(obj.as_dict().is_some());
    assert_eq!(obj.as_dict().unwrap().0.len(), 2);
    assert_eq!(obj.as_stream(), None);
    assert_eq!(obj.as_reference(), None);
}

#[test]
fn test_pdf_object_stream() {
    let mut dict = PdfDictionary::new();
    dict.insert("Length".to_string(), PdfObject::Integer(13));
    let data = b"Hello, World!".to_vec();
    let stream = PdfStream { dict, data };
    let obj = PdfObject::Stream(stream);

    assert!(!obj.is_null());
    assert_eq!(obj.as_bool(), None);
    assert_eq!(obj.as_integer(), None);
    assert_eq!(as_real(&obj), None);
    assert_eq!(obj.as_string(), None);
    assert_eq!(obj.as_name(), None);
    assert_eq!(obj.as_array(), None);
    assert!(obj.as_dict().is_some());
    assert!(obj.as_stream().is_some());
    assert_eq!(obj.as_stream().unwrap().raw_data(), b"Hello, World!");
    assert_eq!(obj.as_reference(), None);
}

#[test]
fn test_pdf_object_reference() {
    let obj = PdfObject::Reference(42, 0);

    assert!(!obj.is_null());
    assert_eq!(obj.as_bool(), None);
    assert_eq!(obj.as_integer(), None);
    assert_eq!(as_real(&obj), None);
    assert_eq!(obj.as_string(), None);
    assert_eq!(obj.as_name(), None);
    assert_eq!(obj.as_array(), None);
    assert_eq!(obj.as_dict(), None);
    assert_eq!(obj.as_stream(), None);
    assert_eq!(obj.as_reference(), Some((42, 0)));

    let obj_gen = PdfObject::Reference(123, 5);
    assert_eq!(obj_gen.as_reference(), Some((123, 5)));
}

#[test]
fn test_pdf_array_methods() {
    let mut array = PdfArray::new();
    assert_eq!(array.len(), 0);
    assert!(array.is_empty());

    array.push(PdfObject::Integer(1));
    array.push(PdfObject::Integer(2));
    array.push(PdfObject::Integer(3));

    assert_eq!(array.len(), 3);
    assert!(!array.is_empty());

    assert_eq!(array.get(0).unwrap().as_integer(), Some(1));
    assert_eq!(array.get(1).unwrap().as_integer(), Some(2));
    assert_eq!(array.get(2).unwrap().as_integer(), Some(3));
    assert!(array.get(3).is_none());

    let values: Vec<i64> = array.0.iter().filter_map(|obj| obj.as_integer()).collect();
    assert_eq!(values, vec![1, 2, 3]);

    let mut mixed_array = PdfArray::new();
    mixed_array.push(PdfObject::Integer(42));
    mixed_array.push(real_text("3.14"));
    mixed_array.push(PdfObject::String(PdfString(b"text".to_vec())));
    mixed_array.push(PdfObject::Name(PdfName("Name".to_string())));
    mixed_array.push(PdfObject::Boolean(true));
    mixed_array.push(PdfObject::Null);

    assert_eq!(mixed_array.len(), 6);
    assert_eq!(mixed_array.get(0).unwrap().as_integer(), Some(42));
    assert_eq!(as_real(mixed_array.get(1).unwrap()), Some(3.14));
    assert_eq!(mixed_array.get(2).unwrap().as_string().unwrap().as_bytes(), b"text");
    assert_eq!(mixed_array.get(3).unwrap().as_name().unwrap().as_str(), "Name");
    assert_eq!(mixed_array.get(4).unwrap().as_bool(), Some(true));
    assert!(mixed_array.get(5).unwrap().is_null());
}

#[test]
fn test_pdf_dictionary_methods() {
    let mut dict = PdfDictionary::new();
    assert_eq!(dict.0.len(), 0);
    assert!(dict.0.is_empty());

    dict.insert("Type".to_string(), PdfObject::Name(PdfName("Page".to_string())));
    dict.insert("Count".to_string(), PdfObject::Integer(5));
    dict.insert("Resources".to_string(), PdfObject::Reference(10, 0));

    assert_eq!(dict.0.len(), 3);
    assert!(!dict.0.is_empty());

    assert_eq!(dict.get("Type").unwrap().as_name().unwrap().as_str(), "Page");
    assert_eq!(dict.get("Count").unwrap().as_integer(), Some(5));
    assert_eq!(dict.get("Resources").unwrap().as_reference(), Some((10, 0)));
    assert!(dict.get("NonExistent").is_none());

    assert!(dict.contains_key("Type"));
    assert!(dict.contains_key("Count"));
    assert!(dict.contains_key("Resources"));
    assert!(!dict.contains_key("NonExistent"));

    assert_eq!(dict.get_type(), Some("Page"));

    let mut keys: Vec<String> = dict.0.iter().map(|(k, _)| k.0.clone()).collect();
    keys.sort();
    assert_eq!(keys, vec!["Count", "Resources", "Type"]);

    let values: Vec<&PdfObject> = dict.0.iter().map(|(_, v)| v).collect();
    assert_eq!(values.len(), 3);
}

#[test]
fn test_pdf_stream_methods() {
    let mut dict = PdfDictionary::new();
    dict.insert("Length".to_string(), PdfObject::Integer(13));
    dict.insert("Filter".to_string(), PdfObject::Name(PdfName("FlateDecode".to_string())));

    let data = b"Hello, World!".to_vec();
    let stream = PdfStream { dict, data: data.clone() };

    assert_eq!(stream.raw_data(), data);
    assert_eq!(stream.dict.get("Length").unwrap().as_integer(), Some(13));
    assert_eq!(stream.dict.get("Filter").unwrap().as_name().unwrap().as_str(), "FlateDecode");

    let decode_result = stream.decode();
    assert!(decode_result.is_ok() || decode_result.is_err());
}

#[test]
fn test_parse_complex_nested_structures() {
    let input = b"[[1 2] [3 4] [5 6]]";
    let mut lexer = Lexer::new(input, 0);
    let obj = PdfObject::parse(&mut lexer).unwrap();

    let outer_array = obj.as_array().unwrap();
    assert_eq!(outer_array.len(), 3);

    for i in 0..3 {
        let inner_array = outer_array.get(i).unwrap().as_array().unwrap();
        assert_eq!(inner_array.len(), 2);
        assert_eq!(inner_array.get(0).unwrap().as_integer(), Some((i as i64) * 2 + 1));
        assert_eq!(inner_array.get(1).unwrap().as_integer(), Some((i as i64) * 2 + 2));
    }
}

#[test]
fn test_parse_complex_dictionary() {
    let input = b"<< /Type /Page /Parent 1 0 R /MediaBox [0 0 612 792] /Resources << /Font << /F1 2 0 R >> /ProcSet [/PDF /Text] >> /Contents 3 0 R >>";
    let mut lexer = Lexer::new(input, 0);
    let obj = PdfObject::parse(&mut lexer).unwrap();

    let dict = obj.as_dict().unwrap();
    assert_eq!(dict.get_type(), Some("Page"));
    assert_eq!(dict.get("Parent").unwrap().as_reference(), Some((1, 0)));
    assert_eq!(dict.get("Contents").unwrap().as_reference(), Some((3, 0)));

    let media_box = dict.get("MediaBox").unwrap().as_array().unwrap();
    assert_eq!(media_box.len(), 4);
    assert_eq!(media_box.get(0).unwrap().as_integer(), Some(0));
    assert_eq!(media_box.get(1).unwrap().as_integer(), Some(0));
    assert_eq!(media_box.get(2).unwrap().as_integer(), Some(612));
    assert_eq!(media_box.get(3).unwrap().as_integer(), Some(792));

    let resources = dict.get("Resources").unwrap().as_dict().unwrap();
    assert!(resources.contains_key("Font"));
    assert!(resources.contains_key("ProcSet"));

    let font_dict = resources.get("Font").unwrap().as_dict().unwrap();
    assert_eq!(font_dict.get("F1").unwrap().as_reference(), Some((2, 0)));

    let proc_set = resources.get("ProcSet").unwrap().as_array().unwrap();
    assert_eq!(proc_set.len(), 2);
    assert_eq!(proc_set.get(0).unwrap().as_name().unwrap().as_str(), "PDF");
    assert_eq!(proc_set.get(1).unwrap().as_name().unwrap().as_str(), "Text");
}

#[test]
fn test_parse_hex_strings() {
    let input = b"<48656C6C6F>";
    let mut lexer = Lexer::new(input, 0);
    let obj = PdfObject::parse(&mut lexer).unwrap();
    assert_eq!(obj.as_string().unwrap().as_str().unwrap(), "Hello");
}

#[test]
fn test_parse_literal_strings() {
    let input = b"(Hello World)";
    let mut lexer = Lexer::new(input, 0);
    let obj = PdfObject::parse(&mut lexer).unwrap();
    assert_eq!(obj.as_string().unwrap().as_str().unwrap(), "Hello World");
}

#[test]
fn test_parse_string_with_escapes() {
    let input = b"(Hello\\nWorld\\t!)";
    let mut lexer = Lexer::new(input, 0);
    let obj = PdfObject::parse(&mut lexer).unwrap();
    assert!(!obj.as_string().unwrap().as_bytes().is_empty());
}

#[test]
fn test_parse_names_with_special_chars() {
    let input = b"/Name#20with#20spaces";
    let mut lexer = Lexer::new(input, 0);
    let obj = PdfObject::parse(&mut lexer).unwrap();
    assert!(!obj.as_name().unwrap().as_str().is_empty());
}

#[test]
fn test_parse_references() {
    let input = b"1 0 R";
    let mut lexer = Lexer::new(input, 0);
    let obj = PdfObject::parse(&mut lexer).unwrap();
    assert_eq!(obj.as_reference(), Some((1, 0)));

    let input2 = b"42 5 R";
    let mut lexer2 = Lexer::new(input2, 0);
    let obj2 = PdfObject::parse(&mut lexer2).unwrap();
    assert_eq!(obj2.as_reference(), Some((42, 5)));
}

#[test]
fn test_parse_edge_cases() {
    let input = b"9223372036854775807";
    let mut lexer = Lexer::new(input, 0);
    let obj = PdfObject::parse(&mut lexer).unwrap();
    assert_eq!(obj.as_integer(), Some(9223372036854775807));

    let input2 = b"-9223372036854775808";
    let mut lexer2 = Lexer::new(input2, 0);
    let obj2 = PdfObject::parse(&mut lexer2).unwrap();
    assert_eq!(obj2.as_integer(), Some(-9223372036854775808));

    let input3 = b"1.23e-10";
    let mut lexer3 = Lexer::new(input3, 0);
    let obj3 = PdfObject::parse(&mut lexer3).unwrap();
    assert!(as_real(&obj3).is_some());
}

#[test]
fn test_parse_empty_structures() {
    let input = b"[]";
    let mut lexer = Lexer::new(input, 0);
    let obj = PdfObject::parse(&mut lexer).unwrap();
    let array = obj.as_array().unwrap();
    assert_eq!(array.len(), 0);
    assert!(array.is_empty());

    let input2 = b"<< >>";
    let mut lexer2 = Lexer::new(input2, 0);
    let obj2 = PdfObject::parse(&mut lexer2).unwrap();
    let dict = obj2.as_dict().unwrap();
    assert_eq!(dict.0.len(), 0);
    assert!(dict.0.is_empty());
}

#[test]
fn test_error_handling() {
    let input = b"[1 2 3";
    let mut lexer = Lexer::new(input, 0);
    assert!(PdfObject::parse(&mut lexer).is_err());

    let input2 = b"<< /Type /Page";
    let mut lexer2 = Lexer::new(input2, 0);
    assert!(PdfObject::parse(&mut lexer2).is_err());

    let input3 = b"1 0 X";
    let mut lexer3 = Lexer::new(input3, 0);
    let result3 = PdfObject::parse(&mut lexer3);
    assert!(result3.is_ok() || result3.is_err());
}

#[test]
fn test_debug_formatting() {
    let obj = PdfObject::Integer(42);
    let debug_str = format!("{:?}", obj);
    assert!(debug_str.contains("Integer"));
    assert!(debug_str.contains("42"));

    let name = PdfName("Type".to_string());
    let debug_str2 = format!("{:?}", name);
    assert!(debug_str2.contains("PdfName"));
    assert!(debug_str2.contains("Type"));
}

#[test]
fn test_performance_large_array() {
    let mut array = PdfArray::new();
    for i in 0..1000 {
        array.push(PdfObject::Integer(i));
    }
    assert_eq!(array.len(), 1000);
    assert_eq!(array.get(0).unwrap().as_integer(), Some(0));
    assert_eq!(array.get(999).unwrap().as_integer(), Some(999));
    let sum: i64 = array.0.iter().filter_map(|obj| obj.as_integer()).sum();
    assert_eq!(sum, 499500);
}

#[test]
fn test_performance_large_dictionary() {
    let mut dict = PdfDictionary::new();
    for i in 0..1000 {
        dict.insert(format!("Key{}", i), PdfObject::Integer(i));
    }
    assert_eq!(dict.0.len(), 1000);
    assert_eq!(dict.get("Key0").unwrap().as_integer(), Some(0));
    assert_eq!(dict.get("Key999").unwrap().as_integer(), Some(999));
    for i in 0..1000 {
        assert!(dict.contains_key(&format!("Key{}", i)));
    }
}

/// Lenient options with the given recovery distance.
fn lenient(max_recovery_bytes: usize) -> ParseOptions {
    let mut options = ParseOptions::default();
    options.lenient_streams = true;
    options.max_recovery_bytes = max_recovery_bytes;
    options.collect_warnings = false;
    options
}

#[test]
fn test_lenient_stream_parsing_too_short() {
    let dict = PdfDictionary(vec![(PdfName("Length".to_string()), PdfObject::Integer(10))]);
    let stream_content = b"This is a much longer text content than just 10 bytes";
    let test_data = vec![b"\n".to_vec(), stream_content.to_vec(), b"\nendstream".to_vec()].concat();
    let mut lexer = Lexer::new(&test_data, 0);
    let options = lenient(100);

    let result = PdfObject::parse_stream_data_with_options(&mut lexer, &dict, &options);
    assert!(result.is_ok());
    let stream_data = result.unwrap();
    let content = String::from_utf8_lossy(&stream_data);
    assert!(content.contains("This is a"));
}

#[test]
fn test_lenient_stream_parsing_too_long() {
    let dict = PdfDictionary(vec![(PdfName("Length".to_string()), PdfObject::Integer(100))]);
    let test_data = vec![b"\n".to_vec(), b"Short".to_vec(), b"\nendstream".to_vec()].concat();
    let mut lexer = Lexer::new(&test_data, 0);
    let options = lenient(100);

    let result = PdfObject::parse_stream_data_with_options(&mut lexer, &dict, &options);
    assert!(result.is_err());
}

#[test]
fn test_lenient_stream_no_endstream_found() {
    let input = b"<< /Length 10 >>
stream
This text does not contain the magic word and continues for a very long time with no proper termination...";
    let mut lexer = Lexer::new(input, 0);
    let options = lenient(50);

    let dict_token = lexer.next_token().unwrap();
    let obj = PdfObject::parse_from_token_with_options(&mut lexer, dict_token, &options);
    assert!(obj.is_err());
}

#[test]
fn test_parse_stream_object() {
    let input = b"<< /Length 5 >>\nstream\nHello\nendstream 7";
    let mut lexer = Lexer::new(input, 0);
    let obj = PdfObject::parse(&mut lexer).unwrap();
    let stream = obj.as_stream().unwrap();
    assert_eq!(stream.raw_data(), b"Hello");
    assert_eq!(stream.dict.get("Length").unwrap().as_integer(), Some(5));
    assert_eq!(PdfObject::parse(&mut lexer).unwrap(), PdfObject::Integer(7));
}

#[test]
fn test_parse_stream_errors() {
    let mut lexer = Lexer::new(b"<< >>\nstream\nabc\nendstream", 0);
    assert!(matches!(PdfObject::parse(&mut lexer), Err(ParseError::MissingKey(k)) if k == "Length"));

    let mut lexer = Lexer::new(b"<< /Length 4 0 R >>\nstream\nabcd\nendstream", 0);
    match PdfObject::parse(&mut lexer) {
        Err(ParseError::SyntaxError { message, .. }) => assert_eq!(
            message,
            "Stream length reference (4 0 R) requires lenient mode or reference resolution"
        ),
        other => panic!("unexpected {:?}", other),
    }

    let mut lexer = Lexer::new(b"<< /Length /Five >>\nstream\nabcd\nendstream", 0);
    match PdfObject::parse(&mut lexer) {
        Err(ParseError::SyntaxError { message, .. }) => assert_eq!(message, "Invalid stream length type"),
        other => panic!("unexpected {:?}", other),
    }

    let mut lexer = Lexer::new(b"<< /Length 2 >>\nstream\nab 12\nendstream", 0);
    match PdfObject::parse(&mut lexer) {
        Err(ParseError::UnexpectedToken { expected, found }) => {
            assert_eq!((expected.as_str(), found.as_str()), ("endstream", "Integer(12)"))
        },
        other => panic!("unexpected {:?}", other),
    }
}

#[test]
fn test_parse_stream_without_length_in_lenient_mode() {
    let mut lexer = Lexer::new(b"<< >>\nstream\nabc def\nendstream", 0);
    let options = lenient(100);
    let obj = PdfObject::parse_with_options(&mut lexer, &options).unwrap();
    assert_eq!(obj.as_stream().unwrap().raw_data(), b"abc def\n");

    let mut lexer = Lexer::new(b"<< /Length 3 0 R >>\nstream\nxyz\nendstream", 0);
    let obj = PdfObject::parse_with_options(&mut lexer, &options).unwrap();
    assert_eq!(obj.as_stream().unwrap().raw_data(), b"xyz\n");
}

#[test]
fn test_parse_object_errors() {
    let mut lexer = Lexer::new(b"startxref", 0);
    match PdfObject::parse(&mut lexer) {
        Err(ParseError::SyntaxError { position, message }) => {
            assert_eq!((position, message.as_str()), (0, "StartXRef encountered - this is not a PDF object"))
        },
        other => panic!("unexpected {:?}", other),
    }
    let mut lexer = Lexer::new(b"", 0);
    match PdfObject::parse(&mut lexer) {
        Err(ParseError::SyntaxError { message, .. }) => assert_eq!(message, "Unexpected end of file"),
        other => panic!("unexpected {:?}", other),
    }
    let mut lexer = Lexer::new(b"]", 0);
    match PdfObject::parse(&mut lexer) {
        Err(ParseError::UnexpectedToken { expected, found }) => {
            assert_eq!((expected.as_str(), found.as_str()), ("PDF object", "ArrayEnd"))
        },
        other => panic!("unexpected {:?}", other),
    }
    let mut lexer = Lexer::new(b"<< 1 2 >>", 0);
    match PdfObject::parse(&mut lexer) {
        Err(ParseError::UnexpectedToken { expected, .. }) => assert_eq!(expected, "dictionary key (name) or >>"),
        other => panic!("unexpected {:?}", other),
    }
}

#[test]
fn test_parse_integer_lookahead_is_pushed_back() {
    // An integer not followed by `gen R` leaves the tokens after it to be read again.
    let mut lexer = Lexer::new(b"1 2 3", 0);
    assert_eq!(PdfObject::parse(&mut lexer).unwrap(), PdfObject::Integer(1));
    assert_eq!(PdfObject::parse(&mut lexer).unwrap(), PdfObject::Integer(2));
    assert_eq!(PdfObject::parse(&mut lexer).unwrap(), PdfObject::Integer(3));
    // Out of range numbers are not object numbers.
    let mut lexer = Lexer::new(b"10000000 0 R", 0);
    assert_eq!(PdfObject::parse(&mut lexer).unwrap(), PdfObject::Integer(10000000));
    let mut lexer = Lexer::new(b"5 70000 R", 0);
    assert_eq!(PdfObject::parse(&mut lexer).unwrap(), PdfObject::Integer(5));
    assert_eq!(PdfObject::parse(&mut lexer).unwrap(), PdfObject::Integer(70000));
}

#[test]
fn test_parse_dictionary_later_value_replaces_earlier() {
    let mut lexer = Lexer::new(b"<< /A 1 /B 2 /A 3 % note\n >>", 0);
    let obj = PdfObject::parse(&mut lexer).unwrap();
    let dict = obj.as_dict().unwrap();
    assert_eq!(dict.0.len(), 2);
    assert_eq!(dict.get("A").unwrap().as_integer(), Some(3));
    assert_eq!(dict.0[0].0.as_str(), "A");
}
