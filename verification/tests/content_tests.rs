use oxidize_pdf::content::{ContentNumber, ContentOperation, ContentParser, ContentTokenizer, TextElement, Token};
use oxidize_pdf::error::ParseError;

/// The token for a real number written as `text`, checked to stand for `value`.
fn number(text: &str, value: f32) -> Token {
    assert_eq!(text.parse::<f32>().unwrap(), value);
    Token::Number(text.to_string())
}

#[test]
fn test_tokenize_numbers() {
    let input = b"123 -45 3.14 -0.5 .5";
    let mut tokenizer = ContentTokenizer::new(input);
    assert_eq!(tokenizer.next_token().unwrap(), Some(Token::Integer(123)));
    assert_eq!(tokenizer.next_token().unwrap(), Some(Token::Integer(-45)));
    assert_eq!(tokenizer.next_token().unwrap(), Some(number("3.14", 3.14)));
    assert_eq!(tokenizer.next_token().unwrap(), Some(number("-0.5", -0.5)));
    assert_eq!(tokenizer.next_token().unwrap(), Some(number(".5", 0.5)));
    assert_eq!(tokenizer.next_token().unwrap(), None);
}

#[test]
fn test_tokenize_strings() {
    let input = b"(Hello World) (Hello\\nWorld) (Nested (paren))";
    let mut tokenizer = ContentTokenizer::new(input);
    assert_eq!(tokenizer.next_token().unwrap(), Some(Token::String(b"Hello World".to_vec())));
    assert_eq!(tokenizer.next_token().unwrap(), Some(Token::String(b"Hello\nWorld".to_vec())));
    assert_eq!(tokenizer.next_token().unwrap(), Some(Token::String(b"Nested (paren)".to_vec())));
}

#[test]
fn test_tokenize_hex_strings() {
    let input = b"<48656C6C6F> <48 65 6C 6C 6F>";
    let mut tokenizer = ContentTokenizer::new(input);
    assert_eq!(tokenizer.next_token().unwrap(), Some(Token::HexString(b"Hello".to_vec())));
    assert_eq!(tokenizer.next_token().unwrap(), Some(Token::HexString(b"Hello".to_vec())));
}

#[test]
fn test_tokenize_names() {
    let input = b"/Name /Name#20with#20spaces /A#42C";
    let mut tokenizer = ContentTokenizer::new(input);
    assert_eq!(tokenizer.next_token().unwrap(), Some(Token::Name("Name".to_string())));
    assert_eq!(tokenizer.next_token().unwrap(), Some(Token::Name("Name with spaces".to_string())));
    assert_eq!(tokenizer.next_token().unwrap(), Some(Token::Name("ABC".to_string())));
}

#[test]
fn test_tokenize_operators() {
    let input = b"BT Tj ET q Q";
    let mut tokenizer = ContentTokenizer::new(input);
    assert_eq!(tokenizer.next_token().unwrap(), Some(Token::Operator("BT".to_string())));
    assert_eq!(tokenizer.next_token().unwrap(), Some(Token::Operator("Tj".to_string())));
    assert_eq!(tokenizer.next_token().unwrap(), Some(Token::Operator("ET".to_string())));
    assert_eq!(tokenizer.next_token().unwrap(), Some(Token::Operator("q".to_string())));
    assert_eq!(tokenizer.next_token().unwrap(), Some(Token::Operator("Q".to_string())));
}

#[test]
fn test_tokenize_arrays_dicts_and_comments() {
    let input = b"[1 2] % note\n<< /A 1 >>";
    let mut tokenizer = ContentTokenizer::new(input);
    assert_eq!(tokenizer.next_token().unwrap(), Some(Token::ArrayStart));
    assert_eq!(tokenizer.next_token().unwrap(), Some(Token::Integer(1)));
    assert_eq!(tokenizer.next_token().unwrap(), Some(Token::Integer(2)));
    assert_eq!(tokenizer.next_token().unwrap(), Some(Token::ArrayEnd));
    assert_eq!(tokenizer.next_token().unwrap(), Some(Token::DictStart));
    assert_eq!(tokenizer.next_token().unwrap(), Some(Token::Name("A".to_string())));
    assert_eq!(tokenizer.next_token().unwrap(), Some(Token::Integer(1)));
    assert_eq!(tokenizer.next_token().unwrap(), Some(Token::DictEnd));
    assert_eq!(tokenizer.next_token().unwrap(), None);
}

#[test]
fn test_tokenize_number_errors() {
    let mut tokenizer = ContentTokenizer::new(b"  -. ");
    match tokenizer.next_token() {
        Err(ParseError::SyntaxError { position, message }) => {
            assert_eq!(position, 2);
            assert_eq!(message, "Invalid float number");
        }
        other => panic!("unexpected {:?}", other),
    }
    let mut tokenizer = ContentTokenizer::new(b"2147483648");
    match tokenizer.next_token() {
        Err(ParseError::SyntaxError { position, message }) => {
            assert_eq!(position, 0);
            assert_eq!(message, "Invalid integer number");
        }
        other => panic!("unexpected {:?}", other),
    }
    let mut tokenizer = ContentTokenizer::new(b"-2147483648 +7");
    assert_eq!(tokenizer.next_token().unwrap(), Some(Token::Integer(i32::MIN)));
    assert_eq!(tokenizer.next_token().unwrap(), Some(Token::Integer(7)));
}

#[test]
fn test_tokenize_unexpected_gt() {
    let mut tokenizer = ContentTokenizer::new(b"> x");
    match tokenizer.next_token() {
        Err(ParseError::SyntaxError { position, message }) => {
            assert_eq!(position, 0);
            assert_eq!(message, "Unexpected '>'");
        }
        other => panic!("unexpected {:?}", other),
    }
}

#[test]
fn test_tokenize_hex_string_errors() {
    let mut tokenizer = ContentTokenizer::new(b"<4Z>");
    match tokenizer.next_token() {
        Err(ParseError::SyntaxError { position, message }) => {
            assert_eq!(position, 2);
            assert_eq!(message, "Invalid character in hex string: 'Z'");
        }
        other => panic!("unexpected {:?}", other),
    }
}

/// Whether a numeric operand stands for `value`.
fn num_eq(n: &ContentNumber, value: f32) -> bool {
    match n {
        ContentNumber::Real(text) => text.parse::<f32>().unwrap() == value,
        ContentNumber::Integer(i) => *i as f32 == value,
    }
}

/// Whether numeric operands stand for `values`.
fn nums_eq(ns: &[&ContentNumber], values: &[f32]) -> bool {
    ns.len() == values.len() && ns.iter().zip(values).all(|(n, v)| num_eq(n, *v))
}

/// The position and message of a syntax error.
fn syntax_error<T: std::fmt::Debug>(r: Result<T, ParseError>) -> (usize, String) {
    match r {
        Err(ParseError::SyntaxError { position, message }) => (position, message),
        other => panic!("expected a syntax error, got {:?}", other),
    }
}

#[test]
fn test_parse_text_operators() {
    let content = b"BT /F1 12 Tf 100 200 Td (Hello World) Tj ET";
    let operators = ContentParser::parse(content).unwrap();

    assert_eq!(operators.len(), 5);
    assert_eq!(operators[0], ContentOperation::BeginText);
    assert!(matches!(&operators[1], ContentOperation::SetFont(f, size) if f == "F1" && num_eq(size, 12.0)));
    assert!(matches!(&operators[2], ContentOperation::MoveText(x, y) if nums_eq(&[x, y], &[100.0, 200.0])));
    assert_eq!(operators[3], ContentOperation::ShowText(b"Hello World".to_vec()));
    assert_eq!(operators[4], ContentOperation::EndText);
}

#[test]
fn test_parse_graphics_operators() {
    let content = b"q 1 0 0 1 50 50 cm 2 w 0 0 100 100 re S Q";
    let operators = ContentParser::parse(content).unwrap();

    assert_eq!(operators.len(), 6);
    assert_eq!(operators[0], ContentOperation::SaveGraphicsState);
    assert!(matches!(&operators[1], ContentOperation::SetTransformMatrix(a, b, c, d, e, f)
        if nums_eq(&[a, b, c, d, e, f], &[1.0, 0.0, 0.0, 1.0, 50.0, 50.0])));
    assert!(matches!(&operators[2], ContentOperation::SetLineWidth(w) if num_eq(w, 2.0)));
    assert!(matches!(&operators[3], ContentOperation::Rectangle(x, y, w, h)
        if nums_eq(&[x, y, w, h], &[0.0, 0.0, 100.0, 100.0])));
    assert_eq!(operators[4], ContentOperation::Stroke);
    assert_eq!(operators[5], ContentOperation::RestoreGraphicsState);
}

#[test]
fn test_parse_color_operators() {
    let content = b"0.5 g 1 0 0 rg 0 0 0 1 k";
    let operators = ContentParser::parse(content).unwrap();

    assert_eq!(operators.len(), 3);
    assert!(matches!(&operators[0], ContentOperation::SetNonStrokingGray(g) if num_eq(g, 0.5)));
    assert!(matches!(&operators[1], ContentOperation::SetNonStrokingRGB(r, g, b)
        if nums_eq(&[r, g, b], &[1.0, 0.0, 0.0])));
    assert!(matches!(&operators[2], ContentOperation::SetNonStrokingCMYK(c, m, y, k)
        if nums_eq(&[c, m, y, k], &[0.0, 0.0, 0.0, 1.0])));
}

#[test]
fn test_parse_operand_order_and_kinds() {
    let ops = ContentParser::parse_content(b"1 2 (ab) \" /Im1 Do 3 Tr").unwrap();
    assert!(matches!(&ops[0], ContentOperation::SetSpacingNextLineShowText(ac, aw, t)
        if num_eq(ac, 1.0) && num_eq(aw, 2.0) && t == b"ab"));
    assert_eq!(ops[1], ContentOperation::PaintXObject("Im1".to_string()));
    assert_eq!(ops[2], ContentOperation::SetTextRenderMode(3));
}

#[test]
fn test_parse_color_components_take_trailing_numbers() {
    let ops = ContentParser::parse(b"/P1 0.1 0.2 0.3 scn 1 SC").unwrap();
    assert!(matches!(&ops[0], ContentOperation::SetNonStrokingColor(c)
        if nums_eq(&c.iter().collect::<Vec<_>>(), &[0.1, 0.2, 0.3])));
    assert!(matches!(&ops[1], ContentOperation::SetStrokingColor(c) if nums_eq(&c.iter().collect::<Vec<_>>(), &[1.0])));
    let ops = ContentParser::parse(b"sc").unwrap();
    assert_eq!(ops[0], ContentOperation::SetNonStrokingColor(Vec::new()));
}

#[test]
fn test_parse_marked_content_properties_are_dropped() {
    let ops = ContentParser::parse(b"/Span /Props BDC EMC /Tag /P DP").unwrap();
    assert_eq!(ops[0], ContentOperation::BeginMarkedContentWithProps("Span".to_string(), Vec::new()));
    assert_eq!(ops[1], ContentOperation::EndMarkedContent);
    assert_eq!(ops[2], ContentOperation::DefineMarkedContentPointWithProps("Tag".to_string(), Vec::new()));
    // Only the last token of an inline dictionary is taken as the properties.
    assert_eq!(
        syntax_error(ContentParser::parse(b"/Span <</MCID 0>> BDC")),
        (6, "Expected name operand".to_string())
    );
    assert_eq!(syntax_error(ContentParser::parse(b"/Tag DP")), (2, "Expected name operand".to_string()));
}

#[test]
fn test_parse_inline_image_is_skipped() {
    let ops = ContentParser::parse(b"q BI /W 4 /H 4 ID abc EI Q").unwrap();
    assert_eq!(
        ops,
        vec![ContentOperation::SaveGraphicsState, ContentOperation::BeginInlineImage, ContentOperation::RestoreGraphicsState]
    );
    let ops = ContentParser::parse(b"BI /W 4").unwrap();
    assert_eq!(ops, vec![ContentOperation::BeginInlineImage]);
}

#[test]
fn test_parse_fill_aliases() {
    let ops = ContentParser::parse(b"f F f* B* b* W* n").unwrap();
    assert_eq!(
        ops,
        vec![
            ContentOperation::Fill,
            ContentOperation::Fill,
            ContentOperation::FillEvenOdd,
            ContentOperation::FillStrokeEvenOdd,
            ContentOperation::CloseFillStrokeEvenOdd,
            ContentOperation::ClipEvenOdd,
            ContentOperation::EndPath,
        ]
    );
}

#[test]
fn test_parse_operator_errors() {
    assert_eq!(syntax_error(ContentParser::parse(b"q xyz")), (2, "Unknown operator: xyz".to_string()));
    assert_eq!(syntax_error(ContentParser::parse(b"1 Td")), (2, "Expected number operand".to_string()));
    assert_eq!(syntax_error(ContentParser::parse(b"1.5 J")), (2, "Expected integer operand".to_string()));
    assert_eq!(syntax_error(ContentParser::parse(b"12 Tf")), (2, "Expected name operand".to_string()));
    assert_eq!(syntax_error(ContentParser::parse(b"/F Tj")), (2, "Expected string operand".to_string()));
    assert_eq!(syntax_error(ContentParser::parse(b"1 2 TJ")), (3, "Expected array".to_string()));
    // Operands of one operator do not carry over to the next.
    assert_eq!(syntax_error(ContentParser::parse(b"1 2 Td m")), (4, "Expected number operand".to_string()));
}

#[test]
fn test_parse_arrays_keep_their_closing_bracket() {
    // The closing `]` is taken with the array's tokens, so a written array is refused.
    assert_eq!(
        syntax_error(ContentParser::parse(b"[(Hello) -100 (World)] TJ")),
        (6, "Invalid element in text array".to_string())
    );
    assert_eq!(
        syntax_error(ContentParser::parse(b"[3 2] 0 d")),
        (6, "Invalid element in dash array".to_string())
    );
    // Without the closing bracket the elements are read.
    let ops = ContentParser::parse(b"[(Hi) -50 TJ [3 2.5 1 d").unwrap();
    assert!(matches!(&ops[0], ContentOperation::ShowTextArray(es)
        if es.len() == 2 && es[0] == TextElement::Text(b"Hi".to_vec())
            && matches!(&es[1], TextElement::Spacing(n) if num_eq(n, -50.0))));
    assert!(matches!(&ops[1], ContentOperation::SetDashPattern(p, phase)
        if nums_eq(&p.iter().collect::<Vec<_>>(), &[3.0, 2.5]) && num_eq(phase, 1.0)));
}

#[test]
fn test_parse_tokenizer_errors_are_returned() {
    assert_eq!(syntax_error(ContentParser::parse(b"q > Q")), (2, "Unexpected '>'".to_string()));
}

#[test]
fn test_content_parser_new_is_empty() {
    let _parser = ContentParser::new(b"BT ET");
    assert_eq!(ContentParser::parse(b"").unwrap(), Vec::new());
}

#[test]
fn test_tokenizing_ends() {
    assert!(oxidize_pdf::content::tokenizing_ends(b"BT /F1 12 Tf (Hi) Tj ET"));
    assert!(oxidize_pdf::content::tokenizing_ends(b""));
    assert!(!oxidize_pdf::content::tokenizing_ends(b"BT ) ET"));
    assert!(!oxidize_pdf::content::tokenizing_ends(b"{"));
}

#[test]
fn test_parse_operator_unknown_keeps_operands() {
    let mut parser = ContentParser::new(b"");
    let mut operands = vec![Token::Integer(1), Token::Integer(2)];
    match parser.parse_operator("XYZ", &mut operands) {
        Err(ParseError::SyntaxError { message, .. }) => assert_eq!(message, "Unknown operator: XYZ"),
        _ => panic!("expected an unknown operator error"),
    }
    assert_eq!(operands.len(), 2);
    let mut operands = vec![Token::Integer(1)];
    assert!(parser.parse_operator("q", &mut operands).is_ok());
    assert!(operands.is_empty());
}
