use autosar_data::error::AutosarDataError;
use autosar_data::lexer::{ArxmlEvent, ArxmlLexer, ArxmlLexerError};

#[test]
fn test_basic_functionality() {
    let data =
        b"<?xml version=\"1.0\" encoding=\"utf-8\"?><element attr=\"gggg\" attr3>contained characters</element>";
    let mut lexer = ArxmlLexer::new(data, String::from("(buffer)"));
    assert!(matches!(lexer.next(), Ok((_, ArxmlEvent::ArxmlHeader(None)))));
    assert!(
        matches!(lexer.next(), Ok((_, ArxmlEvent::BeginElement(elem, attrs))) if elem == b"element" && attrs.len() == 17)
    );
    assert!(matches!(lexer.next(), Ok((_, ArxmlEvent::Characters(text))) if text == b"contained characters"));
    assert!(matches!(lexer.next(), Ok((_, ArxmlEvent::EndElement(elem))) if elem == b"element"));
    assert!(matches!(lexer.next(), Ok((_, ArxmlEvent::EndOfFile))));
}

#[test]
fn skip_byte_order_mark() {
    let data =
        b"\xEF\xBB\xBF<?xml version=\"1.0\" encoding=\"utf-8\"?><element attr=\"gggg\" attr3>contained characters</element>";
    let mut lexer = ArxmlLexer::new(data, String::from("(buffer)"));
    assert!(matches!(lexer.next(), Ok((_, ArxmlEvent::ArxmlHeader(None)))));
}

#[test]
fn test_incomplete_data() {
    let data = b"<element";
    let mut lexer = ArxmlLexer::new(data, String::from("(buffer)"));
    assert!(
        matches!(lexer.next(), Err(AutosarDataError::LexerError {source, ..}) if source == ArxmlLexerError::IncompleteData)
    );
}

#[test]
fn test_invalid_element() {
    let data = b"<element><>";
    let mut lexer = ArxmlLexer::new(data, String::from("(buffer)"));
    assert!(lexer.next().is_ok());
    assert!(
        matches!(lexer.next(), Err(AutosarDataError::LexerError{source, ..}) if source == ArxmlLexerError::InvalidElement)
    );
}

#[test]
fn test_invalid_processing_instruction() {
    let data = b"<element><?what>";
    let mut lexer = ArxmlLexer::new(data, String::from("(buffer)"));
    assert!(lexer.next().is_ok());
    assert!(
        matches!(lexer.next(), Err(AutosarDataError::LexerError{source, ..}) if source == ArxmlLexerError::InvalidProcessingInstruction)
    );
}

#[test]
fn test_comment() {
    let data = b"<!-- foo--><element>";
    let mut lexer = ArxmlLexer::new(data, String::from("(buffer)"));
    assert!(matches!(lexer.next(), Ok((_, ArxmlEvent::Comment(_)))));
    assert!(matches!(lexer.next(), Ok((_, ArxmlEvent::BeginElement(_elem, _attrs)))));
}

#[test]
fn test_invalid_comment() {
    let data = b"<element><!-- foo>";
    let mut lexer = ArxmlLexer::new(data, String::from("(buffer)"));
    assert!(lexer.next().is_ok());
    assert!(
        matches!(lexer.next(), Err(AutosarDataError::LexerError{source, ..}) if source == ArxmlLexerError::InvalidComment)
    );
}

#[test]
fn test_invalid_xml_header() {
    let data = br#"<?xml version="1.0" encoding="cp1252"?>"#;
    let mut lexer = ArxmlLexer::new(data, String::from("(buffer)"));
    assert!(
        matches!(lexer.next(), Err(AutosarDataError::LexerError{source, ..}) if source == ArxmlLexerError::InvalidXmlHeader)
    );

    let data = br#"<?xml ?>"#;
    let mut lexer = ArxmlLexer::new(data, String::from("(buffer)"));
    assert!(
        matches!(lexer.next(), Err(AutosarDataError::LexerError{source, ..}) if source == ArxmlLexerError::InvalidXmlHeader)
    );
}

#[test]
fn test_malformed_xml_header_attributes() {
    // each of these breaks out of the attribute loop of read_xml_header in a different place
    let malformed: &[&[u8]] = &[
        // an attribute without a value: there is no '=' left in the remaining text
        br#"<?xml version="1.0" encoding="utf-8" standalone?>"#,
        // an empty attribute name
        br#"<?xml ="1.0"?>"#,
        // an attribute name containing whitespace
        br#"<?xml version number="1.0"?>"#,
        // an unquoted attribute value
        br#"<?xml version=1.0?>"#,
        // an attribute value whose closing quote is missing
        br#"<?xml version="1.0?>"#,
    ];
    for data in malformed {
        println!("checking: {}", String::from_utf8_lossy(data));
        let mut lexer = ArxmlLexer::new(data, String::from("(buffer)"));
        assert!(
            matches!(lexer.next(), Err(AutosarDataError::LexerError{source, ..}) if source == ArxmlLexerError::InvalidXmlHeader)
        );
    }
}

#[test]
fn test_xml_header_without_encoding() {
    // the encoding declaration is optional; some tools write the header without it
    let data = br#"<?xml version="1.0" ?><element>"#;
    let mut lexer = ArxmlLexer::new(data, String::from("(buffer)"));
    assert!(matches!(lexer.next(), Ok((_, ArxmlEvent::ArxmlHeader(None)))));
    assert!(matches!(lexer.next(), Ok((_, ArxmlEvent::BeginElement(elem, _))) if elem == b"element"));
}

#[test]
fn test_xml_header_with_single_quotes_and_standalone() {
    let data = br#"<?xml version='1.0' encoding='UTF8' standalone='yes'?><element>"#;
    let mut lexer = ArxmlLexer::new(data, String::from("(buffer)"));
    assert!(matches!(lexer.next(), Ok((_, ArxmlEvent::ArxmlHeader(Some(true))))));
    assert!(matches!(lexer.next(), Ok((_, ArxmlEvent::BeginElement(elem, _))) if elem == b"element"));
}

#[test]
fn test_processing_instruction_is_ignored() {
    // a processing instruction which is not the xml header is skipped, and the lexer continues
    // with the next event
    let data = b"<?php echo 'hello'; ?><element>";
    let mut lexer = ArxmlLexer::new(data, String::from("(buffer)"));
    assert!(matches!(lexer.next(), Ok((_, ArxmlEvent::BeginElement(elem, _))) if elem == b"element"));
}

#[test]
fn test_malformed_comment() {
    // '<!' is treated as the start of a comment, but this is not one, even though it ends with '-->'
    let data = b"<!DOCTYPE something -->";
    let mut lexer = ArxmlLexer::new(data, String::from("(buffer)"));
    assert!(
        matches!(lexer.next(), Err(AutosarDataError::LexerError{source, ..}) if source == ArxmlLexerError::InvalidComment)
    );

    // a comment which is too short to contain both the opening and the closing marker
    let data = b"<!-->";
    let mut lexer = ArxmlLexer::new(data, String::from("(buffer)"));
    assert!(
        matches!(lexer.next(), Err(AutosarDataError::LexerError{source, ..}) if source == ArxmlLexerError::InvalidComment)
    );
}

#[test]
fn lexer_traits() {
    // ArxmlLexerError: Debug, Error, Eq, PartialEq, Clone
    let err = ArxmlLexerError::IncompleteData;
    let err2 = err;
    assert_eq!(err, err2);
    assert_eq!(format!("{err:#?}"), format!("{err2:#?}"));
    assert_eq!(err.message(), err2.message());
    assert_eq!(err.message(), "Incomplete data, closing '>' was not found");

    // ArxmlEvent: Debug
    let event = ArxmlEvent::ArxmlHeader(None);
    let _ = format!("{event:#?}");
}

/// comments can contain '<' and '>'
#[test]
fn test_w3c_comment_example() {
    let data = b"<!-- declarations for <head> & <body> -->";
    let mut lexer = ArxmlLexer::new(data, String::from("(buffer)"));
    assert!(matches!(lexer.next(), Ok((_, ArxmlEvent::Comment(_)))));
}

/// xml allows an unescaped '>' inside a quoted attribute value
#[test]
fn test_gt_in_attribute_value() {
    // double quoted value containing '>'
    let data = b"<element attr=\"a>b\">text</element>";
    let mut lexer = ArxmlLexer::new(data, String::from("(buffer)"));
    assert!(
        matches!(lexer.next(), Ok((_, ArxmlEvent::BeginElement(elem, attrs))) if elem == b"element" && attrs == b"attr=\"a>b\"")
    );
    assert!(matches!(lexer.next(), Ok((_, ArxmlEvent::Characters(text))) if text == b"text"));
    assert!(matches!(lexer.next(), Ok((_, ArxmlEvent::EndElement(elem))) if elem == b"element"));

    // single quoted value containing '>' and '"'
    let data = b"<element attr='a>\"b'>";
    let mut lexer = ArxmlLexer::new(data, String::from("(buffer)"));
    assert!(
        matches!(lexer.next(), Ok((_, ArxmlEvent::BeginElement(elem, attrs))) if elem == b"element" && attrs == b"attr='a>\"b'")
    );

    // several attributes, only the last one contains '>'
    let data = b"<element a=\"1\" b='2' c=\"3>4\" d=\"5\">";
    let mut lexer = ArxmlLexer::new(data, String::from("(buffer)"));
    assert!(
        matches!(lexer.next(), Ok((_, ArxmlEvent::BeginElement(elem, attrs))) if elem == b"element" && attrs == b"a=\"1\" b='2' c=\"3>4\" d=\"5\"")
    );

    // empty element, whose attribute value contains "/>"
    let data = b"<element attr=\"a/>b\"/>";
    let mut lexer = ArxmlLexer::new(data, String::from("(buffer)"));
    assert!(
        matches!(lexer.next(), Ok((_, ArxmlEvent::BeginElement(elem, attrs))) if elem == b"element" && attrs == b"attr=\"a/>b\"")
    );
    assert!(matches!(lexer.next(), Ok((_, ArxmlEvent::EndElement(elem))) if elem == b"element"));
    assert!(matches!(lexer.next(), Ok((_, ArxmlEvent::EndOfFile))));

    // a newline inside the attribute value is still counted
    let data = b"<element attr=\"a>\nb\"><x>";
    let mut lexer = ArxmlLexer::new(data, String::from("(buffer)"));
    assert!(matches!(lexer.next(), Ok((1, ArxmlEvent::BeginElement(_, _)))));
    assert!(matches!(lexer.next(), Ok((2, ArxmlEvent::BeginElement(elem, _))) if elem == b"x"));
}

/// an attribute value that is never terminated: the element text is truncated at the first '>',
/// so that the parser can report the error and the following elements are still parsed
#[test]
fn test_unterminated_attribute_value() {
    // the search for the end of the value stops at the '<' of the next element
    let data = b"<element attr=\"abc>text</element>";
    let mut lexer = ArxmlLexer::new(data, String::from("(buffer)"));
    assert!(
        matches!(lexer.next(), Ok((_, ArxmlEvent::BeginElement(elem, attrs))) if elem == b"element" && attrs == b"attr=\"abc")
    );
    assert!(matches!(lexer.next(), Ok((_, ArxmlEvent::Characters(text))) if text == b"text"));
    assert!(matches!(lexer.next(), Ok((_, ArxmlEvent::EndElement(elem))) if elem == b"element"));

    // the search for the end of the value runs to the end of the input
    let data = b"<element attr=\"abc>text";
    let mut lexer = ArxmlLexer::new(data, String::from("(buffer)"));
    assert!(
        matches!(lexer.next(), Ok((_, ArxmlEvent::BeginElement(elem, attrs))) if elem == b"element" && attrs == b"attr=\"abc")
    );
    assert!(matches!(lexer.next(), Ok((_, ArxmlEvent::Characters(text))) if text == b"text"));
    assert!(matches!(lexer.next(), Ok((_, ArxmlEvent::EndOfFile))));
}

/// extra spaces in the XML header should be tolerated
#[test]
fn test_xml_header_with_extra_spaces() {
    let data = b"<?xml   version =   \"1.0\"   encoding =   \"utf-8\"   standalone = \"yes\"  ?>";
    let mut lexer = ArxmlLexer::new(data, String::from("(buffer)"));
    assert!(matches!(lexer.next(), Ok((_, ArxmlEvent::ArxmlHeader(Some(true))))));
}

/// the end of the file is reported again and again
#[test]
fn end_of_file_is_stable() {
    let mut lexer = ArxmlLexer::new(b"<a/>", String::from("(buffer)"));
    assert!(matches!(lexer.next(), Ok((1, ArxmlEvent::BeginElement(elem, attrs))) if elem == b"a" && attrs.is_empty()));
    assert!(matches!(lexer.next(), Ok((1, ArxmlEvent::EndElement(elem))) if elem == b"a"));
    assert!(matches!(lexer.next(), Ok((1, ArxmlEvent::EndOfFile))));
    assert!(matches!(lexer.next(), Ok((1, ArxmlEvent::EndOfFile))));
}

/// an instruction that is too short to hold both markers is an error
#[test]
fn shortest_processing_instruction() {
    let mut lexer = ArxmlLexer::new(b"<?>", String::from("(buffer)"));
    assert!(
        matches!(lexer.next(), Err(AutosarDataError::LexerError{source, line, filename}) if source == ArxmlLexerError::InvalidProcessingInstruction && line == 1 && filename == "(buffer)")
    );
    let mut lexer = ArxmlLexer::new(b"<??><a>", String::from("(buffer)"));
    assert!(matches!(lexer.next(), Ok((_, ArxmlEvent::BeginElement(elem, _))) if elem == b"a"));
}

/// lines are counted in text, comments and instructions
#[test]
fn lines_are_counted() {
    let data = b"\n<!-- 1\n2 -->\n<?x\n?><a>one\ntwo</a>";
    let mut lexer = ArxmlLexer::new(data, String::from("(buffer)"));
    assert!(matches!(lexer.next(), Ok((3, ArxmlEvent::Comment(text))) if text == b" 1\n2 "));
    assert!(matches!(lexer.next(), Ok((5, ArxmlEvent::BeginElement(elem, _))) if elem == b"a"));
    assert!(matches!(lexer.next(), Ok((6, ArxmlEvent::Characters(text))) if text == b"one\ntwo"));
    assert!(matches!(lexer.next(), Ok((6, ArxmlEvent::EndElement(elem))) if elem == b"a"));
}

/// the whitespace behind the name of a closing tag does not belong to the name
#[test]
fn closing_tag_is_trimmed() {
    let mut lexer = ArxmlLexer::new(b"</a \t>", String::from("(buffer)"));
    assert!(matches!(lexer.next(), Ok((_, ArxmlEvent::EndElement(elem))) if elem == b"a"));
}

#[test]
fn an_empty_encoding_is_no_encoding() {
    let data = br#"<?xml version="1.0" encoding=""?><element/>"#;
    let mut lexer = ArxmlLexer::new(data, String::from("(buffer)"));
    assert!(
        matches!(lexer.next(), Err(AutosarDataError::LexerError{source, ..}) if source == ArxmlLexerError::InvalidXmlHeader)
    );
}

/// What the lexer says of a text, up to its end or the first error.
fn all_events(data: &[u8]) -> Vec<String> {
    let mut lexer = ArxmlLexer::new(data, String::from("(buffer)"));
    let mut list = vec![];
    loop {
        match lexer.next() {
            Ok((line, ArxmlEvent::EndOfFile)) => {
                list.push(format!("{line} end"));
                return list;
            }
            Ok((line, event)) => list.push(format!("{line} {event:?}")),
            Err(AutosarDataError::LexerError { line, source, .. }) => {
                list.push(format!("{line} {source:?}"));
                return list;
            }
            Err(other) => panic!("no lexer error: {other:?}"),
        }
    }
}

#[test]
fn a_byte_order_mark_changes_no_event() {
    let texts: [&[u8]; 6] = [
        b"<?xml version=\"1.0\" encoding=\"utf-8\"?>\n<a x='1>2'>\n text <!-- note -->\n<b/></a>",
        b"plain",
        b"<",
        b"<a>\n<>",
        b"<?other\n?><a/>",
        b"\n\n<!-- open",
    ];
    for text in texts {
        let mut marked = vec![0xEF, 0xBB, 0xBF];
        marked.extend_from_slice(text);
        let events = all_events(text);
        assert!(!events.is_empty());
        assert_eq!(all_events(&marked), events);
    }
    assert_eq!(all_events(b"\n<a>\n<>"), vec!["2 BeginElement([97], [])", "3 InvalidElement"]);
}
