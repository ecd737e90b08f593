use larix::{from_events, parse, parse_trimmed, Item, Token, XmlError};

fn bytes(text: &str) -> Vec<u8> {
    text.as_bytes().to_vec()
}

fn start(name: &str) -> Token {
    Token::Start { name: bytes(name), attributes: Vec::new() }
}

fn end(name: &str) -> Token {
    Token::End { name: bytes(name) }
}

#[test]
fn no_tokens_give_no_items() {
    let items = from_events(&[]).unwrap();
    assert!(items.is_empty());
}

#[test]
fn each_leaf_token_gives_its_item() {
    let tokens = vec![
        Token::Text(bytes("t")),
        Token::Comment(bytes(" c ")),
        Token::CData(bytes("d")),
        Token::DocType(bytes("html")),
        Token::Decl(bytes("xml version=\"1.0\"")),
        Token::PI(bytes("target data")),
    ];
    let items = from_events(&tokens).unwrap();
    assert_eq!(items.len(), 6);
    assert!(matches!(&items[0], Item::Text(s) if s == "t"));
    assert!(matches!(&items[1], Item::Comment(s) if s == " c "));
    assert!(matches!(&items[2], Item::CData(s) if s == "d"));
    assert!(matches!(&items[3], Item::DocType(s) if s == "html"));
    assert!(matches!(&items[4], Item::Decl(s) if s == "xml version=\"1.0\""));
    assert!(matches!(&items[5], Item::PI(s) if s == "target data"));
}

#[test]
fn empty_tag_gives_self_closing_element_without_children() {
    let tokens = vec![Token::Empty {
        name: bytes("a"),
        attributes: vec![(bytes("k"), bytes("v"))],
    }];
    let items = from_events(&tokens).unwrap();
    assert_eq!(items.len(), 1);
    let Item::Element(element) = &items[0] else {
        panic!("not an element");
    };
    assert_eq!(element.name, "a");
    assert!(element.self_closing);
    assert!(element.children.is_empty());
    assert_eq!(element.attributes.len(), 1);
    assert_eq!(element.attributes.get("k").unwrap(), "v");
}

#[test]
fn nested_tags_give_nested_elements_in_order() {
    let tokens = vec![
        start("a"),
        Token::Text(bytes("one")),
        start("b"),
        start("c"),
        end("c"),
        end("b"),
        Token::Comment(bytes("two")),
        start("c"),
        end("c"),
        end("a"),
        Token::Text(bytes("after")),
    ];
    let items = from_events(&tokens).unwrap();
    assert_eq!(items.len(), 2);
    assert!(matches!(&items[1], Item::Text(s) if s == "after"));
    let Item::Element(a) = &items[0] else {
        panic!("not an element");
    };
    assert_eq!(a.name, "a");
    assert!(!a.self_closing);
    assert_eq!(a.children.len(), 4);
    assert!(matches!(&a.children[0], Item::Text(s) if s == "one"));
    assert!(matches!(&a.children[2], Item::Comment(s) if s == "two"));
    let Item::Element(b) = &a.children[1] else {
        panic!("not an element");
    };
    assert_eq!(b.name, "b");
    assert_eq!(b.children.len(), 1);
    let Item::Element(c) = &b.children[0] else {
        panic!("not an element");
    };
    assert_eq!(c.name, "c");
    assert!(c.children.is_empty());
    let Item::Element(c2) = &a.children[3] else {
        panic!("not an element");
    };
    assert_eq!(c2.name, "c");
}

#[test]
fn same_name_nested_closes_innermost_first() {
    let tokens = vec![start("a"), start("a"), end("a"), end("a")];
    let items = from_events(&tokens).unwrap();
    assert_eq!(items.len(), 1);
    let Item::Element(outer) = &items[0] else {
        panic!("not an element");
    };
    assert_eq!(outer.children.len(), 1);
    let Item::Element(inner) = &outer.children[0] else {
        panic!("not an element");
    };
    assert!(inner.children.is_empty());
}

#[test]
fn end_tag_without_start_is_unmatched() {
    match from_events(&[end("a")]) {
        Err(XmlError::UnmatchedEndTag(name)) => assert_eq!(name, "a"),
        other => panic!("{:?}", other),
    }
}

#[test]
fn end_tag_after_closed_element_is_unmatched() {
    match from_events(&[start("a"), end("a"), end("b")]) {
        Err(XmlError::UnmatchedEndTag(name)) => assert_eq!(name, "b"),
        other => panic!("{:?}", other),
    }
}

#[test]
fn end_tag_of_other_name_is_mismatched() {
    match from_events(&[start("a"), end("b")]) {
        Err(XmlError::MismatchedEndTag { expected, found }) => {
            assert_eq!(expected, "a");
            assert_eq!(found, "b");
        }
        other => panic!("{:?}", other),
    }
}

#[test]
fn mismatch_names_the_innermost_open_element() {
    match from_events(&[start("a"), start("b"), end("a")]) {
        Err(XmlError::MismatchedEndTag { expected, found }) => {
            assert_eq!(expected, "b");
            assert_eq!(found, "a");
        }
        other => panic!("{:?}", other),
    }
}

#[test]
fn start_tag_without_end_is_missing_its_end() {
    match from_events(&[start("a")]) {
        Err(XmlError::MissingEndTag(name)) => assert_eq!(name, "a"),
        other => panic!("{:?}", other),
    }
    match from_events(&[start("a"), start("b")]) {
        Err(XmlError::MissingEndTag(name)) => assert_eq!(name, "b"),
        other => panic!("{:?}", other),
    }
    match from_events(&[start("a"), start("b"), end("b"), Token::Text(bytes("x"))]) {
        Err(XmlError::MissingEndTag(name)) => assert_eq!(name, "a"),
        other => panic!("{:?}", other),
    }
}

#[test]
fn undecodable_payload_is_reported_with_its_place() {
    match from_events(&[Token::Text(vec![b'o', b'k', 0xff])]) {
        Err(XmlError::NonDecodable(Some(diagnostic))) => {
            assert_eq!(diagnostic.valid_up_to(), 2);
        }
        other => panic!("{:?}", other),
    }
}

#[test]
fn undecodable_names_and_attributes_are_reported() {
    assert!(matches!(
        from_events(&[Token::Start { name: vec![0xc0], attributes: Vec::new() }, end("a")]),
        Err(XmlError::NonDecodable(Some(_)))
    ));
    assert!(matches!(
        from_events(&[Token::End { name: vec![0xc0] }]),
        Err(XmlError::NonDecodable(Some(_)))
    ));
    assert!(matches!(
        from_events(&[Token::Empty { name: bytes("a"), attributes: vec![(vec![0xff], bytes("v"))] }]),
        Err(XmlError::NonDecodable(Some(_)))
    ));
    assert!(matches!(
        from_events(&[Token::Empty { name: bytes("a"), attributes: vec![(bytes("k"), vec![0xff])] }]),
        Err(XmlError::NonDecodable(Some(_)))
    ));
}

#[test]
fn end_tag_is_searched_before_children_are_decoded() {
    let tokens = vec![start("a"), Token::Comment(vec![0xff]), end("b")];
    assert!(matches!(from_events(&tokens), Err(XmlError::MismatchedEndTag { .. })));
    let tokens = vec![start("a"), Token::Comment(vec![0xff]), end("a")];
    assert!(matches!(from_events(&tokens), Err(XmlError::NonDecodable(Some(_)))));
}

#[test]
fn first_faulty_item_gives_the_error() {
    let tokens = vec![Token::Text(vec![0xff]), end("a")];
    assert!(matches!(from_events(&tokens), Err(XmlError::NonDecodable(Some(_)))));
    let tokens = vec![end("a"), Token::Text(vec![0xff])];
    assert!(matches!(from_events(&tokens), Err(XmlError::UnmatchedEndTag(_))));
}

#[test]
fn repeated_attribute_keeps_last_value() {
    let tokens = vec![
        Token::Start {
            name: bytes("a"),
            attributes: vec![
                (bytes("k"), bytes("1")),
                (bytes("other"), bytes("x")),
                (bytes("k"), bytes("2")),
            ],
        },
        end("a"),
    ];
    let items = from_events(&tokens).unwrap();
    let Item::Element(a) = &items[0] else {
        panic!("not an element");
    };
    assert_eq!(a.attributes.len(), 2);
    assert_eq!(a.attributes.get("k").unwrap(), "2");
    assert_eq!(a.attributes.get("other").unwrap(), "x");
    assert!(a.attributes.get("absent").is_none());
}

#[test]
fn multibyte_text_is_decoded() {
    let items = from_events(&[Token::Text("grüß 日本".as_bytes().to_vec())]).unwrap();
    assert!(matches!(&items[0], Item::Text(s) if s == "grüß 日本"));
}

#[test]
fn parse_reports_unmatched_end_tag() {
    match parse("</a>") {
        Err(XmlError::UnmatchedEndTag(name)) => assert_eq!(name, "a"),
        other => panic!("{:?}", other),
    }
}

#[test]
fn parse_reports_mismatched_end_tag() {
    match parse("<a></b>") {
        Err(XmlError::MismatchedEndTag { expected, found }) => {
            assert_eq!(expected, "a");
            assert_eq!(found, "b");
        }
        other => panic!("{:?}", other),
    }
}

#[test]
fn parse_reports_missing_end_tag() {
    match parse("<a><b></b>") {
        Err(XmlError::MissingEndTag(name)) => assert_eq!(name, "a"),
        other => panic!("{:?}", other),
    }
}

#[test]
fn parse_passes_syntax_errors_on() {
    assert!(matches!(parse("<a"), Err(XmlError::Syntax(_))));
    assert!(matches!(parse("<!-- open"), Err(XmlError::Syntax(_))));
}

#[test]
fn parse_gives_no_partial_tree() {
    assert!(parse("<a></a><b></c>").is_err());
}

#[test]
fn parse_keeps_white_space_and_parse_trimmed_drops_it() {
    const RAW: &str = " <a> x </a> ";
    let items = parse(RAW).unwrap();
    assert_eq!(items.len(), 3);
    assert!(matches!(&items[0], Item::Text(s) if s == " "));
    assert!(matches!(&items[2], Item::Text(s) if s == " "));
    let Item::Element(a) = &items[1] else {
        panic!("not an element");
    };
    assert!(matches!(&a.children[0], Item::Text(s) if s == " x "));

    let items = parse_trimmed(RAW).unwrap();
    assert_eq!(items.len(), 1);
    let Item::Element(a) = &items[0] else {
        panic!("not an element");
    };
    assert_eq!(a.children.len(), 1);
    assert!(matches!(&a.children[0], Item::Text(s) if s == "x"));
}

#[test]
fn parse_reads_names_and_attributes_of_tags() {
    let items = parse(r#"<ns:tag first="1" second='two words'><inner x="y"/></ns:tag>"#).unwrap();
    assert_eq!(items.len(), 1);
    let Item::Element(tag) = &items[0] else {
        panic!("not an element");
    };
    assert_eq!(tag.name, "ns:tag");
    assert_eq!(tag.attributes.len(), 2);
    assert_eq!(tag.attributes.get("first").unwrap(), "1");
    assert_eq!(tag.attributes.get("second").unwrap(), "two words");
    let Item::Element(inner) = &tag.children[0] else {
        panic!("not an element");
    };
    assert_eq!(inner.name, "inner");
    assert!(inner.self_closing);
    assert_eq!(inner.attributes.get("x").unwrap(), "y");
}

#[test]
fn parse_drops_attributes_that_are_not_well_formed() {
    let items = parse(r#"<a k="1" k="2" other="x"/>"#).unwrap();
    let Item::Element(a) = &items[0] else {
        panic!("not an element");
    };
    assert_eq!(a.attributes.get("k").unwrap(), "1");
    assert_eq!(a.attributes.get("other").unwrap(), "x");
    assert_eq!(a.attributes.len(), 2);
}

#[test]
fn parse_of_nothing_is_empty() {
    assert!(parse("").unwrap().is_empty());
    assert!(parse_trimmed("  \n ").unwrap().is_empty());
}

#[test]
fn present_attributes_are_kept_in_order() {
    let raw = vec![
        Some((bytes("a"), bytes("1"))),
        None,
        Some((bytes("b"), bytes("2"))),
        None,
        None,
        Some((bytes("a"), bytes("3"))),
    ];
    assert_eq!(
        larix::reader::present_attributes(raw),
        vec![(bytes("a"), bytes("1")), (bytes("b"), bytes("2")), (bytes("a"), bytes("3"))]
    );
    assert!(larix::reader::present_attributes(vec![None, None]).is_empty());
    assert!(larix::reader::present_attributes(Vec::new()).is_empty());
}

#[test]
fn attributes_are_decoded_and_collected() {
    let pairs = vec![(bytes("k"), bytes("v")), (bytes("l"), "é".as_bytes().to_vec())];
    let attributes = larix::tree::get_attributes(&pairs).unwrap();
    assert_eq!(attributes.len(), 2);
    assert_eq!(attributes.get("k").unwrap(), "v");
    assert_eq!(attributes.get("l").unwrap(), "é");
    assert!(larix::tree::get_attributes(&Vec::new()).unwrap().is_empty());
}

#[test]
fn end_tag_is_found_behind_nested_elements() {
    let tokens = vec![
        start("a"),
        start("b"),
        end("b"),
        Token::Text(bytes("t")),
        Token::Empty { name: bytes("c"), attributes: Vec::new() },
        start("a"),
        end("a"),
        end("a"),
        end("z"),
    ];
    assert_eq!(larix::tree::find_end(&tokens, 1, &String::from("a")).unwrap(), 7);
    assert_eq!(larix::tree::find_end(&tokens, 2, &String::from("b")).unwrap(), 2);
    assert!(matches!(
        larix::tree::find_end(&tokens, 8, &String::from("a")),
        Err(XmlError::MismatchedEndTag { .. })
    ));
    assert!(matches!(
        larix::tree::find_end(&tokens, 9, &String::from("a")),
        Err(XmlError::MissingEndTag(_))
    ));
}

#[test]
fn token_standing_alone_gives_its_item_or_an_error() {
    assert!(matches!(larix::tree::single(&Token::Text(bytes("t"))), Ok(Item::Text(s)) if s == "t"));
    assert!(matches!(larix::tree::single(&end("a")), Err(XmlError::UnmatchedEndTag(s)) if s == "a"));
    assert!(matches!(larix::tree::single(&start("a")), Err(XmlError::MissingEndTag(s)) if s == "a"));
}

#[test]
fn document_of_tokenizer_error_is_that_error() {
    let failed = larix::util::document(Err(XmlError::MissingEndTag(String::from("x"))));
    assert!(matches!(failed, Err(XmlError::MissingEndTag(s)) if s == "x"));
    let built = larix::util::document(Ok(vec![start("a"), end("a")])).unwrap();
    assert_eq!(built.len(), 1);
}
