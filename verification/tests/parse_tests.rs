use minixml::parse;
use minixml::Attribute;
use minixml::XMLElement;

fn attr(name: &str, values: &[&str]) -> Attribute {
    Attribute {
        name: name.to_string(),
        values: values.iter().map(|v| v.to_string()).collect(),
    }
}

fn element(name: &str, attributes: Vec<Attribute>, contents: &[&str], children: Vec<XMLElement>) -> XMLElement {
    XMLElement::Element {
        name: name.to_string(),
        attributes,
        contents: contents.iter().map(|c| c.to_string()).collect(),
        children,
    }
}

fn empty(name: &str, attributes: Vec<Attribute>) -> XMLElement {
    XMLElement::EmptyElement {
        name: name.to_string(),
        attributes,
    }
}

#[test]
fn single_element_with_text() {
    let got = parse("<a>text</a>").unwrap();
    assert_eq!(got, vec![element("a", vec![], &["text"], vec![])]);
}

#[test]
fn self_closing_is_empty_element() {
    let got = parse("<a/>").unwrap();
    assert_eq!(got, vec![empty("a", vec![])]);
}

#[test]
fn blank_text_between_siblings_is_dropped() {
    let got = parse("<a><b/>\n  <c/></a>").unwrap();
    let expected = element(
        "a",
        vec![],
        &[],
        vec![empty("b", vec![]), empty("c", vec![])],
    );
    assert_eq!(got, vec![expected]);
}

#[test]
fn attributes_round_trip() {
    let got = parse("<a k=\"x y\" m=\"z\"></a>").unwrap();
    let expected = element(
        "a",
        vec![attr("k", &["x", "y"]), attr("m", &["z"])],
        &[],
        vec![],
    );
    assert_eq!(got, vec![expected]);
}

#[test]
fn attribute_decomposition() {
    let (name, attrs) = minixml::lexer::parse_element_name_and_attributes("a k=\"x y\" m=\"z\"").unwrap();
    assert_eq!(name, "a");
    assert_eq!(attrs, vec![attr("k", &["x", "y"]), attr("m", &["z"])]);
}

#[test]
fn duplicate_attribute_last_wins() {
    let (_, attrs) = minixml::lexer::parse_element_name_and_attributes("a k=\"1\" k=\"2\"").unwrap();
    assert_eq!(attrs, vec![attr("k", &["2"])]);
}

#[test]
fn empty_attribute_value_is_one_empty_token() {
    let (_, attrs) = minixml::lexer::parse_element_name_and_attributes("a k=\"\"").unwrap();
    assert_eq!(attrs, vec![attr("k", &[""])]);
}

#[test]
fn nesting_is_unbounded_and_order_preserving() {
    let got = parse("<a><b><c/></b><d/></a>").unwrap();
    let b = element("b", vec![], &[], vec![empty("c", vec![])]);
    let expected = element("a", vec![], &[], vec![b, empty("d", vec![])]);
    assert_eq!(got, vec![expected]);
}

#[test]
fn multiple_top_level_roots_in_order() {
    let got = parse("<?xml version=\"1\"?><!-- note --><root/>").unwrap();
    let expected = vec![
        empty("xml", vec![attr("version", &["1"])]),
        XMLElement::Comment {
            text: "note".to_string(),
        },
        empty("root", vec![]),
    ];
    assert_eq!(got, expected);
}

#[test]
fn missing_tag_close_is_fatal() {
    let err = parse("<a").unwrap_err();
    assert_eq!(err.expected, ">");
    assert_eq!(err.found, "<a");
}

#[test]
fn missing_close_after_valid_prefix_is_fatal() {
    assert!(parse("<a>text</a><b").is_err());
}

#[test]
fn missing_declaration_close_is_fatal() {
    let err = parse("<?xml>").unwrap_err();
    assert_eq!(err.expected, "?>");
    assert_eq!(err.found, "<?xml>");
}

#[test]
fn comment_without_boundary_spaces_is_fatal() {
    let err = parse("<!--note-->").unwrap_err();
    assert_eq!(err.expected, "<!-- ");
    let err = parse("<!-- note-->").unwrap_err();
    assert_eq!(err.expected, " -->");
}

#[test]
fn cdata_without_close_is_fatal() {
    let err = parse("<![CDATA[x]>").unwrap_err();
    assert_eq!(err.expected, "]]>");
}

#[test]
fn attribute_without_equals_quote_is_fatal() {
    let err = parse("<a b>").unwrap_err();
    assert_eq!(err.expected, "=\"");
    assert_eq!(err.found, "b");
}

#[test]
fn cdata_is_verbatim() {
    let got = parse("<![CDATA[hi <x]]>").unwrap();
    assert_eq!(
        got,
        vec![XMLElement::Cdata {
            text: "hi <x".to_string()
        }]
    );
}

#[test]
fn cdata_with_embedded_markup_is_verbatim() {
    let got = parse("<![CDATA[<x>]]>").unwrap();
    assert_eq!(
        got,
        vec![XMLElement::Cdata {
            text: "<x>".to_string()
        }]
    );
}

#[test]
fn cdata_with_markup_under_element_becomes_a_child() {
    let got = parse("<a><![CDATA[x > y]]></a>").unwrap();
    let expected = element(
        "a",
        vec![],
        &[],
        vec![XMLElement::Cdata {
            text: "x > y".to_string(),
        }],
    );
    assert_eq!(got, vec![expected]);
}

#[test]
fn unterminated_cdata_is_fatal() {
    let err = parse("<![CDATA[x").unwrap_err();
    assert_eq!(err.expected, "]]>");
    let err = parse("<![CDATA[x>").unwrap_err();
    assert_eq!(err.expected, "]]>");
}

#[test]
fn decomposers_demand_their_opening_delimiter() {
    let err = minixml::lexer::parse_version("<a>").unwrap_err();
    assert_eq!(err.expected, "<?");
    let err = minixml::lexer::parse_element_stop_tag("<a>").unwrap_err();
    assert_eq!(err.expected, "</");
    let err = minixml::lexer::parse_empty_element_tag("a/>").unwrap_err();
    assert_eq!(err.expected, "<");
    let err = minixml::lexer::parse_empty_element_tag("<a>").unwrap_err();
    assert_eq!(err.expected, "/>");
    let err = minixml::lexer::parse_cdata("<a>").unwrap_err();
    assert_eq!(err.expected, "<![CDATA[");
}

#[test]
fn comment_is_trimmed_one_space_each_side() {
    let got = parse("<!--  note  -->").unwrap();
    assert_eq!(
        got,
        vec![XMLElement::Comment {
            text: " note ".to_string()
        }]
    );
}

#[test]
fn mismatched_end_tag_is_dropped_silently() {
    assert_eq!(parse("</a>").unwrap(), vec![]);
    let got = parse("<a><b></a>").unwrap();
    assert_eq!(got, vec![element("a", vec![], &[], vec![])]);
}

#[test]
fn orphan_top_level_text_is_dropped() {
    let got = parse("<a/>x").unwrap();
    assert_eq!(got, vec![empty("a", vec![])]);
}

#[test]
fn leading_text_orphans_what_follows() {
    assert_eq!(parse("x<a/>").unwrap(), vec![]);
}

#[test]
fn unterminated_element_yields_nothing() {
    assert_eq!(parse("<a><b/>").unwrap(), vec![]);
}

#[test]
fn contents_and_children_keep_document_order() {
    let got = parse("<a>t1<b/>t2</a>").unwrap();
    let expected = element("a", vec![], &["t1", "t2"], vec![empty("b", vec![])]);
    assert_eq!(got, vec![expected]);
}

#[test]
fn declaration_under_open_element_becomes_a_child() {
    let got = parse("<a><?pi v=\"1\"?></a>").unwrap();
    let expected = element("a", vec![], &[], vec![empty("pi", vec![attr("v", &["1"])])]);
    assert_eq!(got, vec![expected]);
}

#[test]
fn comment_and_cdata_under_element_become_children() {
    let got = parse("<a><!-- c --><![CDATA[d]]></a>").unwrap();
    let expected = element(
        "a",
        vec![],
        &[],
        vec![
            XMLElement::Comment {
                text: "c".to_string(),
            },
            XMLElement::Cdata {
                text: "d".to_string(),
            },
        ],
    );
    assert_eq!(got, vec![expected]);
}

#[test]
fn self_closing_tag_keeps_its_attributes() {
    let got = parse("<a k=\"v\"/>").unwrap();
    assert_eq!(got, vec![empty("a", vec![attr("k", &["v"])])]);
}

#[test]
fn four_levels_of_nesting() {
    let got = parse("<a><b><c><d/></c></b></a>").unwrap();
    let c = element("c", vec![], &[], vec![empty("d", vec![])]);
    let b = element("b", vec![], &[], vec![c]);
    let expected = element("a", vec![], &[], vec![b]);
    assert_eq!(got, vec![expected]);
}

#[test]
fn empty_document_yields_nothing() {
    assert_eq!(parse("").unwrap(), vec![]);
    assert_eq!(parse("  \n ").unwrap(), vec![]);
}
