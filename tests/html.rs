use render_core::dom::{comment, elem, text, AttrMap, NodeType};
use render_core::html::parse;

#[test]
fn can_parse_basic_html() {
    let input = "<html></html>".into();
    let expected = elem("html".into(), AttrMap::new(), Vec::new());
    let actual = parse(input);
    assert_eq!(Ok(expected), actual);
}

#[test]
fn can_parse_more_complex_dom() {
    let input = "
			<html>
				<body>
					<h1 id=\"test\">Test</h1>
				</body>
			</html>
			"
    .into();
    let mut h1_attrs = AttrMap::new();
    h1_attrs.insert("id".into(), "test".into());
    let expected = elem(
        "html".into(),
        AttrMap::new(),
        vec![elem(
            "body".into(),
            AttrMap::new(),
            vec![elem("h1".into(), h1_attrs, vec![text("Test".into())])],
        )],
    );
    let actual = parse(input);
    assert_eq!(Ok(expected), actual);
}

#[test]
fn can_parse_basic_comment() {
    let input = "<!-- some comment -->".into();
    let expected = comment(" some comment ".into());
    let actual = parse(input);
    assert_eq!(Ok(expected), actual);
}

#[test]
fn empty_element_has_no_children_and_no_attributes() {
    let node = parse("<a></a>".into()).unwrap();
    assert!(node.children.is_empty());
    match node.node_type {
        NodeType::Element(data) => {
            assert_eq!(data.tag_name, "a");
            assert_eq!(data.attributes.num_pairs(), 0);
        }
        _ => panic!("not an element"),
    }
}

#[test]
fn attributes_are_extracted_whatever_their_order() {
    let one = parse("<e k1=\"v1\" k2=\"v2\"></e>".into()).unwrap();
    let two = parse("<e k2='v2'   k1=\"v1\"></e>".into()).unwrap();
    assert_eq!(one, two);
    match one.node_type {
        NodeType::Element(data) => {
            assert_eq!(data.attributes.get("k1"), Some(&"v1".to_string()));
            assert_eq!(data.attributes.get("k2"), Some(&"v2".to_string()));
            assert_eq!(data.attributes.num_pairs(), 2);
        }
        _ => panic!("not an element"),
    }
}

#[test]
fn fragment_is_wrapped_in_html_root() {
    let node = parse("<a></a><b></b>".into()).unwrap();
    let expected = elem(
        "html".into(),
        AttrMap::new(),
        vec![
            elem("a".into(), AttrMap::new(), vec![]),
            elem("b".into(), AttrMap::new(), vec![]),
        ],
    );
    assert_eq!(expected, node);
}

#[test]
fn empty_input_is_an_empty_html_root() {
    assert_eq!(parse("  ".into()), Ok(elem("html".into(), AttrMap::new(), vec![])));
}

#[test]
fn mismatched_closing_tag_fails() {
    assert!(parse("<a></b>".into()).is_err());
}

#[test]
fn malformed_markup_fails() {
    assert!(parse("<a".into()).is_err());
    assert!(parse("<a k=v></a>".into()).is_err());
    assert!(parse("<a k=\"v></a>".into()).is_err());
    assert!(parse("<a k></a>".into()).is_err());
    assert!(parse("<a><b></b>".into()).is_err());
    assert!(parse("<!-- open".into()).is_err());
    assert!(parse("<a></a></c>".into()).is_err());
}

#[test]
fn text_is_kept_as_written() {
    let node = parse("<p>one  two\n</p>".into()).unwrap();
    assert_eq!(node.children, vec![text("one  two\n".into())]);
}

#[test]
fn non_ascii_text_is_kept() {
    let node = parse("<p>héllo wörld</p>".into()).unwrap();
    assert_eq!(node.children, vec![text("héllo wörld".into())]);
}
