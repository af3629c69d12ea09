use render_core::dom::{comment, elem, split_words, text, AttrMap, Node, NodeType};
use std::collections::HashSet;

#[test]
fn can_generate_a_text_node() {
    let input = "test".to_string();
    let expected = Node {
        children: vec![],
        node_type: NodeType::Text(input.clone()),
    };
    let actual = text(input.clone());
    assert_eq!(expected, actual);
}

#[test]
fn can_append_children() {
    let expected = Node {
        node_type: NodeType::Text("parent".into()),
        children: vec![Node {
            children: vec![],
            node_type: NodeType::Text("child".into()),
        }],
    };
    let mut actual = text("parent".into());
    actual.append(text("child".into()));
    assert_eq!(expected, actual);
}

#[test]
fn can_extract_the_id_from_a_node() {
    let mut attrs = AttrMap::new();
    attrs.insert("id".into(), "test".into());
    let node = elem("test".into(), attrs, vec![]);
    if let NodeType::Element(ref data) = node.node_type {
        assert_eq!(data.id(), Some(&"test".to_string()));
    } else {
        unreachable!();
    }
}

#[test]
fn can_get_classes() {
    let mut attrs = AttrMap::new();
    attrs.insert("class".into(), "a b".into());
    let node = elem("test".into(), attrs, vec![]);
    if let NodeType::Element(ref data) = node.node_type {
        let mut expected = HashSet::new();
        expected.insert("a".to_string());
        expected.insert("b".to_string());
        let actual: HashSet<String> = data.classes().into_iter().collect();
        assert_eq!(actual, expected);
    } else {
        unreachable!();
    }
}

#[test]
fn no_class_attribute_gives_no_classes() {
    let node = elem("test".into(), AttrMap::new(), vec![]);
    if let NodeType::Element(ref data) = node.node_type {
        assert!(data.classes().is_empty());
        assert_eq!(data.id(), None);
    } else {
        unreachable!();
    }
}

#[test]
fn classes_split_on_any_whitespace() {
    assert_eq!(split_words("  a\tb\n\nc  "), vec!["a".to_string(), "b".to_string(), "c".to_string()]);
    assert!(split_words("   ").is_empty());
    assert!(split_words("").is_empty());
}

#[test]
fn later_attribute_overrides_earlier() {
    let mut attrs = AttrMap::new();
    attrs.insert("k".into(), "1".into());
    attrs.insert("k".into(), "2".into());
    assert_eq!(attrs.get("k"), Some(&"2".to_string()));
    assert_eq!(attrs.get("x"), None);
}

#[test]
fn attribute_maps_compare_as_maps() {
    let mut a = AttrMap::new();
    a.insert("k1".into(), "v1".into());
    a.insert("k2".into(), "v2".into());
    let mut b = AttrMap::new();
    b.insert("k2".into(), "v2".into());
    b.insert("k1".into(), "v1".into());
    assert_eq!(a, b);
    let mut c = AttrMap::new();
    c.insert("k1".into(), "v1".into());
    assert_ne!(a, c);
    c.insert("k2".into(), "other".into());
    assert_ne!(a, c);
}

#[test]
fn comment_node_holds_its_text() {
    let n = comment(" c ".into());
    assert_eq!(n.node_type, NodeType::Comment(" c ".into()));
    assert!(n.children.is_empty());
}

#[test]
fn can_show_debug_output() {
    assert_eq!(text("test".into()).pretty_print(""), "test");
}

#[test]
fn pretty_print_indents_and_self_closes() {
    let mut attrs = AttrMap::new();
    attrs.insert("id".into(), "x".into());
    attrs.insert("class".into(), "a".into());
    attrs.insert("id".into(), "y".into());
    let tree = elem(
        "div".into(),
        attrs,
        vec![elem("br".into(), AttrMap::new(), vec![]), text("hi".into()), comment("c".into())],
    );
    let expected = "<div id=\"y\" class=\"a\">\n  <br />\n  hi\n  <!--c-->\n</div>";
    assert_eq!(tree.pretty_print("  "), expected);
    assert_eq!(elem("p".into(), AttrMap::new(), vec![]).pretty_print("  "), "<p />");
}
