use render_core::css::{parse as parse_css, Unit, Value};
use render_core::html::parse as parse_html;
use render_core::style::{style_tree, Display};

#[test]
fn id_beats_class() {
    let doc = parse_html("<div id=\"a\" class=\"b\"></div>".into()).unwrap();
    let sheet = parse_css("#a { x: 1px; } .b { x: 2px; }".into()).unwrap();
    let styled = style_tree(&doc, &sheet);
    assert_eq!(styled.specified_values.get("x"), Some(&Value::Length(1, Unit::Px)));
    let sheet = parse_css(".b { x: 2px; } #a { x: 1px; }".into()).unwrap();
    let styled = style_tree(&doc, &sheet);
    assert_eq!(styled.specified_values.get("x"), Some(&Value::Length(1, Unit::Px)));
}

#[test]
fn later_rule_wins_on_equal_specificity() {
    let doc = parse_html("<p class=\"b c\"></p>".into()).unwrap();
    let sheet = parse_css(".b { x: 1px; y: one; } .c { x: 2px; }".into()).unwrap();
    let styled = style_tree(&doc, &sheet);
    assert_eq!(styled.specified_values.get("x"), Some(&Value::Length(2, Unit::Px)));
    assert_eq!(styled.specified_values.get("y"), Some(&Value::Keyword("one".into())));
    assert_eq!(styled.specified_values.get("z"), None);
}

#[test]
fn universal_rule_matches_every_element() {
    let doc = parse_html("<div><p></p><span class=\"q\"></span></div>".into()).unwrap();
    let sheet = parse_css("* { x: all; }".into()).unwrap();
    let styled = style_tree(&doc, &sheet);
    assert_eq!(styled.specified_values.get("x"), Some(&Value::Keyword("all".into())));
    for child in &styled.children {
        assert_eq!(child.specified_values.get("x"), Some(&Value::Keyword("all".into())));
    }
}

#[test]
fn unmatched_parts_do_not_match() {
    let doc = parse_html("<div id=\"a\" class=\"b\">t</div>".into()).unwrap();
    let sheet = parse_css("span { x: 1px; } #z { x: 2px; } .b.c { x: 3px; } div#a.b { y: 4px; }".into()).unwrap();
    let styled = style_tree(&doc, &sheet);
    assert_eq!(styled.specified_values.get("x"), None);
    assert_eq!(styled.specified_values.get("y"), Some(&Value::Length(4, Unit::Px)));
    assert_eq!(styled.children.len(), 1);
    assert_eq!(styled.children[0].specified_values.get("y"), None);
}

#[test]
fn display_defaults_to_inline() {
    let doc = parse_html("<div><p></p><q></q></div>".into()).unwrap();
    let sheet = parse_css("div { display: block; } p { display: none; }".into()).unwrap();
    let styled = style_tree(&doc, &sheet);
    assert_eq!(styled.display(), Display::Block);
    assert_eq!(styled.children[0].display(), Display::Hidden);
    assert_eq!(styled.children[1].display(), Display::Inline);
}
