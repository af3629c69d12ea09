use render_core::css::{parse, Color, Selector, SimpleSelector, Unit, Value};

#[test]
fn parses_color_value() {
    let sheet = parse("\n\tp {\n\t\tcolor: rgba(127, 23, 64, 255);\n\t}".into()).unwrap();
    assert_eq!(sheet.rules.len(), 1);
    let rule = &sheet.rules[0];
    assert_eq!(rule.declarations.len(), 1);
    assert_eq!(rule.declarations[0].name, "color");
    assert_eq!(rule.declarations[0].value, Value::ColorValue(Color { r: 127, g: 23, b: 64, a: 255 }));
}

#[test]
fn parses_length_and_keyword() {
    let sheet = parse("div { width: 120px; display: block; font: héllo-wörld_2; }".into()).unwrap();
    let d = &sheet.rules[0].declarations;
    assert_eq!(d[0].value, Value::Length(120, Unit::Px));
    assert_eq!(d[1].value, Value::Keyword("block".into()));
    assert_eq!(d[2].value, Value::Keyword("héllo-wörld_2".into()));
}

#[test]
fn selectors_are_sorted_by_specificity() {
    let sheet = parse("h1 .c #x h2.d {}".into()).unwrap();
    let specs: Vec<(usize, usize, usize)> = sheet.rules[0].selectors.iter().map(|s| s.specificity()).collect();
    assert_eq!(specs, vec![(1, 0, 0), (0, 1, 1), (0, 1, 0), (0, 0, 1)]);
    let Selector::Simple(first) = &sheet.rules[0].selectors[0];
    assert_eq!(first.id, Some("x".to_string()));
    let Selector::Simple(last) = &sheet.rules[0].selectors[3];
    assert_eq!(last.tag_name, Some("h1".to_string()));
}

#[test]
fn compound_selector_parts() {
    let sheet = parse("div#main.a.b { x: y; }".into()).unwrap();
    let Selector::Simple(s) = &sheet.rules[0].selectors[0];
    assert_eq!(s.tag_name, Some("div".to_string()));
    assert_eq!(s.id, Some("main".to_string()));
    assert_eq!(s.class, vec!["a".to_string(), "b".to_string()]);
    assert!(!s.universal);
    assert_eq!(sheet.rules[0].selectors[0].specificity(), (1, 2, 1));
}

#[test]
fn universal_selector_weighs_nothing() {
    let sheet = parse("* { x: y; }".into()).unwrap();
    let Selector::Simple(s) = &sheet.rules[0].selectors[0];
    assert!(s.universal);
    assert_eq!(s.tag_name, None);
    assert_eq!(sheet.rules[0].selectors[0].specificity(), (0, 0, 0));
    let bare = Selector::Simple(SimpleSelector { tag_name: None, id: None, class: vec![], universal: true });
    assert_eq!(bare.specificity(), (0, 0, 0));
}

#[test]
fn stray_character_is_reported_with_its_place() {
    let err = parse("p { x: y; }\n  } q".into()).unwrap_err();
    assert_eq!(err.found, Some('}'));
    assert_eq!(err.pos.line, 1);
    assert_eq!(err.pos.column, 2);
    assert_eq!(err.pos.pos, 14);
}

#[test]
fn malformed_stylesheets_fail() {
    assert!(parse("p { color: rgba(300, 0, 0, 0); }".into()).is_err());
    assert!(parse("p { color: rgba(1, 2, 3); }".into()).is_err());
    assert!(parse("p { width: 99999999999px; }".into()).is_err());
    assert!(parse("p { width: 12em; }".into()).is_err());
    assert!(parse("p { x y; }".into()).is_err());
    assert!(parse("p { x: y }".into()).is_err());
    assert!(parse("p { x: y;".into()).is_err());
    assert!(parse("p x: y; }".into()).is_err());
}

#[test]
fn empty_stylesheet() {
    assert_eq!(parse("  \n ".into()).unwrap().rules.len(), 0);
}
