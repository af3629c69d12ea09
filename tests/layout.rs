use render_core::css::parse as parse_css;
use render_core::html::parse as parse_html;
use render_core::layout::{build_layout_tree, BoxType, Dimensions, LayoutBox};
use render_core::style::style_tree;

#[test]
fn inline_run_shares_one_anonymous_box() {
    let doc = parse_html("<div><span></span><em></em></div>".into()).unwrap();
    let sheet = parse_css("div { display: block; }".into()).unwrap();
    let styled = style_tree(&doc, &sheet);
    let root = build_layout_tree(&styled).unwrap();
    assert!(matches!(root.box_type, BoxType::BlockNode(_)));
    assert_eq!(root.children.len(), 1);
    assert!(matches!(root.children[0].box_type, BoxType::AnonymousBlock));
    assert_eq!(root.children[0].children.len(), 2);
    assert!(matches!(root.children[0].children[0].box_type, BoxType::InlineNode(_)));
}

#[test]
fn block_child_splits_inline_runs() {
    let doc = parse_html("<div><a></a><p></p><b></b><c></c></div>".into()).unwrap();
    let sheet = parse_css("div p { display: block; }".into()).unwrap();
    let styled = style_tree(&doc, &sheet);
    let root = build_layout_tree(&styled).unwrap();
    assert_eq!(root.children.len(), 3);
    assert!(matches!(root.children[0].box_type, BoxType::AnonymousBlock));
    assert!(matches!(root.children[1].box_type, BoxType::BlockNode(_)));
    assert!(matches!(root.children[2].box_type, BoxType::AnonymousBlock));
    assert_eq!(root.children[2].children.len(), 2);
}

#[test]
fn hidden_child_is_dropped_with_its_subtree() {
    let doc = parse_html("<div><p><h1></h1></p></div>".into()).unwrap();
    let sheet = parse_css("div { display: block; } p { display: none; } h1 { display: block; }".into()).unwrap();
    let styled = style_tree(&doc, &sheet);
    let root = build_layout_tree(&styled).unwrap();
    assert_eq!(root.children.len(), 0);
}

#[test]
fn hidden_root_has_no_box_tree() {
    let doc = parse_html("<div></div>".into()).unwrap();
    let sheet = parse_css("div { display: none; }".into()).unwrap();
    let styled = style_tree(&doc, &sheet);
    assert!(build_layout_tree(&styled).is_none());
}

#[test]
fn inline_root_takes_children_directly() {
    let doc = parse_html("<span><a></a><b></b></span>".into()).unwrap();
    let sheet = parse_css("b { display: block; }".into()).unwrap();
    let styled = style_tree(&doc, &sheet);
    let root = build_layout_tree(&styled).unwrap();
    assert!(matches!(root.box_type, BoxType::InlineNode(_)));
    assert_eq!(root.children.len(), 2);
    assert!(matches!(root.children[0].box_type, BoxType::InlineNode(_)));
    assert!(matches!(root.children[1].box_type, BoxType::BlockNode(_)));
}

#[test]
fn geometry_starts_at_zero() {
    let d = Dimensions::new();
    assert_eq!((d.content.x, d.content.y, d.content.width, d.content.height), (0, 0, 0, 0));
    assert_eq!((d.margin.left, d.border.right, d.padding.top, d.padding.bottom), (0, 0, 0, 0));
    let mut b = LayoutBox::new(BoxType::AnonymousBlock);
    let c = b.get_inline_container();
    c.children.push(LayoutBox::new(BoxType::AnonymousBlock));
    assert_eq!(b.children.len(), 1);
}
