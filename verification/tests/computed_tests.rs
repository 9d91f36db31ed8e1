use cssbox::attrs::Attributes;
use cssbox::computed::{
    box_plan, extract_stylesheets, find_layout_root, formatting_context_of, is_non_visual_tag, BoxPlanKind,
    FormattingContextType,
};
use cssbox::style::DisplayInner;
use cssbox::dom::DomTree;
use cssbox::html::parse_html_simple;

#[test]
fn layout_root_prefers_body_then_html() {
    let mut tree = DomTree::new();
    let root = tree.root();
    assert_eq!(find_layout_root(&tree), root);
    let html = tree.add_element(root, "HTML", Attributes::new());
    assert_eq!(find_layout_root(&tree), html);
    let body = tree.add_element(html, "body", Attributes::new());
    assert_eq!(find_layout_root(&tree), body);
}

#[test]
fn style_elements_give_their_text_as_sheets() {
    let dom = parse_html_simple("<style>.a { b: c }</style><div><STYLE>p {}</STYLE></div><style></style>");
    let sheets = extract_stylesheets(&dom);
    assert_eq!(sheets, vec![".a { b: c }".to_string(), "p {}".to_string()]);
}

#[test]
fn box_plan_skips_hidden_and_non_visual_nodes() {
    let mut tree = DomTree::new();
    let root = tree.root();
    let body = tree.add_element(root, "body", Attributes::new());
    let div = tree.add_element(body, "div", Attributes::new());
    tree.add_text(div, "  hello  ");
    tree.add_text(div, "   ");
    let _script = tree.add_element(body, "Script", Attributes::new());
    let hidden_el = tree.add_element(body, "p", Attributes::new());
    tree.add_text(hidden_el, "never");
    let span = tree.add_element(body, "span", Attributes::new());
    let mut hidden = vec![false; tree.len()];
    hidden[hidden_el.0] = true;
    let plan = box_plan(&tree, body, &hidden);
    assert_eq!(plan.len(), 3);
    assert_eq!(plan[0].parent, body);
    assert!(matches!(plan[0].kind, BoxPlanKind::Element(id) if id == div));
    assert_eq!(plan[1].parent, div);
    assert!(matches!(&plan[1].kind, BoxPlanKind::Text(t) if t == "hello"));
    assert_eq!(plan[2].parent, body);
    assert!(matches!(plan[2].kind, BoxPlanKind::Element(id) if id == span));
}

#[test]
fn non_visual_tags() {
    assert!(is_non_visual_tag("HEAD"));
    assert!(is_non_visual_tag("meta"));
    assert!(!is_non_visual_tag("div"));
}

#[test]
fn formatting_context_follows_display_and_children() {
    assert_eq!(formatting_context_of(DisplayInner::Flex, &vec![true]), FormattingContextType::Flex);
    assert_eq!(formatting_context_of(DisplayInner::Grid, &vec![]), FormattingContextType::Grid);
    assert_eq!(formatting_context_of(DisplayInner::Table, &vec![false]), FormattingContextType::Table);
    assert_eq!(formatting_context_of(DisplayInner::Flow, &vec![true, true]), FormattingContextType::Inline);
    assert_eq!(formatting_context_of(DisplayInner::Flow, &vec![true, false]), FormattingContextType::Block);
    assert_eq!(formatting_context_of(DisplayInner::Flow, &vec![]), FormattingContextType::Block);
}
