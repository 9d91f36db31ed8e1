use cssbox::attrs::Attributes;
use cssbox::cascade::{
    cascaded_declarations, compute_specificity, default_display_for_tag, default_margins_for_tag,
    element_declarations, matched_rules, selector_matches, simple_selector_matches, DefaultMargins,
};
use cssbox::css::{collect_rules, parse_stylesheet};
use cssbox::dom::DomTree;
use cssbox::style::Display;

#[test]
fn test_specificity_calculation() {
    assert!(compute_specificity("#id") > compute_specificity(".class"));
    assert!(compute_specificity(".class") > compute_specificity("div"));
    assert!(compute_specificity("div.class") > compute_specificity("div"));
}

#[test]
fn test_simple_selector_matching() {
    let mut tree = DomTree::new();
    let root = tree.root();
    let mut attrs = Attributes::new();
    attrs.insert("id".to_string(), "test".to_string());
    attrs.insert("class".to_string(), "box red".to_string());
    let div = tree.add_element(root, "div", attrs);

    assert!(simple_selector_matches(&tree, div, "div"));
    assert!(simple_selector_matches(&tree, div, "#test"));
    assert!(simple_selector_matches(&tree, div, ".box"));
    assert!(simple_selector_matches(&tree, div, ".red"));
    assert!(simple_selector_matches(&tree, div, "div.box"));
    assert!(!simple_selector_matches(&tree, div, "span"));
    assert!(!simple_selector_matches(&tree, div, ".missing"));
}

#[test]
fn test_default_style_for_div() {
    assert_eq!(default_display_for_tag("div"), Display::block());
}

#[test]
fn default_display_covers_tables_and_inline() {
    assert_eq!(default_display_for_tag("TD"), Display::table_cell());
    assert_eq!(default_display_for_tag("thead"), Display::table_header_group());
    assert_eq!(default_display_for_tag("span"), Display::inline());
    assert_eq!(default_display_for_tag("caption"), Display::table_caption());
}

#[test]
fn specificity_counts_each_kind() {
    let s = compute_specificity("div#main .item > a:hover");
    assert_eq!((s.id, s.class, s.type_sel), (1, 2, 2));
    let u = compute_specificity("*");
    assert_eq!((u.id, u.class, u.type_sel), (0, 0, 0));
    assert!(!s.inline);
}

#[test]
fn descendant_selector_needs_a_matching_ancestor() {
    let mut tree = DomTree::new();
    let root = tree.root();
    let mut attrs = Attributes::new();
    attrs.insert("class".to_string(), "outer".to_string());
    let section = tree.add_element(root, "section", attrs);
    let p = tree.add_element(section, "p", Attributes::new());
    assert!(selector_matches(&tree, p, ".outer p"));
    assert!(selector_matches(&tree, p, "section p"));
    assert!(!selector_matches(&tree, p, "article p"));
    assert!(!selector_matches(&tree, section, ".outer p"));
}

#[test]
fn matched_rules_come_in_cascade_order() {
    let mut tree = DomTree::new();
    let root = tree.root();
    let mut attrs = Attributes::new();
    attrs.insert("id".to_string(), "x".to_string());
    attrs.insert("class".to_string(), "c".to_string());
    let div = tree.add_element(root, "div", attrs);
    let rules = parse_stylesheet("#x { a: 1 } div { b: 2 } .c, div { c: 3 } span { d: 4 }");
    let matched = matched_rules(&tree, div, &rules).unwrap();
    let order: Vec<usize> = matched.iter().map(|m| m.1).collect();
    // div (rule 1), div (rule 2), .c (rule 2), #x (rule 0)
    assert_eq!(order, vec![1, 2, 2, 0]);
    assert!(matched.windows(2).all(|w| w[0].0 <= w[1].0));
}

#[test]
fn inline_style_is_applied_last() {
    let mut tree = DomTree::new();
    let root = tree.root();
    let mut attrs = Attributes::new();
    attrs.insert("class".to_string(), "c".to_string());
    attrs.insert("style".to_string(), "width: 5px".to_string());
    let div = tree.add_element(root, "div", attrs);
    let rules = parse_stylesheet(".c { width: 1px } div { width: 2px; height: 3px }");
    let decls = cascaded_declarations(&tree, div, &rules).unwrap();
    let seen: Vec<(String, String)> = decls.iter().map(|d| (d.property.clone(), d.value.clone())).collect();
    assert_eq!(
        seen,
        vec![
            ("width".to_string(), "2px".to_string()),
            ("height".to_string(), "3px".to_string()),
            ("width".to_string(), "1px".to_string()),
            ("width".to_string(), "5px".to_string()),
        ]
    );
}

#[test]
fn element_declarations_visit_elements_in_preorder() {
    let mut tree = DomTree::new();
    let root = tree.root();
    let body = tree.add_element(root, "body", Attributes::new());
    tree.add_text(body, "hi");
    let p = tree.add_element(body, "p", Attributes::new());
    let sheets = vec!["p { color: red }".to_string(), "body { margin: 0 }".to_string()];
    let all = element_declarations(&tree, &sheets).unwrap();
    let ids: Vec<_> = all.iter().map(|e| e.0).collect();
    assert_eq!(ids, vec![body, p]);
    assert_eq!(all[0].1.len(), 1);
    assert_eq!(all[0].1[0].property, "margin");
    assert_eq!(all[1].1[0].value, "red");
    let rules = collect_rules(&sheets);
    assert_eq!(rules.len(), 2);
    assert_eq!(rules[1].selector, "body");
}

#[test]
fn default_margins_by_tag() {
    assert_eq!(default_margins_for_tag("BODY"), DefaultMargins::Body);
    assert_eq!(default_margins_for_tag("blockquote"), DefaultMargins::Paragraph);
    assert_eq!(default_margins_for_tag("H1"), DefaultMargins::Heading);
    assert_eq!(default_margins_for_tag("h2"), DefaultMargins::NoMargins);
    assert_eq!(default_margins_for_tag("div"), DefaultMargins::NoMargins);
}
