use cssbox::attrs::Attributes;
use cssbox::dom::{DomNodeId, DomTree};

#[test]
fn test_dom_tree_build() {
    let mut tree = DomTree::new();
    let root = tree.root();
    let body = tree.add_element(root, "body", Attributes::new());
    let div = tree.add_element(body, "div", Attributes::new());
    tree.add_text(div, "Hello");

    assert_eq!(tree.len(), 4);
    assert_eq!(tree.children(root).len(), 1);
    assert_eq!(tree.find_body(), Some(body));
}

#[test]
fn test_find_by_id() {
    let mut tree = DomTree::new();
    let root = tree.root();
    let mut attrs = Attributes::new();
    attrs.insert("id".to_string(), "target".to_string());
    let el = tree.add_element(root, "div", attrs);

    assert_eq!(tree.find_element_by_id("target"), Some(el));
    assert_eq!(tree.find_element_by_id("missing"), None);
}

#[test]
fn attributes_insert_replaces_and_get_reads_back() {
    let mut attrs = Attributes::new();
    assert_eq!(attrs.insert("class".to_string(), "a".to_string()), None);
    assert_eq!(attrs.insert("id".to_string(), "x".to_string()), None);
    assert_eq!(attrs.insert("class".to_string(), "b".to_string()), Some("a".to_string()));
    assert_eq!(attrs.get("class"), Some("b"));
    assert_eq!(attrs.get("id"), Some("x"));
    assert_eq!(attrs.get("style"), None);
    assert_eq!(attrs.len(), 2);
}

#[test]
fn dfs_visits_nodes_in_preorder() {
    let mut tree = DomTree::new();
    let root = tree.root();
    let a = tree.add_element(root, "a", Attributes::new());
    let b = tree.add_element(a, "b", Attributes::new());
    let c = tree.add_element(root, "c", Attributes::new());
    let d = tree.add_element(a, "d", Attributes::new());
    let mut it = tree.iter_dfs();
    let mut seen = Vec::new();
    while let Some(id) = it.next() {
        seen.push(id);
    }
    assert_eq!(seen, vec![root, a, b, d, c]);
    assert_eq!(it.next(), None);
}

#[test]
fn find_by_tag_ignores_ascii_case_and_takes_first_in_preorder() {
    let mut tree = DomTree::new();
    let root = tree.root();
    let a = tree.add_element(root, "section", Attributes::new());
    let deep = tree.add_element(a, "P", Attributes::new());
    let _later = tree.add_element(root, "p", Attributes::new());
    assert_eq!(tree.find_element_by_tag("p"), Some(deep));
    assert_eq!(tree.find_element_by_tag("table"), None);
    assert_eq!(tree.parent(deep), Some(a));
    assert_eq!(tree.node(deep).tag_name(), Some("P"));
    assert!(tree.node(deep).is_element());
    assert_eq!(tree.node(root).tag_name(), None);
    assert_eq!(DomNodeId(0), root);
}

#[test]
fn text_nodes_hold_their_text() {
    let mut tree = DomTree::new();
    let root = tree.root();
    let t = tree.add_text(root, "hi");
    assert_eq!(tree.node(t).text_content(), Some("hi"));
    assert!(!tree.node(t).is_element());
    assert_eq!(tree.node(t).get_attribute("id"), None);
    assert!(!tree.is_empty());
}
