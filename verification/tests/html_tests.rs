use cssbox::dom::DomNodeId;
use cssbox::html::{html_parses, is_void_element, parse_html, parse_html_simple, try_parse_html};

#[test]
fn test_parse_simple_html() {
    let html = r#"<div><p>Hello</p></div>"#;
    let tree = parse_html_simple(html);

    let div = tree.find_element_by_tag("div").unwrap();
    let _p = tree.find_element_by_tag("p").unwrap();
    assert!(!tree.children(div).is_empty());
}

#[test]
fn test_parse_with_attributes() {
    let html = r#"<div id="test" class="box" style="width: 100px"></div>"#;
    let tree = parse_html_simple(html);
    let div = tree.find_element_by_tag("div").unwrap();
    let node = tree.node(div);
    assert_eq!(node.get_attribute("id"), Some("test"));
    assert_eq!(node.get_attribute("class"), Some("box"));
    assert_eq!(node.get_attribute("style"), Some("width: 100px"));
}

#[test]
fn test_parse_nested() {
    let html = r#"<div><span>text</span><p>paragraph</p></div>"#;
    let tree = parse_html_simple(html);
    let div = tree.find_element_by_tag("div").unwrap();
    assert_eq!(tree.children(div).len(), 2);
}

#[test]
fn test_parse_with_style_tag() {
    let html = r#"<style>.box { width: 100px; }</style><div class="box"></div>"#;
    let tree = parse_html_simple(html);
    let style = tree.find_element_by_tag("style").unwrap();
    let _div = tree.find_element_by_tag("div").unwrap();
    assert!(!tree.children(style).is_empty());
}

#[test]
fn test_parse_void_elements() {
    let html = r#"<div><br><hr><img src="test.png"></div>"#;
    let tree = parse_html_simple(html);
    let div = tree.find_element_by_tag("div").unwrap();
    assert_eq!(tree.children(div).len(), 3);
}

#[test]
fn comments_doctype_and_scripts_are_skipped() {
    let html = "<!DOCTYPE html><!-- note --><script>var x = '<p>';</script><p>a</p>";
    let tree = parse_html(html);
    assert_eq!(tree.find_element_by_tag("script"), None);
    let p = tree.find_element_by_tag("p").unwrap();
    let html_el = tree.children(tree.root())[0];
    assert_eq!(tree.children(html_el), &[p]);
    let text = tree.children(p)[0];
    assert_eq!(tree.node(text).text_content(), Some("a"));
}

#[test]
fn attribute_forms() {
    let html = "<input disabled value=plain name='q' =skip><b/>x";
    let tree = parse_html_simple(html);
    let input = tree.find_element_by_tag("input").unwrap();
    let n = tree.node(input);
    assert_eq!(n.get_attribute("disabled"), Some(""));
    assert_eq!(n.get_attribute("value"), Some("plain"));
    assert_eq!(n.get_attribute("name"), Some("q"));
    let b = tree.find_element_by_tag("b").unwrap();
    assert!(tree.children(b).is_empty());
    let html_el = tree.children(tree.root())[0];
    assert_eq!(tree.children(html_el).len(), 3);
}

#[test]
fn text_is_trimmed_and_blank_text_dropped() {
    let tree = parse_html_simple("  <div>  hello world \n </div>   ");
    let div = tree.find_element_by_tag("div").unwrap();
    let t = tree.children(div)[0];
    assert_eq!(tree.node(t).text_content(), Some("hello world"));
    let html_el = tree.children(tree.root())[0];
    assert_eq!(tree.children(html_el).len(), 1);
}

#[test]
fn closing_tag_is_matched_ignoring_case() {
    let tree = parse_html_simple("<DIV>a</div><span>b</span>");
    let html_el = tree.children(tree.root())[0];
    assert_eq!(tree.children(html_el).len(), 2);
}

#[test]
fn void_names() {
    assert!(is_void_element("br"));
    assert!(is_void_element("IMG"));
    assert!(!is_void_element("div"));
}

#[test]
fn nodes_are_numbered_in_document_order() {
    let tree = parse_html_simple("<div><span>a</span><p>b</p></div>t");
    let mut walk = tree.iter_dfs();
    let mut ids: Vec<usize> = Vec::new();
    while let Some(n) = walk.next() {
        ids.push(n.0);
    }
    assert_eq!(ids, (0..tree.len()).collect::<Vec<usize>>());
    let div = tree.find_element_by_tag("div").unwrap();
    assert_eq!(div.0, 2);
    assert_eq!(tree.children(div).len(), 2);
}

#[test]
fn resume_point_counts_bytes_of_lowercased_text() {
    // 'Ⱥ' takes two bytes and its lowercase three, so the parse resumes one
    // byte later than the closing tag's end: past the trailing 'x'.
    let tree = parse_html_simple("<p>\u{23A}</p>x");
    let html_el = tree.children(tree.root())[0];
    assert_eq!(tree.children(html_el).len(), 1);
    assert_eq!(tree.len(), 4);
}

#[test]
fn resume_point_before_closing_tag_end_when_lowercase_is_shorter() {
    // 'ẞ' takes three bytes and its lowercase two: the parse resumes at '>'.
    let tree = parse_html_simple("<p>\u{1E9E}</p>x");
    let html_el = tree.children(tree.root())[0];
    let kids = tree.children(html_el).to_vec();
    assert_eq!(kids.len(), 2);
    assert_eq!(tree.node(kids[1]).text_content(), Some(">x"));
}

#[test]
fn resume_inside_a_character_is_refused() {
    assert!(!html_parses("<p>\u{23A}</p>\u{E9}"));
    assert!(try_parse_html("<p>\u{23A}</p>\u{E9}").is_none());
    assert!(html_parses("<p>a</p>\u{E9}"));
    assert!(try_parse_html("<p>a</p>").is_some());
}

#[test]
fn script_elements_are_dropped_when_their_tag_is_closed() {
    let tree = parse_html("<div><SCRIPT src=a></div><p>b</p>");
    assert_eq!(tree.find_element_by_tag("script"), None);
    assert_eq!(tree.find_element_by_tag("SCRIPT"), None);
    // With no `>` after it, a script start tag is kept as an element.
    let open = parse_html("<p>a</p><script src=x");
    assert!(open.find_element_by_tag("script").is_some());
}

#[test]
fn parse_html_and_parse_html_simple_agree() {
    let html = "<div id=a><p>x <b>y</b></p><br>z</div>";
    let a = parse_html(html);
    let b = parse_html_simple(html);
    assert_eq!(a.len(), b.len());
    for i in 0..a.len() {
        let id = DomNodeId(i);
        assert_eq!(a.children(id), b.children(id));
        assert_eq!(a.parent(id), b.parent(id));
        assert_eq!(a.node(id).tag_name(), b.node(id).tag_name());
        assert_eq!(a.node(id).text_content(), b.node(id).text_content());
    }
}
