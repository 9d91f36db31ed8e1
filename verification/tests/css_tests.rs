use cssbox::css::{parse_style_attribute, parse_stylesheet};

#[test]
fn test_parse_style_attribute() {
    let decls = parse_style_attribute("width: 100px; height: 50px; margin: 10px auto");
    assert_eq!(decls.len(), 3);
    assert_eq!(decls[0].property, "width");
    assert_eq!(decls[0].value, "100px");
}

#[test]
fn test_parse_stylesheet() {
    let css = "div { width: 100px; height: 50px; } .box { display: flex; }";
    let rules = parse_stylesheet(css);
    assert_eq!(rules.len(), 2);
    assert_eq!(rules[0].selector, "div");
    assert_eq!(rules[0].declarations.len(), 2);
    assert_eq!(rules[1].selector, ".box");
}

#[test]
fn important_is_flagged_and_removed() {
    let decls = parse_style_attribute("COLOR: red !important;; bogus; x:y");
    assert_eq!(decls.len(), 2);
    assert_eq!(decls[0].property, "color");
    assert_eq!(decls[0].value, "red");
    assert!(decls[0].important);
    assert_eq!(decls[1].property, "x");
    assert!(!decls[1].important);
}

#[test]
fn comments_and_nested_blocks_in_stylesheets() {
    let css = "/* header */ a { b: c } @media x { p { q: r } } { s: t } tail";
    let rules = parse_stylesheet(css);
    assert_eq!(rules.len(), 2);
    assert_eq!(rules[0].selector, "a");
    assert_eq!(rules[1].selector, "@media x");
}
