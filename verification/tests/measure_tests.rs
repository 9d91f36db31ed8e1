use cssbox::measure::FixedWidthTextMeasure;

#[test]
fn words_fill_lines_greedily() {
    let m = FixedWidthTextMeasure;
    assert_eq!(m.line_layout("", 10), (1, 0));
    assert_eq!(m.line_layout("   ", 10), (1, 0));
    assert_eq!(m.line_layout("hello world", 20), (1, 11));
    assert_eq!(m.line_layout("hello world", 10), (2, 5));
    assert_eq!(m.line_layout("aa bb cc dd", 5), (2, 5));
    assert_eq!(m.line_layout("extraordinarily long", 4), (2, 15));
    assert_eq!(m.line_layout("héllo", 1), (1, 6));
}
