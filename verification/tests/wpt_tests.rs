use cssbox::wpt_parser::{parse_wpt_test, ReftestRelation, WptTestType};

#[test]
fn test_parse_reftest() {
    let html = r#"
            <title>CSS Test: Block Width</title>
            <link rel="match" href="reference/green-box-ref.html">
            <div style="width: 100px; height: 100px; background: green"></div>
        "#;

    let test = parse_wpt_test("css/CSS2/box/width-001.html", html);
    assert_eq!(test.title, "CSS Test: Block Width");
    assert!(matches!(
        test.test_type,
        WptTestType::Reftest {
            relation: ReftestRelation::Match,
            ..
        }
    ));
    assert_eq!(
        test.reference_path,
        Some("reference/green-box-ref.html".to_string())
    );
}

#[test]
fn test_parse_testharness() {
    let html = r#"
            <script src="/resources/testharness.js"></script>
            <script src="/resources/testharnessreport.js"></script>
            <div id="target" style="width: 100px"></div>
            <script>
                test(function() {
                    assert_equals(document.getElementById("target").getBoundingClientRect().width, 100);
                });
            </script>
        "#;

    let test = parse_wpt_test("css/CSS2/box/width-002.html", html);
    assert_eq!(test.test_type, WptTestType::TestHarness);
}

#[test]
fn mismatch_with_single_quotes_and_crlf() {
    let html = "<TITLE>x</TITLE>\r\n<LINK REL='mismatch' href='ref.html'>\r\n";
    let test = parse_wpt_test("a.html", html);
    assert_eq!(
        test.test_type,
        WptTestType::Reftest { relation: ReftestRelation::Mismatch, reference: "ref.html".to_string() }
    );
    assert_eq!(test.reference_path, Some("ref.html".to_string()));
    assert_eq!(test.title, "");
    assert_eq!(test.path, "a.html");
}

#[test]
fn unknown_type_and_trimmed_title() {
    let test = parse_wpt_test("b.html", "<title>  Spaced  </title><p>no links</p>");
    assert_eq!(test.test_type, WptTestType::Unknown);
    assert_eq!(test.reference_path, None);
    assert_eq!(test.title, "Spaced");
}

#[test]
fn link_without_href_is_not_a_reftest() {
    let test = parse_wpt_test("c.html", "<link rel=\"match\">\n<script src=\"testharness.js\"></script>");
    assert_eq!(test.test_type, WptTestType::TestHarness);
}
