use cssbox::attrs::Attributes;
use cssbox::dom::DomTree;
use cssbox::runner::{
    count_passed, failures_section, harness_outcome, no_assertions_result, reftest_outcome, skip_result, tally_outcomes, test_step,
    TestOutcome, TestResult, TestStep,
};
use cssbox::testharness::{extract_assertions, find_node_by_selector, AssertedProperty};
use cssbox::wpt_parser::{parse_wpt_test, ReftestRelation, WptTestFile, WptTestType};

#[test]
fn test_extract_simple_assertion() {
    let html = r#"
            <div id="target" style="width: 100px"></div>
            <script>
                assert_equals(document.getElementById("target").getBoundingClientRect().width, 100);
            </script>
        "#;

    let assertions = extract_assertions(html);
    assert!(!assertions.is_empty());
    assert_eq!(assertions[0].element_selector, "#target");
    assert_eq!(assertions[0].property, AssertedProperty::BoundingRectWidth);
    assert_eq!(assertions[0].value_text.parse::<f32>().unwrap(), 100.0);
}

#[test]
fn test_extract_offset_assertion() {
    let html = r#"
            <script>
                assert_equals(document.getElementById("box").offsetHeight, 200);
            </script>
        "#;

    let assertions = extract_assertions(html);
    assert!(!assertions.is_empty());
    assert_eq!(assertions[0].property, AssertedProperty::OffsetHeight);
    assert_eq!(assertions[0].value_text.parse::<f32>().unwrap(), 200.0);
}

#[test]
fn assertions_in_several_scripts_and_forms() {
    let html = r#"<script>
        assert_equals(el.clientWidth, "30");
        assert_equals(f(a, b).offsetTop, 1);
        assert_equals(document.querySelector(".x").getBoundingClientRect().top, '7');
        assert_equals(x.y.z, 1);
        assert_equals(broken
        </script><p></p><script>assert_equals(document.getElementById('q').getBoundingClientRect().right, 2)</script>"#;
    let a = extract_assertions(html);
    let got: Vec<(String, AssertedProperty, String)> =
        a.iter().map(|x| (x.element_selector.clone(), x.property, x.value_text.clone())).collect();
    assert_eq!(
        got,
        vec![
            ("el".to_string(), AssertedProperty::ClientWidth, "30".to_string()),
            (".x".to_string(), AssertedProperty::BoundingRectTop, "7".to_string()),
            ("#q".to_string(), AssertedProperty::BoundingRectRight, "2".to_string()),
        ]
    );
}

#[test]
fn selectors_name_boxes_by_id_capped_at_the_last_box() {
    let mut tree = DomTree::new();
    let root = tree.root();
    let body = tree.add_element(root, "body", Attributes::new());
    let mut attrs = Attributes::new();
    attrs.insert("id".to_string(), "t".to_string());
    let t = tree.add_element(body, "div", attrs);
    assert_eq!(find_node_by_selector(&tree, 10, "#t"), Some(t.0));
    assert_eq!(find_node_by_selector(&tree, 2, "#t"), Some(1));
    assert_eq!(find_node_by_selector(&tree, 0, "#t"), Some(0));
    assert_eq!(find_node_by_selector(&tree, 10, "#u"), None);
    assert_eq!(find_node_by_selector(&tree, 10, ".t"), None);
}

fn file(test_type: WptTestType) -> WptTestFile {
    WptTestFile {
        path: "p.html".to_string(),
        html: String::new(),
        test_type,
        reference_path: None,
        title: "T".to_string(),
    }
}

#[test]
fn steps_follow_the_test_type() {
    let reftest = file(WptTestType::Reftest { relation: ReftestRelation::Mismatch, reference: "r.html".to_string() });
    assert!(matches!(test_step(&reftest, true), TestStep::CompareLayouts { relation: ReftestRelation::Mismatch }));
    match test_step(&reftest, false) {
        TestStep::Finished { result } => {
            assert_eq!(result.outcome, TestOutcome::Skip);
            assert_eq!(result.details, "Reference file not found: r.html");
            assert_eq!(result.path, "p.html");
            assert_eq!(result.title, "T");
        },
        _ => panic!("expected a skip"),
    }
    assert!(matches!(test_step(&file(WptTestType::TestHarness), true), TestStep::RunAssertions));
    match test_step(&file(WptTestType::Unknown), true) {
        TestStep::Finished { result } => assert_eq!(result.details, "Unknown test type"),
        _ => panic!("expected a skip"),
    }
    let r = no_assertions_result(&file(WptTestType::TestHarness));
    assert_eq!(r.details, "No extractable assertions found");
    assert_eq!(skip_result(&file(WptTestType::Unknown), "why".to_string()).outcome, TestOutcome::Skip);
}

#[test]
fn outcomes_of_comparisons_and_assertions() {
    assert_eq!(reftest_outcome(ReftestRelation::Match, true), TestOutcome::Pass);
    assert_eq!(reftest_outcome(ReftestRelation::Match, false), TestOutcome::Fail);
    assert_eq!(reftest_outcome(ReftestRelation::Mismatch, true), TestOutcome::Fail);
    assert_eq!(reftest_outcome(ReftestRelation::Mismatch, false), TestOutcome::Pass);
    assert_eq!(harness_outcome(3, 3), TestOutcome::Pass);
    assert_eq!(harness_outcome(2, 3), TestOutcome::Fail);
}

#[test]
fn tally_counts_every_outcome() {
    let mk = |o| TestResult { path: String::new(), title: String::new(), outcome: o, details: String::new() };
    let results = vec![
        mk(TestOutcome::Pass),
        mk(TestOutcome::Skip),
        mk(TestOutcome::Pass),
        mk(TestOutcome::Fail),
        mk(TestOutcome::Error),
    ];
    let s = tally_outcomes(&results);
    assert_eq!((s.total, s.passed, s.failed, s.errors, s.skipped), (5, 2, 1, 1, 1));
    assert_eq!(s.passed + s.failed + s.errors + s.skipped, s.total);
}

#[test]
fn parsed_reftest_steps_to_comparison() {
    let t = parse_wpt_test("x.html", "<link rel=\"match\" href=\"y.html\">");
    assert!(matches!(test_step(&t, true), TestStep::CompareLayouts { relation: ReftestRelation::Match }));
}

#[test]
fn failures_section_lists_failed_tests() {
    let mk = |p: &str, o, d: &str| TestResult { path: p.to_string(), title: "t".to_string(), outcome: o, details: d.to_string() };
    let results = vec![
        mk("a.html", TestOutcome::Pass, "fine"),
        mk("b.html", TestOutcome::Fail, "x\ny"),
        mk("c.html", TestOutcome::Fail, ""),
    ];
    assert_eq!(
        failures_section(&results),
        "Failures:\n  FAIL: b.html (t)\n    x\n    y\n  FAIL: c.html (t)\n"
    );
    assert_eq!(failures_section(&vec![mk("a", TestOutcome::Skip, "")]), "");
}

#[test]
fn passed_checks_are_counted() {
    let flags = vec![true, false, true, true];
    assert_eq!(count_passed(&flags), 3);
    assert_eq!(harness_outcome(count_passed(&flags), flags.len()), TestOutcome::Fail);
    assert_eq!(count_passed(&vec![]), 0);
    assert_eq!(harness_outcome(count_passed(&vec![true, true]), 2), TestOutcome::Pass);
}
