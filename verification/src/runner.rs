//! Test outcomes and run summaries: what a test file calls for, how a
//! comparison or a set of assertions decides the outcome, and the tally of
//! a run.

use vstd::prelude::*;
use crate::text::{chars_of, lit, string_of};
use crate::wpt_parser::{ReftestRelation, WptTestFile, WptTestType, WptKind};

verus! {

/// Possible outcomes of a test.
#[derive(Debug, Clone, Copy, PartialEq, Eq, Structural)]
pub enum TestOutcome {
    Pass,
    Fail,
    Error,
    Skip,
}

/// Result of running a single test.
#[derive(Debug)]
pub struct TestResult {
    pub path: String,
    pub title: String,
    pub outcome: TestOutcome,
    pub details: String,
}

/// Summary of a test run.
#[derive(Debug)]
pub struct TestRunSummary {
    pub total: usize,
    pub passed: usize,
    pub failed: usize,
    pub errors: usize,
    pub skipped: usize,
}

/// What running a test file calls for.
#[derive(Debug)]
pub enum TestStep {
    /// Lay out the test and its reference and compare the layouts.
    CompareLayouts { relation: ReftestRelation },
    /// Extract the test's assertions and check them against its layout.
    RunAssertions,
    /// The test is decided without any layout.
    Finished { result: TestResult },
}

/// The details of a reftest whose reference was not found.
pub open spec fn missing_reference_details(reference: Seq<char>) -> Seq<char> {
    "Reference file not found: "@ + reference
}

/// A skipped result for `test` with the given details.
pub open spec fn is_skip_of(r: TestResult, test: WptTestFile, details: Seq<char>) -> bool {
    &&& r.path@ == test.path@
    &&& r.title@ == test.title@
    &&& r.outcome == TestOutcome::Skip
    &&& r.details@ == details
}

/// A test is skipped with the given details.
pub fn skip_result(test: &WptTestFile, details: String) -> (r: TestResult)
    ensures
        is_skip_of(r, *test, details@),
{
    TestResult {
        path: copy_string(&test.path),
        title: copy_string(&test.title),
        outcome: TestOutcome::Skip,
        details,
    }
}

/// A new `String` with the same characters.
fn copy_string(s: &String) -> (r: String)
    ensures
        r@ == s@,
{
    s.as_str().to_owned()
}

/// What running `test` calls for: a layout comparison for a reftest whose
/// reference is at hand (a skip when it is not), the assertions for a
/// testharness test, a skip for a test of unknown type.
pub fn test_step(test: &WptTestFile, has_reference: bool) -> (r: TestStep)
    ensures
        match test.test_type@ {
            WptKind::Reftest(rel, reference) => if has_reference {
                r == (TestStep::CompareLayouts { relation: rel })
            } else {
                r matches TestStep::Finished { result } && is_skip_of(
                    result,
                    *test,
                    missing_reference_details(reference),
                )
            },
            WptKind::TestHarness => r is RunAssertions,
            WptKind::Unknown => r matches TestStep::Finished { result } && is_skip_of(
                result,
                *test,
                "Unknown test type"@,
            ),
        },
{
    match &test.test_type {
        WptTestType::Reftest { relation, reference } => {
            if has_reference {
                TestStep::CompareLayouts { relation: *relation }
            } else {
                let mut text = lit("Reference file not found: ");
                let r = chars_of(reference.as_str());
                let ghost prefix = text@;
                let mut i: usize = 0;
                while i < r.len()
                    invariant
                        i <= r.len(),
                        text@ == prefix + r@.subrange(0, i as int),
                    decreases r.len() - i,
                {
                    text.push(r[i]);
                    i += 1;
                    assert(text@ =~= prefix + r@.subrange(0, i as int));
                }
                assert(r@.subrange(0, r.len() as int) =~= r@);
                let details = string_of(&text, 0, text.len());
                assert(text@.subrange(0, text@.len() as int) =~= text@);
                TestStep::Finished { result: skip_result(test, details) }
            }
        },
        WptTestType::TestHarness => TestStep::RunAssertions,
        WptTestType::Unknown => TestStep::Finished { result: skip_result(test, "Unknown test type".to_owned()) },
    }
}

/// A testharness test in which no assertion could be extracted is skipped.
pub fn no_assertions_result(test: &WptTestFile) -> (r: TestResult)
    ensures
        is_skip_of(r, *test, "No extractable assertions found"@),
{
    skip_result(test, "No extractable assertions found".to_owned())
}

/// The outcome of a reftest: it passes when the layouts match and the
/// relation is `Match`, or when they differ and it is `Mismatch`.
pub fn reftest_outcome(relation: ReftestRelation, layouts_match: bool) -> (r: TestOutcome)
    ensures
        r == (if (relation == ReftestRelation::Match) == layouts_match {
            TestOutcome::Pass
        } else {
            TestOutcome::Fail
        }),
{
    let passed = match relation {
        ReftestRelation::Match => layouts_match,
        ReftestRelation::Mismatch => !layouts_match,
    };
    if passed {
        TestOutcome::Pass
    } else {
        TestOutcome::Fail
    }
}

/// The outcome of a testharness test: it passes when every assertion does.
pub fn harness_outcome(passed: usize, total: usize) -> (r: TestOutcome)
    ensures
        r == (if passed == total {
            TestOutcome::Pass
        } else {
            TestOutcome::Fail
        }),
{
    if passed == total {
        TestOutcome::Pass
    } else {
        TestOutcome::Fail
    }
}

/// How many of the flags are set.
pub open spec fn count_true(flags: Seq<bool>) -> nat
    decreases flags.len(),
{
    if flags.len() == 0 {
        0
    } else {
        count_true(flags.drop_last()) + if flags.last() {
            1nat
        } else {
            0nat
        }
    }
}

/// How many assertion checks passed, given whether each one did.
pub fn count_passed(passed: &Vec<bool>) -> (r: usize)
    ensures
        r == count_true(passed@),
        r <= passed.len(),
{
    let mut n: usize = 0;
    let mut i: usize = 0;
    while i < passed.len()
        invariant
            i <= passed.len(),
            n == count_true(passed@.take(i as int)),
            n <= i,
        decreases passed.len() - i,
    {
        proof {
            assert(passed@.take(i + 1).drop_last() =~= passed@.take(i as int));
        }
        if passed[i] {
            n += 1;
        }
        i += 1;
    }
    proof {
        assert(passed@.take(passed.len() as int) =~= passed@);
    }
    n
}

/// How many of `outcomes` equal `o`.
pub open spec fn count_outcome(outcomes: Seq<TestOutcome>, o: TestOutcome) -> nat
    decreases outcomes.len(),
{
    if outcomes.len() == 0 {
        0
    } else {
        count_outcome(outcomes.drop_last(), o) + if outcomes.last() == o {
            1nat
        } else {
            0nat
        }
    }
}

/// The outcomes of a list of results.
pub open spec fn outcomes_of(results: Seq<TestResult>) -> Seq<TestOutcome> {
    results.map_values(|r: TestResult| r.outcome)
}

/// A summary counts each outcome of the results and all of them.
pub open spec fn summarizes(s: TestRunSummary, outcomes: Seq<TestOutcome>) -> bool {
    &&& s.total == outcomes.len()
    &&& s.passed == count_outcome(outcomes, TestOutcome::Pass)
    &&& s.failed == count_outcome(outcomes, TestOutcome::Fail)
    &&& s.errors == count_outcome(outcomes, TestOutcome::Error)
    &&& s.skipped == count_outcome(outcomes, TestOutcome::Skip)
}

/// The outcomes of a sequence add up to its length.
pub proof fn lemma_counts_add_up(outcomes: Seq<TestOutcome>)
    ensures
        count_outcome(outcomes, TestOutcome::Pass) + count_outcome(outcomes, TestOutcome::Fail)
            + count_outcome(outcomes, TestOutcome::Error) + count_outcome(outcomes, TestOutcome::Skip)
            == outcomes.len(),
    decreases outcomes.len(),
{
    if outcomes.len() > 0 {
        lemma_counts_add_up(outcomes.drop_last());
    }
}

/// Every summary that counts a run's outcomes has its passed, failed, error
/// and skipped counts add up to the total.
pub proof fn law_summary_adds_up(s: TestRunSummary, outcomes: Seq<TestOutcome>)
    requires
        summarizes(s, outcomes),
    ensures
        s.passed + s.failed + s.errors + s.skipped == s.total,
{
    lemma_counts_add_up(outcomes);
}

proof fn lemma_count_bound(outcomes: Seq<TestOutcome>, o: TestOutcome)
    ensures
        count_outcome(outcomes, o) <= outcomes.len(),
    decreases outcomes.len(),
{
    if outcomes.len() > 0 {
        lemma_count_bound(outcomes.drop_last(), o);
    }
}

/// Count the outcomes of a run's results.
pub fn tally_outcomes(results: &Vec<TestResult>) -> (r: TestRunSummary)
    ensures
        summarizes(r, outcomes_of(results@)),
{
    let ghost all = outcomes_of(results@);
    let mut summary = TestRunSummary { total: results.len(), passed: 0, failed: 0, errors: 0, skipped: 0 };
    let mut i: usize = 0;
    while i < results.len()
        invariant
            all == outcomes_of(results@),
            i <= results.len(),
            summary.total == results.len(),
            summary.passed == count_outcome(all.take(i as int), TestOutcome::Pass),
            summary.failed == count_outcome(all.take(i as int), TestOutcome::Fail),
            summary.errors == count_outcome(all.take(i as int), TestOutcome::Error),
            summary.skipped == count_outcome(all.take(i as int), TestOutcome::Skip),
        decreases results.len() - i,
    {
        proof {
            assert(all.take(i + 1).drop_last() =~= all.take(i as int));
            assert(all.take(i + 1).last() == results@[i as int].outcome);
            lemma_count_bound(all.take(i + 1), TestOutcome::Pass);
            lemma_count_bound(all.take(i + 1), TestOutcome::Fail);
            lemma_count_bound(all.take(i + 1), TestOutcome::Error);
            lemma_count_bound(all.take(i + 1), TestOutcome::Skip);
        }
        match results[i].outcome {
            TestOutcome::Pass => summary.passed += 1,
            TestOutcome::Fail => summary.failed += 1,
            TestOutcome::Error => summary.errors += 1,
            TestOutcome::Skip => summary.skipped += 1,
        }
        i += 1;
    }
    proof {
        assert(all.take(results.len() as int) =~= all);
    }
    summary
}

/// A result as (path, title, outcome, details).
pub open spec fn result_view(r: TestResult) -> (Seq<char>, Seq<char>, TestOutcome, Seq<char>) {
    (r.path@, r.title@, r.outcome, r.details@)
}

/// `d` with every line break followed by an indent of four spaces.
pub open spec fn indent_lines(d: Seq<char>) -> Seq<char>
    decreases d.len(),
{
    if d.len() == 0 {
        Seq::empty()
    } else {
        indent_lines(d.drop_last()) + if d.last() == '\n' {
            "\n    "@
        } else {
            seq![d.last()]
        }
    }
}

/// The report entry of a failed test: its path and title, then its
/// details (indented), if it has any.
pub open spec fn failure_entry(r: (Seq<char>, Seq<char>, TestOutcome, Seq<char>)) -> Seq<char> {
    "  FAIL: "@ + r.0 + " ("@ + r.1 + ")\n"@ + if r.3.len() > 0 {
        "    "@ + indent_lines(r.3) + "\n"@
    } else {
        Seq::empty()
    }
}

/// The entries of the failed tests among `rs`, in order.
pub open spec fn failure_entries(rs: Seq<(Seq<char>, Seq<char>, TestOutcome, Seq<char>)>) -> Seq<char>
    decreases rs.len(),
{
    if rs.len() == 0 {
        Seq::empty()
    } else {
        failure_entries(rs.drop_last()) + if rs.last().2 == TestOutcome::Fail {
            failure_entry(rs.last())
        } else {
            Seq::empty()
        }
    }
}

/// The failures part of a report: a heading and the entry of each failed
/// test, or nothing when no test failed.
pub open spec fn failures_section_of(rs: Seq<(Seq<char>, Seq<char>, TestOutcome, Seq<char>)>) -> Seq<char> {
    if failure_entries(rs).len() > 0 {
        "Failures:\n"@ + failure_entries(rs)
    } else {
        Seq::empty()
    }
}

/// Append the characters of `s`.
fn append_chars(out: &mut Vec<char>, s: &Vec<char>)
    ensures
        final(out)@ == old(out)@ + s@,
{
    let ghost start = out@;
    let mut i: usize = 0;
    while i < s.len()
        invariant
            i <= s.len(),
            out@ == start + s@.subrange(0, i as int),
        decreases s.len() - i,
    {
        out.push(s[i]);
        i += 1;
        assert(out@ =~= start + s@.subrange(0, i as int));
    }
    assert(s@.subrange(0, s.len() as int) =~= s@);
}

/// Append `d` with every line break followed by an indent.
fn append_indented(out: &mut Vec<char>, d: &Vec<char>)
    ensures
        final(out)@ == old(out)@ + indent_lines(d@),
{
    let ghost start = out@;
    let nl = lit("\n    ");
    let mut i: usize = 0;
    assert(d@.subrange(0, 0) =~= Seq::<char>::empty());
    assert(out@ =~= start + indent_lines(d@.subrange(0, 0)));
    while i < d.len()
        invariant
            i <= d.len(),
            nl@ == "\n    "@,
            out@ == start + indent_lines(d@.subrange(0, i as int)),
        decreases d.len() - i,
    {
        let ghost before = out@;
        proof {
            assert(d@.subrange(0, i + 1).drop_last() =~= d@.subrange(0, i as int));
            assert(d@.subrange(0, i + 1).last() == d@[i as int]);
        }
        if d[i] == '\n' {
            append_chars(out, &nl);
        } else {
            out.push(d[i]);
        }
        assert(out@ =~= start + indent_lines(d@.subrange(0, i + 1)));
        i += 1;
    }
    assert(d@.subrange(0, d.len() as int) =~= d@);
}

/// The failures part of a report on `results`.
pub fn failures_section(results: &Vec<TestResult>) -> (r: String)
    ensures
        r@ == failures_section_of(results@.map_values(|x: TestResult| result_view(x))),
{
    let ghost rs = results@.map_values(|x: TestResult| result_view(x));
    let mut out: Vec<char> = Vec::new();
    let mut i: usize = 0;
    assert(rs.take(0) =~= Seq::<(Seq<char>, Seq<char>, TestOutcome, Seq<char>)>::empty());
    while i < results.len()
        invariant
            rs == results@.map_values(|x: TestResult| result_view(x)),
            i <= results.len(),
            out@ == failure_entries(rs.take(i as int)),
        decreases results.len() - i,
    {
        let ghost before = out@;
        proof {
            assert(rs.take(i + 1).drop_last() =~= rs.take(i as int));
            assert(rs.take(i + 1).last() == result_view(results@[i as int]));
        }
        let r = &results[i];
        if r.outcome == TestOutcome::Fail {
            append_chars(&mut out, &lit("  FAIL: "));
            append_chars(&mut out, &chars_of(r.path.as_str()));
            append_chars(&mut out, &lit(" ("));
            append_chars(&mut out, &chars_of(r.title.as_str()));
            append_chars(&mut out, &lit(")\n"));
            let ghost head = out@;
            let details = chars_of(r.details.as_str());
            if details.len() > 0 {
                append_chars(&mut out, &lit("    "));
                append_indented(&mut out, &details);
                append_chars(&mut out, &lit("\n"));
            }
            proof {
                let rv = result_view(results@[i as int]);
                assert(out@ =~= before + failure_entry(rv));
            }
        } else {
            assert(out@ =~= before + Seq::<char>::empty());
        }
        i += 1;
    }
    assert(rs.take(results.len() as int) =~= rs);
    if out.len() > 0 {
        let mut section = lit("Failures:\n");
        append_chars(&mut section, &out);
        string_of(&section, 0, section.len())
    } else {
        String::new()
    }
}

} // verus!
