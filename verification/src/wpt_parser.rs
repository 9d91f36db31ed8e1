//! Metadata of web-platform test files: whether a file is a reftest (and
//! against which reference), a testharness.js test or of unknown type, and
//! its title.

use vstd::prelude::*;
use crate::text::{
    chars_of, lit, string_of, find, find_from, contains, contains_chars, lines, line_bounds, trim,
    trim_bounds, to_lowercase, unicode_lowercase, quoted_after, quoted_after_chars, opt_chars,
};

verus! {

/// Whether a reftest should match or not match its reference.
#[derive(Debug, Clone, Copy, PartialEq, Eq, Structural)]
pub enum ReftestRelation {
    Match,
    Mismatch,
}

/// The type of a test file.
#[derive(Debug, Clone, PartialEq)]
pub enum WptTestType {
    /// A reftest: compare layout against a reference file.
    Reftest { relation: ReftestRelation, reference: String },
    /// A testharness.js test with JavaScript assertions.
    TestHarness,
    /// Unknown test type.
    Unknown,
}

/// The type of a test file as plain values.
pub enum WptKind {
    Reftest(ReftestRelation, Seq<char>),
    TestHarness,
    Unknown,
}

impl WptTestType {
    pub open spec fn view(&self) -> WptKind {
        match self {
            WptTestType::Reftest { relation, reference } => WptKind::Reftest(*relation, reference@),
            WptTestType::TestHarness => WptKind::TestHarness,
            WptTestType::Unknown => WptKind::Unknown,
        }
    }
}

/// Metadata extracted from a test file.
#[derive(Debug, Clone)]
pub struct WptTestFile {
    pub path: String,
    pub html: String,
    pub test_type: WptTestType,
    pub reference_path: Option<String>,
    pub title: String,
}

/// The value of a tag's `href` attribute, in double quotes, else in single
/// quotes.
pub open spec fn href_of(tag: Seq<char>) -> Option<Seq<char>> {
    match quoted_after(tag, "href=\""@, '"') {
        Some(h) => Some(h),
        None => quoted_after(tag, "href='"@, '\''),
    }
}

/// The reftest link of one line: a `<link` with `rel` of `match` (or
/// `mismatch`), in either kind of quotes and in any case, and an `href`.
pub open spec fn line_reftest(line: Seq<char>) -> Option<(ReftestRelation, Seq<char>)> {
    let lower = unicode_lowercase(line);
    let link = contains(lower, "<link"@);
    if link && (contains(lower, "rel=\"match\""@) || contains(lower, "rel='match'"@)) && href_of(line) is Some {
        Some((ReftestRelation::Match, href_of(line)->0))
    } else if link && (contains(lower, "rel=\"mismatch\""@) || contains(lower, "rel='mismatch'"@))
        && href_of(line) is Some {
        Some((ReftestRelation::Mismatch, href_of(line)->0))
    } else {
        None
    }
}

/// The reftest link of the first line that has one.
pub open spec fn first_reftest(ls: Seq<Seq<char>>) -> Option<(ReftestRelation, Seq<char>)>
    decreases ls.len(),
{
    if ls.len() == 0 {
        None
    } else {
        match line_reftest(ls[0]) {
            Some(x) => Some(x),
            None => first_reftest(ls.drop_first()),
        }
    }
}

/// The reftest link of a test file, if it has one.
pub open spec fn reftest_info(html: Seq<char>) -> Option<(ReftestRelation, Seq<char>)> {
    first_reftest(lines(html))
}

/// A test file's type: a reftest when a line links a reference; else a
/// testharness test when it names `testharness.js` or
/// `testharnessreport.js`; else unknown.
pub open spec fn kind_of(html: Seq<char>) -> WptKind {
    match reftest_info(html) {
        Some((rel, r)) => WptKind::Reftest(rel, r),
        None => if contains(html, "testharness.js"@) || contains(html, "testharnessreport.js"@) {
            WptKind::TestHarness
        } else {
            WptKind::Unknown
        },
    }
}

/// The reference a test file links, if it is a reftest.
pub open spec fn reference_of(html: Seq<char>) -> Option<Seq<char>> {
    match reftest_info(html) {
        Some((_, r)) => Some(r),
        None => None,
    }
}

/// The trimmed text between the first `<title>` and the next `</title>`;
/// empty without them.
pub open spec fn title_of(html: Seq<char>) -> Seq<char> {
    match find_from(html, "<title>"@, 0) {
        Some(st) => match find_from(html, "</title>"@, st + "<title>"@.len()) {
            Some(e) => trim(html.subrange(st + "<title>"@.len(), e)),
            None => Seq::empty(),
        },
        None => Seq::empty(),
    }
}

/// The value of a tag's `href` attribute.
fn extract_href(tag: &Vec<char>) -> (r: Option<String>)
    ensures
        opt_chars(r) == href_of(tag@),
{
    match quoted_after_chars(tag, "href=\"", '"') {
        Some(h) => Some(h),
        None => quoted_after_chars(tag, "href='", '\''),
    }
}

/// The reftest link of one line.
fn reftest_of_line(line: &Vec<char>) -> (r: Option<(ReftestRelation, String)>)
    ensures
        match r {
            Some((rel, h)) => line_reftest(line@) == Some((rel, h@)),
            None => line_reftest(line@) is None,
        },
{
    let line_string = string_of(line, 0, line.len());
    assert(line@.subrange(0, line@.len() as int) =~= line@);
    let lower_string = to_lowercase(line_string.as_str());
    let lower = chars_of(lower_string.as_str());
    let link = contains_chars(&lower, &lit("<link"));
    let is_match = contains_chars(&lower, &lit("rel=\"match\"")) || contains_chars(&lower, &lit("rel='match'"));
    let is_mismatch = contains_chars(&lower, &lit("rel=\"mismatch\"")) || contains_chars(
        &lower,
        &lit("rel='mismatch'"),
    );
    if link && (is_match || is_mismatch) {
        match extract_href(line) {
            Some(href) => {
                if is_match {
                    Some((ReftestRelation::Match, href))
                } else {
                    Some((ReftestRelation::Mismatch, href))
                }
            },
            None => None,
        }
    } else {
        None
    }
}

/// The reftest link of the first line of `html` that has one.
fn extract_reftest_info(html: &Vec<char>) -> (r: Option<(ReftestRelation, String)>)
    ensures
        match r {
            Some((rel, h)) => reftest_info(html@) == Some((rel, h@)),
            None => reftest_info(html@) is None,
        },
{
    let bounds = line_bounds(html);
    let ghost ls = lines(html@);
    let mut j: usize = 0;
    assert(ls.subrange(0, ls.len() as int) =~= ls);
    while j < bounds.len()
        invariant
            ls == lines(html@),
            bounds@.len() == ls.len(),
            forall|t: int|
                0 <= t < bounds@.len() ==> (#[trigger] bounds@[t]).0 <= bounds@[t].1 <= html.len()
                    && html@.subrange(bounds@[t].0 as int, bounds@[t].1 as int) == ls[t],
            j <= bounds.len(),
            first_reftest(ls) == first_reftest(ls.subrange(j as int, ls.len() as int)),
        decreases bounds.len() - j,
    {
        let (lo, hi) = bounds[j];
        let line = crate::text::sub_chars(html, lo, hi);
        let ghost rest = ls.subrange(j as int, ls.len() as int);
        proof {
            assert(rest[0] == ls[j as int]);
            assert(rest.drop_first() =~= ls.subrange(j + 1, ls.len() as int));
        }
        match reftest_of_line(&line) {
            Some(x) => {
                return Some(x);
            },
            None => {},
        }
        j += 1;
    }
    proof {
        assert(ls.subrange(j as int, ls.len() as int) =~= Seq::<Seq<char>>::empty());
    }
    None
}

/// The type of a test file.
fn detect_test_type(html: &Vec<char>) -> (r: WptTestType)
    ensures
        r@ == kind_of(html@),
{
    match extract_reftest_info(html) {
        Some((relation, reference)) => WptTestType::Reftest { relation, reference },
        None => {
            if contains_chars(html, &lit("testharness.js")) || contains_chars(html, &lit("testharnessreport.js")) {
                WptTestType::TestHarness
            } else {
                WptTestType::Unknown
            }
        },
    }
}

/// The reference a reftest links.
fn extract_reference_path(html: &Vec<char>) -> (r: Option<String>)
    ensures
        opt_chars(r) == reference_of(html@),
{
    match extract_reftest_info(html) {
        Some((_, reference)) => Some(reference),
        None => None,
    }
}

/// The trimmed text of the first `<title>` element; empty without one.
fn extract_title(html: &Vec<char>) -> (r: String)
    ensures
        r@ == title_of(html@),
{
    let open = lit("<title>");
    let close = lit("</title>");
    match find(html, &open, 0) {
        Some(start) => {
            let content_start = start + open.len();
            match find(html, &close, content_start) {
                Some(end) => {
                    let (a, b) = trim_bounds(html, content_start, end);
                    string_of(html, a, b)
                },
                None => String::new(),
            }
        },
        None => String::new(),
    }
}

/// Parse a test file and extract its metadata.
pub fn parse_wpt_test(path: &str, html: &str) -> (r: WptTestFile)
    ensures
        r.path@ == path@,
        r.html@ == html@,
        r.test_type@ == kind_of(html@),
        opt_chars(r.reference_path) == reference_of(html@),
        r.title@ == title_of(html@),
{
    let h = chars_of(html);
    let test_type = detect_test_type(&h);
    let title = extract_title(&h);
    WptTestFile {
        path: path.to_owned(),
        html: html.to_owned(),
        test_type,
        reference_path: extract_reference_path(&h),
        title,
    }
}

/// A test file names a reference exactly when it is a reftest, and then
/// it is the reference that its type carries.
pub proof fn law_reference_matches_type(html: Seq<char>)
    ensures
        reference_of(html) == match kind_of(html) {
            WptKind::Reftest(_, r) => Some(r),
            _ => None,
        },
{
}

} // verus!
