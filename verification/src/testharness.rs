//! Extraction of `assert_equals` assertions from the scripts of
//! testharness.js test files: which element, which layout property, and the
//! text of the expected value.

use vstd::prelude::*;
use crate::dom::{DomTree, DomNode, first_match, preorder, attr_matches};
use crate::text::{
    chars_of, lit, string_of, sub_chars, find, find_from, contains, contains_chars, trim, trim_bounds,
    trim_char, trim_char_bounds, quoted_after, quoted_after_chars, opt_chars, is_alphanumeric,
    unicode_alphanumeric, count_in, balanced, lemma_count_step, lemma_count_bound,
};

verus! {

/// What layout property is being asserted.
#[derive(Debug, Clone, Copy, PartialEq, Eq, Structural)]
pub enum AssertedProperty {
    BoundingRectWidth,
    BoundingRectHeight,
    BoundingRectX,
    BoundingRectY,
    BoundingRectTop,
    BoundingRectLeft,
    BoundingRectRight,
    BoundingRectBottom,
    OffsetWidth,
    OffsetHeight,
    OffsetTop,
    OffsetLeft,
    ClientWidth,
    ClientHeight,
}

/// An `assert_equals` as written in a script: the element selector, the
/// asserted property, and the text of the expected value.
#[derive(Debug, Clone)]
pub struct AssertionText {
    pub element_selector: String,
    pub property: AssertedProperty,
    pub value_text: String,
}

/// An assertion text as (selector, property, expected value text).
pub type AssertionView = (Seq<char>, AssertedProperty, Seq<char>);

impl AssertionText {
    pub open spec fn view(&self) -> AssertionView {
        (self.element_selector@, self.property, self.value_text@)
    }
}

/// The first `)` at or after `i` that closes everything opened from
/// `open` on.
pub open spec fn matching_from(s: Seq<char>, open: int, i: int) -> Option<int>
    decreases s.len() - i,
{
    if i < open || i >= s.len() {
        None
    } else if s[i] == ')' && balanced(s, open, i + 1) {
        Some(i)
    } else {
        matching_from(s, open, i + 1)
    }
}

/// The parenthesis that closes the one at `open`.
pub open spec fn matching_paren(s: Seq<char>, open: int) -> Option<int> {
    matching_from(s, open, open)
}

/// The last `,` before `k` outside any parentheses.
pub open spec fn last_top_comma(s: Seq<char>, k: int) -> Option<int>
    decreases k,
{
    if k <= 0 || k > s.len() {
        None
    } else if s[k - 1] == ',' && balanced(s, 0, k - 1) {
        Some(k - 1)
    } else {
        last_top_comma(s, k - 1)
    }
}

/// `s` ends with `suffix`.
pub open spec fn ends_with(s: Seq<char>, suffix: Seq<char>) -> bool {
    suffix.len() <= s.len() && s.subrange(s.len() - suffix.len(), s.len() as int) == suffix
}

/// Every character is alphanumeric or `_`.
pub open spec fn is_identifier(v: Seq<char>) -> bool {
    forall|i: int| 0 <= i < v.len() ==> unicode_alphanumeric(#[trigger] v[i]) || v[i] == '_'
}

/// The element an expression reads: `#id` for `getElementById` with either
/// kind of quotes, the selector of a `querySelector("...")`, else the name
/// before the first `.` when it is an identifier.
pub open spec fn selector_of(expr: Seq<char>) -> Option<Seq<char>> {
    match quoted_after(expr, "getElementById(\""@, '"') {
        Some(id) => Some(seq!['#'] + id),
        None => match quoted_after(expr, "getElementById('"@, '\'') {
            Some(id) => Some(seq!['#'] + id),
            None => match quoted_after(expr, "querySelector(\""@, '"') {
                Some(sel) => Some(sel),
                None => match find_from(expr, seq!['.'], 0) {
                    Some(d) => if is_identifier(trim(expr.subrange(0, d))) {
                        Some(trim(expr.subrange(0, d)))
                    } else {
                        None
                    },
                    None => None,
                },
            },
        },
    }
}

/// The property a `getBoundingClientRect()` expression reads, by its ending.
pub open spec fn rect_property(e: Seq<char>) -> Option<AssertedProperty> {
    if ends_with(e, ".width"@) {
        Some(AssertedProperty::BoundingRectWidth)
    } else if ends_with(e, ".height"@) {
        Some(AssertedProperty::BoundingRectHeight)
    } else if ends_with(e, ".x"@) || ends_with(e, ".left"@) {
        Some(AssertedProperty::BoundingRectLeft)
    } else if ends_with(e, ".y"@) || ends_with(e, ".top"@) {
        Some(AssertedProperty::BoundingRectTop)
    } else if ends_with(e, ".right"@) {
        Some(AssertedProperty::BoundingRectRight)
    } else if ends_with(e, ".bottom"@) {
        Some(AssertedProperty::BoundingRectBottom)
    } else {
        None
    }
}

/// The property an expression reads, decided by the first of its patterns
/// that it contains.
pub open spec fn property_of(e: Seq<char>) -> Option<AssertedProperty> {
    if contains(e, "getBoundingClientRect()"@) {
        rect_property(e)
    } else if contains(e, ".offsetWidth"@) {
        Some(AssertedProperty::OffsetWidth)
    } else if contains(e, ".offsetHeight"@) {
        Some(AssertedProperty::OffsetHeight)
    } else if contains(e, ".offsetTop"@) {
        Some(AssertedProperty::OffsetTop)
    } else if contains(e, ".offsetLeft"@) {
        Some(AssertedProperty::OffsetLeft)
    } else if contains(e, ".clientWidth"@) {
        Some(AssertedProperty::ClientWidth)
    } else if contains(e, ".clientHeight"@) {
        Some(AssertedProperty::ClientHeight)
    } else {
        None
    }
}

/// An expression read as (element selector, property).
pub open spec fn expression_of(expr: Seq<char>) -> Option<(Seq<char>, AssertedProperty)> {
    let e = trim(expr);
    match (selector_of(e), property_of(e)) {
        (Some(sel), Some(p)) => Some((sel, p)),
        _ => None,
    }
}

/// The arguments of an `assert_equals` read as an assertion: the expression
/// before the last top-level comma, and the text after it, trimmed and
/// without surrounding quotes.
pub open spec fn assert_args_of(args: Seq<char>) -> Option<AssertionView> {
    match last_top_comma(args, args.len() as int) {
        Some(c) => match expression_of(args.subrange(0, c)) {
            Some((sel, p)) => Some(
                (sel, p, trim_char(trim_char(trim(args.subrange(c + 1, args.len() as int)), '"'), '\'')),
            ),
            None => None,
        },
        None => None,
    }
}

/// The assertions of the `assert_equals` calls of a script from `pos` on.
pub open spec fn script_assertions(s: Seq<char>, pos: int) -> Seq<AssertionView>
    decreases s.len() + 1 - pos,
{
    match find_from(s, "assert_equals"@, pos) {
        None => Seq::empty(),
        Some(a) => {
            let step: (Option<AssertionView>, int) = match find_from(s, seq!['('], a) {
                Some(ps) => match matching_paren(s, ps) {
                    Some(e) => (assert_args_of(s.subrange(ps + 1, e)), e + 1),
                    None => (None, a + "assert_equals"@.len()),
                },
                None => (None, a + "assert_equals"@.len()),
            };
            (match step.0 {
                Some(x) => seq![x],
                None => Seq::empty(),
            }) + if pos < step.1 <= s.len() {
                script_assertions(s, step.1)
            } else {
                Seq::empty()
            }
        },
    }
}

/// The assertions of the scripts of a test file from `pos` on: each
/// `<script` up to its `>`, and its content up to the next `</script>`;
/// reading stops at a script without them.
pub open spec fn html_assertions(h: Seq<char>, pos: int) -> Seq<AssertionView>
    decreases h.len() + 1 - pos,
{
    match find_from(h, "<script"@, pos) {
        None => Seq::empty(),
        Some(st) => match find_from(h, seq!['>'], st) {
            None => Seq::empty(),
            Some(gt) => match find_from(h, "</script>"@, gt + 1) {
                None => Seq::empty(),
                Some(end) => script_assertions(h.subrange(gt + 1, end), 0) + if pos < end <= h.len() {
                    html_assertions(h, end)
                } else {
                    Seq::empty()
                },
            },
        },
    }
}

proof fn lemma_matching_from(s: Seq<char>, open: int, i: int)
    ensures
        matching_from(s, open, i) matches Some(k) ==> i <= k < s.len() && s[k] == ')' && open <= k,
    decreases s.len() - i,
{
    if !(i < open || i >= s.len()) && !(s[i] == ')' && balanced(s, open, i + 1)) {
        lemma_matching_from(s, open, i + 1);
    }
}

/// The parenthesis that closes the one at `open`.
fn find_matching_paren(s: &Vec<char>, open: usize) -> (r: Option<usize>)
    ensures
        match r {
            Some(k) => matching_paren(s@, open as int) == Some(k as int),
            None => matching_paren(s@, open as int) is None,
        },
{
    let mut opens: usize = 0;
    let mut closes: usize = 0;
    let mut i: usize = open;
    if open > s.len() {
        return None;
    }
    while i < s.len()
        invariant
            open <= i <= s.len(),
            opens == count_in(s@, '(', open as int, i as int),
            closes == count_in(s@, ')', open as int, i as int),
            matching_paren(s@, open as int) == matching_from(s@, open as int, i as int),
        decreases s.len() - i,
    {
        proof {
            lemma_count_step(s@, '(', open as int, i as int);
            lemma_count_step(s@, ')', open as int, i as int);
            lemma_count_bound(s@, '(', open as int, i as int);
            lemma_count_bound(s@, ')', open as int, i as int);
        }
        let ch = s[i];
        if ch == '(' {
            opens += 1;
        } else if ch == ')' {
            closes += 1;
            if opens == closes {
                return Some(i);
            }
        }
        i += 1;
    }
    None
}

/// The last `,` of `s` outside any parentheses.
fn find_depth_zero_comma(s: &Vec<char>) -> (r: Option<usize>)
    ensures
        match r {
            Some(k) => last_top_comma(s@, s.len() as int) == Some(k as int),
            None => last_top_comma(s@, s.len() as int) is None,
        },
{
    let mut opens: usize = 0;
    let mut closes: usize = 0;
    let mut last: Option<usize> = None;
    let mut i: usize = 0;
    while i < s.len()
        invariant
            i <= s.len(),
            opens == count_in(s@, '(', 0, i as int),
            closes == count_in(s@, ')', 0, i as int),
            match last {
                Some(k) => last_top_comma(s@, i as int) == Some(k as int),
                None => last_top_comma(s@, i as int) is None,
            },
        decreases s.len() - i,
    {
        proof {
            lemma_count_step(s@, '(', 0, i as int);
            lemma_count_step(s@, ')', 0, i as int);
            lemma_count_bound(s@, '(', 0, i as int);
            lemma_count_bound(s@, ')', 0, i as int);
        }
        let ch = s[i];
        if ch == '(' {
            opens += 1;
        } else if ch == ')' {
            closes += 1;
        } else if ch == ',' && opens == closes {
            last = Some(i);
        }
        i += 1;
    }
    last
}

/// Whether `s` ends with the literal `suffix`.
fn ends_with_lit(s: &Vec<char>, suffix: &str) -> (r: bool)
    ensures
        r == ends_with(s@, suffix@),
{
    let p = lit(suffix);
    if p.len() > s.len() {
        return false;
    }
    crate::text::matches_at(s, &p, s.len() - p.len())
}

/// The element an expression reads.
#[verifier::loop_isolation(false)]
fn extract_element_selector(expr: &Vec<char>) -> (r: Option<String>)
    ensures
        opt_chars(r) == selector_of(expr@),
{
    match quoted_after_chars(expr, "getElementById(\"", '"') {
        Some(id) => {
            return Some(hash_prefixed(&id));
        },
        None => {},
    }
    match quoted_after_chars(expr, "getElementById('", '\'') {
        Some(id) => {
            return Some(hash_prefixed(&id));
        },
        None => {},
    }
    match quoted_after_chars(expr, "querySelector(\"", '"') {
        Some(sel) => {
            return Some(sel);
        },
        None => {},
    }
    let dot = vec!['.'];
    assert(dot@ =~= seq!['.']);
    match find(expr, &dot, 0) {
        Some(d) => {
            let (a, b) = trim_bounds(expr, 0, d);
            let mut k: usize = a;
            while k < b
                invariant
                    a <= k <= b <= expr.len(),
                    forall|t: int| a <= t < k ==> unicode_alphanumeric(#[trigger] expr@[t]) || expr@[t] == '_',
                decreases b - k,
            {
                let c = expr[k];
                if !(is_alphanumeric(c) || c == '_') {
                    proof {
                        let v = expr@.subrange(a as int, b as int);
                        assert(v[k - a] == c);
                        assert(!is_identifier(v));
                    }
                    return None;
                }
                k += 1;
            }
            proof {
                let v = expr@.subrange(a as int, b as int);
                assert forall|i: int| 0 <= i < v.len() implies unicode_alphanumeric(#[trigger] v[i]) || v[i] == '_' by {
                    assert(v[i] == expr@[a + i]);
                }
            }
            Some(string_of(expr, a, b))
        },
        None => None,
    }
}

/// `#` followed by the given text.
fn hash_prefixed(id: &String) -> (r: String)
    ensures
        r@ == seq!['#'] + id@,
{
    let v = chars_of(id.as_str());
    let mut out: Vec<char> = vec!['#'];
    let mut i: usize = 0;
    while i < v.len()
        invariant
            i <= v.len(),
            out@ == seq!['#'] + v@.subrange(0, i as int),
        decreases v.len() - i,
    {
        out.push(v[i]);
        i += 1;
        assert(out@ =~= seq!['#'] + v@.subrange(0, i as int));
    }
    assert(v@.subrange(0, v.len() as int) =~= v@);
    string_of(&out, 0, out.len())
}

/// The property an expression reads.
fn expression_property(e: &Vec<char>) -> (r: Option<AssertedProperty>)
    ensures
        r == property_of(e@),
{
    if contains_chars(e, &lit("getBoundingClientRect()")) {
        if ends_with_lit(e, ".width") {
            Some(AssertedProperty::BoundingRectWidth)
        } else if ends_with_lit(e, ".height") {
            Some(AssertedProperty::BoundingRectHeight)
        } else if ends_with_lit(e, ".x") || ends_with_lit(e, ".left") {
            Some(AssertedProperty::BoundingRectLeft)
        } else if ends_with_lit(e, ".y") || ends_with_lit(e, ".top") {
            Some(AssertedProperty::BoundingRectTop)
        } else if ends_with_lit(e, ".right") {
            Some(AssertedProperty::BoundingRectRight)
        } else if ends_with_lit(e, ".bottom") {
            Some(AssertedProperty::BoundingRectBottom)
        } else {
            None
        }
    } else if contains_chars(e, &lit(".offsetWidth")) {
        Some(AssertedProperty::OffsetWidth)
    } else if contains_chars(e, &lit(".offsetHeight")) {
        Some(AssertedProperty::OffsetHeight)
    } else if contains_chars(e, &lit(".offsetTop")) {
        Some(AssertedProperty::OffsetTop)
    } else if contains_chars(e, &lit(".offsetLeft")) {
        Some(AssertedProperty::OffsetLeft)
    } else if contains_chars(e, &lit(".clientWidth")) {
        Some(AssertedProperty::ClientWidth)
    } else if contains_chars(e, &lit(".clientHeight")) {
        Some(AssertedProperty::ClientHeight)
    } else {
        None
    }
}

/// Read an expression as (element selector, property).
fn parse_expression(expr: &Vec<char>) -> (r: Option<(String, AssertedProperty)>)
    ensures
        match r {
            Some((sel, p)) => expression_of(expr@) == Some((sel@, p)),
            None => expression_of(expr@) is None,
        },
{
    let (a, b) = trim_bounds(expr, 0, expr.len());
    assert(expr@.subrange(0, expr@.len() as int) =~= expr@);
    let e = sub_chars(expr, a, b);
    match expression_property(&e) {
        Some(p) => match extract_element_selector(&e) {
            Some(sel) => Some((sel, p)),
            None => None,
        },
        None => None,
    }
}

/// Read the arguments of an `assert_equals` as an assertion.
fn parse_assert_equals(args: &Vec<char>) -> (r: Option<AssertionText>)
    ensures
        match r {
            Some(x) => assert_args_of(args@) == Some(x@),
            None => assert_args_of(args@) is None,
        },
{
    let comma = match find_depth_zero_comma(args) {
        Some(c) => c,
        None => {
            return None;
        },
    };
    proof {
        assert(comma < args.len()) by {
            lemma_last_top_comma(args@, args.len() as int);
        }
    }
    let expr = sub_chars(args, 0, comma);
    match parse_expression(&expr) {
        Some((sel, p)) => {
            let (a, b) = trim_bounds(args, comma + 1, args.len());
            let (a2, b2) = trim_char_bounds(args, a, b, '"');
            proof {
                assert(args@.subrange(a as int, b as int).subrange(a2 - a, b2 - a) =~= args@.subrange(a2 as int, b2 as int));
            }
            let (a3, b3) = trim_char_bounds(args, a2, b2, '\'');
            Some(AssertionText { element_selector: sel, property: p, value_text: string_of(args, a3, b3) })
        },
        None => None,
    }
}

proof fn lemma_last_top_comma(s: Seq<char>, k: int)
    ensures
        last_top_comma(s, k) matches Some(c) ==> 0 <= c < k && c < s.len(),
    decreases k,
{
    if !(k <= 0 || k > s.len()) && !(s[k - 1] == ',' && balanced(s, 0, k - 1)) {
        lemma_last_top_comma(s, k - 1);
    }
}

/// Gather the assertions of the `assert_equals` calls of a script.
fn extract_from_script(script: &Vec<char>, out: &mut Vec<AssertionText>)
    ensures
        final(out)@.map_values(|a: AssertionText| a@) == old(out)@.map_values(|a: AssertionText| a@)
            + script_assertions(script@, 0),
{
    let name = lit("assert_equals");
    let paren = vec!['('];
    assert(paren@ =~= seq!['(']);
    let ghost start = old(out)@.map_values(|a: AssertionText| a@);
    proof {
        reveal_strlit("assert_equals");
    }
    let mut pos: usize = 0;
    proof {
        assert(start + script_assertions(script@, 0) =~= out@.map_values(|a: AssertionText| a@) + script_assertions(script@, 0));
    }
    loop
        invariant
            name@ == "assert_equals"@,
            name@.len() > 0,
            paren@ == seq!['('],
            start == old(out)@.map_values(|a: AssertionText| a@),
            pos <= script.len(),
            start + script_assertions(script@, 0) == out@.map_values(|a: AssertionText| a@)
                + script_assertions(script@, pos as int),
        decreases script.len() - pos,
    {
        let a = match find(script, &name, pos) {
            Some(a) => a,
            None => {
                proof {
                    assert(script_assertions(script@, pos as int) == Seq::<AssertionView>::empty());
                    assert(out@.map_values(|a: AssertionText| a@) + Seq::<AssertionView>::empty() =~= out@.map_values(|a: AssertionText| a@));
                    assert(out@.map_values(|a: AssertionText| a@) == start + script_assertions(script@, 0));
                }
                return;
            },
        };
        let ghost before = out@.map_values(|a: AssertionText| a@);
        let mut next: usize = a + name.len();
        let ghost mut found: Option<AssertionView> = None;
        match find(script, &paren, a) {
            Some(ps) => {
                match find_matching_paren(script, ps) {
                    Some(e) => {
                        proof {
                            lemma_matching_from(script@, ps as int, ps as int);
                            crate::text::lemma_find_from(script@, paren@, a as int);
                            assert(script@.subrange(ps as int, ps + 1)[0] == script@[ps as int]);
                        }
                        let args = sub_chars(script, ps + 1, e);
                        match parse_assert_equals(&args) {
                            Some(x) => {
                                proof {
                                    found = Some(x@);
                                }
                                out.push(x);
                            },
                            None => {},
                        }
                        next = e + 1;
                    },
                    None => {},
                }
            },
            None => {},
        }
        proof {
            let tail: Seq<AssertionView> = if pos < next <= script.len() {
                script_assertions(script@, next as int)
            } else {
                Seq::empty()
            };
            let head: Seq<AssertionView> = match found {
                Some(x) => seq![x],
                None => Seq::empty(),
            };
            assert(script_assertions(script@, pos as int) == head + tail);
            assert(out@.map_values(|a: AssertionText| a@) =~= before + head);
            assert(pos < next <= script.len());
            assert(before + (head + tail) =~= (before + head) + tail);
        }
        pos = next;
    }
}

/// Extract the `assert_equals` assertions of the scripts of a test file, in
/// order.
pub fn extract_assertions(html: &str) -> (r: Vec<AssertionText>)
    ensures
        r@.map_values(|a: AssertionText| a@) == html_assertions(html@, 0),
{
    let h = chars_of(html);
    let open = lit("<script");
    let close = lit("</script>");
    let gt = vec!['>'];
    assert(gt@ =~= seq!['>']);
    let mut out: Vec<AssertionText> = Vec::new();
    let mut pos: usize = 0;
    proof {
        assert(html_assertions(h@, 0) =~= out@.map_values(|a: AssertionText| a@) + html_assertions(h@, 0));
    }
    loop
        invariant
            h@ == html@,
            open@ == "<script"@,
            close@ == "</script>"@,
            gt@ == seq!['>'],
            pos <= h.len(),
            html_assertions(h@, 0) == out@.map_values(|a: AssertionText| a@) + html_assertions(h@, pos as int),
        decreases h.len() - pos,
    {
        let done = match find(&h, &open, pos) {
            Some(st) => match find(&h, &gt, st) {
                Some(g) => match find(&h, &close, g + 1) {
                    Some(end) => {
                        let script = sub_chars(&h, g + 1, end);
                        let ghost before = out@.map_values(|a: AssertionText| a@);
                        extract_from_script(&script, &mut out);
                        proof {
                            let tail: Seq<AssertionView> = if pos < end <= h.len() {
                                html_assertions(h@, end as int)
                            } else {
                                Seq::empty()
                            };
                            assert(html_assertions(h@, pos as int) == script_assertions(script@, 0) + tail);
                            assert(pos < end);
                            assert(before + (script_assertions(script@, 0) + tail) =~= out@.map_values(|a: AssertionText| a@) + tail);
                        }
                        pos = end;
                        false
                    },
                    None => true,
                },
                None => true,
            },
            None => true,
        };
        if done {
            proof {
                assert(html_assertions(h@, pos as int) == Seq::<AssertionView>::empty());
                assert(out@.map_values(|a: AssertionText| a@) + Seq::<AssertionView>::empty() =~= out@.map_values(|a: AssertionText| a@));
            }
            return out;
        }
    }
}

/// The index of the box an assertion's selector names: for `#id`, the
/// index of the first element (in depth-first pre-order) with that id,
/// capped at the last box; none for other selectors.
pub open spec fn box_index_of(nodes: Seq<DomNode>, box_count: int, selector: Seq<char>) -> Option<int> {
    if selector.len() > 0 && selector[0] == '#' {
        match first_match(preorder(nodes, 0), attr_matches(nodes, seq!['i', 'd'], selector.drop_first())) {
            Some(i) => Some(
                if box_count == 0 {
                    0
                } else if i < box_count - 1 {
                    i
                } else {
                    box_count - 1
                },
            ),
            None => None,
        }
    } else {
        None
    }
}

/// The box an assertion's selector names.
pub fn find_node_by_selector(dom: &DomTree, box_count: usize, selector: &str) -> (r: Option<usize>)
    requires
        dom.wf(),
    ensures
        match r {
            Some(k) => box_index_of(dom.nodes(), box_count as int, selector@) == Some(k as int),
            None => box_index_of(dom.nodes(), box_count as int, selector@) is None,
        },
{
    let sel = chars_of(selector);
    if sel.len() == 0 || sel[0] != '#' {
        return None;
    }
    let id = string_of(&sel, 1, sel.len());
    assert(id@ =~= sel@.drop_first());
    match dom.find_element_by_id(id.as_str()) {
        Some(node) => {
            let last = if box_count == 0 {
                0
            } else {
                box_count - 1
            };
            Some(if node.0 < last {
                node.0
            } else {
                last
            })
        },
        None => None,
    }
}

} // verus!
