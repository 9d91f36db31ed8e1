//! Selector matching, specificity, the cascade order of matched rules, the
//! declarations applied to each element, and the display each tag starts
//! with.

use vstd::prelude::*;
use crate::dom::{DomTree, DomNode, DomNodeId, nodes_wf, preorder, law_walk_visits_every_node_once};
use crate::style::{Display, DisplayOuter, DisplayInner};
use crate::css::{
    CssRule, RuleView, CssDeclaration, style_decls, parse_style_attribute, collect_rules, sheet_rules,
    sheets_fit,
};
use crate::text::{
    scan_until, lemma_scan_until, sub_chars, split_bounds, chars_of, chars_eq, chars_eq_ignore_ascii_case,
    eq_ignore_ascii_case, find, find_from, words, split_whitespace_chars, split_by_from, sep_of,
    split_sep_bounds, trim, trim_bounds, string_of, trim_char, trim_start_char, trim_end_char,
    trim_char_bounds, trim_start_char_bounds, trim_end_char_bounds, lemma_trim_len, to_lowercase,
    unicode_lowercase, lemma_lead_count, lemma_trail_count, lemma_find_from, occurs_at,
};

verus! {

/// Characters that start a new simple-selector segment.
pub open spec fn is_seg_start(c: char) -> bool {
    c == '#' || c == '.' || c == '[' || c == ':'
}

/// The segments of a compound selector from `start` on: each runs from one
/// segment-start character (or the beginning) to just before the next one.
pub open spec fn segments_from(s: Seq<char>, start: int) -> Seq<Seq<char>>
    decreases s.len() - start,
{
    if start < 0 || start >= s.len() {
        Seq::empty()
    } else {
        let next = scan_until(s, start + 1, |c: char| is_seg_start(c));
        seq![s.subrange(start, next)] + if start < next < s.len() {
            segments_from(s, next)
        } else {
            Seq::empty()
        }
    }
}

/// The segments of a compound selector, e.g. `div.box#x` gives `div`,
/// `.box`, `#x`.
pub open spec fn segments(s: Seq<char>) -> Seq<Seq<char>> {
    segments_from(s, 0)
}

/// Split a compound selector into its segments.
pub fn split_selector_segments(selector: &Vec<char>) -> (r: Vec<Vec<char>>)
    ensures
        r@.map_values(|v: Vec<char>| v@) == segments(selector@),
        forall|i: int| 0 <= i < r@.len() ==> (#[trigger] r@[i])@.len() > 0,
{
    let mut r: Vec<Vec<char>> = Vec::new();
    let len = selector.len();
    if len == 0 {
        assert(r@.map_values(|v: Vec<char>| v@) =~= segments(selector@));
        return r;
    }
    let ghost total = segments(selector@);
    let mut start: usize = 0;
    let mut i: usize = 1;
    while i < len
        invariant
            len == selector.len(),
            start < i <= len,
            total == segments(selector@),
            scan_until(selector@, start + 1, |c: char| is_seg_start(c)) == scan_until(selector@, i as int, |c: char| is_seg_start(c)),
            total == r@.map_values(|v: Vec<char>| v@) + segments_from(selector@, start as int),
            forall|k: int| 0 <= k < r@.len() ==> (#[trigger] r@[k])@.len() > 0,
        decreases len - i,
    {
        let c = selector[i];
        if c == '#' || c == '.' || c == '[' || c == ':' {
            let ghost before = r@;
            proof {
                assert(segments_from(selector@, start as int) == seq![selector@.subrange(start as int, i as int)] + segments_from(selector@, i as int));
            }
            r.push(sub_chars(selector, start, i));
            assert(r@.map_values(|v: Vec<char>| v@) =~= before.map_values(|v: Vec<char>| v@).push(selector@.subrange(start as int, i as int)));
            start = i;
        }
        i += 1;
    }
    let ghost before = r@;
    proof {
        assert(segments_from(selector@, start as int) == seq![selector@.subrange(start as int, len as int)] + Seq::<Seq<char>>::empty());
    }
    r.push(sub_chars(selector, start, len));
    assert(r@.map_values(|v: Vec<char>| v@) =~= before.map_values(|v: Vec<char>| v@).push(selector@.subrange(start as int, len as int)));
    r
}


/// CSS specificity: inline style, then id, class and type selector counts,
/// compared in that order.
#[derive(Debug, Clone, Copy, PartialEq, Eq, PartialOrd, Ord, Structural)]
pub struct Specificity {
    pub inline: bool,
    pub id: u32,
    pub class: u32,
    pub type_sel: u32,
}

impl Specificity {
    pub fn new(id: u32, class: u32, type_sel: u32) -> (r: Specificity)
        ensures
            r == (Specificity { inline: false, id, class, type_sel }),
    {
        Specificity { inline: false, id, class, type_sel }
    }
}

/// What one segment adds to (id, class, type) counts: `#x` an id, `.x`,
/// `[x]` or `:x` a class, `*` nothing, anything else a type.
pub open spec fn seg_counts(seg: Seq<char>) -> (int, int, int) {
    if seg.len() > 0 && seg[0] == '#' {
        (1, 0, 0)
    } else if seg.len() > 0 && (seg[0] == '.' || seg[0] == '[' || seg[0] == ':') {
        (0, 1, 0)
    } else if seg == seq!['*'] {
        (0, 0, 0)
    } else {
        (0, 0, 1)
    }
}

/// Summed counts of a list of segments.
pub open spec fn segs_counts(segs: Seq<Seq<char>>) -> (int, int, int)
    decreases segs.len(),
{
    if segs.len() == 0 {
        (0, 0, 0)
    } else {
        let a = segs_counts(segs.drop_last());
        let b = seg_counts(segs.last());
        (a.0 + b.0, a.1 + b.1, a.2 + b.2)
    }
}

/// Summed counts over the compound selectors of a selector (its pieces
/// between whitespace and combinators; empty pieces count nothing).
pub open spec fn parts_counts(parts: Seq<Seq<char>>) -> (int, int, int)
    decreases parts.len(),
{
    if parts.len() == 0 {
        (0, 0, 0)
    } else {
        let a = parts_counts(parts.drop_last());
        let t = trim(parts.last());
        let b = if t.len() > 0 {
            segs_counts(segments(t))
        } else {
            (0, 0, 0)
        };
        (a.0 + b.0, a.1 + b.1, a.2 + b.2)
    }
}

/// The (id, class, type) counts of a selector.
pub open spec fn specificity_counts(selector: Seq<char>) -> (int, int, int) {
    parts_counts(split_by_from(selector, sep_of(1), 0))
}

pub proof fn lemma_segs_counts_monotone(segs: Seq<Seq<char>>, k: int)
    requires
        0 <= k <= segs.len(),
    ensures
        0 <= segs_counts(segs.take(k)).0 <= segs_counts(segs).0,
        0 <= segs_counts(segs.take(k)).1 <= segs_counts(segs).1,
        0 <= segs_counts(segs.take(k)).2 <= segs_counts(segs).2,
    decreases segs.len(),
{
    if k < segs.len() {
        assert(segs.drop_last().take(k) =~= segs.take(k));
        lemma_segs_counts_monotone(segs.drop_last(), k);
    } else {
        assert(segs.take(k) =~= segs);
        lemma_segs_counts_nonneg(segs);
    }
}

pub proof fn lemma_segs_counts_nonneg(segs: Seq<Seq<char>>)
    ensures
        segs_counts(segs).0 >= 0,
        segs_counts(segs).1 >= 0,
        segs_counts(segs).2 >= 0,
    decreases segs.len(),
{
    if segs.len() > 0 {
        lemma_segs_counts_nonneg(segs.drop_last());
    }
}

pub proof fn lemma_parts_counts_monotone(parts: Seq<Seq<char>>, k: int)
    requires
        0 <= k <= parts.len(),
    ensures
        0 <= parts_counts(parts.take(k)).0 <= parts_counts(parts).0,
        0 <= parts_counts(parts.take(k)).1 <= parts_counts(parts).1,
        0 <= parts_counts(parts.take(k)).2 <= parts_counts(parts).2,
    decreases parts.len(),
{
    if k < parts.len() {
        assert(parts.drop_last().take(k) =~= parts.take(k));
        lemma_parts_counts_monotone(parts.drop_last(), k);
        let t = trim(parts.last());
        if t.len() > 0 {
            lemma_segs_counts_nonneg(segments(t));
        }
    } else {
        assert(parts.take(k) =~= parts);
        lemma_parts_counts_nonneg(parts);
    }
}

pub proof fn lemma_parts_counts_nonneg(parts: Seq<Seq<char>>)
    ensures
        parts_counts(parts).0 >= 0,
        parts_counts(parts).1 >= 0,
        parts_counts(parts).2 >= 0,
    decreases parts.len(),
{
    if parts.len() > 0 {
        lemma_parts_counts_nonneg(parts.drop_last());
        let t = trim(parts.last());
        if t.len() > 0 {
            lemma_segs_counts_nonneg(segments(t));
        }
    }
}

/// The counts fit the `u32` fields.
pub open spec fn counts_fit(c: (int, int, int)) -> bool {
    c.0 <= u32::MAX && c.1 <= u32::MAX && c.2 <= u32::MAX
}

/// Compute the specificity of a CSS selector string.
pub fn compute_specificity(selector: &str) -> (r: Specificity)
    requires
        counts_fit(specificity_counts(selector@)),
    ensures
        !r.inline,
        (r.id as int, r.class as int, r.type_sel as int) == specificity_counts(selector@),
{
    let s = chars_of(selector);
    compute_specificity_chars(&s)
}

/// Counts no larger than `m`.
pub open spec fn counts_at_most(c: (int, int, int), m: int) -> bool {
    c.0 <= m && c.1 <= m && c.2 <= m
}

/// The specificity of a selector given as characters.
pub fn compute_specificity_chars(s: &Vec<char>) -> (r: Specificity)
    requires
        counts_fit(specificity_counts(s@)),
    ensures
        !r.inline,
        (r.id as int, r.class as int, r.type_sel as int) == specificity_counts(s@),
{
    let c = selector_counts(s);
    Specificity::new(c.0 as u32, c.1 as u32, c.2 as u32)
}

/// The (id, class, type) counts of a selector given as characters.
fn selector_counts(s: &Vec<char>) -> (r: (u64, u64, u64))
    ensures
        (r.0 as int, r.1 as int, r.2 as int) == specificity_counts(s@),
{
    proof {
        lemma_specificity_counts_bound(s@);
    }
    let bounds = split_sep_bounds(s, 1);
    let ghost parts = split_by_from(s@, sep_of(1), 0);
    let ghost full = specificity_counts(s@);
    let mut id_count: u64 = 0;
    let mut class_count: u64 = 0;
    let mut type_count: u64 = 0;
    let mut j: usize = 0;
    assert(s@.len() <= u64::MAX) by {
        assert(s.len() <= usize::MAX);
    }
    assert(counts_at_most(full, u64::MAX as int));
    while j < bounds.len()
        invariant
            j <= bounds.len(),
            parts == split_by_from(s@, sep_of(1), 0),
            full == parts_counts(parts),
            counts_at_most(full, u64::MAX as int),
            bounds@.len() == parts.len(),
            forall|t: int|
                0 <= t < bounds@.len() ==> (#[trigger] bounds@[t]).0 <= bounds@[t].1 <= s.len()
                    && s@.subrange(bounds@[t].0 as int, bounds@[t].1 as int) == parts[t],
            (id_count as int, class_count as int, type_count as int) == parts_counts(parts.take(j as int)),
        decreases bounds.len() - j,
    {
        let (lo, hi) = bounds[j];
        let (a, b) = trim_bounds(s, lo, hi);
        proof {
            assert(parts.take(j + 1).drop_last() =~= parts.take(j as int));
            assert(parts.take(j + 1).last() == parts[j as int]);
            lemma_parts_counts_monotone(parts, j + 1);
        }
        let ghost base = (id_count as int, class_count as int, type_count as int);
        let ghost bound = parts_counts(parts.take(j + 1));
        if b > a {
            let part = sub_chars(s, a, b);
            let segs = split_selector_segments(&part);
            let ghost sv = segs@.map_values(|v: Vec<char>| v@);
            let star = vec!['*'];
            assert(star@ =~= seq!['*']);
            let mut k: usize = 0;
            while k < segs.len()
                invariant
                    k <= segs.len(),
                    sv == segs@.map_values(|v: Vec<char>| v@),
                    sv == segments(part@),
                    star@ == seq!['*'],
                    bound == (base.0 + segs_counts(sv).0, base.1 + segs_counts(sv).1, base.2 + segs_counts(sv).2),
                    counts_at_most(bound, u64::MAX as int),
                    (id_count as int, class_count as int, type_count as int) == (base.0 + segs_counts(sv.take(k as int)).0, base.1 + segs_counts(sv.take(k as int)).1, base.2 + segs_counts(sv.take(k as int)).2),
                decreases segs.len() - k,
            {
                let seg = &segs[k];
                proof {
                    assert(sv.take(k + 1).drop_last() =~= sv.take(k as int));
                    assert(sv.take(k + 1).last() == seg@);
                    lemma_segs_counts_monotone(sv, k + 1);
                }
                if seg.len() > 0 && seg[0] == '#' {
                    id_count += 1;
                } else if seg.len() > 0 && (seg[0] == '.' || seg[0] == '[' || seg[0] == ':') {
                    class_count += 1;
                } else if chars_eq(seg, &star) {
                } else {
                    type_count += 1;
                }
                k += 1;
            }
            assert(sv.take(segs.len() as int) =~= sv);
        }
        j += 1;
    }
    assert(parts.take(bounds.len() as int) =~= parts);
    (id_count, class_count, type_count)
}


/// The attribute name `id`.
pub open spec fn id_name() -> Seq<char> {
    seq!['i', 'd']
}

/// The attribute name `class`.
pub open spec fn class_name() -> Seq<char> {
    seq!['c', 'l', 'a', 's', 's']
}

/// Whether one segment matches a node: `#x` its id is `x`; `.x` one of
/// the whitespace-separated words of its class is `x`; `[a=v]` (brackets
/// and quotes around `v` stripped) attribute `a` is `v`, `[a]` it has `a`;
/// anything else its tag equals the segment ignoring ASCII case.
pub open spec fn seg_matches(n: DomNode, seg: Seq<char>) -> bool {
    if seg.len() > 0 && seg[0] == '#' {
        n.spec_attr(id_name()) == Some(seg.drop_first())
    } else if seg.len() > 0 && seg[0] == '.' {
        match n.spec_attr(class_name()) {
            Some(classes) => words(classes).contains(seg.drop_first()),
            None => false,
        }
    } else if seg.len() > 0 && seg[0] == '[' {
        let inner = trim_end_char(trim_start_char(seg, '['), ']');
        match find_from(inner, seq!['='], 0) {
            Some(i) => {
                let attr = inner.subrange(0, i);
                let val = trim_char(trim_char(inner.subrange(i + 1, inner.len() as int), '"'), '\'');
                n.spec_attr(attr) == Some(val)
            },
            None => n.spec_attr(inner) is Some,
        }
    } else {
        n.spec_tag() matches Some(t) && eq_ignore_ascii_case(t, seg)
    }
}

/// Text that holds none of `[`, `]`, `=`, `"` and `'`.
pub open spec fn plain_selector_text(s: Seq<char>) -> bool {
    forall|i: int| 0 <= i < s.len() ==> #[trigger] s[i] != '[' && s[i] != ']' && s[i] != '=' && s[i] != '"' && s[i] != '\''
}

/// Trimming a character that a text does not hold leaves it as it is.
proof fn lemma_trim_char_absent(s: Seq<char>, c: char)
    requires
        forall|i: int| 0 <= i < s.len() ==> #[trigger] s[i] != c,
    ensures
        trim_char(s, c) == s,
{
    lemma_lead_count(s, c, 0);
    assert(trim_start_char(s, c) =~= s);
    lemma_trail_count(s, c, s.len() as int);
    assert(trim_end_char(s, c) =~= s);
}

/// Trimming a character from a text wrapped in it, and not holding it
/// otherwise, unwraps the text.
proof fn lemma_trim_char_wrapped(v: Seq<char>, c: char)
    requires
        forall|i: int| 0 <= i < v.len() ==> #[trigger] v[i] != c,
    ensures
        trim_char(seq![c] + v + seq![c], c) == v,
{
    let w = seq![c] + v + seq![c];
    if v.len() == 0 {
        lemma_lead_count(w, c, 2);
        assert(trim_start_char(w, c) =~= Seq::<char>::empty());
        lemma_trail_count(Seq::<char>::empty(), c, 0);
        assert(trim_char(w, c) =~= v);
    } else {
        lemma_lead_count(w, c, 1);
        let t = v + seq![c];
        assert(trim_start_char(w, c) =~= t);
        lemma_trail_count(t, c, v.len() as int);
        assert(trim_end_char(t, c) =~= v);
    }
}

/// The inside of `[inner]` when `inner` starts with neither `[` nor ends
/// with `]`.
proof fn lemma_bracket_inner(inner: Seq<char>)
    requires
        inner.len() > 0,
        inner[0] != '[',
        inner.last() != ']',
    ensures
        trim_end_char(trim_start_char(seq!['['] + inner + seq![']'], '['), ']') == inner,
{
    let seg = seq!['['] + inner + seq![']'];
    lemma_lead_count(seg, '[', 1);
    let t = inner + seq![']'];
    assert(trim_start_char(seg, '[') =~= t);
    lemma_trail_count(t, ']', inner.len() as int);
    assert(trim_end_char(t, ']') =~= inner);
}

/// The first `=` of `a = v` is the one after `a`, when `a` holds none.
proof fn lemma_first_equals(a: Seq<char>, rest: Seq<char>)
    requires
        forall|i: int| 0 <= i < a.len() ==> #[trigger] a[i] != '=',
    ensures
        find_from(a + seq!['='] + rest, seq!['='], 0) == Some(a.len() as int),
{
    let s = a + seq!['='] + rest;
    lemma_find_from(s, seq!['='], 0);
    assert(s.subrange(a.len() as int, a.len() as int + 1) =~= seq!['=']);
    assert(occurs_at(s, seq!['='], a.len() as int));
    match find_from(s, seq!['='], 0) {
        Some(k) => {
            assert(s.subrange(k, k + 1)[0] == s[k]);
            if k < a.len() {
                assert(s[k] == a[k]);
            }
        },
        None => {},
    }
}

/// An attribute segment matches a node exactly when the node's attribute
/// has the value that the segment names: `[a=v]` and `[a="v"]` when
/// attribute `a` is `v` (any other value does not match), and `[a]` when
/// the node has attribute `a` at all.
pub proof fn law_attribute_segment(n: DomNode, a: Seq<char>, v: Seq<char>)
    requires
        plain_selector_text(a),
        plain_selector_text(v),
    ensures
        seg_matches(n, seq!['['] + a + seq!['='] + v + seq![']']) <==> n.spec_attr(a) == Some(v),
        seg_matches(n, seq!['['] + a + seq!['=', '"'] + v + seq!['"', ']']) <==> n.spec_attr(a) == Some(v),
        a.len() > 0 ==> (seg_matches(n, seq!['['] + a + seq![']']) <==> n.spec_attr(a) is Some),
{
    // [a=v]
    let inner1 = a + seq!['='] + v;
    assert(inner1[0] != '[') by {
        if a.len() > 0 {
            assert(inner1[0] == a[0]);
        }
    }
    assert(inner1.last() != ']') by {
        if v.len() > 0 {
            assert(inner1.last() == v.last());
        }
    }
    lemma_bracket_inner(inner1);
    assert(seq!['['] + a + seq!['='] + v + seq![']'] =~= seq!['['] + inner1 + seq![']']);
    lemma_first_equals(a, v);
    assert(inner1.subrange(0, a.len() as int) =~= a);
    assert(inner1.subrange(a.len() as int + 1, inner1.len() as int) =~= v);
    lemma_trim_char_absent(v, '"');
    lemma_trim_char_absent(v, '\'');
    // [a="v"]
    let qv = seq!['"'] + v + seq!['"'];
    let inner2 = a + seq!['='] + qv;
    assert(inner2[0] != '[') by {
        if a.len() > 0 {
            assert(inner2[0] == a[0]);
        }
    }
    assert(inner2.last() == '"');
    lemma_bracket_inner(inner2);
    assert(seq!['['] + a + seq!['=', '"'] + v + seq!['"', ']'] =~= seq!['['] + inner2 + seq![']']);
    lemma_first_equals(a, qv);
    assert(inner2.subrange(0, a.len() as int) =~= a);
    assert(inner2.subrange(a.len() as int + 1, inner2.len() as int) =~= qv);
    lemma_trim_char_wrapped(v, '"');
    // [a]
    if a.len() > 0 {
        lemma_bracket_inner(a);
        lemma_find_from(a, seq!['='], 0);
        if find_from(a, seq!['='], 0) is Some {
            let k = find_from(a, seq!['='], 0)->0;
            assert(a.subrange(k, k + 1)[0] == a[k]);
        }
    }
}

/// Whether a simple (compound) selector matches a node: `*` matches every
/// element; otherwise the selector has segments and each one matches.
pub open spec fn simple_matches(n: DomNode, sel: Seq<char>) -> bool {
    if sel == seq!['*'] {
        n.kind is Element
    } else {
        segments(sel).len() > 0 && forall|i: int| 0 <= i < segments(sel).len() ==> seg_matches(n, #[trigger] segments(sel)[i])
    }
}

fn seg_matches_exec(n: &DomNode, seg: &Vec<char>) -> (r: bool)
    ensures
        r == seg_matches(*n, seg@),
{
    if seg.len() > 0 && seg[0] == '#' {
        let rest = sub_chars(seg, 1, seg.len());
        assert(rest@ =~= seg@.drop_first());
        let id_attr = "id";
        proof {
            reveal_strlit("id");
            assert(id_attr@ =~= id_name());
        }
        match n.get_attribute(id_attr) {
            Some(v) => {
                let vc = chars_of(v);
                chars_eq(&vc, &rest)
            },
            None => false,
        }
    } else if seg.len() > 0 && seg[0] == '.' {
        let class = sub_chars(seg, 1, seg.len());
        assert(class@ =~= seg@.drop_first());
        let class_attr = "class";
        proof {
            reveal_strlit("class");
            assert(class_attr@ =~= class_name());
        }
        match n.get_attribute(class_attr) {
            Some(classes) => {
                let cc = chars_of(classes);
                let ws = split_whitespace_chars(&cc);
                let ghost wv = ws@.map_values(|w: Vec<char>| w@);
                let mut k: usize = 0;
                while k < ws.len()
                    invariant
                        k <= ws.len(),
                        wv == ws@.map_values(|w: Vec<char>| w@),
                        wv == crate::text::words(classes@),
                        n.spec_attr(class_name()) == Some(classes@),
                        class@ == seg@.drop_first(),
                        seg@.len() > 0 && seg@[0] == '.',
                        forall|t: int| 0 <= t < k ==> wv[t] != class@,
                    decreases ws.len() - k,
                {
                    if chars_eq(&ws[k], &class) {
                        assert(wv[k as int] == class@);
                        return true;
                    }
                    k += 1;
                }
                false
            },
            None => false,
        }
    } else if seg.len() > 0 && seg[0] == '[' {
        let a = trim_start_char_bounds(seg, 0, seg.len(), '[');
        let b = trim_end_char_bounds(seg, a, seg.len(), ']');
        assert(seg@.subrange(0, seg@.len() as int) =~= seg@);
        let inner = sub_chars(seg, a, b);
        let eq = vec!['='];
        assert(eq@ =~= seq!['=']);
        match find(&inner, &eq, 0) {
            Some(i) => {
                let attr = string_of(&inner, 0, i);
                let (q1, q2) = trim_char_bounds(&inner, i + 1, inner.len(), '"');
                let (v1, v2) = trim_char_bounds(&inner, q1, q2, '\'');
                let val = sub_chars(&inner, v1, v2);
                match n.get_attribute(attr.as_str()) {
                    Some(v) => {
                        let vc = chars_of(v);
                        chars_eq(&vc, &val)
                    },
                    None => false,
                }
            },
            None => {
                let name = string_of(&inner, 0, inner.len());
                assert(inner@.subrange(0, inner@.len() as int) =~= inner@);
                n.get_attribute(name.as_str()).is_some()
            },
        }
    } else {
        match n.tag_name() {
            Some(tag) => {
                let tc = chars_of(tag);
                chars_eq_ignore_ascii_case(&tc, seg)
            },
            None => false,
        }
    }
}

/// Whether a simple selector (characters) matches a node.
fn simple_matches_chars(n: &DomNode, sel: &Vec<char>) -> (r: bool)
    ensures
        r == simple_matches(*n, sel@),
{
    let star = vec!['*'];
    assert(star@ =~= seq!['*']);
    if chars_eq(sel, &star) {
        return n.is_element();
    }
    let segs = split_selector_segments(sel);
    let ghost sv = segs@.map_values(|v: Vec<char>| v@);
    let mut k: usize = 0;
    while k < segs.len()
        invariant
            k <= segs.len(),
            sv == segs@.map_values(|v: Vec<char>| v@),
            sv == segments(sel@),
            sel@ != seq!['*'],
            forall|t: int| 0 <= t < k ==> seg_matches(*n, #[trigger] sv[t]),
        decreases segs.len() - k,
    {
        if !seg_matches_exec(n, &segs[k]) {
            assert(!seg_matches(*n, segments(sel@)[k as int]));
            return false;
        }
        k += 1;
    }
    segs.len() > 0
}

/// Check if a single simple selector matches a node.
pub fn simple_selector_matches(tree: &DomTree, node: DomNodeId, selector: &str) -> (r: bool)
    requires
        node.0 < tree.nodes().len(),
    ensures
        r == simple_matches(tree.nodes()[node.0 as int], selector@),
{
    let sel = chars_of(selector);
    simple_matches_chars(tree.node(node), &sel)
}


/// Whether the descendant selector made of `parts` (compound selectors,
/// outermost first) matches node `n`: the last part matches `n`, and the
/// rest matches some ancestor of `n`.
pub open spec fn matches_parts(nodes: Seq<DomNode>, n: int, parts: Seq<Seq<char>>) -> bool
    decreases parts.len(), n, 1int,
{
    if parts.len() == 0 || n < 0 || n >= nodes.len() {
        false
    } else if parts.len() == 1 {
        simple_matches(nodes[n], parts[0])
    } else {
        simple_matches(nodes[n], parts.last()) && ancestor_matches(nodes, n, parts.drop_last())
    }
}

/// Whether `parts` matches some proper ancestor of node `n`.
pub open spec fn ancestor_matches(nodes: Seq<DomNode>, n: int, parts: Seq<Seq<char>>) -> bool
    decreases parts.len(), n, 0int,
{
    if 0 <= n < nodes.len() {
        match nodes[n].parent {
            Some(p) => if 0 <= p.0 < n {
                matches_parts(nodes, p.0 as int, parts) || ancestor_matches(nodes, p.0 as int, parts)
            } else {
                false
            },
            None => false,
        }
    } else {
        false
    }
}

fn matches_parts_exec(tree: &DomTree, node: DomNodeId, parts: &Vec<Vec<char>>, count: usize) -> (r: bool)
    requires
        tree.wf(),
        node.0 < tree.nodes().len(),
        count <= parts.len(),
    ensures
        r == matches_parts(tree.nodes(), node.0 as int, parts@.map_values(|v: Vec<char>| v@).take(count as int)),
    decreases count, node.0,
{
    let ghost nodes = tree.nodes();
    let ghost pv = parts@.map_values(|v: Vec<char>| v@);
    let ghost ps = pv.take(count as int);
    proof {
        tree.lemma_wf();
    }
    if count == 0 {
        return false;
    }
    if count == 1 {
        return simple_matches_chars(tree.node(node), &parts[0]);
    }
    if !simple_matches_chars(tree.node(node), &parts[count - 1]) {
        return false;
    }
    let ghost rest = ps.drop_last();
    assert(rest =~= pv.take(count - 1));
    assert(ps.last() == parts@[count - 1]@);
    assert(matches_parts(nodes, node.0 as int, ps) == ancestor_matches(nodes, node.0 as int, rest));
    let mut current = tree.parent(node);
    let ghost n = node.0 as int;
    proof {
        assert(ancestor_matches(nodes, n, rest) == (match current {
            Some(c) => matches_parts(nodes, c.0 as int, rest) || ancestor_matches(nodes, c.0 as int, rest),
            None => false,
        }));
    }
    loop
        invariant
            tree.wf(),
            nodes == tree.nodes(),
            nodes_wf(nodes),
            pv == parts@.map_values(|v: Vec<char>| v@),
            2 <= count <= parts.len(),
            n == node.0 as int,
            rest == pv.take(count - 1),
            matches_parts(nodes, n, ps) == ancestor_matches(nodes, n, rest),
            ps == pv.take(count as int),
            current matches Some(c) ==> c.0 < nodes.len(),
            ancestor_matches(nodes, n, rest) == (match current {
                Some(c) => matches_parts(nodes, c.0 as int, rest) || ancestor_matches(nodes, c.0 as int, rest),
                None => false,
            }),
        decreases match current {
            Some(c) => c.0 + 1,
            None => 0,
        },
    {
        match current {
            None => {
                return false;
            },
            Some(p) => {
                if matches_parts_exec(tree, p, parts, count - 1) {
                    return true;
                }
                let next = tree.parent(p);
                proof {
                    if p.0 > 0 {
                        assert(nodes[p.0 as int].parent matches Some(q) && q.0 < p.0);
                    }
                }
                current = next;
            },
        }
    }
}

/// Check if a selector (compound selectors separated by whitespace, each
/// one a descendant of the one before) matches a node.
pub fn selector_matches(tree: &DomTree, node: DomNodeId, selector: &str) -> (r: bool)
    requires
        tree.wf(),
        node.0 < tree.nodes().len(),
    ensures
        r == matches_parts(tree.nodes(), node.0 as int, words(selector@)),
{
    let sel = chars_of(selector);
    selector_matches_chars(tree, node, &sel)
}

/// `selector_matches` on a selector given as characters.
pub fn selector_matches_chars(tree: &DomTree, node: DomNodeId, sel: &Vec<char>) -> (r: bool)
    requires
        tree.wf(),
        node.0 < tree.nodes().len(),
    ensures
        r == matches_parts(tree.nodes(), node.0 as int, words(sel@)),
{
    let parts = split_whitespace_chars(sel);
    assert(parts@.map_values(|v: Vec<char>| v@).take(parts.len() as int) =~= parts@.map_values(|v: Vec<char>| v@));
    matches_parts_exec(tree, node, &parts, parts.len())
}


/// Total length of a list of pieces.
pub open spec fn total_len(parts: Seq<Seq<char>>) -> int
    decreases parts.len(),
{
    if parts.len() == 0 {
        0
    } else {
        total_len(parts.drop_last()) + parts.last().len()
    }
}

pub proof fn lemma_total_len_concat(a: Seq<Seq<char>>, b: Seq<Seq<char>>)
    ensures
        total_len(a + b) == total_len(a) + total_len(b),
    decreases b.len(),
{
    if b.len() == 0 {
        assert(a + b =~= a);
    } else {
        assert((a + b).drop_last() =~= a + b.drop_last());
        lemma_total_len_concat(a, b.drop_last());
    }
}

pub proof fn lemma_total_len_single(x: Seq<char>)
    ensures
        total_len(seq![x]) == x.len(),
{
    assert(seq![x].drop_last() =~= Seq::<Seq<char>>::empty());
    assert(total_len(Seq::<Seq<char>>::empty()) == 0);
    assert(seq![x].last() == x);
}

pub proof fn lemma_split_total_len(s: Seq<char>, stop: spec_fn(char) -> bool, i: int)
    requires
        0 <= i <= s.len(),
    ensures
        total_len(split_by_from(s, stop, i)) <= s.len() - i,
    decreases s.len() + 1 - i,
{
    lemma_scan_until(s, i, stop);
    let k = scan_until(s, i, stop);
    if i <= k < s.len() {
        lemma_split_total_len(s, stop, k + 1);
        lemma_total_len_concat(seq![s.subrange(i, k)], split_by_from(s, stop, k + 1));
        lemma_total_len_single(s.subrange(i, k));
    } else {
        lemma_total_len_single(s.subrange(i, s.len() as int));
    }
}

pub proof fn lemma_segments_len(s: Seq<char>, start: int)
    requires
        0 <= start <= s.len(),
    ensures
        segments_from(s, start).len() <= s.len() - start,
    decreases s.len() - start,
{
    if start < s.len() {
        let next = scan_until(s, start + 1, |c: char| is_seg_start(c));
        lemma_scan_until(s, start + 1, |c: char| is_seg_start(c));
        if start < next < s.len() {
            lemma_segments_len(s, next);
        }
    }
}

pub proof fn lemma_segs_counts_bound(segs: Seq<Seq<char>>)
    ensures
        segs_counts(segs).0 <= segs.len(),
        segs_counts(segs).1 <= segs.len(),
        segs_counts(segs).2 <= segs.len(),
    decreases segs.len(),
{
    if segs.len() > 0 {
        lemma_segs_counts_bound(segs.drop_last());
    }
}

pub proof fn lemma_parts_counts_bound(parts: Seq<Seq<char>>)
    ensures
        parts_counts(parts).0 <= total_len(parts),
        parts_counts(parts).1 <= total_len(parts),
        parts_counts(parts).2 <= total_len(parts),
    decreases parts.len(),
{
    if parts.len() > 0 {
        lemma_parts_counts_bound(parts.drop_last());
        let t = trim(parts.last());
        lemma_trim_len(parts.last());
        if t.len() > 0 {
            lemma_segs_counts_bound(segments(t));
            lemma_segments_len(t, 0);
        }
    }
}

/// A selector's (id, class, type) counts never exceed its length.
pub proof fn lemma_specificity_counts_bound(selector: Seq<char>)
    ensures
        specificity_counts(selector).0 <= selector.len(),
        specificity_counts(selector).1 <= selector.len(),
        specificity_counts(selector).2 <= selector.len(),
        selector.len() <= u32::MAX ==> counts_fit(specificity_counts(selector)),
{
    lemma_parts_counts_bound(split_by_from(selector, sep_of(1), 0));
    lemma_split_total_len(selector, sep_of(1), 0);
}


/// A matched selector: its (id, class, type) counts and its rule's index.
pub type MatchKey = ((int, int, int), int);

/// Cascade order: specificity first, then source order.
pub open spec fn key_le(a: MatchKey, b: MatchKey) -> bool {
    if a.0.0 != b.0.0 {
        a.0.0 < b.0.0
    } else if a.0.1 != b.0.1 {
        a.0.1 < b.0.1
    } else if a.0.2 != b.0.2 {
        a.0.2 < b.0.2
    } else {
        a.1 <= b.1
    }
}

/// The comma-separated selectors of rule `order` that match node `n`.
pub open spec fn pieces_candidates(nodes: Seq<DomNode>, n: int, pieces: Seq<Seq<char>>, order: int) -> Seq<MatchKey>
    decreases pieces.len(),
{
    if pieces.len() == 0 {
        Seq::empty()
    } else {
        let t = trim(pieces.last());
        pieces_candidates(nodes, n, pieces.drop_last(), order) + if matches_parts(nodes, n, words(t)) {
            seq![(specificity_counts(t), order)]
        } else {
            Seq::empty()
        }
    }
}

/// The matches of all rules against node `n`, in rule order.
pub open spec fn all_candidates(nodes: Seq<DomNode>, n: int, selectors: Seq<Seq<char>>) -> Seq<MatchKey>
    decreases selectors.len(),
{
    if selectors.len() == 0 {
        Seq::empty()
    } else {
        all_candidates(nodes, n, selectors.drop_last()) + pieces_candidates(
            nodes,
            n,
            crate::text::split(selectors.last(), ','),
            selectors.len() - 1,
        )
    }
}

/// A list of matches in cascade order.
pub open spec fn sorted_keys(ms: Seq<MatchKey>) -> bool {
    forall|i: int, j: int| 0 <= i < j < ms.len() ==> key_le(ms[i], ms[j])
}

/// The view of a match: (counts, rule index).
pub open spec fn match_view(m: (Specificity, usize)) -> MatchKey {
    ((m.0.id as int, m.0.class as int, m.0.type_sel as int), m.1 as int)
}

/// The selectors of a list of rules.
pub open spec fn selectors_of(rules: Seq<RuleView>) -> Seq<Seq<char>> {
    rules.map_values(|r: RuleView| r.0)
}

/// The views of a list of rules.
pub open spec fn rule_views(rules: Seq<CssRule>) -> Seq<RuleView> {
    rules.map_values(|r: CssRule| r@)
}

fn key_gt(a: &(Specificity, usize), b: &(Specificity, usize)) -> (r: bool)
    ensures
        r == !key_le(match_view(*a), match_view(*b)),
{
    if a.0.id != b.0.id {
        a.0.id > b.0.id
    } else if a.0.class != b.0.class {
        a.0.class > b.0.class
    } else if a.0.type_sel != b.0.type_sel {
        a.0.type_sel > b.0.type_sel
    } else {
        a.1 > b.1
    }
}

/// The first index at or after `j` whose entry comes after `x`.
pub open spec fn insert_pos(s: Seq<MatchKey>, x: MatchKey, j: int) -> int
    decreases s.len() - j,
{
    if j < 0 || j >= s.len() || !key_le(s[j], x) {
        j
    } else {
        insert_pos(s, x, j + 1)
    }
}

/// `s` with `x` inserted after every leading entry that does not come
/// after it.
pub open spec fn insert_key(s: Seq<MatchKey>, x: MatchKey) -> Seq<MatchKey> {
    s.insert(insert_pos(s, x, 0), x)
}

/// Stable insertion sort into cascade order.
pub open spec fn sort_keys(s: Seq<MatchKey>) -> Seq<MatchKey>
    decreases s.len(),
{
    if s.len() == 0 {
        Seq::empty()
    } else {
        insert_key(sort_keys(s.drop_last()), s.last())
    }
}

pub proof fn lemma_insert_pos(s: Seq<MatchKey>, x: MatchKey, j: int)
    requires
        0 <= j <= s.len(),
        forall|t: int| 0 <= t < j ==> key_le(#[trigger] s[t], x),
    ensures
        j <= insert_pos(s, x, j) <= s.len(),
        forall|t: int| 0 <= t < insert_pos(s, x, j) ==> key_le(#[trigger] s[t], x),
        insert_pos(s, x, j) < s.len() ==> !key_le(s[insert_pos(s, x, j)], x),
    decreases s.len() - j,
{
    if j < s.len() && key_le(s[j], x) {
        lemma_insert_pos(s, x, j + 1);
    }
}

/// Inserting keeps a list in cascade order and adds the one entry.
pub proof fn lemma_insert_key(s: Seq<MatchKey>, x: MatchKey)
    requires
        sorted_keys(s),
    ensures
        sorted_keys(insert_key(s, x)),
        insert_key(s, x).to_multiset() == s.to_multiset().insert(x),
{
    lemma_insert_pos(s, x, 0);
    let j = insert_pos(s, x, 0);
    let nv = insert_key(s, x);
    vstd::seq_lib::to_multiset_insert(s, j, x);
    assert forall|a: int, b: int| 0 <= a < b < nv.len() implies key_le(nv[a], nv[b]) by {
        if b < j {
        } else if b == j {
        } else if a == j {
            assert(!key_le(s[j], x));
            assert(key_le(s[j], s[b - 1]) || j == b - 1);
        } else if a < j {
            assert(key_le(s[a], x));
            assert(!key_le(s[j], x));
            assert(key_le(s[j], s[b - 1]) || j == b - 1);
        } else {
            assert(key_le(s[a - 1], s[b - 1]));
        }
    }
}

/// Sorting puts the matches in cascade order and keeps exactly the same
/// matches.
pub proof fn lemma_sort_keys(s: Seq<MatchKey>)
    ensures
        sorted_keys(sort_keys(s)),
        sort_keys(s).to_multiset() == s.to_multiset(),
    decreases s.len(),
{
    broadcast use vstd::seq_lib::group_to_multiset_ensures;
    if s.len() == 0 {
        assert(s =~= Seq::<MatchKey>::empty());
    } else {
        lemma_sort_keys(s.drop_last());
        lemma_insert_key(sort_keys(s.drop_last()), s.last());
        assert(s.drop_last().push(s.last()) =~= s);
    }
}

/// Inserts `x` into the cascade-ordered `out`, after every entry that does
/// not come after it, and returns where it went.
fn insert_sorted(out: &mut Vec<(Specificity, usize)>, x: (Specificity, usize)) -> (r: usize)
    ensures
        r <= old(out)@.len(),
        final(out)@ == old(out)@.insert(r as int, x),
        final(out)@.map_values(|m: (Specificity, usize)| match_view(m))
            == insert_key(old(out)@.map_values(|m: (Specificity, usize)| match_view(m)), match_view(x)),
{
    let ghost ov = out@.map_values(|m: (Specificity, usize)| match_view(m));
    let mut j: usize = 0;
    while j < out.len() && !key_gt(&out[j], &x)
        invariant
            j <= out.len(),
            ov == out@.map_values(|m: (Specificity, usize)| match_view(m)),
            forall|t: int| 0 <= t < j ==> key_le(ov[t], match_view(x)),
        decreases out.len() - j,
    {
        j += 1;
    }
    proof {
        assert(insert_pos(ov, match_view(x), 0) == insert_pos(ov, match_view(x), j as int)) by {
            lemma_insert_pos_skip(ov, match_view(x), 0, j as int);
        }
    }
    out.insert(j, x);
    proof {
        let nv = out@.map_values(|m: (Specificity, usize)| match_view(m));
        assert(nv =~= ov.insert(j as int, match_view(x)));
    }
    j
}

pub proof fn lemma_insert_pos_skip(s: Seq<MatchKey>, x: MatchKey, i: int, j: int)
    requires
        0 <= i <= j <= s.len(),
        forall|t: int| i <= t < j ==> key_le(#[trigger] s[t], x),
        j == s.len() || !key_le(s[j], x),
    ensures
        insert_pos(s, x, i) == j,
    decreases j - i,
{
    if i < j {
        lemma_insert_pos_skip(s, x, i + 1, j);
    }
}


/// The declarations of the rules that `keys` point at, one rule after the
/// other.
pub open spec fn decls_of_keys(rules: Seq<RuleView>, keys: Seq<MatchKey>) -> Seq<(Seq<char>, Seq<char>, bool)>
    decreases keys.len(),
{
    if keys.len() == 0 {
        Seq::empty()
    } else {
        decls_of_keys(rules, keys.drop_last()) + rules[keys.last().1].1
    }
}

/// The name of the inline style attribute.
pub open spec fn style_name() -> Seq<char> {
    seq!['s', 't', 'y', 'l', 'e']
}

/// The declarations of a node's `style` attribute (none without one).
pub open spec fn inline_decls(node: DomNode) -> Seq<(Seq<char>, Seq<char>, bool)> {
    match node.spec_attr(style_name()) {
        Some(v) => style_decls(v),
        None => Seq::empty(),
    }
}

/// The matches of the rules' selectors against node `n`, in cascade order.
pub open spec fn matched_keys(nodes: Seq<DomNode>, n: int, rules: Seq<RuleView>) -> Seq<MatchKey> {
    sort_keys(all_candidates(nodes, n, selectors_of(rules)))
}

/// Everything the cascade applies to node `n`, in the order it is applied:
/// the declarations of each matched rule in cascade order, then the inline
/// style.
pub open spec fn cascaded_decls(nodes: Seq<DomNode>, n: int, rules: Seq<RuleView>) -> Seq<(Seq<char>, Seq<char>, bool)> {
    decls_of_keys(rules, matched_keys(nodes, n, rules)) + inline_decls(nodes[n])
}

/// The `t`-th comma-separated selector of rule `k`, trimmed.
pub open spec fn rule_piece(rules: Seq<RuleView>, k: int, t: int) -> Seq<char> {
    trim(crate::text::split(rules[k].0, ',')[t])
}

/// A comma-separated selector of rule `k` matches node `n` and its
/// (id, class, type) counts do not fit in `u32`.
pub open spec fn overflows_at(nodes: Seq<DomNode>, n: int, rules: Seq<RuleView>, k: int, t: int) -> bool {
    &&& 0 <= k < rules.len()
    &&& 0 <= t < crate::text::split(rules[k].0, ',').len()
    &&& matches_parts(nodes, n, words(rule_piece(rules, k, t)))
    &&& !counts_fit(specificity_counts(rule_piece(rules, k, t)))
}

/// Every comma-separated selector of the rules that matches node `n` has
/// (id, class, type) counts that fit in `u32`.
pub open spec fn matches_fit(nodes: Seq<DomNode>, n: int, rules: Seq<RuleView>) -> bool {
    forall|k: int, t: int| !#[trigger] overflows_at(nodes, n, rules, k, t)
}

/// The rules whose selectors (each comma-separated one on its own) match
/// `node`, with that selector's specificity and the rule's index, sorted by
/// specificity and then by index.
pub fn matched_rules(tree: &DomTree, node: DomNodeId, rules: &Vec<CssRule>) -> (r: Option<Vec<(Specificity, usize)>>)
    requires
        tree.wf(),
        node.0 < tree.nodes().len(),
    ensures
        r is None <==> !matches_fit(tree.nodes(), node.0 as int, rule_views(rules@)),
        r matches Some(v) ==> v@.map_values(|m: (Specificity, usize)| match_view(m)) == matched_keys(tree.nodes(), node.0 as int, rule_views(rules@)),
        r matches Some(v) ==> forall|i: int| 0 <= i < v@.len() ==> (#[trigger] v@[i]).1 < rules.len(),
{
    let mut out: Vec<(Specificity, usize)> = Vec::new();
    let ghost nodes = tree.nodes();
    let ghost n = node.0 as int;
    let ghost sels = selectors_of(rule_views(rules@));
    let mut order: usize = 0;
    proof {
        assert(sels.take(0).len() == 0);
        assert(out@.map_values(|m: (Specificity, usize)| match_view(m)) =~= Seq::<MatchKey>::empty());
    }
    while order < rules.len()
        invariant
            tree.wf(),
            nodes == tree.nodes(),
            n == node.0,
            n < nodes.len(),
            sels == selectors_of(rule_views(rules@)),
            order <= rules.len(),
            forall|k: int, t: int| k < order ==> !#[trigger] overflows_at(nodes, n, rule_views(rules@), k, t),
            out@.map_values(|m: (Specificity, usize)| match_view(m)) == sort_keys(
                all_candidates(nodes, n, sels.take(order as int)),
            ),
            forall|i: int| 0 <= i < out@.len() ==> (#[trigger] out@[i]).1 < rules.len(),
        decreases rules.len() - order,
    {
        let sel = chars_of(rules[order].selector.as_str());
        proof {
            assert(rule_views(rules@)[order as int].0 == sel@);
        }
        let bounds = split_bounds(&sel, ',', 0);
        let ghost pieces = crate::text::split(sel@, ',');
        let ghost base = all_candidates(nodes, n, sels.take(order as int));
        let mut j: usize = 0;
        proof {
            assert(pieces.take(0).len() == 0);
            assert(base + pieces_candidates(nodes, n, pieces.take(0), order as int) =~= base);
        }
        while j < bounds.len()
            invariant
                tree.wf(),
                nodes == tree.nodes(),
                n == node.0,
                n < nodes.len(),
                order < rules.len(),
                sel@ == rules@[order as int].selector@,
                sel@ == rule_views(rules@)[order as int].0,
                pieces == crate::text::split(sel@, ','),
                forall|k: int, t: int| k < order ==> !#[trigger] overflows_at(nodes, n, rule_views(rules@), k, t),
                forall|t: int| t < j ==> !#[trigger] overflows_at(nodes, n, rule_views(rules@), order as int, t),
                bounds@.len() == pieces.len(),
                forall|t: int|
                    0 <= t < bounds@.len() ==> (#[trigger] bounds@[t]).0 <= bounds@[t].1 <= sel.len()
                        && sel@.subrange(bounds@[t].0 as int, bounds@[t].1 as int) == pieces[t],
                j <= bounds.len(),
                out@.map_values(|m: (Specificity, usize)| match_view(m)) == sort_keys(
                    base + pieces_candidates(nodes, n, pieces.take(j as int), order as int),
                ),
                forall|i: int| 0 <= i < out@.len() ==> (#[trigger] out@[i]).1 < rules.len(),
            decreases bounds.len() - j,
        {
            let (lo, hi) = bounds[j];
            let (a, b) = trim_bounds(&sel, lo, hi);
            let piece = sub_chars(&sel, a, b);
            let ghost prev = base + pieces_candidates(nodes, n, pieces.take(j as int), order as int);
            proof {
                assert(pieces.take(j + 1).drop_last() =~= pieces.take(j as int));
                assert(piece@ == trim(pieces[j as int]));
            }
            proof {
                assert(piece@ == rule_piece(rule_views(rules@), order as int, j as int));
            }
            if selector_matches_chars(tree, node, &piece) {
                let c = selector_counts(&piece);
                if c.0 > 0xffff_ffff || c.1 > 0xffff_ffff || c.2 > 0xffff_ffff {
                    proof {
                        assert(overflows_at(nodes, n, rule_views(rules@), order as int, j as int));
                    }
                    return None;
                }
                let spec = Specificity::new(c.0 as u32, c.1 as u32, c.2 as u32);
                let ghost before = out@;
                let pos = insert_sorted(&mut out, (spec, order));
                proof {
                    let x = match_view((spec, order));
                    assert(x == (specificity_counts(trim(pieces[j as int])), order as int));
                    assert(base + pieces_candidates(nodes, n, pieces.take(j + 1), order as int) =~= prev.push(x));
                    assert(prev.push(x).drop_last() =~= prev);
                    before.insert_ensures(pos as int, (spec, order));
                    assert forall|i: int| 0 <= i < out@.len() implies (#[trigger] out@[i]).1 < rules.len() by {
                        if i < pos {
                            assert(out@[i] == before[i]);
                        } else if i > pos {
                            assert(out@[i] == before[i - 1]);
                        }
                    }
                }
            } else {
                proof {
                    assert(base + pieces_candidates(nodes, n, pieces.take(j + 1), order as int) =~= prev);
                }
            }
            proof {
                assert(!overflows_at(nodes, n, rule_views(rules@), order as int, j as int));
            }
            j += 1;
        }
        proof {
            assert forall|t: int| !#[trigger] overflows_at(nodes, n, rule_views(rules@), order as int, t) by {
                if 0 <= t < pieces.len() {
                    assert(t < j);
                }
            }
        }
        proof {
            assert(pieces.take(bounds.len() as int) =~= pieces);
            assert(sels.take(order + 1).drop_last() =~= sels.take(order as int));
            assert(sels.take(order + 1).last() == sel@);
        }
        order += 1;
    }
    proof {
        assert(sels.take(rules.len() as int) =~= sels);
        assert forall|k: int, t: int| !#[trigger] overflows_at(nodes, n, rule_views(rules@), k, t) by {
            if k < order {
            }
        }
    }
    Some(out)
}

/// Everything the cascade applies to `node`, in the order it is applied:
/// the declarations of every matched rule in cascade order, then those of
/// the node's `style` attribute.
pub fn cascaded_declarations(tree: &DomTree, node: DomNodeId, rules: &Vec<CssRule>) -> (r: Option<Vec<CssDeclaration>>)
    requires
        tree.wf(),
        node.0 < tree.nodes().len(),
    ensures
        r is None <==> !matches_fit(tree.nodes(), node.0 as int, rule_views(rules@)),
        r matches Some(v) ==> v@.map_values(|d: CssDeclaration| d@) == cascaded_decls(tree.nodes(), node.0 as int, rule_views(rules@)),
{
    let matched = match matched_rules(tree, node, rules) {
        Some(m) => m,
        None => {
            return None;
        },
    };
    let ghost keys = matched_keys(tree.nodes(), node.0 as int, rule_views(rules@));
    let mut out: Vec<CssDeclaration> = Vec::new();
    let mut i: usize = 0;
    proof {
        assert(keys.take(0).len() == 0);
        assert(out@.map_values(|d: CssDeclaration| d@) =~= Seq::<(Seq<char>, Seq<char>, bool)>::empty());
    }
    while i < matched.len()
        invariant
            keys == matched@.map_values(|m: (Specificity, usize)| match_view(m)),
            forall|t: int| 0 <= t < matched@.len() ==> (#[trigger] matched@[t]).1 < rules.len(),
            i <= matched.len(),
            out@.map_values(|d: CssDeclaration| d@) == decls_of_keys(rule_views(rules@), keys.take(i as int)),
        decreases matched.len() - i,
    {
        let k = matched[i].1;
        let decls = &rules[k].declarations;
        let ghost start = out@.map_values(|d: CssDeclaration| d@);
        let ghost dv = decls@.map_values(|d: CssDeclaration| d@);
        let mut t: usize = 0;
        proof {
            assert(out@.map_values(|d: CssDeclaration| d@) =~= start + dv.take(0));
        }
        while t < decls.len()
            invariant
                dv == decls@.map_values(|d: CssDeclaration| d@),
                t <= decls.len(),
                out@.map_values(|d: CssDeclaration| d@) == start + dv.take(t as int),
            decreases decls.len() - t,
        {
            let d = decls[t].clone();
            let ghost before = out@;
            out.push(d);
            proof {
                assert(out@.map_values(|d: CssDeclaration| d@) =~= before.map_values(|d: CssDeclaration| d@).push(dv[t as int]));
                assert(dv.take(t + 1) =~= dv.take(t as int).push(dv[t as int]));
            }
            t += 1;
        }
        proof {
            assert(dv.take(decls.len() as int) =~= dv);
            assert(keys.take(i + 1).drop_last() =~= keys.take(i as int));
            assert(keys.take(i + 1).last() == match_view(matched@[i as int]));
            assert(rule_views(rules@)[k as int].1 == dv);
        }
        i += 1;
    }
    proof {
        assert(keys.take(matched.len() as int) =~= keys);
    }
    let name = "style";
    proof {
        reveal_strlit("style");
        assert(name@ =~= style_name());
    }
    let dom_node = tree.node(node);
    match dom_node.get_attribute(name) {
        Some(st) => {
            let inline = parse_style_attribute(st);
            let ghost before = out@;
            let mut t: usize = 0;
            let ghost iv = inline@.map_values(|d: CssDeclaration| d@);
            proof {
                assert(out@.map_values(|d: CssDeclaration| d@) =~= before.map_values(|d: CssDeclaration| d@) + iv.take(0));
            }
            while t < inline.len()
                invariant
                    iv == inline@.map_values(|d: CssDeclaration| d@),
                    t <= inline.len(),
                    out@.map_values(|d: CssDeclaration| d@) == before.map_values(|d: CssDeclaration| d@) + iv.take(t as int),
                decreases inline.len() - t,
            {
                let d = inline[t].clone();
                let ghost b2 = out@;
                out.push(d);
                proof {
                    assert(out@.map_values(|d: CssDeclaration| d@) =~= b2.map_values(|d: CssDeclaration| d@).push(iv[t as int]));
                    assert(iv.take(t + 1) =~= iv.take(t as int).push(iv[t as int]));
                }
                t += 1;
            }
            proof {
                assert(iv.take(inline.len() as int) =~= iv);
            }
        },
        None => {
            proof {
                assert(out@.map_values(|d: CssDeclaration| d@) =~= out@.map_values(|d: CssDeclaration| d@) + Seq::<(Seq<char>, Seq<char>, bool)>::empty());
            }
        },
    }
    Some(out)
}

/// The selector counts that the cascade computes for the elements of the
/// tree all fit in `u32`.
pub open spec fn elements_fit(nodes: Seq<DomNode>, rules: Seq<RuleView>) -> bool {
    forall|x: int| 0 <= x < nodes.len() && nodes[x].kind is Element ==> matches_fit(nodes, x, rules)
}

/// The element nodes among `order`, in order.
pub open spec fn elements_in(nodes: Seq<DomNode>, order: Seq<int>) -> Seq<int>
    decreases order.len(),
{
    if order.len() == 0 {
        Seq::empty()
    } else {
        elements_in(nodes, order.drop_last()) + if nodes[order.last()].kind is Element {
            seq![order.last()]
        } else {
            Seq::empty()
        }
    }
}

/// For every element of the tree, in depth-first pre-order, everything the
/// cascade applies to it from the rules of `stylesheets` (taken one sheet
/// after the other) and from its own `style` attribute, in the order it is
/// applied.
pub fn element_declarations(tree: &DomTree, stylesheets: &Vec<String>) -> (r: Option<Vec<(DomNodeId, Vec<CssDeclaration>)>>)
    requires
        tree.wf(),
        sheets_fit(stylesheets@.map_values(|t: String| t@), usize::MAX - 2),
    ensures
        r is None <==> !elements_fit(tree.nodes(), sheet_rules(stylesheets@.map_values(|t: String| t@))),
        r matches Some(v) ==> v@.map_values(|e: (DomNodeId, Vec<CssDeclaration>)| e.0.0 as int) == elements_in(
            tree.nodes(),
            preorder(tree.nodes(), 0),
        ),
        r matches Some(v) ==> forall|i: int|
            0 <= i < v@.len() ==> (#[trigger] v@[i]).1@.map_values(|d: CssDeclaration| d@) == cascaded_decls(
                tree.nodes(),
                v@[i].0.0 as int,
                sheet_rules(stylesheets@.map_values(|t: String| t@)),
            ),
{
    let ghost sv = stylesheets@.map_values(|t: String| t@);
    let rules = collect_rules(stylesheets);
    proof {
        assert(rule_views(rules@) =~= sheet_rules(sv));
    }
    let ghost nodes = tree.nodes();
    let ghost all = preorder(nodes, 0);
    let ghost mut visited: Seq<int> = Seq::empty();
    let mut out: Vec<(DomNodeId, Vec<CssDeclaration>)> = Vec::new();
    let mut it = tree.iter_dfs();
    proof {
        assert(all =~= visited + it.remaining());
        assert(out@.map_values(|e: (DomNodeId, Vec<CssDeclaration>)| e.0.0 as int) =~= elements_in(nodes, visited));
    }
    loop
        invariant
            tree.wf(),
            nodes == tree.nodes(),
            rule_views(rules@) == sheet_rules(sv),
            sv == stylesheets@.map_values(|t: String| t@),
            it.inv(),
            forall|i: int| 0 <= i < visited.len() && nodes[visited[i]].kind is Element ==> #[trigger] matches_fit(nodes, visited[i], sheet_rules(sv)),
            it.tree_nodes() == nodes,
            all == visited + it.remaining(),
            out@.map_values(|e: (DomNodeId, Vec<CssDeclaration>)| e.0.0 as int) == elements_in(nodes, visited),
            forall|i: int|
                0 <= i < out@.len() ==> (#[trigger] out@[i]).1@.map_values(|d: CssDeclaration| d@) == cascaded_decls(
                    nodes,
                    out@[i].0.0 as int,
                    sheet_rules(sv),
                ),
        ensures
            tree.wf(),
            all == visited,
            forall|i: int| 0 <= i < visited.len() && nodes[visited[i]].kind is Element ==> #[trigger] matches_fit(nodes, visited[i], sheet_rules(sv)),
            out@.map_values(|e: (DomNodeId, Vec<CssDeclaration>)| e.0.0 as int) == elements_in(nodes, all),
            forall|i: int|
                0 <= i < out@.len() ==> (#[trigger] out@[i]).1@.map_values(|d: CssDeclaration| d@) == cascaded_decls(
                    nodes,
                    out@[i].0.0 as int,
                    sheet_rules(sv),
                ),
        decreases it.remaining().len(),
    {
        let ghost rem = it.remaining();
        match it.next() {
            None => {
                proof {
                    assert(all =~= visited);
                }
                break;
            },
            Some(id) => {
                let nd = tree.node(id);
                let ghost before = out@;
                if nd.is_element() {
                    let decls = match cascaded_declarations(tree, id, &rules) {
                        Some(d) => d,
                        None => {
                            proof {
                                assert(!matches_fit(nodes, id.0 as int, sheet_rules(sv)));
                                assert(nodes[id.0 as int].kind is Element);
                                assert(!elements_fit(nodes, sheet_rules(sv)));
                            }
                            return None;
                        },
                    };
                    out.push((id, decls));
                    proof {
                        assert forall|i: int|
                            0 <= i < out@.len() implies (#[trigger] out@[i]).1@.map_values(|d: CssDeclaration| d@) == cascaded_decls(
                                nodes,
                                out@[i].0.0 as int,
                                sheet_rules(sv),
                            ) by {
                            if i < before.len() {
                                assert(out@[i] == before[i]);
                            }
                        }
                    }
                }
                proof {
                    let nv = visited.push(id.0 as int);
                    assert(nv.drop_last() =~= visited);
                    assert forall|i: int| 0 <= i < nv.len() && nodes[nv[i]].kind is Element implies #[trigger] matches_fit(nodes, nv[i], sheet_rules(sv)) by {
                        if i < visited.len() {
                            assert(nv[i] == visited[i]);
                        }
                    }
                    assert(out@.map_values(|e: (DomNodeId, Vec<CssDeclaration>)| e.0.0 as int) =~= elements_in(nodes, nv));
                    assert(all =~= nv + it.remaining());
                    visited = nv;
                }
            },
        }
    }
    proof {
        tree.lemma_wf();
        law_walk_visits_every_node_once(nodes);
        assert forall|x: int| 0 <= x < nodes.len() && nodes[x].kind is Element implies matches_fit(nodes, x, sheet_rules(sv)) by {
            assert(all.contains(x));
            let i = choose|i: int| 0 <= i < all.len() && all[i] == x;
            assert(visited[i] == x);
        }
    }
    Some(out)
}


/// The display each tag gets before any rule applies (tags compared in
/// lower case).
pub open spec fn display_table() -> Seq<(Seq<char>, Display)> {
    seq![
        ("html"@, Display { outer: DisplayOuter::Block, inner: DisplayInner::Flow }),
        ("body"@, Display { outer: DisplayOuter::Block, inner: DisplayInner::Flow }),
        ("div"@, Display { outer: DisplayOuter::Block, inner: DisplayInner::Flow }),
        ("p"@, Display { outer: DisplayOuter::Block, inner: DisplayInner::Flow }),
        ("h1"@, Display { outer: DisplayOuter::Block, inner: DisplayInner::Flow }),
        ("h2"@, Display { outer: DisplayOuter::Block, inner: DisplayInner::Flow }),
        ("h3"@, Display { outer: DisplayOuter::Block, inner: DisplayInner::Flow }),
        ("h4"@, Display { outer: DisplayOuter::Block, inner: DisplayInner::Flow }),
        ("h5"@, Display { outer: DisplayOuter::Block, inner: DisplayInner::Flow }),
        ("h6"@, Display { outer: DisplayOuter::Block, inner: DisplayInner::Flow }),
        ("ul"@, Display { outer: DisplayOuter::Block, inner: DisplayInner::Flow }),
        ("ol"@, Display { outer: DisplayOuter::Block, inner: DisplayInner::Flow }),
        ("li"@, Display { outer: DisplayOuter::Block, inner: DisplayInner::Flow }),
        ("article"@, Display { outer: DisplayOuter::Block, inner: DisplayInner::Flow }),
        ("section"@, Display { outer: DisplayOuter::Block, inner: DisplayInner::Flow }),
        ("nav"@, Display { outer: DisplayOuter::Block, inner: DisplayInner::Flow }),
        ("aside"@, Display { outer: DisplayOuter::Block, inner: DisplayInner::Flow }),
        ("header"@, Display { outer: DisplayOuter::Block, inner: DisplayInner::Flow }),
        ("footer"@, Display { outer: DisplayOuter::Block, inner: DisplayInner::Flow }),
        ("main"@, Display { outer: DisplayOuter::Block, inner: DisplayInner::Flow }),
        ("figure"@, Display { outer: DisplayOuter::Block, inner: DisplayInner::Flow }),
        ("figcaption"@, Display { outer: DisplayOuter::Block, inner: DisplayInner::Flow }),
        ("blockquote"@, Display { outer: DisplayOuter::Block, inner: DisplayInner::Flow }),
        ("pre"@, Display { outer: DisplayOuter::Block, inner: DisplayInner::Flow }),
        ("hr"@, Display { outer: DisplayOuter::Block, inner: DisplayInner::Flow }),
        ("form"@, Display { outer: DisplayOuter::Block, inner: DisplayInner::Flow }),
        ("fieldset"@, Display { outer: DisplayOuter::Block, inner: DisplayInner::Flow }),
        ("legend"@, Display { outer: DisplayOuter::Block, inner: DisplayInner::Flow }),
        ("details"@, Display { outer: DisplayOuter::Block, inner: DisplayInner::Flow }),
        ("summary"@, Display { outer: DisplayOuter::Block, inner: DisplayInner::Flow }),
        ("dl"@, Display { outer: DisplayOuter::Block, inner: DisplayInner::Flow }),
        ("dt"@, Display { outer: DisplayOuter::Block, inner: DisplayInner::Flow }),
        ("dd"@, Display { outer: DisplayOuter::Block, inner: DisplayInner::Flow }),
        ("address"@, Display { outer: DisplayOuter::Block, inner: DisplayInner::Flow }),
        ("table"@, Display { outer: DisplayOuter::Block, inner: DisplayInner::Table }),
        ("tr"@, Display { outer: DisplayOuter::Block, inner: DisplayInner::TableRow }),
        ("td"@, Display { outer: DisplayOuter::Block, inner: DisplayInner::TableCell }),
        ("th"@, Display { outer: DisplayOuter::Block, inner: DisplayInner::TableCell }),
        ("thead"@, Display { outer: DisplayOuter::Block, inner: DisplayInner::TableHeaderGroup }),
        ("tbody"@, Display { outer: DisplayOuter::Block, inner: DisplayInner::TableRowGroup }),
        ("tfoot"@, Display { outer: DisplayOuter::Block, inner: DisplayInner::TableFooterGroup }),
        ("colgroup"@, Display { outer: DisplayOuter::Block, inner: DisplayInner::TableColumnGroup }),
        ("col"@, Display { outer: DisplayOuter::Block, inner: DisplayInner::TableColumn }),
        ("caption"@, Display { outer: DisplayOuter::Block, inner: DisplayInner::TableCaption }),
    ]
}

/// The display of the first entry named `t`; inline when there is none.
pub open spec fn lookup_display(table: Seq<(Seq<char>, Display)>, t: Seq<char>) -> Display
    decreases table.len(),
{
    if table.len() == 0 {
        Display { outer: DisplayOuter::Inline, inner: DisplayInner::Flow }
    } else if table[0].0 == t {
        table[0].1
    } else {
        lookup_display(table.drop_first(), t)
    }
}

/// The display an element with this tag gets before any rule applies:
/// block for the block-level tags, the table displays for the table tags,
/// inline for every other tag (compared after Unicode lower-casing).
pub open spec fn default_display_of(tag: Seq<char>) -> Display {
    lookup_display(display_table(), unicode_lowercase(tag))
}

/// The display an element with this tag gets before any rule applies.
pub fn default_display_for_tag(tag: &str) -> (r: Display)
    ensures
        r == default_display_of(tag@),
{
    let lower_string = to_lowercase(tag);
    let lower = chars_of(lower_string.as_str());
    let table: Vec<(&str, Display)> = vec![
        ("html", Display::block()),
        ("body", Display::block()),
        ("div", Display::block()),
        ("p", Display::block()),
        ("h1", Display::block()),
        ("h2", Display::block()),
        ("h3", Display::block()),
        ("h4", Display::block()),
        ("h5", Display::block()),
        ("h6", Display::block()),
        ("ul", Display::block()),
        ("ol", Display::block()),
        ("li", Display::block()),
        ("article", Display::block()),
        ("section", Display::block()),
        ("nav", Display::block()),
        ("aside", Display::block()),
        ("header", Display::block()),
        ("footer", Display::block()),
        ("main", Display::block()),
        ("figure", Display::block()),
        ("figcaption", Display::block()),
        ("blockquote", Display::block()),
        ("pre", Display::block()),
        ("hr", Display::block()),
        ("form", Display::block()),
        ("fieldset", Display::block()),
        ("legend", Display::block()),
        ("details", Display::block()),
        ("summary", Display::block()),
        ("dl", Display::block()),
        ("dt", Display::block()),
        ("dd", Display::block()),
        ("address", Display::block()),
        ("table", Display::table()),
        ("tr", Display::table_row()),
        ("td", Display::table_cell()),
        ("th", Display::table_cell()),
        ("thead", Display::table_header_group()),
        ("tbody", Display::table_row_group()),
        ("tfoot", Display::table_footer_group()),
        ("colgroup", Display::table_column_group()),
        ("col", Display::table_column()),
        ("caption", Display::table_caption()),
    ];
    let ghost views = table@.map_values(|e: (&str, Display)| (e.0@, e.1));
    assert(views =~= display_table());
    let mut i: usize = 0;
    assert(views.subrange(0, views.len() as int) =~= views);
    while i < table.len()
        invariant
            i <= table.len(),
            views == table@.map_values(|e: (&str, Display)| (e.0@, e.1)),
            views == display_table(),
            lower@ == unicode_lowercase(tag@),
            lookup_display(views, lower@) == lookup_display(views.subrange(i as int, views.len() as int), lower@),
        decreases table.len() - i,
    {
        let ghost rest = views.subrange(i as int, views.len() as int);
        assert(rest[0] == views[i as int]);
        assert(rest.drop_first() =~= views.subrange(i + 1, views.len() as int));
        let name = chars_of(table[i].0);
        assert(views[i as int] == (table@[i as int].0@, table@[i as int].1));
        if chars_eq(&name, &lower) {
            assert(lookup_display(rest, lower@) == rest[0].1);
            return table[i].1;
        }
        i += 1;
    }
    assert(views.subrange(i as int, views.len() as int) =~= Seq::<(Seq<char>, Display)>::empty());
    Display::inline()
}

/// The rules matched against a node come in cascade order (specificity,
/// then source order), and they are exactly the matches of the rules'
/// selectors, each as often as it matches.
pub proof fn law_matched_rules_in_cascade_order(nodes: Seq<DomNode>, n: int, rules: Seq<RuleView>)
    ensures
        sorted_keys(matched_keys(nodes, n, rules)),
        matched_keys(nodes, n, rules).to_multiset() == all_candidates(nodes, n, selectors_of(rules)).to_multiset(),
{
    lemma_sort_keys(all_candidates(nodes, n, selectors_of(rules)));
}

/// The declarations of a node's `style` attribute are applied after those
/// of every matched rule, so they win.
pub proof fn law_inline_style_applies_last(nodes: Seq<DomNode>, n: int, rules: Seq<RuleView>)
    ensures
        cascaded_decls(nodes, n, rules).len() >= inline_decls(nodes[n]).len(),
        cascaded_decls(nodes, n, rules).subrange(
            cascaded_decls(nodes, n, rules).len() - inline_decls(nodes[n]).len(),
            cascaded_decls(nodes, n, rules).len() as int,
        ) == inline_decls(nodes[n]),
{
    let a = decls_of_keys(rules, matched_keys(nodes, n, rules));
    let b = inline_decls(nodes[n]);
    assert((a + b).subrange(a.len() as int, (a + b).len() as int) =~= b);
}

/// Which default margins an element starts with.
#[derive(Debug, Clone, Copy, PartialEq, Eq, Structural)]
pub enum DefaultMargins {
    /// No margins.
    NoMargins,
    /// The body's margin on all four sides.
    Body,
    /// A vertical margin above and below (paragraphs, block quotes,
    /// figures and lists).
    Paragraph,
    /// The vertical margin of a level-one heading.
    Heading,
}

/// The tags with paragraph margins.
pub open spec fn paragraph_names() -> Seq<Seq<char>> {
    seq!["p"@, "blockquote"@, "figure"@, "ul"@, "ol"@, "dl"@]
}

/// The default margins of an element with this tag (compared after Unicode
/// lower-casing).
pub open spec fn default_margins_of(tag: Seq<char>) -> DefaultMargins {
    let t = unicode_lowercase(tag);
    if t == "body"@ {
        DefaultMargins::Body
    } else if paragraph_names().contains(t) {
        DefaultMargins::Paragraph
    } else if t == "h1"@ {
        DefaultMargins::Heading
    } else {
        DefaultMargins::NoMargins
    }
}

/// The default margins of an element with this tag.
pub fn default_margins_for_tag(tag: &str) -> (r: DefaultMargins)
    ensures
        r == default_margins_of(tag@),
{
    let lower_string = to_lowercase(tag);
    let lower = chars_of(lower_string.as_str());
    if chars_eq(&lower, &crate::text::lit("body")) {
        return DefaultMargins::Body;
    }
    let names = vec!["p", "blockquote", "figure", "ul", "ol", "dl"];
    let ghost views = names@.map_values(|n: &str| n@);
    assert(views =~= paragraph_names());
    let mut i: usize = 0;
    while i < names.len()
        invariant
            i <= names.len(),
            names.len() == 6,
            views == names@.map_values(|n: &str| n@),
            views == paragraph_names(),
            lower@ == unicode_lowercase(tag@),
            lower@ != "body"@,
            forall|j: int| 0 <= j < i ==> views[j] != lower@,
        decreases names.len() - i,
    {
        let candidate = chars_of(names[i]);
        if chars_eq(&candidate, &lower) {
            assert(views[i as int] == lower@);
            return DefaultMargins::Paragraph;
        }
        i += 1;
    }
    if chars_eq(&lower, &crate::text::lit("h1")) {
        DefaultMargins::Heading
    } else {
        DefaultMargins::NoMargins
    }
}

} // verus!
