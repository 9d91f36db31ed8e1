//! From a styled DOM to the shape of its box tree: the layout root, the
//! style sheets of `<style>` elements, the display an element gets before
//! any rule applies, and which nodes become boxes under which parent.

use vstd::prelude::*;
use crate::dom::{
    DomTree, DomNode, DomNodeId, DomNodeKind, nodes_wf, child, preorder, first_match, tag_matches,
};
use crate::style::DisplayInner;
use crate::text::{
    chars_of, chars_eq, string_of, to_lowercase, unicode_lowercase, trim, trim_bounds,
    eq_ignore_ascii_case, str_eq_ignore_ascii_case,
};

verus! {

/// The formatting context that a box lays its children out in.
#[derive(Debug, Clone, Copy, PartialEq, Eq, Structural)]
pub enum FormattingContextType {
    Block,
    Inline,
    Flex,
    Grid,
    Table,
}

/// Flex, grid and table containers have a formatting context of their
/// own; any other box lays its children out in lines when it has children
/// and each of them is text or inline-level (`inline_kids`), else in
/// blocks.
pub open spec fn context_of(inner: DisplayInner, inline_kids: Seq<bool>) -> FormattingContextType {
    match inner {
        DisplayInner::Flex => FormattingContextType::Flex,
        DisplayInner::Grid => FormattingContextType::Grid,
        DisplayInner::Table => FormattingContextType::Table,
        _ => if inline_kids.len() > 0 && forall|i: int| 0 <= i < inline_kids.len() ==> #[trigger] inline_kids[i] {
            FormattingContextType::Inline
        } else {
            FormattingContextType::Block
        },
    }
}

/// The formatting context of a box whose display has inner type `inner`
/// and whose children are text or inline-level as `inline_kids` says.
pub fn formatting_context_of(inner: DisplayInner, inline_kids: &Vec<bool>) -> (r: FormattingContextType)
    ensures
        r == context_of(inner, inline_kids@),
{
    match inner {
        DisplayInner::Flex => FormattingContextType::Flex,
        DisplayInner::Grid => FormattingContextType::Grid,
        DisplayInner::Table => FormattingContextType::Table,
        _ => {
            let mut all = inline_kids.len() > 0;
            let mut i: usize = 0;
            while i < inline_kids.len()
                invariant
                    i <= inline_kids.len(),
                    all == (inline_kids@.len() > 0 && forall|j: int| 0 <= j < i ==> #[trigger] inline_kids@[j]),
                decreases inline_kids.len() - i,
            {
                if !inline_kids[i] {
                    all = false;
                }
                i += 1;
            }
            if all {
                FormattingContextType::Inline
            } else {
                FormattingContextType::Block
            }
        },
    }
}

/// The element laid out as the root: the first `<body>`, else the first
/// `<html>`, else the document.
pub open spec fn layout_root(nodes: Seq<DomNode>) -> int {
    match first_match(preorder(nodes, 0), tag_matches(nodes, seq!['b', 'o', 'd', 'y'])) {
        Some(i) => i,
        None => match first_match(preorder(nodes, 0), tag_matches(nodes, seq!['h', 't', 'm', 'l'])) {
            Some(i) => i,
            None => 0,
        },
    }
}

/// Find the element to use as the layout root.
pub fn find_layout_root(dom: &DomTree) -> (r: DomNodeId)
    requires
        dom.wf(),
    ensures
        r.0 == layout_root(dom.nodes()),
{
    if let Some(body) = dom.find_body() {
        return body;
    }
    let html = "html";
    proof {
        reveal_strlit("html");
        assert(html@ =~= seq!['h', 't', 'm', 'l']);
    }
    if let Some(h) = dom.find_element_by_tag(html) {
        return h;
    }
    dom.root()
}

/// The text of the text children of node `n` before its `k`-th child, one
/// after the other.
pub open spec fn kids_text(nodes: Seq<DomNode>, n: int, k: int) -> Seq<char>
    decreases k,
{
    if k <= 0 {
        Seq::empty()
    } else {
        kids_text(nodes, n, k - 1) + match nodes[child(nodes, n, k - 1)].spec_text() {
            Some(t) => t,
            None => Seq::empty(),
        }
    }
}

/// The node is a `<style>` element (tag compared ignoring ASCII case).
pub open spec fn is_style_element(node: DomNode) -> bool {
    node.spec_tag() matches Some(t) && eq_ignore_ascii_case(t, seq!['s', 't', 'y', 'l', 'e'])
}

/// The style sheets of the `<style>` elements among `order`, in order: the
/// text of each one's text children, when there is any.
pub open spec fn sheets_of(nodes: Seq<DomNode>, order: Seq<int>) -> Seq<Seq<char>>
    decreases order.len(),
{
    if order.len() == 0 {
        Seq::empty()
    } else {
        let n = order.last();
        let css = kids_text(nodes, n, nodes[n].children@.len() as int);
        sheets_of(nodes, order.drop_last()) + if is_style_element(nodes[n]) && css.len() > 0 {
            seq![css]
        } else {
            Seq::empty()
        }
    }
}

/// The text of a node's text children, one after the other.
fn children_text(dom: &DomTree, node: DomNodeId) -> (r: Vec<char>)
    requires
        dom.wf(),
        node.0 < dom.nodes().len(),
    ensures
        r@ == kids_text(dom.nodes(), node.0 as int, dom.nodes()[node.0 as int].children@.len() as int),
{
    let ghost nodes = dom.nodes();
    let ghost n = node.0 as int;
    let kids = dom.children(node);
    let mut css: Vec<char> = Vec::new();
    let mut k: usize = 0;
    proof {
        dom.lemma_wf();
    }
    while k < kids.len()
        invariant
            nodes == dom.nodes(),
            nodes_wf(nodes),
            0 <= n < nodes.len(),
            kids@ == nodes[n].children@,
            k <= kids.len(),
            css@ == kids_text(nodes, n, k as int),
        decreases kids.len() - k,
    {
        let c = kids[k];
        proof {
            assert(c.0 as int == child(nodes, n, k as int));
            assert(n < child(nodes, n, k as int) < nodes.len());
        }
        if let Some(text) = dom.node(c).text_content() {
            let t = chars_of(text);
            let mut i: usize = 0;
            let ghost before = css@;
            while i < t.len()
                invariant
                    i <= t.len(),
                    css@ == before + t@.subrange(0, i as int),
                decreases t.len() - i,
            {
                css.push(t[i]);
                i += 1;
                assert(css@ =~= before + t@.subrange(0, i as int));
            }
            assert(t@.subrange(0, t.len() as int) =~= t@);
        } else {
            assert(css@ =~= css@ + Seq::<char>::empty());
        }
        k += 1;
    }
    css
}

/// The style sheets of the document's `<style>` elements, in depth-first
/// pre-order.
pub fn extract_stylesheets(dom: &DomTree) -> (r: Vec<String>)
    requires
        dom.wf(),
    ensures
        r@.map_values(|s: String| s@) == sheets_of(dom.nodes(), preorder(dom.nodes(), 0)),
{
    let ghost nodes = dom.nodes();
    let ghost all = preorder(nodes, 0);
    let ghost mut visited: Seq<int> = Seq::empty();
    let mut sheets: Vec<String> = Vec::new();
    let name = "style";
    proof {
        reveal_strlit("style");
        assert(name@ =~= seq!['s', 't', 'y', 'l', 'e']);
    }
    let mut it = dom.iter_dfs();
    proof {
        assert(all =~= visited + it.remaining());
        assert(sheets@.map_values(|s: String| s@) =~= sheets_of(nodes, visited));
    }
    loop
        invariant
            dom.wf(),
            nodes == dom.nodes(),
            name@ == seq!['s', 't', 'y', 'l', 'e'],
            it.inv(),
            it.tree_nodes() == nodes,
            all == visited + it.remaining(),
            sheets@.map_values(|s: String| s@) == sheets_of(nodes, visited),
        ensures
            sheets@.map_values(|s: String| s@) == sheets_of(nodes, all),
        decreases it.remaining().len(),
    {
        match it.next() {
            None => {
                proof {
                    assert(all =~= visited);
                }
                break;
            },
            Some(id) => {
                let nd = dom.node(id);
                let ghost before = sheets@.map_values(|s: String| s@);
                let ghost n = id.0 as int;
                let is_style = match nd.tag_name() {
                    Some(tag) => str_eq_ignore_ascii_case(tag, name),
                    None => false,
                };
                assert(is_style == is_style_element(nodes[n]));
                if is_style {
                    let css = children_text(dom, id);
                    if css.len() > 0 {
                        let sheet = string_of(&css, 0, css.len());
                        assert(css@.subrange(0, css@.len() as int) =~= css@);
                        sheets.push(sheet);
                    }
                }
                proof {
                    let nv = visited.push(n);
                    assert(nv.drop_last() =~= visited);
                    assert(sheets@.map_values(|s: String| s@) =~= sheets_of(nodes, nv));
                    assert(all =~= nv + it.remaining());
                    visited = nv;
                }
            },
        }
    }
    sheets
}

/// The tags of elements that make no box.
pub open spec fn non_visual_names() -> Seq<Seq<char>> {
    seq!["script"@, "style"@, "link"@, "meta"@, "title"@, "head"@]
}

/// An element with this tag makes no box (compared after Unicode
/// lower-casing).
pub open spec fn is_non_visual(tag: Seq<char>) -> bool {
    non_visual_names().contains(unicode_lowercase(tag))
}

/// Whether an element with this tag makes no box.
pub fn is_non_visual_tag(tag: &str) -> (r: bool)
    ensures
        r == is_non_visual(tag@),
{
    let lower_string = to_lowercase(tag);
    let lower = chars_of(lower_string.as_str());
    let names = vec!["script", "style", "link", "meta", "title", "head"];
    let ghost views = names@.map_values(|n: &str| n@);
    assert(views =~= non_visual_names());
    let mut i: usize = 0;
    while i < names.len()
        invariant
            i <= names.len(),
            names.len() == 6,
            views == names@.map_values(|n: &str| n@),
            views == non_visual_names(),
            lower@ == unicode_lowercase(tag@),
            forall|j: int| 0 <= j < i ==> views[j] != lower@,
        decreases names.len() - i,
    {
        let candidate = chars_of(names[i]);
        if chars_eq(&candidate, &lower) {
            assert(views[i as int] == lower@);
            return true;
        }
        i += 1;
    }
    false
}

/// What a planned box holds.
pub enum PlanKind {
    Element(int),
    Text(Seq<char>),
}

/// A planned box: the node of its parent box, and what it holds.
pub type PlanItem = (int, PlanKind);

/// Node `c` is hidden (its computed display is `none`).
pub open spec fn is_hidden(hidden: Seq<bool>, c: int) -> bool {
    0 <= c < hidden.len() && hidden[c]
}

/// The boxes that child `c` of `parent` makes, in pre-order: a text node
/// makes a box of its trimmed text unless that is empty; an element makes
/// one unless its tag is non-visual or it is hidden, followed by those of
/// its children; other nodes make none.
pub open spec fn item_plan(nodes: Seq<DomNode>, hidden: Seq<bool>, parent: int, c: int) -> Seq<PlanItem>
    decreases nodes.len() - c, 1int, 0int,
{
    if 0 <= c < nodes.len() {
        match nodes[c].kind {
            DomNodeKind::Text(t) => if trim(t@).len() > 0 {
                seq![(parent, PlanKind::Text(trim(t@)))]
            } else {
                Seq::empty()
            },
            DomNodeKind::Element { tag, .. } => if is_non_visual(tag@) || is_hidden(hidden, c) {
                Seq::empty()
            } else {
                seq![(parent, PlanKind::Element(c))] + kids_plan(nodes, hidden, c, 0)
            },
            _ => Seq::empty(),
        }
    } else {
        Seq::empty()
    }
}

/// The boxes that the children of `n` from the `k`-th on make.
pub open spec fn kids_plan(nodes: Seq<DomNode>, hidden: Seq<bool>, n: int, k: int) -> Seq<PlanItem>
    decreases nodes.len() - n, 0int, nodes[n].children@.len() - k,
{
    if 0 <= n < nodes.len() && 0 <= k < nodes[n].children@.len() {
        let c = child(nodes, n, k);
        (if n < c < nodes.len() {
            item_plan(nodes, hidden, n, c)
        } else {
            Seq::empty()
        }) + kids_plan(nodes, hidden, n, k + 1)
    } else {
        Seq::empty()
    }
}

/// What a box of the plan holds.
#[derive(Debug)]
pub enum BoxPlanKind {
    /// The box of an element.
    Element(DomNodeId),
    /// A text box.
    Text(String),
}

/// One box of the plan, under the box of node `parent`.
#[derive(Debug)]
pub struct BoxPlanItem {
    pub parent: DomNodeId,
    pub kind: BoxPlanKind,
}

impl BoxPlanItem {
    pub open spec fn view(&self) -> PlanItem {
        (
            self.parent.0 as int,
            match self.kind {
                BoxPlanKind::Element(id) => PlanKind::Element(id.0 as int),
                BoxPlanKind::Text(t) => PlanKind::Text(t@),
            },
        )
    }
}

/// The boxes below node `root`, in the order they are built (each after
/// its parent), given which nodes are hidden.
pub fn box_plan(dom: &DomTree, root: DomNodeId, hidden: &Vec<bool>) -> (r: Vec<BoxPlanItem>)
    requires
        dom.wf(),
        root.0 < dom.nodes().len(),
    ensures
        r@.map_values(|b: BoxPlanItem| b@) == kids_plan(dom.nodes(), hidden@, root.0 as int, 0),
{
    let mut out: Vec<BoxPlanItem> = Vec::new();
    build_children(dom, root, hidden, &mut out);
    assert(out@.map_values(|b: BoxPlanItem| b@) =~= Seq::<PlanItem>::empty() + kids_plan(
        dom.nodes(),
        hidden@,
        root.0 as int,
        0,
    ));
    out
}

/// Append the boxes that the children of `parent` make.
fn build_children(dom: &DomTree, parent: DomNodeId, hidden: &Vec<bool>, out: &mut Vec<BoxPlanItem>)
    requires
        dom.wf(),
        parent.0 < dom.nodes().len(),
    ensures
        final(out)@.map_values(|b: BoxPlanItem| b@) == old(out)@.map_values(|b: BoxPlanItem| b@)
            + kids_plan(dom.nodes(), hidden@, parent.0 as int, 0),
    decreases dom.nodes().len() - parent.0,
{
    let ghost nodes = dom.nodes();
    let ghost n = parent.0 as int;
    let ghost start = old(out)@.map_values(|b: BoxPlanItem| b@);
    let kids = dom.children(parent);
    proof {
        dom.lemma_wf();
    }
    let mut k: usize = 0;
    assert(out@.map_values(|b: BoxPlanItem| b@) + kids_plan(nodes, hidden@, n, 0) == start + kids_plan(nodes, hidden@, n, 0));
    while k < kids.len()
        invariant
            dom.wf(),
            nodes == dom.nodes(),
            nodes_wf(nodes),
            0 <= n < nodes.len(),
            n == parent.0,
            kids@ == nodes[n].children@,
            k <= kids.len(),
            start == old(out)@.map_values(|b: BoxPlanItem| b@),
            out@.map_values(|b: BoxPlanItem| b@) + kids_plan(nodes, hidden@, n, k as int) == start
                + kids_plan(nodes, hidden@, n, 0),
        decreases kids.len() - k,
    {
        let c = kids[k];
        let ghost ci = c.0 as int;
        let ghost before = out@.map_values(|b: BoxPlanItem| b@);
        proof {
            assert(ci == child(nodes, n, k as int));
            assert(n < ci < nodes.len());
            assert(kids_plan(nodes, hidden@, n, k as int) == item_plan(nodes, hidden@, n, ci) + kids_plan(
                nodes,
                hidden@,
                n,
                k + 1,
            ));
        }
        let nd = dom.node(c);
        match &nd.kind {
            DomNodeKind::Text(text) => {
                let t = chars_of(text.as_str());
                let (a, b) = trim_bounds(&t, 0, t.len());
                assert(t@.subrange(0, t@.len() as int) =~= t@);
                if a < b {
                    let trimmed = string_of(&t, a, b);
                    out.push(BoxPlanItem { parent, kind: BoxPlanKind::Text(trimmed) });
                    proof {
                        assert(out@.map_values(|b: BoxPlanItem| b@) =~= before + item_plan(nodes, hidden@, n, ci));
                    }
                } else {
                    proof {
                        assert(item_plan(nodes, hidden@, n, ci) =~= Seq::<PlanItem>::empty());
                        assert(out@.map_values(|b: BoxPlanItem| b@) =~= before + item_plan(nodes, hidden@, n, ci));
                    }
                }
            },
            DomNodeKind::Element { tag, .. } => {
                let skip = is_non_visual_tag(tag.as_str()) || (c.0 < hidden.len() && hidden[c.0]);
                if skip {
                    proof {
                        assert(item_plan(nodes, hidden@, n, ci) =~= Seq::<PlanItem>::empty());
                        assert(out@.map_values(|b: BoxPlanItem| b@) =~= before + item_plan(nodes, hidden@, n, ci));
                    }
                } else {
                    out.push(BoxPlanItem { parent, kind: BoxPlanKind::Element(c) });
                    let ghost mid = out@.map_values(|b: BoxPlanItem| b@);
                    assert(mid =~= before + seq![(n, PlanKind::Element(ci))]);
                    build_children(dom, c, hidden, out);
                    proof {
                        assert(out@.map_values(|b: BoxPlanItem| b@) =~= before + item_plan(nodes, hidden@, n, ci));
                    }
                }
            },
            _ => {
                proof {
                    assert(item_plan(nodes, hidden@, n, ci) =~= Seq::<PlanItem>::empty());
                    assert(out@.map_values(|b: BoxPlanItem| b@) =~= before + item_plan(nodes, hidden@, n, ci));
                }
            },
        }
        proof {
            assert(before + kids_plan(nodes, hidden@, n, k as int) =~= out@.map_values(|b: BoxPlanItem| b@)
                + kids_plan(nodes, hidden@, n, k + 1));
        }
        k += 1;
    }
    proof {
        assert(kids_plan(nodes, hidden@, n, k as int) =~= Seq::<PlanItem>::empty());
        assert(out@.map_values(|b: BoxPlanItem| b@) =~= out@.map_values(|b: BoxPlanItem| b@) + Seq::<PlanItem>::empty());
    }
}

/// Every box of `s` hangs under the box of `n` or under the box of an
/// element that comes before it in `s`.
pub open spec fn parents_first(s: Seq<PlanItem>, n: int) -> bool {
    forall|i: int|
        0 <= i < s.len() ==> (#[trigger] s[i]).0 == n || exists|j: int|
            0 <= j < i && (#[trigger] s[j]).1 == PlanKind::Element(s[i].0)
}

proof fn lemma_parents_first_concat(a: Seq<PlanItem>, b: Seq<PlanItem>, n: int)
    requires
        parents_first(a, n),
        parents_first(b, n),
    ensures
        parents_first(a + b, n),
{
    let s = a + b;
    assert forall|i: int| 0 <= i < s.len() implies (#[trigger] s[i]).0 == n || exists|j: int|
        0 <= j < i && (#[trigger] s[j]).1 == PlanKind::Element(s[i].0) by {
        if i < a.len() {
            assert(s[i] == a[i]);
            if a[i].0 != n {
                let j = choose|j: int| 0 <= j < i && (#[trigger] a[j]).1 == PlanKind::Element(a[i].0);
                assert(s[j] == a[j]);
            }
        } else {
            let t = i - a.len();
            assert(s[i] == b[t]);
            if b[t].0 != n {
                let j = choose|j: int| 0 <= j < t && (#[trigger] b[j]).1 == PlanKind::Element(b[t].0);
                assert(s[j + a.len()] == b[j]);
            }
        }
    }
}

proof fn lemma_item_plan_parents(nodes: Seq<DomNode>, hidden: Seq<bool>, parent: int, c: int)
    ensures
        parents_first(item_plan(nodes, hidden, parent, c), parent),
    decreases nodes.len() - c, 1int, 0int,
{
    if 0 <= c < nodes.len() {
        match nodes[c].kind {
            DomNodeKind::Element { tag, .. } => {
                if !(is_non_visual(tag@) || is_hidden(hidden, c)) {
                    lemma_kids_plan_parents(nodes, hidden, c, 0);
                    let k = kids_plan(nodes, hidden, c, 0);
                    let s = seq![(parent, PlanKind::Element(c))] + k;
                    assert forall|i: int| 0 <= i < s.len() implies (#[trigger] s[i]).0 == parent || exists|j: int|
                        0 <= j < i && (#[trigger] s[j]).1 == PlanKind::Element(s[i].0) by {
                        if i > 0 {
                            assert(s[i] == k[i - 1]);
                            if k[i - 1].0 == c {
                                assert(s[0].1 == PlanKind::Element(c));
                            } else {
                                let j = choose|j: int| 0 <= j < i - 1 && (#[trigger] k[j]).1 == PlanKind::Element(k[i - 1].0);
                                assert(s[j + 1] == k[j]);
                            }
                        }
                    }
                }
            },
            _ => {},
        }
    }
}

proof fn lemma_kids_plan_parents(nodes: Seq<DomNode>, hidden: Seq<bool>, n: int, k: int)
    ensures
        parents_first(kids_plan(nodes, hidden, n, k), n),
    decreases nodes.len() - n, 0int, nodes[n].children@.len() - k,
{
    if 0 <= n < nodes.len() && 0 <= k < nodes[n].children@.len() {
        let c = child(nodes, n, k);
        lemma_kids_plan_parents(nodes, hidden, n, k + 1);
        if n < c < nodes.len() {
            lemma_item_plan_parents(nodes, hidden, n, c);
            lemma_parents_first_concat(item_plan(nodes, hidden, n, c), kids_plan(nodes, hidden, n, k + 1), n);
        } else {
            assert(Seq::<PlanItem>::empty() + kids_plan(nodes, hidden, n, k + 1) =~= kids_plan(nodes, hidden, n, k + 1));
        }
    }
}

/// In a box plan every box comes after the box it hangs under: its parent
/// is the root or an element planned before it, so the boxes can be built
/// in plan order.
pub proof fn law_box_plan_parents_first(nodes: Seq<DomNode>, hidden: Seq<bool>, root: int)
    ensures
        parents_first(kids_plan(nodes, hidden, root, 0), root),
{
    lemma_kids_plan_parents(nodes, hidden, root, 0);
}

} // verus!
