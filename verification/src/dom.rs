//! The DOM tree: an arena of nodes in which a node's children are always
//! created after it, so every child index is larger than its parent's.

use vstd::prelude::*;
use crate::attrs::Attributes;
use crate::text::{eq_ignore_ascii_case};

verus! {

/// A unique identifier for a DOM node: its index in the tree's arena.
#[derive(Debug, Clone, Copy, PartialEq, Eq, Hash, Structural)]
pub struct DomNodeId(pub usize);

/// The type of a DOM node.
#[derive(Debug, Clone)]
pub enum DomNodeKind {
    /// Document root.
    Document,
    /// An element with a tag name and attributes.
    Element { tag: String, attributes: Attributes, namespace: String },
    /// A text node.
    Text(String),
    /// A comment node (ignored for layout).
    Comment(String),
}

/// A single DOM node.
#[derive(Debug, Clone)]
pub struct DomNode {
    pub id: DomNodeId,
    pub kind: DomNodeKind,
    pub children: Vec<DomNodeId>,
    pub parent: Option<DomNodeId>,
}

/// The namespace given to every element.
pub open spec fn xhtml_ns() -> Seq<char> {
    seq!['h', 't', 't', 'p', ':', '/', '/', 'w', 'w', 'w', '.', 'w', '3', '.', 'o', 'r', 'g', '/', '1', '9', '9', '9', '/', 'x', 'h', 't', 'm', 'l']
}

impl DomNode {
    /// The tag name, for an element.
    pub open spec fn spec_tag(&self) -> Option<Seq<char>> {
        match self.kind {
            DomNodeKind::Element { tag, .. } => Some(tag@),
            _ => None,
        }
    }

    /// The value of an attribute, for an element that has it.
    pub open spec fn spec_attr(&self, name: Seq<char>) -> Option<Seq<char>> {
        match self.kind {
            DomNodeKind::Element { attributes, .. } => if attributes@.contains_key(name) {
                Some(attributes@[name])
            } else {
                None
            },
            _ => None,
        }
    }

    /// The text, for a text node.
    pub open spec fn spec_text(&self) -> Option<Seq<char>> {
        match self.kind {
            DomNodeKind::Text(t) => Some(t@),
            _ => None,
        }
    }

    pub fn tag_name(&self) -> (r: Option<&str>)
        ensures
            r matches Some(t) ==> self.spec_tag() == Some(t@),
            r is None ==> self.spec_tag() is None,
    {
        match &self.kind {
            DomNodeKind::Element { tag, .. } => Some(tag.as_str()),
            _ => None,
        }
    }

    pub fn get_attribute(&self, name: &str) -> (r: Option<&str>)
        ensures
            r matches Some(v) ==> self.spec_attr(name@) == Some(v@),
            r is None ==> self.spec_attr(name@) is None,
    {
        match &self.kind {
            DomNodeKind::Element { attributes, .. } => attributes.get(name),
            _ => None,
        }
    }

    pub fn text_content(&self) -> (r: Option<&str>)
        ensures
            r matches Some(t) ==> self.spec_text() == Some(t@),
            r is None ==> self.spec_text() is None,
    {
        match &self.kind {
            DomNodeKind::Text(text) => Some(text.as_str()),
            _ => None,
        }
    }

    pub fn is_element(&self) -> (r: bool)
        ensures
            r == (self.kind is Element),
    {
        matches!(self.kind, DomNodeKind::Element { .. })
    }
}

/// The index of the `k`-th child of node `i`.
pub open spec fn child(nodes: Seq<DomNode>, i: int, k: int) -> int {
    nodes[i].children@[k].0 as int
}

/// Well-formedness of the node arena: node 0 is the parentless root, each
/// node's id is its index, every other node has an earlier parent that
/// lists it, and every child list is strictly increasing, holds only later
/// nodes, and each of them names its lister as parent.
pub open spec fn nodes_wf(nodes: Seq<DomNode>) -> bool {
    &&& nodes.len() >= 1
    &&& nodes[0].parent is None
    &&& forall|i: int| 0 <= i < nodes.len() ==> (#[trigger] nodes[i]).id.0 == i
    &&& forall|i: int|
        0 < i < nodes.len() ==> ((#[trigger] nodes[i]).parent matches Some(p) && p.0 < i
            && nodes[p.0 as int].children@.contains(DomNodeId(i as usize)))
    &&& forall|i: int, k: int|
        0 <= i < nodes.len() && 0 <= k < nodes[i].children@.len() ==> i < #[trigger] child(nodes, i, k)
            < nodes.len() && nodes[child(nodes, i, k)].parent == Some(DomNodeId(i as usize))
    &&& forall|i: int, k1: int, k2: int|
        0 <= i < nodes.len() && 0 <= k1 < k2 < nodes[i].children@.len() ==> #[trigger] child(
            nodes,
            i,
            k1,
        ) < #[trigger] child(nodes, i, k2)
}

/// Arena-allocated DOM tree.
#[derive(Debug, Clone)]
pub struct DomTree {
    nodes: Vec<DomNode>,
    root: DomNodeId,
}

impl DomTree {
    /// The nodes, indexed by id.
    pub closed spec fn nodes(&self) -> Seq<DomNode> {
        self.nodes@
    }

    /// The tree is well formed (every public way to build one keeps this).
    pub closed spec fn wf(&self) -> bool {
        nodes_wf(self.nodes@) && self.root.0 == 0
    }

    /// A well-formed tree's arena is well formed.
    pub proof fn lemma_wf(&self)
        requires
            self.wf(),
        ensures
            nodes_wf(self.nodes()),
    {
    }

    pub fn new() -> (r: DomTree)
        ensures
            r.wf(),
            r.nodes().len() == 1,
            r.nodes()[0].kind is Document,
            r.nodes()[0].children@.len() == 0,
    {
        let root_node = DomNode {
            id: DomNodeId(0),
            kind: DomNodeKind::Document,
            children: Vec::new(),
            parent: None,
        };
        let mut nodes: Vec<DomNode> = Vec::new();
        nodes.push(root_node);
        DomTree { nodes, root: DomNodeId(0) }
    }

    pub fn root(&self) -> (r: DomNodeId)
        requires
            self.wf(),
        ensures
            r.0 == 0,
    {
        self.root
    }

    /// Appends a new node under `parent` and gives its id, the next index.
    fn add_node(&mut self, parent: DomNodeId, kind: DomNodeKind) -> (r: DomNodeId)
        requires
            old(self).wf(),
            parent.0 < old(self).nodes().len(),
        ensures
            final(self).wf(),
            r.0 == old(self).nodes().len(),
            final(self).nodes().len() == old(self).nodes().len() + 1,
            forall|i: int|
                0 <= i < old(self).nodes().len() && i != parent.0 ==> final(self).nodes()[i]
                    == old(self).nodes()[i],
            final(self).nodes()[parent.0 as int].id == old(self).nodes()[parent.0 as int].id,
            final(self).nodes()[parent.0 as int].kind == old(self).nodes()[parent.0 as int].kind,
            final(self).nodes()[parent.0 as int].parent == old(self).nodes()[parent.0 as int].parent,
            final(self).nodes()[parent.0 as int].children@ == old(self).nodes()[parent.0 as int].children@.push(r),
            final(self).nodes()[r.0 as int].id == r,
            final(self).nodes()[r.0 as int].kind == kind,
            final(self).nodes()[r.0 as int].children@.len() == 0,
            final(self).nodes()[r.0 as int].parent == Some(parent),
    {
        let ghost old_nodes = self.nodes@;
        let n = self.nodes.len();
        let id = DomNodeId(n);
        self.nodes.push(DomNode { id, kind, children: Vec::new(), parent: Some(parent) });
        self.nodes[parent.0].children.push(id);
        proof {
            let nodes = self.nodes@;
            let p = parent.0 as int;
            assert forall|i: int| 0 <= i < old_nodes.len() && i != p implies nodes[i] == old_nodes[i] by {}
            assert forall|i: int, k: int|
                0 <= i < nodes.len() && 0 <= k < nodes[i].children@.len() implies i
                < #[trigger] child(nodes, i, k) < nodes.len() && nodes[child(nodes, i, k)].parent
                == Some(DomNodeId(i as usize)) by {
                if i == p && k == nodes[i].children@.len() - 1 {
                } else if i < old_nodes.len() {
                    assert(child(nodes, i, k) == child(old_nodes, i, k));
                }
            }
            assert forall|i: int, k1: int, k2: int|
                0 <= i < nodes.len() && 0 <= k1 < k2 < nodes[i].children@.len() implies #[trigger] child(
                nodes,
                i,
                k1,
            ) < #[trigger] child(nodes, i, k2) by {
                assert(child(nodes, i, k1) == child(old_nodes, i, k1));
                if i == p && k2 == nodes[i].children@.len() - 1 {
                } else {
                    assert(child(nodes, i, k2) == child(old_nodes, i, k2));
                }
            }
            assert forall|i: int| 0 < i < nodes.len() implies ((#[trigger] nodes[i]).parent matches Some(
                q,
            ) && q.0 < i && nodes[q.0 as int].children@.contains(DomNodeId(i as usize))) by {
                if i == n {
                    assert(nodes[p].children@.last() == DomNodeId(i as usize));
                } else {
                    let q = old_nodes[i].parent->0;
                    let kk = choose|kk: int| 0 <= kk < old_nodes[q.0 as int].children@.len() && old_nodes[q.0 as int].children@[kk] == DomNodeId(i as usize);
                    assert(nodes[q.0 as int].children@[kk] == DomNodeId(i as usize));
                }
            }
        }
        id
    }
}


impl DomTree {
    pub fn add_element(&mut self, parent: DomNodeId, tag: &str, attributes: Attributes) -> (r: DomNodeId)
        requires
            old(self).wf(),
            parent.0 < old(self).nodes().len(),
        ensures
            final(self).wf(),
            r.0 == old(self).nodes().len(),
            final(self).nodes().len() == old(self).nodes().len() + 1,
            forall|i: int|
                0 <= i < old(self).nodes().len() && i != parent.0 ==> final(self).nodes()[i]
                    == old(self).nodes()[i],
            final(self).nodes()[parent.0 as int].id == old(self).nodes()[parent.0 as int].id,
            final(self).nodes()[parent.0 as int].kind == old(self).nodes()[parent.0 as int].kind,
            final(self).nodes()[parent.0 as int].parent == old(self).nodes()[parent.0 as int].parent,
            final(self).nodes()[parent.0 as int].children@ == old(self).nodes()[parent.0 as int].children@.push(r),
            final(self).nodes()[r.0 as int].id == r,
            final(self).nodes()[r.0 as int].kind matches DomNodeKind::Element { tag: t, attributes: a, namespace: ns }
                && t@ == tag@ && a@ == attributes@ && ns@ == xhtml_ns(),
            final(self).nodes()[r.0 as int].children@.len() == 0,
            final(self).nodes()[r.0 as int].parent == Some(parent),
    {
        let ns = "http://www.w3.org/1999/xhtml";
        proof {
            reveal_strlit("http://www.w3.org/1999/xhtml");
            assert(ns@ =~= xhtml_ns());
        }
        let ghost attrs_view = attributes@;
        let kind = DomNodeKind::Element { tag: tag.to_owned(), attributes, namespace: ns.to_owned() };
        self.add_node(parent, kind)
    }

    pub fn add_text(&mut self, parent: DomNodeId, text: &str) -> (r: DomNodeId)
        requires
            old(self).wf(),
            parent.0 < old(self).nodes().len(),
        ensures
            final(self).wf(),
            r.0 == old(self).nodes().len(),
            final(self).nodes().len() == old(self).nodes().len() + 1,
            forall|i: int|
                0 <= i < old(self).nodes().len() && i != parent.0 ==> final(self).nodes()[i]
                    == old(self).nodes()[i],
            final(self).nodes()[parent.0 as int].id == old(self).nodes()[parent.0 as int].id,
            final(self).nodes()[parent.0 as int].kind == old(self).nodes()[parent.0 as int].kind,
            final(self).nodes()[parent.0 as int].parent == old(self).nodes()[parent.0 as int].parent,
            final(self).nodes()[parent.0 as int].children@ == old(self).nodes()[parent.0 as int].children@.push(r),
            final(self).nodes()[r.0 as int].id == r,
            final(self).nodes()[r.0 as int].kind matches DomNodeKind::Text(t) && t@ == text@,
            final(self).nodes()[r.0 as int].children@.len() == 0,
            final(self).nodes()[r.0 as int].parent == Some(parent),
    {
        self.add_node(parent, DomNodeKind::Text(text.to_owned()))
    }

    pub fn node(&self, id: DomNodeId) -> (r: &DomNode)
        requires
            id.0 < self.nodes().len(),
        ensures
            *r == self.nodes()[id.0 as int],
    {
        &self.nodes[id.0]
    }

    pub fn children(&self, id: DomNodeId) -> (r: &[DomNodeId])
        requires
            id.0 < self.nodes().len(),
        ensures
            r@ == self.nodes()[id.0 as int].children@,
    {
        self.nodes[id.0].children.as_slice()
    }

    pub fn parent(&self, id: DomNodeId) -> (r: Option<DomNodeId>)
        requires
            id.0 < self.nodes().len(),
        ensures
            r == self.nodes()[id.0 as int].parent,
    {
        self.nodes[id.0].parent
    }

    pub fn len(&self) -> (r: usize)
        ensures
            r == self.nodes().len(),
    {
        self.nodes.len()
    }

    pub fn is_empty(&self) -> (r: bool)
        ensures
            r == (self.nodes().len() == 0),
    {
        self.nodes.len() == 0
    }
}

impl Default for DomTree {
    fn default() -> (r: DomTree)
        ensures
            r.wf(),
            r.nodes().len() == 1,
            r.nodes()[0].kind is Document,
            r.nodes()[0].children@.len() == 0,
    {
        DomTree::new()
    }
}


/// The nodes of the subtree at `n` in depth-first pre-order: `n`, then the
/// subtrees of its children from first to last.
pub open spec fn preorder(nodes: Seq<DomNode>, n: int) -> Seq<int>
    decreases nodes.len() - n, 1int, 0int,
{
    if 0 <= n < nodes.len() {
        seq![n] + preorder_kids(nodes, n, 0)
    } else {
        Seq::empty()
    }
}

/// The pre-orders of the subtrees of the children of `n` from the `k`-th on,
/// one after the other.
pub open spec fn preorder_kids(nodes: Seq<DomNode>, n: int, k: int) -> Seq<int>
    decreases nodes.len() - n, 0int, nodes[n].children@.len() - k,
{
    if 0 <= n < nodes.len() && 0 <= k < nodes[n].children@.len() {
        let c = child(nodes, n, k);
        (if n < c < nodes.len() {
            preorder(nodes, c)
        } else {
            Seq::empty()
        }) + preorder_kids(nodes, n, k + 1)
    } else {
        Seq::empty()
    }
}

/// The first element of `s` that satisfies `pred`.
pub open spec fn first_match(s: Seq<int>, pred: spec_fn(int) -> bool) -> Option<int>
    decreases s.len(),
{
    if s.len() == 0 {
        None
    } else if pred(s[0]) {
        Some(s[0])
    } else {
        first_match(s.drop_first(), pred)
    }
}

pub proof fn lemma_first_match_concat(a: Seq<int>, b: Seq<int>, pred: spec_fn(int) -> bool)
    ensures
        first_match(a + b, pred) == (match first_match(a, pred) {
            Some(x) => Some(x),
            None => first_match(b, pred),
        }),
    decreases a.len(),
{
    if a.len() == 0 {
        assert(a + b =~= b);
    } else {
        assert((a + b)[0] == a[0]);
        assert((a + b).drop_first() =~= a.drop_first() + b);
        lemma_first_match_concat(a.drop_first(), b, pred);
    }
}

/// The node is an element whose tag equals `tag` ignoring ASCII case.
pub open spec fn tag_matches(nodes: Seq<DomNode>, tag: Seq<char>) -> spec_fn(int) -> bool {
    |i: int| nodes[i].spec_tag() matches Some(t) && eq_ignore_ascii_case(t, tag)
}

/// The node is an element whose attribute `name` is `value`.
pub open spec fn attr_matches(nodes: Seq<DomNode>, name: Seq<char>, value: Seq<char>) -> spec_fn(
    int,
) -> bool {
    |i: int| nodes[i].spec_attr(name) == Some(value)
}

/// The result of a search by its index.
pub open spec fn as_index(r: Option<DomNodeId>) -> Option<int> {
    match r {
        Some(x) => Some(x.0 as int),
        None => None,
    }
}

/// The nodes that a stack of pending subtrees yields, top (last) first.
pub open spec fn stack_order(nodes: Seq<DomNode>, st: Seq<DomNodeId>) -> Seq<int>
    decreases st.len(),
{
    if st.len() == 0 {
        Seq::empty()
    } else {
        preorder(nodes, st.last().0 as int) + stack_order(nodes, st.drop_last())
    }
}

pub proof fn lemma_preorder_unfold(nodes: Seq<DomNode>, n: int)
    requires
        0 <= n < nodes.len(),
    ensures
        preorder(nodes, n) == seq![n] + preorder_kids(nodes, n, 0),
{
}

pub proof fn lemma_preorder_kids_unfold(nodes: Seq<DomNode>, n: int, k: int)
    requires
        nodes_wf(nodes),
        0 <= n < nodes.len(),
        0 <= k < nodes[n].children@.len(),
    ensures
        preorder_kids(nodes, n, k) == preorder(nodes, child(nodes, n, k)) + preorder_kids(
            nodes,
            n,
            k + 1,
        ),
{
    assert(n < child(nodes, n, k) < nodes.len());
}

impl DomTree {
    /// Find the `<body>` element.
    pub fn find_body(&self) -> (r: Option<DomNodeId>)
        requires
            self.wf(),
        ensures
            as_index(r) == first_match(preorder(self.nodes(), 0), tag_matches(self.nodes(), seq!['b', 'o', 'd', 'y'])),
    {
        let body = "body";
        proof {
            reveal_strlit("body");
            assert(body@ =~= seq!['b', 'o', 'd', 'y']);
        }
        self.find_element_by_tag(body)
    }

    /// Find the first element, in depth-first pre-order, whose tag equals
    /// `tag` ignoring ASCII case.
    pub fn find_element_by_tag(&self, tag: &str) -> (r: Option<DomNodeId>)
        requires
            self.wf(),
        ensures
            as_index(r) == first_match(preorder(self.nodes(), 0), tag_matches(self.nodes(), tag@)),
    {
        self.find_element_recursive(self.root, tag)
    }

    fn find_element_recursive(&self, node: DomNodeId, tag: &str) -> (r: Option<DomNodeId>)
        requires
            self.wf(),
            node.0 < self.nodes().len(),
        ensures
            as_index(r) == first_match(preorder(self.nodes(), node.0 as int), tag_matches(self.nodes(), tag@)),
        decreases self.nodes().len() - node.0,
    {
        let ghost nodes = self.nodes();
        let ghost pred = tag_matches(nodes, tag@);
        let ghost n = node.0 as int;
        proof {
            lemma_preorder_unfold(nodes, n);
            assert((seq![n] + preorder_kids(nodes, n, 0))[0] == n);
            assert((seq![n] + preorder_kids(nodes, n, 0)).drop_first() =~= preorder_kids(nodes, n, 0));
        }
        let nd = &self.nodes[node.0];
        if let Some(t) = nd.tag_name() {
            if crate::text::str_eq_ignore_ascii_case(t, tag) {
                return Some(node);
            }
        }
        let count = nd.children.len();
        let mut k: usize = 0;
        while k < count
            invariant
                self.wf(),
                nodes == self.nodes(),
                *nd == nodes[n],
                n == node.0 as int,
                pred == tag_matches(nodes, tag@),
                0 <= n < nodes.len(),
                count == nodes[n].children@.len(),
                k <= count,
                first_match(preorder(nodes, n), pred) == first_match(preorder_kids(nodes, n, k as int), pred),
            decreases count - k,
        {
            let c = nd.children[k];
            proof {
                assert(c.0 as int == child(nodes, n, k as int));
                lemma_preorder_kids_unfold(nodes, n, k as int);
                lemma_first_match_concat(preorder(nodes, c.0 as int), preorder_kids(nodes, n, k + 1), pred);
                assert(n < child(nodes, n, k as int) < nodes.len());
                assert(first_match(preorder_kids(nodes, n, k as int), pred) == (match first_match(preorder(nodes, c.0 as int), pred) {
                    Some(x) => Some(x),
                    None => first_match(preorder_kids(nodes, n, k + 1), pred),
                }));
            }
            if let Some(found) = self.find_element_recursive(c, tag) {
                return Some(found);
            }
            k += 1;
        }
        None
    }

    /// Find an element by its `id` attribute.
    pub fn find_element_by_id(&self, id: &str) -> (r: Option<DomNodeId>)
        requires
            self.wf(),
        ensures
            as_index(r) == first_match(preorder(self.nodes(), 0), attr_matches(self.nodes(), seq!['i', 'd'], id@)),
    {
        let name = "id";
        proof {
            reveal_strlit("id");
            assert(name@ =~= seq!['i', 'd']);
        }
        self.find_by_attr_recursive(self.root, name, id)
    }

    fn find_by_attr_recursive(&self, node: DomNodeId, attr: &str, value: &str) -> (r: Option<DomNodeId>)
        requires
            self.wf(),
            node.0 < self.nodes().len(),
        ensures
            as_index(r) == first_match(preorder(self.nodes(), node.0 as int), attr_matches(self.nodes(), attr@, value@)),
        decreases self.nodes().len() - node.0,
    {
        let ghost nodes = self.nodes();
        let ghost pred = attr_matches(nodes, attr@, value@);
        let ghost n = node.0 as int;
        proof {
            lemma_preorder_unfold(nodes, n);
            assert((seq![n] + preorder_kids(nodes, n, 0))[0] == n);
            assert((seq![n] + preorder_kids(nodes, n, 0)).drop_first() =~= preorder_kids(nodes, n, 0));
        }
        let nd = &self.nodes[node.0];
        if let Some(v) = nd.get_attribute(attr) {
            if crate::text::str_eq(v, value) {
                return Some(node);
            }
        }
        let count = nd.children.len();
        let mut k: usize = 0;
        while k < count
            invariant
                self.wf(),
                nodes == self.nodes(),
                *nd == nodes[n],
                n == node.0 as int,
                pred == attr_matches(nodes, attr@, value@),
                0 <= n < nodes.len(),
                count == nodes[n].children@.len(),
                k <= count,
                first_match(preorder(nodes, n), pred) == first_match(preorder_kids(nodes, n, k as int), pred),
            decreases count - k,
        {
            let c = nd.children[k];
            proof {
                assert(c.0 as int == child(nodes, n, k as int));
                lemma_preorder_kids_unfold(nodes, n, k as int);
                lemma_first_match_concat(preorder(nodes, c.0 as int), preorder_kids(nodes, n, k + 1), pred);
                assert(n < child(nodes, n, k as int) < nodes.len());
                assert(first_match(preorder_kids(nodes, n, k as int), pred) == (match first_match(preorder(nodes, c.0 as int), pred) {
                    Some(x) => Some(x),
                    None => first_match(preorder_kids(nodes, n, k + 1), pred),
                }));
            }
            if let Some(found) = self.find_by_attr_recursive(c, attr, value) {
                return Some(found);
            }
            k += 1;
        }
        None
    }

    /// Iterate over all nodes in depth-first pre-order.
    pub fn iter_dfs(&self) -> (r: DfsIter<'_>)
        requires
            self.wf(),
        ensures
            r.inv(),
            r.tree_nodes() == self.nodes(),
            r.remaining() == preorder(self.nodes(), 0),
    {
        let mut stack: Vec<DomNodeId> = Vec::new();
        stack.push(self.root);
        let r = DfsIter { tree: self, stack };
        proof {
            assert(r.stack@.drop_last() =~= Seq::<DomNodeId>::empty());
            assert(r.stack@.last() == DomNodeId(0));
            assert(stack_order(self.nodes(), Seq::<DomNodeId>::empty()) == Seq::<int>::empty());
            assert(stack_order(self.nodes(), r.stack@) == preorder(self.nodes(), 0) + stack_order(self.nodes(), r.stack@.drop_last()));
            assert(preorder(self.nodes(), 0) + Seq::<int>::empty() =~= preorder(self.nodes(), 0));
        }
        r
    }
}

/// Depth-first pre-order walk over the nodes of a tree.
pub struct DfsIter<'a> {
    tree: &'a DomTree,
    stack: Vec<DomNodeId>,
}

impl<'a> DfsIter<'a> {
    /// The nodes of the walked tree.
    pub closed spec fn tree_nodes(&self) -> Seq<DomNode> {
        self.tree.nodes()
    }

    /// The node indices still to come, in order.
    pub closed spec fn remaining(&self) -> Seq<int> {
        stack_order(self.tree.nodes(), self.stack@)
    }

    /// The walk is over a well-formed tree and holds only its nodes.
    pub closed spec fn inv(&self) -> bool {
        &&& self.tree.wf()
        &&& forall|i: int| 0 <= i < self.stack@.len() ==> (#[trigger] self.stack@[i]).0 < self.tree.nodes().len()
    }

    /// The next node, or `None` once every node has been visited.
    pub fn next(&mut self) -> (r: Option<DomNodeId>)
        requires
            old(self).inv(),
        ensures
            final(self).inv(),
            final(self).tree_nodes() == old(self).tree_nodes(),
            r is None ==> old(self).remaining().len() == 0 && final(self).remaining().len() == 0,
            r matches Some(x) ==> old(self).remaining() == seq![x.0 as int] + final(self).remaining(),
            r matches Some(x) ==> x.0 < old(self).tree_nodes().len(),
    {
        let ghost nodes = self.tree.nodes();
        let ghost old_stack = self.stack@;
        let id = match self.stack.pop() {
            None => {
                return None;
            },
            Some(id) => id,
        };
        let ghost base = self.stack@;
        assert(base == old_stack.drop_last());
        let tree: &'a DomTree = self.tree;
        let nd = &tree.nodes[id.0];
        let ghost n = id.0 as int;
        let count = nd.children.len();
        let mut j: usize = count;
        proof {
            assert(preorder_kids(nodes, n, count as int) == Seq::<int>::empty());
            assert(Seq::<int>::empty() + stack_order(nodes, base) =~= stack_order(nodes, base));
        }
        while j > 0
            invariant
                self.tree == tree,
                tree.wf(),
                nodes == tree.nodes(),
                0 <= n < nodes.len(),
                *nd == nodes[n],
                count == nodes[n].children@.len(),
                j <= count,
                forall|i: int| 0 <= i < self.stack@.len() ==> (#[trigger] self.stack@[i]).0 < nodes.len(),
                stack_order(nodes, self.stack@) == preorder_kids(nodes, n, j as int) + stack_order(nodes, base),
            decreases j,
        {
            j -= 1;
            let c = nd.children[j];
            proof {
                lemma_preorder_kids_unfold(nodes, n, j as int);
                assert(n < child(nodes, n, j as int) < nodes.len());
            }
            let ghost before = self.stack@;
            self.stack.push(c);
            proof {
                assert(self.stack@.drop_last() =~= before);
                assert(self.stack@.last() == c);
                assert(stack_order(nodes, self.stack@) == preorder(nodes, c.0 as int) + stack_order(nodes, before));
                assert(preorder(nodes, c.0 as int) + (preorder_kids(nodes, n, j + 1) + stack_order(nodes, base))
                    =~= preorder_kids(nodes, n, j as int) + stack_order(nodes, base));
            }
        }
        proof {
            lemma_preorder_unfold(nodes, n);
            assert(old_stack.last() == id);
            assert(stack_order(nodes, old_stack) == preorder(nodes, n) + stack_order(nodes, base));
            assert(preorder(nodes, n) + stack_order(nodes, base) =~= seq![n] + (preorder_kids(nodes, n, 0) + stack_order(nodes, base)));
        }
        Some(id)
    }
}

/// The index of a node's parent; -1 for a node without one.
pub open spec fn parent_index(nodes: Seq<DomNode>, i: int) -> int {
    match nodes[i].parent {
        Some(p) => p.0 as int,
        None => -1,
    }
}

/// Node `i` is `n` or lies below it: following parents from `i` reaches
/// `n`.
pub open spec fn descends(nodes: Seq<DomNode>, n: int, i: int) -> bool
    decreases i,
{
    if i == n {
        true
    } else if 0 < i < nodes.len() && 0 <= parent_index(nodes, i) < i {
        descends(nodes, n, parent_index(nodes, i))
    } else {
        false
    }
}

proof fn lemma_descends_ge(nodes: Seq<DomNode>, n: int, i: int)
    requires
        descends(nodes, n, i),
    ensures
        n <= i,
    decreases i,
{
    if i != n {
        lemma_descends_ge(nodes, n, parent_index(nodes, i));
    }
}

proof fn lemma_descends_through_parent(nodes: Seq<DomNode>, n: int, c: int, x: int)
    requires
        0 <= n < c < nodes.len(),
        parent_index(nodes, c) == n,
        descends(nodes, c, x),
    ensures
        descends(nodes, n, x),
    decreases x,
{
    if x == c {
        assert(descends(nodes, n, n));
        assert(descends(nodes, n, c) == descends(nodes, n, n));
    } else if x != n {
        let px = parent_index(nodes, x);
        assert(0 < x < nodes.len() && 0 <= px < x && descends(nodes, c, px));
        lemma_descends_through_parent(nodes, n, c, px);
        assert(descends(nodes, n, x) == descends(nodes, n, px));
    }
}

proof fn lemma_contains_concat(a: Seq<int>, b: Seq<int>, y: int)
    ensures
        (a + b).contains(y) <==> (a.contains(y) || b.contains(y)),
{
    if a.contains(y) {
        let i = choose|i: int| 0 <= i < a.len() && a[i] == y;
        assert((a + b)[i] == y);
    }
    if b.contains(y) {
        let i = choose|i: int| 0 <= i < b.len() && b[i] == y;
        assert((a + b)[a.len() + i] == y);
    }
    if (a + b).contains(y) {
        let i = choose|i: int| 0 <= i < (a + b).len() && (a + b)[i] == y;
        if i < a.len() {
            assert(a[i] == y);
        } else {
            assert(b[i - a.len()] == y);
        }
    }
}

proof fn lemma_preorder_members(nodes: Seq<DomNode>, n: int)
    requires
        nodes_wf(nodes),
    ensures
        forall|x: int| #[trigger] preorder(nodes, n).contains(x) ==> n <= x < nodes.len() && descends(nodes, n, x),
    decreases nodes.len() - n, 1int, 0int,
{
    if 0 <= n < nodes.len() {
        lemma_kids_members(nodes, n, 0);
        assert forall|x: int| #[trigger] preorder(nodes, n).contains(x) implies n <= x < nodes.len() && descends(
            nodes,
            n,
            x,
        ) by {
            lemma_contains_concat(seq![n], preorder_kids(nodes, n, 0), x);
        }
    }
}

proof fn lemma_kids_members(nodes: Seq<DomNode>, n: int, k: int)
    requires
        nodes_wf(nodes),
        0 <= n < nodes.len(),
    ensures
        forall|x: int| #[trigger] preorder_kids(nodes, n, k).contains(x) ==> n < x < nodes.len() && descends(nodes, n, x),
    decreases nodes.len() - n, 0int, nodes[n].children@.len() - k,
{
    if 0 <= k < nodes[n].children@.len() {
        let c = child(nodes, n, k);
        assert(n < c < nodes.len());
        lemma_preorder_members(nodes, c);
        lemma_kids_members(nodes, n, k + 1);
        assert forall|x: int| #[trigger] preorder_kids(nodes, n, k).contains(x) implies n < x < nodes.len()
            && descends(nodes, n, x) by {
            lemma_contains_concat(preorder(nodes, c), preorder_kids(nodes, n, k + 1), x);
            if preorder(nodes, c).contains(x) {
                lemma_descends_through_parent(nodes, n, c, x);
            }
        }
    }
}

proof fn lemma_child_in_kids(nodes: Seq<DomNode>, p: int, j: int, k: int)
    requires
        nodes_wf(nodes),
        0 <= p < nodes.len(),
        0 <= j <= k < nodes[p].children@.len(),
    ensures
        preorder_kids(nodes, p, j).contains(child(nodes, p, k)),
    decreases k - j,
{
    let c = child(nodes, p, j);
    assert(p < c < nodes.len());
    if j == k {
        assert(preorder(nodes, c)[0] == c);
        lemma_contains_concat(preorder(nodes, c), preorder_kids(nodes, p, j + 1), c);
    } else {
        lemma_child_in_kids(nodes, p, j + 1, k);
        lemma_contains_concat(preorder(nodes, c), preorder_kids(nodes, p, j + 1), child(nodes, p, k));
    }
}

proof fn lemma_preorder_closed(nodes: Seq<DomNode>, m: int, p: int, y: int)
    requires
        nodes_wf(nodes),
        0 <= m < nodes.len(),
        preorder(nodes, m).contains(p),
        preorder(nodes, p).contains(y),
    ensures
        preorder(nodes, m).contains(y),
    decreases nodes.len() - m, 1int, 0int,
{
    lemma_contains_concat(seq![m], preorder_kids(nodes, m, 0), p);
    lemma_contains_concat(seq![m], preorder_kids(nodes, m, 0), y);
    if p != m {
        lemma_kids_closed(nodes, m, 0, p, y);
    }
}

proof fn lemma_kids_closed(nodes: Seq<DomNode>, m: int, k: int, p: int, y: int)
    requires
        nodes_wf(nodes),
        0 <= m < nodes.len(),
        preorder_kids(nodes, m, k).contains(p),
        preorder(nodes, p).contains(y),
    ensures
        preorder_kids(nodes, m, k).contains(y),
    decreases nodes.len() - m, 0int, nodes[m].children@.len() - k,
{
    if 0 <= k < nodes[m].children@.len() {
        let c = child(nodes, m, k);
        assert(m < c < nodes.len());
        lemma_contains_concat(preorder(nodes, c), preorder_kids(nodes, m, k + 1), p);
        lemma_contains_concat(preorder(nodes, c), preorder_kids(nodes, m, k + 1), y);
        if preorder(nodes, c).contains(p) {
            lemma_preorder_closed(nodes, c, p, y);
        } else {
            lemma_kids_closed(nodes, m, k + 1, p, y);
        }
    } else {
        assert(preorder_kids(nodes, m, k) =~= Seq::<int>::empty());
    }
}

proof fn lemma_reaches_every_node(nodes: Seq<DomNode>, i: int)
    requires
        nodes_wf(nodes),
        0 <= i < nodes.len(),
    ensures
        preorder(nodes, 0).contains(i),
    decreases i,
{
    if i == 0 {
        assert(preorder(nodes, 0)[0] == 0);
    } else {
        let p = parent_index(nodes, i);
        assert(0 <= p < i);
        lemma_reaches_every_node(nodes, p);
        let kids = nodes[p].children@;
        assert(kids.contains(DomNodeId(i as usize)));
        let k = choose|k: int| 0 <= k < kids.len() && kids[k] == DomNodeId(i as usize);
        assert(child(nodes, p, k) == i);
        lemma_child_in_kids(nodes, p, 0, k);
        lemma_contains_concat(seq![p], preorder_kids(nodes, p, 0), i);
        lemma_preorder_closed(nodes, 0, p, i);
    }
}

proof fn lemma_siblings_apart(nodes: Seq<DomNode>, a: int, b: int, y: int)
    requires
        0 <= a < b,
        descends(nodes, a, y),
        descends(nodes, b, y),
    ensures
        descends(nodes, a, b),
    decreases y,
{
    if y == b {
    } else if y == a {
        lemma_descends_ge(nodes, b, y);
    } else {
        lemma_siblings_apart(nodes, a, b, parent_index(nodes, y));
    }
}

proof fn lemma_no_dups_concat(a: Seq<int>, b: Seq<int>)
    requires
        a.no_duplicates(),
        b.no_duplicates(),
        forall|y: int| a.contains(y) ==> !b.contains(y),
    ensures
        (a + b).no_duplicates(),
{
    let s = a + b;
    assert forall|i: int, j: int| 0 <= i < s.len() && 0 <= j < s.len() && i != j implies s[i] != s[j] by {
        if i < a.len() && j >= a.len() {
            assert(s[i] == a[i]);
            assert(s[j] == b[j - a.len()]);
            assert(a.contains(a[i]));
            assert(b.contains(b[j - a.len()]));
        } else if i >= a.len() && j < a.len() {
            assert(s[j] == a[j]);
            assert(s[i] == b[i - a.len()]);
            assert(a.contains(a[j]));
            assert(b.contains(b[i - a.len()]));
        } else if i < a.len() {
            assert(s[i] == a[i] && s[j] == a[j]);
        } else {
            assert(s[i] == b[i - a.len()] && s[j] == b[j - a.len()]);
        }
    }
}

proof fn lemma_kids_from(nodes: Seq<DomNode>, n: int, k: int)
    requires
        nodes_wf(nodes),
        0 <= n < nodes.len(),
        0 <= k,
    ensures
        forall|x: int|
            #[trigger] preorder_kids(nodes, n, k).contains(x) ==> exists|j: int|
                k <= j < nodes[n].children@.len() && descends(nodes, #[trigger] child(nodes, n, j), x),
    decreases nodes[n].children@.len() - k,
{
    if k < nodes[n].children@.len() {
        let c = child(nodes, n, k);
        assert(n < c < nodes.len());
        lemma_preorder_members(nodes, c);
        lemma_kids_from(nodes, n, k + 1);
        assert forall|x: int| #[trigger] preorder_kids(nodes, n, k).contains(x) implies exists|j: int|
            k <= j < nodes[n].children@.len() && descends(nodes, #[trigger] child(nodes, n, j), x) by {
            lemma_contains_concat(preorder(nodes, c), preorder_kids(nodes, n, k + 1), x);
            if preorder(nodes, c).contains(x) {
                assert(descends(nodes, child(nodes, n, k), x));
            }
        }
    } else {
        assert(preorder_kids(nodes, n, k) =~= Seq::<int>::empty());
    }
}

proof fn lemma_preorder_unique(nodes: Seq<DomNode>, n: int)
    requires
        nodes_wf(nodes),
        0 <= n < nodes.len(),
    ensures
        preorder(nodes, n).no_duplicates(),
    decreases nodes.len() - n, 1int, 0int,
{
    lemma_kids_unique(nodes, n, 0);
    lemma_kids_members(nodes, n, 0);
    assert forall|y: int| seq![n].contains(y) implies !preorder_kids(nodes, n, 0).contains(y) by {
        assert(seq![n][0] == n);
    }
    lemma_no_dups_concat(seq![n], preorder_kids(nodes, n, 0));
}

proof fn lemma_kids_unique(nodes: Seq<DomNode>, n: int, k: int)
    requires
        nodes_wf(nodes),
        0 <= n < nodes.len(),
        0 <= k,
    ensures
        preorder_kids(nodes, n, k).no_duplicates(),
    decreases nodes.len() - n, 0int, nodes[n].children@.len() - k,
{
    if k < nodes[n].children@.len() {
        let c = child(nodes, n, k);
        assert(n < c < nodes.len());
        lemma_preorder_unique(nodes, c);
        lemma_kids_unique(nodes, n, k + 1);
        lemma_preorder_members(nodes, c);
        lemma_kids_from(nodes, n, k + 1);
        assert forall|y: int| preorder(nodes, c).contains(y) implies !preorder_kids(nodes, n, k + 1).contains(y) by {
            if preorder_kids(nodes, n, k + 1).contains(y) {
                let j = choose|j: int| k + 1 <= j < nodes[n].children@.len() && descends(nodes, #[trigger] child(nodes, n, j), y);
                let b = child(nodes, n, j);
                assert(c < b);
                lemma_siblings_apart(nodes, c, b, y);
                assert(parent_index(nodes, b) == n);
                assert(b != c);
                lemma_descends_ge(nodes, c, n);
            }
        }
        lemma_no_dups_concat(preorder(nodes, c), preorder_kids(nodes, n, k + 1));
    } else {
        assert(preorder_kids(nodes, n, k) =~= Seq::<int>::empty());
    }
}

/// A depth-first walk of a well-formed tree visits every node exactly
/// once.
pub proof fn law_walk_visits_every_node_once(nodes: Seq<DomNode>)
    requires
        nodes_wf(nodes),
    ensures
        preorder(nodes, 0).no_duplicates(),
        forall|i: int| 0 <= i < nodes.len() ==> #[trigger] preorder(nodes, 0).contains(i),
        forall|x: int| #[trigger] preorder(nodes, 0).contains(x) ==> 0 <= x < nodes.len(),
{
    lemma_preorder_unique(nodes, 0);
    lemma_preorder_members(nodes, 0);
    assert forall|i: int| 0 <= i < nodes.len() implies #[trigger] preorder(nodes, 0).contains(i) by {
        lemma_reaches_every_node(nodes, i);
    }
}

} // verus!
