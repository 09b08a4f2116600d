//! The document tree: an arena of nodes linked by parent indices and ordered
//! child lists, with the well-formedness invariant that every operation keeps.
//!
//! Node `0` is the document node. A node's parent always has a smaller index
//! than the node itself, which makes the tree acyclic and gives every
//! downward recursion a measure.

use vstd::prelude::*;
use crate::text::{vec_eq, lower_seq, lower_char};

verus! {

/// What kind of DOM node a record describes.
#[derive(Clone, Copy, PartialEq, Eq, Debug, Structural)]
pub enum NodeKind {
    Document,
    DocumentType,
    Element,
    Text,
    Comment,
}

/// One attribute of an element. A `None` value is a boolean attribute
/// written without `=`; it reads as the empty string.
pub struct Attribute {
    pub name: Vec<char>,
    pub value: Option<Vec<char>>,
}

/// Mathematical form of an attribute.
pub struct AttrView {
    pub name: Seq<char>,
    pub value: Option<Seq<char>>,
}

/// View of an optional character vector.
pub open spec fn opt_chars(o: Option<Vec<char>>) -> Option<Seq<char>> {
    match o {
        Some(v) => Some(v@),
        None => None,
    }
}

impl View for Attribute {
    type V = AttrView;

    open spec fn view(&self) -> AttrView {
        AttrView {
            name: self.name@,
            value: opt_chars(self.value),
        }
    }
}

/// One node of the arena.
pub struct NodeData {
    pub kind: NodeKind,
    /// Local name of an element (lower case for HTML elements), or the name
    /// of a document type.
    pub name: Vec<char>,
    pub attrs: Vec<Attribute>,
    /// Character data of a text or comment node.
    pub data: Vec<char>,
    pub parent: Option<usize>,
    pub children: Vec<usize>,
}

/// Mathematical form of a node.
pub struct NodeView {
    pub kind: NodeKind,
    pub name: Seq<char>,
    pub attrs: Seq<AttrView>,
    pub data: Seq<char>,
    pub parent: Option<usize>,
    pub children: Seq<usize>,
}

impl View for NodeData {
    type V = NodeView;

    open spec fn view(&self) -> NodeView {
        NodeView {
            kind: self.kind,
            name: self.name@,
            attrs: self.attrs@.map_values(|a: Attribute| a@),
            data: self.data@,
            parent: self.parent,
            children: self.children@,
        }
    }
}

/// The arena of a document together with its registry of element names.
pub struct Tree {
    pub nodes: Vec<NodeData>,
    /// Element names in the order they were first seen; an element's tag id
    /// is derived from its name's position here.
    pub names: Vec<Vec<char>>,
}

/// Mathematical form of a tree.
pub struct TreeView {
    pub nodes: Seq<NodeView>,
    pub names: Seq<Seq<char>>,
}

impl View for Tree {
    type V = TreeView;

    open spec fn view(&self) -> TreeView {
        TreeView {
            nodes: self.nodes@.map_values(|n: NodeData| n@),
            names: self.names@.map_values(|n: Vec<char>| n@),
        }
    }
}

/// Node `n` exists in `d`.
pub open spec fn valid(d: Seq<NodeView>, n: int) -> bool {
    0 <= n < d.len()
}

/// The parent/child links of `d` agree with each other, point forward, and
/// never repeat; node `0` is the document.
pub open spec fn wf_links(d: Seq<NodeView>) -> bool {
    &&& 1 <= d.len() <= usize::MAX
    &&& d[0].kind == NodeKind::Document
    &&& d[0].parent is None
    &&& forall|n: int|
        #![trigger d[n].parent]
        0 <= n < d.len() && d[n].parent is Some ==> {
            let p = d[n].parent->0 as int;
            &&& 0 <= p < n
            &&& d[p].children.contains(n as usize)
        }
    &&& forall|p: int, i: int|
        #![trigger d[p].children[i]]
        0 <= p < d.len() && 0 <= i < d[p].children.len() ==> {
            let c = d[p].children[i] as int;
            &&& p < c < d.len()
            &&& d[c].parent == Some(p as usize)
        }
    &&& forall|p: int| #![trigger d[p].children] 0 <= p < d.len() ==> d[p].children.no_duplicates()
}

/// Every element's name is registered, and no name is registered twice.
pub open spec fn wf_names(t: TreeView) -> bool {
    &&& t.names.no_duplicates()
    &&& forall|n: int|
        #![trigger t.nodes[n].kind]
        0 <= n < t.nodes.len() && t.nodes[n].kind == NodeKind::Element ==> t.names.contains(
            t.nodes[n].name,
        )
}

/// No text node has children.
pub open spec fn text_nodes_are_leaves(d: Seq<NodeView>) -> bool {
    forall|m: int| 0 <= m < d.len() && #[trigger] d[m].kind == NodeKind::Text ==> d[m].children.len() == 0
}

/// An attribute list has lower-case names without NUL, none of them twice.
pub open spec fn attrs_ok(a: Seq<AttrView>) -> bool {
    &&& forall|i: int| 0 <= i < a.len() ==> lower_seq(#[trigger] a[i].name) == a[i].name
        && !a[i].name.contains('\0')
    &&& forall|i: int, j: int| 0 <= i < j < a.len() ==> #[trigger] a[i].name != #[trigger] a[j].name
}

/// Every node's attribute list has lower-case names without NUL, none of them twice.
pub open spec fn wf_attrs(d: Seq<NodeView>) -> bool {
    forall|n: int| 0 <= n < d.len() ==> attrs_ok(#[trigger] d[n].attrs)
}

/// Lower-casing twice is lower-casing once.
pub proof fn lemma_lower_idempotent(s: Seq<char>)
    ensures
        lower_seq(lower_seq(s)) == lower_seq(s),
{
    assert forall|i: int| 0 <= i < s.len() implies lower_char(lower_char(s[i])) == lower_char(s[i]) by {
        let c = s[i];
        if 'A' <= c && c <= 'Z' {
            assert(!('A' <= lower_char(c) && lower_char(c) <= 'Z'));
        }
    }
    assert(lower_seq(lower_seq(s)) =~= lower_seq(s));
}

/// Setting a lower-case attribute keeps the list well formed.
pub proof fn lemma_attrs_set_ok(a: Seq<AttrView>, name: Seq<char>, value: Option<Seq<char>>)
    requires
        attrs_ok(a),
        lower_seq(name) == name,
        !name.contains('\0'),
    ensures
        attrs_ok(attrs_set(a, name, value)),
{
    lemma_attr_index_from(a, name, 0);
    let r = attrs_set(a, name, value);
    match attr_index(a, name) {
        Some(k) => {
            assert forall|i: int, j: int| 0 <= i < j < r.len() implies #[trigger] r[i].name
                != #[trigger] r[j].name by {
                assert(r[i].name == a[i].name && r[j].name == a[j].name);
            }
            assert forall|i: int| 0 <= i < r.len() implies lower_seq(#[trigger] r[i].name)
                == r[i].name by {
                if i != k {
                    assert(r[i].name == a[i].name);
                }
            }
        },
        None => {
            assert forall|i: int, j: int| 0 <= i < j < r.len() implies #[trigger] r[i].name
                != #[trigger] r[j].name by {
                assert(r[i].name == a[i].name);
                if j < a.len() {
                    assert(r[j].name == a[j].name);
                }
            }
            assert forall|i: int| 0 <= i < r.len() implies lower_seq(#[trigger] r[i].name)
                == r[i].name by {
                if i < a.len() {
                    assert(r[i].name == a[i].name);
                }
            }
        },
    }
}

/// A filtered attribute list is well formed when the list is, and holds
/// only entries of the list.
pub proof fn lemma_attrs_filter_ok(a: Seq<AttrView>, p: spec_fn(AttrView) -> bool)
    requires
        attrs_ok(a),
    ensures
        attrs_ok(a.filter(p)),
        forall|x: AttrView| a.filter(p).contains(x) ==> a.contains(x),
    decreases a.len(),
{
    reveal(Seq::filter);
    if a.len() > 0 {
        let b = a.drop_last();
        assert forall|i: int, j: int| 0 <= i < j < b.len() implies #[trigger] b[i].name
            != #[trigger] b[j].name by {
            assert(b[i] == a[i] && b[j] == a[j]);
        }
        assert forall|i: int| 0 <= i < b.len() implies lower_seq(#[trigger] b[i].name) == b[i].name by {
            assert(b[i] == a[i]);
        }
        lemma_attrs_filter_ok(b, p);
        let sub = b.filter(p);
        assert(a.filter(p) == if p(a.last()) {
            sub.push(a.last())
        } else {
            sub
        });
        if p(a.last()) {
            let r = sub.push(a.last());
            assert forall|i: int, j: int| 0 <= i < j < r.len() implies #[trigger] r[i].name
                != #[trigger] r[j].name by {
                if j == sub.len() {
                    assert(sub.contains(sub[i]));
                    assert(b.contains(sub[i]));
                    let k = choose|k: int| 0 <= k < b.len() && b[k] == sub[i];
                    assert(a[k] == b[k]);
                    assert(a[k].name != a[a.len() - 1].name);
                } else {
                    assert(r[i] == sub[i] && r[j] == sub[j]);
                }
            }
            assert forall|i: int| 0 <= i < r.len() implies lower_seq(#[trigger] r[i].name)
                == r[i].name by {
                if i < sub.len() {
                    assert(sub.contains(sub[i]));
                    assert(b.contains(sub[i]));
                    let k = choose|k: int| 0 <= k < b.len() && b[k] == sub[i];
                    assert(b[k] == a[k]);
                } else {
                    assert(r[i] == a[a.len() - 1]);
                }
            }
            assert forall|x: AttrView| r.contains(x) implies a.contains(x) by {
                let k = choose|k: int| 0 <= k < r.len() && r[k] == x;
                if k < sub.len() {
                    assert(sub.contains(sub[k]));
                    assert(b.contains(sub[k]));
                    let m = choose|m: int| 0 <= m < b.len() && b[m] == sub[k];
                    assert(a[m] == b[m]);
                } else {
                    assert(a[a.len() - 1] == x);
                }
            }
        } else {
            assert forall|x: AttrView| sub.contains(x) implies a.contains(x) by {
                assert(b.contains(x));
                let m = choose|m: int| 0 <= m < b.len() && b[m] == x;
                assert(a[m] == b[m]);
            }
        }
    }
}

pub open spec fn wf_tree(t: TreeView) -> bool {
    wf_links(t.nodes) && wf_names(t)
}

/// `m` is `a` or lies below `a`.
pub open spec fn in_subtree(d: Seq<NodeView>, a: int, m: int) -> bool
    decreases m,
{
    if m == a {
        true
    } else if 0 <= m < d.len() && d[m].parent is Some && d[m].parent->0 < m {
        in_subtree(d, a, d[m].parent->0 as int)
    } else {
        false
    }
}

/// The parent chain of `n`, starting with `n` itself.
pub open spec fn ancestors(d: Seq<NodeView>, n: int) -> Seq<usize>
    decreases n,
{
    if 0 <= n < d.len() {
        if d[n].parent is Some && d[n].parent->0 < n {
            seq![n as usize] + ancestors(d, d[n].parent->0 as int)
        } else {
            seq![n as usize]
        }
    } else {
        Seq::empty()
    }
}

/// Depth-first pre-order of the subtree of `n`, `n` first.
pub open spec fn preorder(d: Seq<NodeView>, n: int) -> Seq<usize>
    decreases d.len() - n, 1nat, 0nat,
{
    if 0 <= n < d.len() {
        seq![n as usize] + preorder_from(d, n, 0)
    } else {
        Seq::empty()
    }
}

/// Pre-order of the subtrees of the children of `n` from child `i` on.
pub open spec fn preorder_from(d: Seq<NodeView>, n: int, i: int) -> Seq<usize>
    decreases d.len() - n, 0nat, d[n].children.len() - i,
{
    if 0 <= n < d.len() && 0 <= i < d[n].children.len() && n < d[n].children[i] < d.len() {
        preorder(d, d[n].children[i] as int) + preorder_from(d, n, i + 1)
    } else {
        Seq::empty()
    }
}

/// Characters of the text nodes in the subtree of `n`, in document order.
pub open spec fn subtree_text(d: Seq<NodeView>, n: int) -> Seq<char>
    decreases d.len() - n, 1nat, 0nat,
{
    if 0 <= n < d.len() {
        (if d[n].kind == NodeKind::Text {
            d[n].data
        } else {
            Seq::empty()
        }) + subtree_text_from(d, n, 0)
    } else {
        Seq::empty()
    }
}

pub open spec fn subtree_text_from(d: Seq<NodeView>, n: int, i: int) -> Seq<char>
    decreases d.len() - n, 0nat, d[n].children.len() - i,
{
    if 0 <= n < d.len() && 0 <= i < d[n].children.len() && n < d[n].children[i] < d.len() {
        subtree_text(d, d[n].children[i] as int) + subtree_text_from(d, n, i + 1)
    } else {
        Seq::empty()
    }
}

/// Position of `n` among its parent's children.
pub open spec fn child_index(d: Seq<NodeView>, n: int) -> int {
    d[d[n].parent->0 as int].children.index_of(n as usize)
}

/// The sibling after `n`, if any.
pub open spec fn next_sibling(d: Seq<NodeView>, n: int) -> Option<usize> {
    match d[n].parent {
        Some(p) => {
            let i = child_index(d, n);
            if i + 1 < d[p as int].children.len() {
                Some(d[p as int].children[i + 1])
            } else {
                None
            }
        },
        None => None,
    }
}

/// The sibling before `n`, if any.
pub open spec fn prev_sibling(d: Seq<NodeView>, n: int) -> Option<usize> {
    match d[n].parent {
        Some(p) => {
            let i = child_index(d, n);
            if i > 0 {
                Some(d[p as int].children[i - 1])
            } else {
                None
            }
        },
        None => None,
    }
}

/// The first attribute of `n` named `name`, by position.
pub open spec fn attr_index_from(attrs: Seq<AttrView>, name: Seq<char>, i: int) -> Option<int>
    decreases attrs.len() - i,
{
    if 0 <= i < attrs.len() {
        if attrs[i].name == name {
            Some(i)
        } else {
            attr_index_from(attrs, name, i + 1)
        }
    } else {
        None
    }
}

pub open spec fn attr_index(attrs: Seq<AttrView>, name: Seq<char>) -> Option<int> {
    attr_index_from(attrs, name, 0)
}

/// The value an attribute reads as: a boolean attribute reads as "".
pub open spec fn attr_text(a: AttrView) -> Seq<char> {
    match a.value {
        Some(v) => v,
        None => Seq::empty(),
    }
}

/// Value of the attribute `name` (already lower-cased) of node `n`.
pub open spec fn attr_value(d: Seq<NodeView>, n: int, name: Seq<char>) -> Option<Seq<char>> {
    match attr_index(d[n].attrs, name) {
        Some(i) => Some(attr_text(d[n].attrs[i])),
        None => None,
    }
}

pub(crate) proof fn lemma_attr_index_from(attrs: Seq<AttrView>, name: Seq<char>, i: int)
    requires
        0 <= i,
    ensures
        attr_index_from(attrs, name, i) matches Some(k) ==> i <= k < attrs.len() && attrs[k].name
            == name && forall|j: int| i <= j < k ==> attrs[j].name != name,
        attr_index_from(attrs, name, i) is None ==> forall|j: int|
            i <= j < attrs.len() ==> attrs[j].name != name,
    decreases attrs.len() - i,
{
    if i < attrs.len() && attrs[i].name != name {
        lemma_attr_index_from(attrs, name, i + 1);
    }
}

/// `v` with another parent.
pub open spec fn with_parent(v: NodeView, p: Option<usize>) -> NodeView {
    NodeView { parent: p, ..v }
}

/// `v` with another child list.
pub open spec fn with_children(v: NodeView, c: Seq<usize>) -> NodeView {
    NodeView { children: c, ..v }
}

/// The tree after `n` is unlinked from its parent; its own children stay
/// with it.
pub open spec fn detached(d: Seq<NodeView>, n: int) -> Seq<NodeView> {
    match d[n].parent {
        Some(p) => d.update(
            p as int,
            with_children(d[p as int], d[p as int].children.remove(child_index(d, n))),
        ).update(n, with_parent(d[n], None)),
        None => d,
    }
}

/// The tree after a new node `v` is appended as the last child of `p`.
pub open spec fn appended(d: Seq<NodeView>, p: int, v: NodeView) -> Seq<NodeView> {
    d.update(p, with_children(d[p], d[p].children.push(d.len() as usize))).push(
        with_parent(with_children(v, Seq::empty()), Some(p as usize)),
    )
}

/// The tree after a new node `v` is made child `k` of `p`, before the
/// child that was at `k`.
pub open spec fn inserted(d: Seq<NodeView>, p: int, k: int, v: NodeView) -> Seq<NodeView> {
    d.update(p, with_children(d[p], d[p].children.insert(k, d.len() as usize))).push(
        with_parent(with_children(v, Seq::empty()), Some(p as usize)),
    )
}

/// Child list `ch` with its entry `i` replaced by the list `kids`.
pub open spec fn spliced(ch: Seq<usize>, i: int, kids: Seq<usize>) -> Seq<usize> {
    ch.subrange(0, i) + kids + ch.subrange(i + 1, ch.len() as int)
}

/// The tree after `n` is unwrapped: its children take its place in its
/// parent's child list (or lose their parent when `n` has none), and `n`
/// is left on its own, without parent or children.
pub open spec fn unwrapped(d: Seq<NodeView>, n: int) -> Seq<NodeView> {
    Seq::new(
        d.len(),
        |m: int|
            if m == n {
                with_children(with_parent(d[m], None), Seq::empty())
            } else if d[m].parent == Some(n as usize) {
                with_parent(d[m], d[n].parent)
            } else if d[n].parent == Some(m as usize) {
                with_children(d[m], spliced(d[m].children, child_index(d, n), d[n].children))
            } else {
                d[m]
            },
    )
}

/// Entry `j` of child list `ch` is a text node right after a text node.
pub open spec fn follows_text(d: Seq<NodeView>, ch: Seq<usize>, j: int) -> bool {
    0 < j < ch.len() && d[ch[j] as int].kind == NodeKind::Text && d[ch[j - 1] as int].kind
        == NodeKind::Text
}

/// The data of the run of adjacent text nodes of `ch` that starts at `j`.
pub open spec fn run_data(d: Seq<NodeView>, ch: Seq<usize>, j: int) -> Seq<char>
    decreases ch.len() - j,
{
    if 0 <= j < ch.len() {
        d[ch[j] as int].data + if j + 1 < ch.len() && d[ch[j + 1] as int].kind == NodeKind::Text {
            run_data(d, ch, j + 1)
        } else {
            Seq::empty()
        }
    } else {
        Seq::empty()
    }
}

/// The entries of `ch` from `j` on that stay when adjacent text nodes are
/// merged: all but the text nodes right after a text node.
pub open spec fn kept_children(d: Seq<NodeView>, ch: Seq<usize>, j: int) -> Seq<usize>
    decreases ch.len() - j,
{
    if 0 <= j < ch.len() {
        (if follows_text(d, ch, j) {
            Seq::empty()
        } else {
            seq![ch[j]]
        }) + kept_children(d, ch, j + 1)
    } else {
        Seq::empty()
    }
}

/// The tree after the adjacent text children of `q` are merged: the first
/// node of each run of adjacent text nodes takes the data of the whole run,
/// and the others leave the tree.
#[verifier::opaque]
pub open spec fn merged_children(d: Seq<NodeView>, q: int) -> Seq<NodeView> {
    Seq::new(
        d.len(),
        |m: int|
            if m == q {
                with_children(d[m], kept_children(d, d[q].children, 0))
            } else if d[m].parent == Some(q as usize) && d[m].kind == NodeKind::Text {
                if follows_text(d, d[q].children, child_index(d, m)) {
                    with_parent(d[m], None)
                } else {
                    with_data(d[m], run_data(d, d[q].children, child_index(d, m)))
                }
            } else {
                d[m]
            },
    )
}

/// The tree after the adjacent text children of each node of `qs` are
/// merged, one node after another.
pub open spec fn merged_all(d: Seq<NodeView>, qs: Seq<usize>) -> Seq<NodeView>
    decreases qs.len(),
{
    if qs.len() == 0 {
        d
    } else {
        merged_all(merged_children(d, qs[0] as int), qs.drop_first())
    }
}

/// The tree after the whole subtree of `n` is taken apart: every node in it
/// loses its parent and its children, and `n` leaves its parent's list.
pub open spec fn decomposed(d: Seq<NodeView>, n: int) -> Seq<NodeView> {
    Seq::new(
        d.len(),
        |m: int|
            if in_subtree(d, n, m) {
                with_children(with_parent(d[m], None), Seq::empty())
            } else if d[n].parent == Some(m as usize) {
                with_children(d[m], d[m].children.remove(child_index(d, n)))
            } else {
                d[m]
            },
    )
}

pub(crate) proof fn lemma_subtree_ge(d: Seq<NodeView>, a: int, m: int)
    requires
        in_subtree(d, a, m),
    ensures
        a <= m,
    decreases m,
{
    if m != a {
        lemma_subtree_ge(d, a, d[m].parent->0 as int);
    }
}

proof fn lemma_subtree_parent(d: Seq<NodeView>, a: int, m: int)
    requires
        wf_links(d),
        0 <= m < d.len(),
        m != a,
        d[m].parent is Some,
    ensures
        in_subtree(d, a, m) == in_subtree(d, a, d[m].parent->0 as int),
{
}

/// Removing an element from a sequence without duplicates keeps the others.
proof fn lemma_remove_keeps(s: Seq<usize>, i: int, x: usize)
    requires
        0 <= i < s.len(),
        s.no_duplicates(),
        s.contains(x),
        s[i] != x,
    ensures
        s.remove(i).contains(x),
        s.remove(i).no_duplicates(),
        !s.remove(i).contains(s[i]),
{
    let j = s.index_of(x);
    s.index_of_first_ensures(x);
    if j < i {
        assert(s.remove(i)[j] == x);
    } else {
        assert(s.remove(i)[j - 1] == x);
    }
    assert forall|a: int, b: int|
        0 <= a < s.remove(i).len() && 0 <= b < s.remove(i).len() && a != b implies s.remove(
        i,
    )[a] != s.remove(i)[b] by {
        let a2 = if a < i {
            a
        } else {
            a + 1
        };
        let b2 = if b < i {
            b
        } else {
            b + 1
        };
        assert(s.remove(i)[a] == s[a2]);
        assert(s.remove(i)[b] == s[b2]);
    }
    if s.remove(i).contains(s[i]) {
        let k = choose|k: int| 0 <= k < s.remove(i).len() && s.remove(i)[k] == s[i];
        let k2 = if k < i {
            k
        } else {
            k + 1
        };
        assert(s[k2] == s[i]);
    }
}

proof fn lemma_remove_subset(s: Seq<usize>, i: int, x: usize)
    requires
        0 <= i < s.len(),
        s.remove(i).contains(x),
    ensures
        s.contains(x),
{
    let k = choose|k: int| 0 <= k < s.remove(i).len() && s.remove(i)[k] == x;
    if k < i {
        assert(s[k] == x);
    } else {
        assert(s[k + 1] == x);
    }
}

pub(crate) proof fn lemma_detached_wf(t: TreeView, n: int)
    requires
        wf_tree(t),
        0 <= n < t.nodes.len(),
    ensures
        wf_tree(TreeView { nodes: detached(t.nodes, n), names: t.names }),
        detached(t.nodes, n).len() == t.nodes.len(),
        forall|m: int|
            0 <= m < t.nodes.len() ==> (#[trigger] detached(t.nodes, n)[m]).kind == t.nodes[m].kind
                && detached(t.nodes, n)[m].name == t.nodes[m].name && detached(t.nodes, n)[m].attrs
                == t.nodes[m].attrs && detached(t.nodes, n)[m].data == t.nodes[m].data,
{
    let d = t.nodes;
    let d2 = detached(d, n);
    if let Some(pp) = d[n].parent {
        let p = pp as int;
        let ch = d[p].children;
        assert(ch.contains(n as usize));
        ch.index_of_first_ensures(n as usize);
        let i = child_index(d, n);
        assert(0 <= i < ch.len() && ch[i] == n);
        assert forall|m: int|
            #![trigger d2[m].parent]
            0 <= m < d2.len() && d2[m].parent is Some implies {
            let q = d2[m].parent->0 as int;
            &&& 0 <= q < m
            &&& d2[q].children.contains(m as usize)
        } by {
            assert(m != n);
            assert(d2[m].parent == d[m].parent);
            let q = d[m].parent->0 as int;
            if q == p {
                lemma_remove_keeps(ch, i, m as usize);
            }
        }
        assert forall|q: int, j: int|
            #![trigger d2[q].children[j]]
            0 <= q < d2.len() && 0 <= j < d2[q].children.len() implies {
            let c = d2[q].children[j] as int;
            &&& q < c < d2.len()
            &&& d2[c].parent == Some(q as usize)
        } by {
            if q == p {
                let c = d2[q].children[j];
                assert(ch.remove(i).contains(c));
                lemma_remove_subset(ch, i, c);
                let k = choose|k: int| 0 <= k < ch.len() && ch[k] == c;
                assert(d[p].children[k] == c);
                lemma_remove_keeps(ch, i, c);
                assert(c != n);
            } else {
                let c = d[q].children[j];
                assert(d[q].children[j] == c);
                if c == n {
                    assert(d[c as int].parent == Some(q as usize));
                }
            }
        }
        assert forall|q: int| #![trigger d2[q].children] 0 <= q < d2.len() implies d2[
            q
        ].children.no_duplicates() by {
            if q == p {
                assert forall|a: int, b: int|
                    0 <= a < ch.remove(i).len() && 0 <= b < ch.remove(i).len() && a != b implies ch.remove(
                    i,
                )[a] != ch.remove(i)[b] by {
                    let a2 = if a < i {
                        a
                    } else {
                        a + 1
                    };
                    let b2 = if b < i {
                        b
                    } else {
                        b + 1
                    };
                    assert(ch.remove(i)[a] == ch[a2]);
                    assert(ch.remove(i)[b] == ch[b2]);
                }
            }
        }
        assert forall|m: int|
            #![trigger d2[m].kind]
            0 <= m < d2.len() && d2[m].kind == NodeKind::Element implies t.names.contains(
            d2[m].name,
        ) by {
            assert(d[m].kind == NodeKind::Element);
        }
    }
}

/// A spliced list has no repeated entries when neither part has and the
/// inserted entries are new.
proof fn lemma_spliced_no_dup(ch: Seq<usize>, i: int, kids: Seq<usize>)
    requires
        ch.no_duplicates(),
        kids.no_duplicates(),
        0 <= i < ch.len(),
        forall|k: int| 0 <= k < kids.len() ==> !ch.contains(#[trigger] kids[k]),
    ensures
        spliced(ch, i, kids).no_duplicates(),
{
    let sp = spliced(ch, i, kids);
    let kl = kids.len() as int;
    assert forall|a: int, b: int| 0 <= a < sp.len() && 0 <= b < sp.len() && a != b implies sp[a]
        != sp[b] by {
        let pos = |x: int|
            if x < i {
                x
            } else {
                x - kl + 1
            };
        if (a < i || a >= i + kl) && (b < i || b >= i + kl) {
            assert(sp[a] == ch[pos(a)]);
            assert(sp[b] == ch[pos(b)]);
        } else if i <= a < i + kl && i <= b < i + kl {
            assert(sp[a] == kids[a - i]);
            assert(sp[b] == kids[b - i]);
        } else if i <= a < i + kl {
            assert(sp[a] == kids[a - i]);
            assert(sp[b] == ch[pos(b)]);
            assert(!ch.contains(kids[a - i]));
        } else {
            assert(sp[b] == kids[b - i]);
            assert(sp[a] == ch[pos(a)]);
            assert(!ch.contains(kids[b - i]));
        }
    }
}

/// Unwrapping a node other than the document keeps the tree well formed
/// and changes no node's kind, name, attributes or data.
#[verifier::spinoff_prover]
#[verifier::rlimit(40)]
pub(crate) proof fn lemma_unwrapped_wf(t: TreeView, n: int)
    requires
        wf_tree(t),
        0 < n < t.nodes.len(),
    ensures
        wf_tree(TreeView { nodes: unwrapped(t.nodes, n), names: t.names }),
        unwrapped(t.nodes, n).len() == t.nodes.len(),
        forall|m: int|
            0 <= m < t.nodes.len() ==> (#[trigger] unwrapped(t.nodes, n)[m]).kind == t.nodes[m].kind
                && unwrapped(t.nodes, n)[m].name == t.nodes[m].name && unwrapped(t.nodes, n)[m].attrs
                == t.nodes[m].attrs && unwrapped(t.nodes, n)[m].data == t.nodes[m].data,
{
    let d = t.nodes;
    let d2 = unwrapped(d, n);
    let kids = d[n].children;
    let up = d[n].parent;
    assert(kids.no_duplicates());
    assert forall|k: int| 0 <= k < kids.len() implies #[trigger] d[kids[k] as int].parent == Some(
        n as usize,
    ) && n < kids[k] < d.len() by {}
    match up {
        Some(pp) => {
            let p = pp as int;
            assert(0 <= p < n);
            let ch = d[p].children;
            assert(ch.contains(n as usize));
            let i = child_index(d, n);
            assert(0 <= i < ch.len() && ch[i] == n);
            let sp = spliced(ch, i, kids);
            let kl = kids.len() as int;
            assert(d2[p].children == sp);
            assert forall|k: int| 0 <= k < kids.len() implies !ch.contains(#[trigger] kids[k]) by {
                if ch.contains(kids[k]) {
                    let j = choose|j: int| 0 <= j < ch.len() && ch[j] == kids[k];
                    assert(d[ch[j] as int].parent == Some(p as usize));
                }
            }
            lemma_spliced_no_dup(ch, i, kids);
            assert forall|m: int|
                #![trigger d2[m].parent]
                0 <= m < d2.len() && d2[m].parent is Some implies {
                let q = d2[m].parent->0 as int;
                &&& 0 <= q < m
                &&& d2[q].children.contains(m as usize)
            } by {
                if d[m].parent == Some(n as usize) {
                    assert(kids.contains(m as usize));
                    let k = choose|k: int| 0 <= k < kids.len() && kids[k] == m as usize;
                    assert(sp[i + k] == m as usize);
                } else {
                    assert(m != n);
                    let q = d[m].parent->0 as int;
                    assert(d2[m].parent == d[m].parent);
                    assert(d[q].children.contains(m as usize));
                    if q == p {
                        let j = choose|j: int| 0 <= j < ch.len() && ch[j] == m as usize;
                        assert(j != i);
                        if j < i {
                            assert(sp[j] == m as usize);
                        } else {
                            assert(sp[j - 1 + kl] == m as usize);
                        }
                    } else {
                        assert(q != n);
                        assert(d2[q].children == d[q].children);
                    }
                }
            }
            assert forall|q: int, j: int|
                #![trigger d2[q].children[j]]
                0 <= q < d2.len() && 0 <= j < d2[q].children.len() implies {
                let c = d2[q].children[j] as int;
                &&& q < c < d2.len()
                &&& d2[c].parent == Some(q as usize)
            } by {
                if q == p {
                    if j < i {
                        assert(sp[j] == ch[j]);
                        assert(d[ch[j] as int].parent == Some(p as usize));
                    } else if j < i + kl {
                        assert(sp[j] == kids[j - i]);
                    } else {
                        assert(sp[j] == ch[j - kl + 1]);
                        assert(d[ch[j - kl + 1] as int].parent == Some(p as usize));
                    }
                } else if q != n {
                    assert(d2[q].children == d[q].children);
                    let c = d[q].children[j] as int;
                    assert(d[c].parent == Some(q as usize));
                }
            }
            assert forall|q: int| #![trigger d2[q].children] 0 <= q < d2.len() implies d2[
                q
            ].children.no_duplicates() by {
                if q != p && q != n {
                    assert(d2[q].children == d[q].children);
                }
            }
        },
        None => {
            assert forall|m: int|
                #![trigger d2[m].parent]
                0 <= m < d2.len() && d2[m].parent is Some implies {
                let q = d2[m].parent->0 as int;
                &&& 0 <= q < m
                &&& d2[q].children.contains(m as usize)
            } by {
                let q = d[m].parent->0 as int;
                assert(d2[m].parent == d[m].parent);
                assert(q != n);
                assert(d2[q].children == d[q].children);
            }
            assert forall|q: int, j: int|
                #![trigger d2[q].children[j]]
                0 <= q < d2.len() && 0 <= j < d2[q].children.len() implies {
                let c = d2[q].children[j] as int;
                &&& q < c < d2.len()
                &&& d2[c].parent == Some(q as usize)
            } by {
                assert(q != n);
                assert(d2[q].children == d[q].children);
                let c = d[q].children[j] as int;
                assert(d[c].parent == Some(q as usize));
                assert(c != n);
            }
            assert forall|q: int| #![trigger d2[q].children] 0 <= q < d2.len() implies d2[
                q
            ].children.no_duplicates() by {
                if q != n {
                    assert(d2[q].children == d[q].children);
                }
            }
        },
    }
    assert forall|m: int|
        #![trigger d2[m].kind]
        0 <= m < d2.len() && d2[m].kind == NodeKind::Element implies t.names.contains(d2[m].name) by {
        assert(d[m].kind == NodeKind::Element);
    }
}

/// Child `i` of `q` sits at position `i` of the child list.
pub(crate) proof fn lemma_child_index(d: Seq<NodeView>, q: int, i: int)
    requires
        wf_links(d),
        0 <= q < d.len(),
        0 <= i < d[q].children.len(),
    ensures
        child_index(d, d[q].children[i] as int) == i,
        d[d[q].children[i] as int].parent == Some(q as usize),
{
    let ch = d[q].children;
    let c = ch[i];
    assert(d[c as int].parent == Some(q as usize));
    assert(ch.contains(c));
    let k = ch.index_of(c);
    assert(ch[k] == c);
    assert(ch.no_duplicates());
}

/// What merging the text children of `q` makes of node `m`.
pub(crate) proof fn lemma_merged_at(d: Seq<NodeView>, q: int, m: int)
    requires
        0 <= m < d.len(),
    ensures
        merged_children(d, q).len() == d.len(),
        merged_children(d, q)[m].kind == d[m].kind,
        merged_children(d, q)[m].name == d[m].name,
        merged_children(d, q)[m].attrs == d[m].attrs,
        merged_children(d, q)[m].children == if m == q {
            kept_children(d, d[q].children, 0)
        } else {
            d[m].children
        },
        merged_children(d, q)[m].data == if m != q && d[m].parent == Some(q as usize) && d[m].kind
            == NodeKind::Text && !follows_text(d, d[q].children, child_index(d, m)) {
            run_data(d, d[q].children, child_index(d, m))
        } else {
            d[m].data
        },
        merged_children(d, q)[m].parent == if m != q && d[m].parent == Some(q as usize) && d[m].kind
            == NodeKind::Text && follows_text(d, d[q].children, child_index(d, m)) {
            None
        } else {
            d[m].parent
        },
{
    reveal(merged_children);
}

/// Which entries of `ch` the kept list holds.
proof fn lemma_kept_members(d: Seq<NodeView>, ch: Seq<usize>, j: int)
    requires
        0 <= j,
    ensures
        forall|k: int| 0 <= k < kept_children(d, ch, j).len() ==> exists|i: int|
            j <= i < ch.len() && !follows_text(d, ch, i) && #[trigger] kept_children(d, ch, j)[k]
                == ch[i],
        forall|i: int|
            j <= i < ch.len() && !follows_text(d, ch, i) ==> kept_children(d, ch, j).contains(
                #[trigger] ch[i],
            ),
        ch.no_duplicates() ==> kept_children(d, ch, j).no_duplicates(),
    decreases ch.len() - j,
{
    if j < ch.len() {
        lemma_kept_members(d, ch, j + 1);
        let head: Seq<usize> = if follows_text(d, ch, j) {
            Seq::empty()
        } else {
            seq![ch[j]]
        };
        let rest = kept_children(d, ch, j + 1);
        let all = kept_children(d, ch, j);
        assert(all == head + rest);
        assert forall|k: int| 0 <= k < all.len() implies exists|i: int|
            j <= i < ch.len() && !follows_text(d, ch, i) && #[trigger] all[k] == ch[i] by {
            if k < head.len() {
                assert(all[k] == ch[j]);
            } else {
                assert(all[k] == rest[k - head.len()]);
            }
        }
        assert forall|i: int| j <= i < ch.len() && !follows_text(d, ch, i) implies all.contains(
            #[trigger] ch[i],
        ) by {
            if i == j {
                assert(all[0] == ch[j]);
            } else {
                assert(rest.contains(ch[i]));
                let k = choose|k: int| 0 <= k < rest.len() && rest[k] == ch[i];
                assert(all[k + head.len()] == ch[i]);
            }
        }
        if ch.no_duplicates() && !follows_text(d, ch, j) {
            assert forall|k: int| 0 <= k < rest.len() implies rest[k] != ch[j] by {
                let i = choose|i: int| j + 1 <= i < ch.len() && !follows_text(d, ch, i) && rest[k]
                    == ch[i];
            }
            assert forall|a: int, b: int| 0 <= a < all.len() && 0 <= b < all.len() && a != b implies all[a]
                != all[b] by {
                if a > 0 && b > 0 {
                    assert(all[a] == rest[a - 1]);
                    assert(all[b] == rest[b - 1]);
                } else if a == 0 {
                    assert(all[b] == rest[b - 1]);
                } else {
                    assert(all[a] == rest[a - 1]);
                }
            }
        }
    } else {
        assert(kept_children(d, ch, j) =~= Seq::<usize>::empty());
    }
}

/// Merging the text children of `q` keeps the tree well formed and
/// changes no node's kind, name or attributes.
pub(crate) proof fn lemma_merged_children_wf(t: TreeView, q: int)
    requires
        wf_tree(t),
        0 <= q < t.nodes.len(),
    ensures
        wf_tree(TreeView { nodes: merged_children(t.nodes, q), names: t.names }),
        merged_children(t.nodes, q).len() == t.nodes.len(),
        forall|m: int|
            0 <= m < t.nodes.len() ==> (#[trigger] merged_children(t.nodes, q)[m]).kind
                == t.nodes[m].kind && merged_children(t.nodes, q)[m].name == t.nodes[m].name
                && merged_children(t.nodes, q)[m].attrs == t.nodes[m].attrs,
{
    reveal(merged_children);
    let d = t.nodes;
    let d2 = merged_children(d, q);
    let ch = d[q].children;
    let kept = kept_children(d, ch, 0);
    lemma_kept_members(d, ch, 0);
    assert(ch.no_duplicates());
    assert forall|m: int|
        #![trigger d2[m].parent]
        0 <= m < d2.len() && d2[m].parent is Some implies {
        let p = d2[m].parent->0 as int;
        &&& 0 <= p < m
        &&& d2[p].children.contains(m as usize)
    } by {
        let p = d[m].parent->0 as int;
        assert(d2[m].parent == d[m].parent);
        if p == q {
            assert(d[q].children.contains(m as usize));
            let i = choose|i: int| 0 <= i < ch.len() && ch[i] == m as usize;
            assert(child_index(d, m) == i) by {
                let k = ch.index_of(m as usize);
                assert(ch[k] == m as usize);
            }
            assert(!follows_text(d, ch, i));
            assert(kept.contains(ch[i]));
        } else {
            assert(d2[p].children == d[p].children);
        }
    }
    assert forall|p: int, j: int|
        #![trigger d2[p].children[j]]
        0 <= p < d2.len() && 0 <= j < d2[p].children.len() implies {
        let c = d2[p].children[j] as int;
        &&& p < c < d2.len()
        &&& d2[c].parent == Some(p as usize)
    } by {
        if p == q {
            let c = kept[j];
            let i = choose|i: int| 0 <= i < ch.len() && !follows_text(d, ch, i) && kept[j] == ch[i];
            assert(d[c as int].parent == Some(q as usize));
            assert(child_index(d, c as int) == i) by {
                assert(ch.contains(c));
                let k = ch.index_of(c);
                assert(ch[k] == c);
            }
        } else {
            assert(d2[p].children == d[p].children);
            let c = d[p].children[j] as int;
            assert(d[c].parent == Some(p as usize));
        }
    }
    assert forall|p: int| #![trigger d2[p].children] 0 <= p < d2.len() implies d2[
        p
    ].children.no_duplicates() by {
        if p != q {
            assert(d2[p].children == d[p].children);
        }
    }
    assert forall|m: int|
        #![trigger d2[m].kind]
        0 <= m < d2.len() && d2[m].kind == NodeKind::Element implies t.names.contains(d2[m].name) by {
        assert(d[m].kind == NodeKind::Element);
    }
}

proof fn lemma_appended_wf(t: TreeView, p: int, v: NodeView)
    requires
        wf_tree(t),
        0 <= p < t.nodes.len(),
        t.nodes.len() < usize::MAX,
        v.kind != NodeKind::Document,
        v.kind == NodeKind::Element ==> t.names.contains(v.name),
    ensures
        wf_tree(TreeView { nodes: appended(t.nodes, p, v), names: t.names }),
{
    let d = t.nodes;
    let d2 = appended(d, p, v);
    let nn = d.len() as int;
    assert(d2.len() == nn + 1);
    assert forall|m: int|
        #![trigger d2[m].parent]
        0 <= m < d2.len() && d2[m].parent is Some implies {
        let q = d2[m].parent->0 as int;
        &&& 0 <= q < m
        &&& d2[q].children.contains(m as usize)
    } by {
        if m == nn {
            assert(d2[p].children[d[p].children.len() as int] == nn as usize);
        } else {
            let q = d[m].parent->0 as int;
            assert(d[q].children.contains(m as usize));
            if q == p {
                let k = choose|k: int| 0 <= k < d[p].children.len() && d[p].children[k] == m as usize;
                assert(d2[p].children[k] == m as usize);
            }
        }
    }
    assert forall|q: int, j: int|
        #![trigger d2[q].children[j]]
        0 <= q < d2.len() && 0 <= j < d2[q].children.len() implies {
        let c = d2[q].children[j] as int;
        &&& q < c < d2.len()
        &&& d2[c].parent == Some(q as usize)
    } by {
        if q == nn {
        } else if q == p && j == d[p].children.len() {
        } else {
            assert(d2[q].children[j] == d[q].children[j]);
        }
    }
    assert forall|q: int| #![trigger d2[q].children] 0 <= q < d2.len() implies d2[
        q
    ].children.no_duplicates() by {
        if q == p {
            assert forall|a: int, b: int|
                0 <= a < d2[p].children.len() && 0 <= b < d2[p].children.len() && a != b implies d2[
                p
            ].children[a] != d2[p].children[b] by {
                if a < d[p].children.len() {
                    assert(d[p].children[a] < nn);
                }
                if b < d[p].children.len() {
                    assert(d[p].children[b] < nn);
                }
            }
        } else if q == nn {
        }
    }
    assert forall|m: int|
        #![trigger d2[m].kind]
        0 <= m < d2.len() && d2[m].kind == NodeKind::Element implies t.names.contains(
        d2[m].name,
    ) by {
        if m < nn {
            assert(d[m].kind == NodeKind::Element);
        }
    }
}

proof fn lemma_inserted_wf(t: TreeView, p: int, k: int, v: NodeView)
    requires
        wf_tree(t),
        0 <= p < t.nodes.len(),
        0 <= k <= t.nodes[p].children.len(),
        t.nodes.len() < usize::MAX,
        v.kind != NodeKind::Document,
        v.kind == NodeKind::Element ==> t.names.contains(v.name),
    ensures
        wf_tree(TreeView { nodes: inserted(t.nodes, p, k, v), names: t.names }),
{
    let d = t.nodes;
    let d2 = inserted(d, p, k, v);
    let nn = d.len() as int;
    let ch = d[p].children;
    let ch2 = ch.insert(k, nn as usize);
    assert(d2.len() == nn + 1);
    assert(d2[p].children == ch2);
    assert forall|j: int| 0 <= j < ch2.len() implies #[trigger] ch2[j] == if j < k {
        ch[j]
    } else if j == k {
        nn as usize
    } else {
        ch[j - 1]
    } by {}
    assert forall|m: int|
        #![trigger d2[m].parent]
        0 <= m < d2.len() && d2[m].parent is Some implies {
        let q = d2[m].parent->0 as int;
        &&& 0 <= q < m
        &&& d2[q].children.contains(m as usize)
    } by {
        if m == nn {
            assert(ch2[k] == nn as usize);
        } else {
            let q = d[m].parent->0 as int;
            assert(d[q].children.contains(m as usize));
            if q == p {
                let i = choose|i: int| 0 <= i < ch.len() && ch[i] == m as usize;
                if i < k {
                    assert(ch2[i] == m as usize);
                } else {
                    assert(ch2[i + 1] == m as usize);
                }
            }
        }
    }
    assert forall|q: int, j: int|
        #![trigger d2[q].children[j]]
        0 <= q < d2.len() && 0 <= j < d2[q].children.len() implies {
        let c = d2[q].children[j] as int;
        &&& q < c < d2.len()
        &&& d2[c].parent == Some(q as usize)
    } by {
        if q == nn {
        } else if q == p {
            if j < k {
                assert(d[p].children[j] == ch2[j]);
            } else if j > k {
                assert(d[p].children[j - 1] == ch2[j]);
            }
        } else {
            assert(d2[q].children[j] == d[q].children[j]);
        }
    }
    assert forall|q: int| #![trigger d2[q].children] 0 <= q < d2.len() implies d2[
        q
    ].children.no_duplicates() by {
        if q == p {
            assert forall|a: int, b: int|
                0 <= a < ch2.len() && 0 <= b < ch2.len() && a != b implies ch2[a] != ch2[b] by {
                if a != k {
                    let a1 = if a < k { a } else { a - 1 };
                    assert(ch[a1] < nn);
                    assert(ch2[a] == ch[a1]);
                }
                if b != k {
                    let b1 = if b < k { b } else { b - 1 };
                    assert(ch[b1] < nn);
                    assert(ch2[b] == ch[b1]);
                }
                if a != k && b != k {
                    let a1 = if a < k { a } else { a - 1 };
                    let b1 = if b < k { b } else { b - 1 };
                    assert(d[p].children[a1] == ch[a1]);
                    assert(a1 != b1);
                }
            }
        } else if q == nn {
        }
    }
    assert forall|m: int|
        #![trigger d2[m].kind]
        0 <= m < d2.len() && d2[m].kind == NodeKind::Element implies t.names.contains(
        d2[m].name,
    ) by {
        if m < nn {
            assert(d[m].kind == NodeKind::Element);
        }
    }
}

proof fn lemma_remove_no_dup(s: Seq<usize>, i: int)
    requires
        0 <= i < s.len(),
        s.no_duplicates(),
    ensures
        s.remove(i).no_duplicates(),
{
    assert forall|a: int, b: int|
        0 <= a < s.remove(i).len() && 0 <= b < s.remove(i).len() && a != b implies s.remove(i)[a]
        != s.remove(i)[b] by {
        let a2 = if a < i {
            a
        } else {
            a + 1
        };
        let b2 = if b < i {
            b
        } else {
            b + 1
        };
        assert(s.remove(i)[a] == s[a2]);
        assert(s.remove(i)[b] == s[b2]);
    }
}

pub(crate) proof fn lemma_decomposed_wf(t: TreeView, n: int)
    requires
        wf_tree(t),
        0 <= n < t.nodes.len(),
    ensures
        wf_tree(TreeView { nodes: decomposed(t.nodes, n), names: t.names }),
{
    let d = t.nodes;
    let d2 = decomposed(d, n);
    let par = d[n].parent;
    let mut i: int = 0;
    if let Some(pp) = par {
        let ch = d[pp as int].children;
        ch.index_of_first_ensures(n as usize);
        i = child_index(d, n);
        assert(0 <= i < ch.len() && ch[i] == n);
        lemma_remove_no_dup(ch, i);
        if in_subtree(d, n, pp as int) {
            lemma_subtree_ge(d, n, pp as int);
        }
    }
    assert(d2.len() == d.len());
    assert forall|m: int|
        #![trigger d2[m].parent]
        0 <= m < d2.len() && d2[m].parent is Some implies {
        let q = d2[m].parent->0 as int;
        &&& 0 <= q < m
        &&& d2[q].children.contains(m as usize)
    } by {
        assert(!in_subtree(d, n, m));
        assert(m != n);
        assert(d2[m].parent == d[m].parent);
        let q = d[m].parent->0 as int;
        lemma_subtree_parent(d, n, m);
        assert(!in_subtree(d, n, q));
        if par == Some(q as usize) {
            lemma_remove_keeps(d[q].children, i, m as usize);
        }
    }
    assert forall|q: int, j: int|
        #![trigger d2[q].children[j]]
        0 <= q < d2.len() && 0 <= j < d2[q].children.len() implies {
        let c = d2[q].children[j] as int;
        &&& q < c < d2.len()
        &&& d2[c].parent == Some(q as usize)
    } by {
        assert(!in_subtree(d, n, q));
        if par == Some(q as usize) {
            let ch = d[q].children;
            let c = ch.remove(i)[j];
            assert(ch.remove(i).contains(c));
            lemma_remove_subset(ch, i, c);
            lemma_remove_keeps(ch, i, c);
            let k = choose|k: int| 0 <= k < ch.len() && ch[k] == c;
            assert(d[q].children[k] == c);
            assert(c != n);
            lemma_subtree_parent(d, n, c as int);
        } else {
            let c = d[q].children[j];
            assert(d[q].children[j] == c);
            assert(c != n);
            lemma_subtree_parent(d, n, c as int);
        }
    }
    assert forall|m: int| #![trigger d2[m].kind] 0 <= m < d2.len() && d2[m].kind == NodeKind::Element implies t.names.contains(
        d2[m].name,
    ) by {
        assert(d[m].kind == NodeKind::Element);
    }
}

/// Changing attributes or character data keeps the tree well formed.
proof fn lemma_same_shape(t: TreeView, t2: TreeView)
    requires
        wf_tree(t),
        t2.names == t.names,
        t2.nodes.len() == t.nodes.len(),
        forall|m: int|
            0 <= m < t.nodes.len() ==> (#[trigger] t2.nodes[m]).kind == t.nodes[m].kind
                && t2.nodes[m].name == t.nodes[m].name && t2.nodes[m].parent == t.nodes[m].parent
                && t2.nodes[m].children == t.nodes[m].children,
    ensures
        wf_tree(t2),
{
    let d = t.nodes;
    let d2 = t2.nodes;
    assert(d2[0].kind == d[0].kind);
    assert forall|m: int|
        #![trigger d2[m].parent]
        0 <= m < d2.len() && d2[m].parent is Some implies {
        let q = d2[m].parent->0 as int;
        &&& 0 <= q < m
        &&& d2[q].children.contains(m as usize)
    } by {
        assert(d[m].parent == d2[m].parent);
        let q = d[m].parent->0 as int;
        assert(d2[q].children == d[q].children);
    }
    assert forall|q: int, j: int|
        #![trigger d2[q].children[j]]
        0 <= q < d2.len() && 0 <= j < d2[q].children.len() implies {
        let c = d2[q].children[j] as int;
        &&& q < c < d2.len()
        &&& d2[c].parent == Some(q as usize)
    } by {
        assert(d2[q].children == d[q].children);
        let c = d[q].children[j] as int;
        assert(d[q].children[j] == c);
        assert(d2[c].parent == d[c].parent);
    }
    assert forall|q: int| #![trigger d2[q].children] 0 <= q < d2.len() implies d2[
        q
    ].children.no_duplicates() by {
        assert(d2[q].children == d[q].children);
    }
    assert forall|m: int| #![trigger d2[m].kind] 0 <= m < d2.len() && d2[m].kind == NodeKind::Element implies t.names.contains(
        d2[m].name,
    ) by {
        assert(d2[m].kind == d[m].kind);
        assert(d[m].kind == NodeKind::Element);
    }
}

/// `v` with another attribute list.
pub open spec fn with_attrs(v: NodeView, a: Seq<AttrView>) -> NodeView {
    NodeView { attrs: a, ..v }
}

/// `v` with other character data.
pub open spec fn with_data(v: NodeView, x: Seq<char>) -> NodeView {
    NodeView { data: x, ..v }
}

/// The attribute list after `name` is set to `value`: an existing attribute
/// of that name keeps its place and takes the value, otherwise a new one is
/// added at the end.
pub open spec fn attrs_set(a: Seq<AttrView>, name: Seq<char>, value: Option<Seq<char>>) -> Seq<
    AttrView,
> {
    match attr_index(a, name) {
        Some(i) => a.update(i, AttrView { name: name, value: value }),
        None => a.push(AttrView { name: name, value: value }),
    }
}

/// The attribute list without any attribute named `name`.
pub open spec fn attrs_removed(a: Seq<AttrView>, name: Seq<char>) -> Seq<AttrView> {
    a.filter(|x: AttrView| x.name != name)
}

/// Identifier of a tag name: its position in the registry. The registry
/// starts with the names of the non-element kinds, so element names come
/// after the ids those kinds use.
pub open spec fn name_id(names: Seq<Seq<char>>, name: Seq<char>) -> int {
    names.index_of(name)
}

/// Tag id of a text node.
pub const TEXT_ID: usize = 2;

/// Tag id of the document node.
pub const DOCUMENT_ID: usize = 3;

/// Tag id of a comment node.
pub const COMMENT_ID: usize = 4;

/// Tag id of a document type node.
pub const DOCTYPE_ID: usize = 5;

impl Tree {
    pub open spec fn nodes(&self) -> Seq<NodeView> {
        self@.nodes
    }

    pub open spec fn wf(&self) -> bool {
        wf_tree(self@) && wf_attrs(self@.nodes)
    }

    pub fn len(&self) -> (r: usize)
        ensures
            r == self.nodes().len(),
    {
        self.nodes.len()
    }

    pub fn kind(&self, n: usize) -> (r: NodeKind)
        requires
            n < self.nodes().len(),
        ensures
            r == self.nodes()[n as int].kind,
    {
        self.nodes[n].kind
    }

    pub fn parent(&self, n: usize) -> (r: Option<usize>)
        requires
            n < self.nodes().len(),
        ensures
            r == self.nodes()[n as int].parent,
    {
        self.nodes[n].parent
    }

    pub fn child_count(&self, n: usize) -> (r: usize)
        requires
            n < self.nodes().len(),
        ensures
            r == self.nodes()[n as int].children.len(),
    {
        self.nodes[n].children.len()
    }

    pub fn child(&self, n: usize, i: usize) -> (r: usize)
        requires
            n < self.nodes().len(),
            i < self.nodes()[n as int].children.len(),
        ensures
            r == self.nodes()[n as int].children[i as int],
    {
        self.nodes[n].children[i]
    }

    /// Position of `n` among its parent's children.
    pub fn index_in_parent(&self, n: usize) -> (r: usize)
        requires
            self.wf(),
            n < self.nodes().len(),
            self.nodes()[n as int].parent is Some,
        ensures
            r == child_index(self.nodes(), n as int),
            0 <= r < self.nodes()[self.nodes()[n as int].parent->0 as int].children.len(),
            self.nodes()[self.nodes()[n as int].parent->0 as int].children[r as int] == n,
    {
        let ghost d = self.nodes();
        let p = self.nodes[n].parent.unwrap();
        assert(d[n as int].parent is Some);
        let ghost ch = d[p as int].children;
        let mut i: usize = 0;
        while i < self.nodes[p].children.len()
            invariant
                d == self.nodes(),
                self.wf(),
                p < d.len(),
                ch == d[p as int].children,
                ch.contains(n),
                i <= ch.len(),
                forall|j: int| 0 <= j < i ==> ch[j] != n,
            decreases ch.len() - i,
        {
            if self.nodes[p].children[i] == n {
                proof {
                    ch.index_of_first_ensures(n);
                }
                return i;
            }
            i = i + 1;
        }
        assert(false);
        0
    }

    /// Appends the pre-order of the subtree of `n` to `out`.
    pub fn collect_preorder(&self, n: usize, out: &mut Vec<usize>)
        requires
            self.wf(),
            n < self.nodes().len(),
        ensures
            final(out)@ == old(out)@ + preorder(self.nodes(), n as int),
        decreases self.nodes().len() - n,
    {
        let ghost d = self.nodes();
        let ghost start = out@;
        out.push(n);
        let len = self.nodes[n].children.len();
        let mut i: usize = 0;
        while i < len
            invariant
                self.wf(),
                d == self.nodes(),
                n < d.len(),
                len == d[n as int].children.len(),
                i <= len,
                start + seq![n] + preorder_from(d, n as int, 0) == out@ + preorder_from(
                    d,
                    n as int,
                    i as int,
                ),
            decreases len - i,
        {
            let c = self.nodes[n].children[i];
            assert(d[n as int].children[i as int] == c);
            assert(n < c < d.len());
            assert(preorder_from(d, n as int, i as int) == preorder(d, c as int) + preorder_from(
                d,
                n as int,
                i + 1,
            ));
            self.collect_preorder(c, out);
            i = i + 1;
        }
        assert(preorder_from(d, n as int, i as int) =~= Seq::<usize>::empty());
        assert(preorder(d, n as int) == seq![n] + preorder_from(d, n as int, 0));
    }

    /// Appends the characters of the text nodes in the subtree of `n`.
    pub fn collect_text(&self, n: usize, out: &mut Vec<char>)
        requires
            self.wf(),
            n < self.nodes().len(),
        ensures
            final(out)@ == old(out)@ + subtree_text(self.nodes(), n as int),
        decreases self.nodes().len() - n,
    {
        let ghost d = self.nodes();
        let ghost start = out@;
        if self.nodes[n].kind == NodeKind::Text {
            let mut k: usize = 0;
            while k < self.nodes[n].data.len()
                invariant
                    d == self.nodes(),
                    n < d.len(),
                    d[n as int].kind == NodeKind::Text,
                    k <= d[n as int].data.len(),
                    out@ == start + d[n as int].data.subrange(0, k as int),
                decreases d[n as int].data.len() - k,
            {
                out.push(self.nodes[n].data[k]);
                k = k + 1;
                assert(out@ =~= start + d[n as int].data.subrange(0, k as int));
            }
            assert(d[n as int].data.subrange(0, k as int) =~= d[n as int].data);
        }
        let ghost mid = out@;
        assert(mid == start + (if d[n as int].kind == NodeKind::Text {
            d[n as int].data
        } else {
            Seq::empty()
        }));
        let len = self.nodes[n].children.len();
        let mut i: usize = 0;
        while i < len
            invariant
                self.wf(),
                d == self.nodes(),
                n < d.len(),
                len == d[n as int].children.len(),
                i <= len,
                mid + subtree_text_from(d, n as int, 0) == out@ + subtree_text_from(
                    d,
                    n as int,
                    i as int,
                ),
            decreases len - i,
        {
            let c = self.nodes[n].children[i];
            assert(d[n as int].children[i as int] == c);
            assert(n < c < d.len());
            assert(subtree_text_from(d, n as int, i as int) == subtree_text(d, c as int)
                + subtree_text_from(d, n as int, i + 1));
            self.collect_text(c, out);
            i = i + 1;
        }
        assert(subtree_text_from(d, n as int, i as int) =~= Seq::<char>::empty());
        assert(out@ =~= start + subtree_text(d, n as int));
    }

    /// Position of the first attribute of `n` named `name`.
    pub fn find_attr(&self, n: usize, name: &Vec<char>) -> (r: Option<usize>)
        requires
            n < self.nodes().len(),
        ensures
            r matches Some(i) ==> attr_index(self.nodes()[n as int].attrs, name@) == Some(
                i as int,
            ) && i < self.nodes()[n as int].attrs.len(),
            r is None ==> attr_index(self.nodes()[n as int].attrs, name@) is None,
    {
        let ghost a = self.nodes()[n as int].attrs;
        let mut i: usize = 0;
        while i < self.nodes[n].attrs.len()
            invariant
                n < self.nodes().len(),
                a == self.nodes()[n as int].attrs,
                i <= a.len(),
                attr_index(a, name@) == attr_index_from(a, name@, i as int),
            decreases a.len() - i,
        {
            if vec_eq(&self.nodes[n].attrs[i].name, name) {
                return Some(i);
            }
            i = i + 1;
        }
        None
    }

    /// Unlinks `n` from its parent; the subtree
    /// below `n` stays attached to `n`.
    pub fn detach(&mut self, n: usize)
        requires
            old(self).wf(),
            n < old(self).nodes().len(),
        ensures
            final(self).wf(),
            final(self).nodes() == detached(old(self).nodes(), n as int),
            final(self)@.names == old(self)@.names,
    {
        let ghost t = self@;
        proof {
            lemma_detached_wf(t, n as int);
        }
        match self.nodes[n].parent {
            Some(p) => {
                let i = self.index_in_parent(n);
                self.nodes[p].children.remove(i);
                self.nodes[n].parent = None;
                assert(self.nodes() =~= detached(t.nodes, n as int));
            },
            None => {},
        }
    }

    /// Appends a new node as the last child of `p` and returns its index.
    pub fn append_node(
        &mut self,
        p: usize,
        kind: NodeKind,
        name: Vec<char>,
        attrs: Vec<Attribute>,
        data: Vec<char>,
    ) -> (id: usize)
        requires
            old(self).wf(),
            p < old(self).nodes().len(),
            old(self).nodes().len() < usize::MAX,
            kind != NodeKind::Document,
            kind == NodeKind::Element ==> old(self)@.names.contains(name@),
            attrs_ok(attrs@.map_values(|a: Attribute| a@)),
        ensures
            final(self).wf(),
            id == old(self).nodes().len(),
            final(self).nodes() == appended(
                old(self).nodes(),
                p as int,
                NodeView {
                    kind: kind,
                    name: name@,
                    attrs: attrs@.map_values(|a: Attribute| a@),
                    data: data@,
                    parent: None,
                    children: Seq::empty(),
                },
            ),
            final(self)@.names == old(self)@.names,
    {
        let ghost t = self@;
        let ghost v = NodeView {
            kind: kind,
            name: name@,
            attrs: attrs@.map_values(|a: Attribute| a@),
            data: data@,
            parent: None,
            children: Seq::empty(),
        };
        proof {
            lemma_appended_wf(t, p as int, v);
        }
        let id = self.nodes.len();
        self.nodes.push(NodeData { kind, name, attrs, data, parent: Some(p), children: Vec::new() });
        self.nodes[p].children.push(id);
        assert(self.nodes() =~= appended(t.nodes, p as int, v));
        assert forall|m: int| 0 <= m < self.nodes().len() implies attrs_ok(#[trigger] self.nodes()[m].attrs) by {
            if m < t.nodes.len() {
                assert(self.nodes()[m].attrs == t.nodes[m].attrs);
            }
        }
        id
    }

    /// Adds a new node as child `k` of `p`, before the child that was
    /// there, and returns its index.
    pub fn insert_node(
        &mut self,
        p: usize,
        k: usize,
        kind: NodeKind,
        name: Vec<char>,
        attrs: Vec<Attribute>,
        data: Vec<char>,
    ) -> (id: usize)
        requires
            old(self).wf(),
            p < old(self).nodes().len(),
            k <= old(self).nodes()[p as int].children.len(),
            old(self).nodes().len() < usize::MAX,
            kind != NodeKind::Document,
            kind == NodeKind::Element ==> old(self)@.names.contains(name@),
            attrs_ok(attrs@.map_values(|a: Attribute| a@)),
        ensures
            final(self).wf(),
            id == old(self).nodes().len(),
            final(self).nodes() == inserted(
                old(self).nodes(),
                p as int,
                k as int,
                NodeView {
                    kind: kind,
                    name: name@,
                    attrs: attrs@.map_values(|a: Attribute| a@),
                    data: data@,
                    parent: None,
                    children: Seq::empty(),
                },
            ),
            final(self)@.names == old(self)@.names,
    {
        let ghost t = self@;
        let ghost v = NodeView {
            kind: kind,
            name: name@,
            attrs: attrs@.map_values(|a: Attribute| a@),
            data: data@,
            parent: None,
            children: Seq::empty(),
        };
        proof {
            lemma_inserted_wf(t, p as int, k as int, v);
        }
        let id = self.nodes.len();
        assert(self.nodes@[p as int]@ == t.nodes[p as int]);
        self.nodes.push(NodeData { kind, name, attrs, data, parent: Some(p), children: Vec::new() });
        self.nodes[p].children.insert(k, id);
        assert(self.nodes() =~= inserted(t.nodes, p as int, k as int, v));
        assert forall|m: int| 0 <= m < self.nodes().len() implies attrs_ok(#[trigger] self.nodes()[m].attrs) by {
            if m < t.nodes.len() {
                assert(self.nodes()[m].attrs == t.nodes[m].attrs);
            }
        }
        id
    }

    /// Makes sure `name` is registered.
    pub fn register_name(&mut self, name: &Vec<char>)
        requires
            old(self).wf(),
        ensures
            final(self).wf(),
            final(self).nodes() == old(self).nodes(),
            final(self)@.names.contains(name@),
            old(self)@.names.contains(name@) ==> final(self)@.names == old(self)@.names,
            !old(self)@.names.contains(name@) ==> final(self)@.names == old(self)@.names.push(
                name@,
            ),
    {
        let ghost t = self@;
        let mut i: usize = 0;
        while i < self.names.len()
            invariant
                self@ == t,
                self.wf(),
                i <= t.names.len(),
                forall|j: int| 0 <= j < i ==> t.names[j] != name@,
            decreases t.names.len() - i,
        {
            if vec_eq(&self.names[i], name) {
                assert(t.names[i as int] == name@);
                return;
            }
            i = i + 1;
        }
        let copy = name.clone();
        assert(copy@ =~= name@);
        self.names.push(copy);
        assert(self@.names =~= t.names.push(name@));
        assert(self.nodes() =~= t.nodes);
        assert(self@.names.contains(name@)) by {
            assert(self@.names[t.names.len() as int] == name@);
        }
        assert(self@.names.no_duplicates()) by {
            assert forall|a: int, b: int|
                0 <= a < self@.names.len() && 0 <= b < self@.names.len() && a != b implies self@.names[a]
                != self@.names[b] by {
                if a < t.names.len() && b < t.names.len() {
                } else if a < t.names.len() {
                    assert(t.names[a] != name@);
                } else if b < t.names.len() {
                    assert(t.names[b] != name@);
                }
            }
        }
        assert forall|m: int|
            #![trigger self.nodes()[m].kind]
            0 <= m < self.nodes().len() && self.nodes()[m].kind == NodeKind::Element implies self@.names.contains(
            self.nodes()[m].name,
        ) by {
            assert(t.names.contains(t.nodes[m].name));
            let k = choose|k: int| 0 <= k < t.names.len() && t.names[k] == t.nodes[m].name;
            assert(self@.names[k] == t.nodes[m].name);
        }
    }

    /// Position of `name` in the registry.
    pub fn name_position(&self, name: &Vec<char>) -> (r: usize)
        requires
            self.wf(),
            self@.names.contains(name@),
        ensures
            r == self@.names.index_of(name@),
            r < self@.names.len(),
    {
        let ghost t = self@;
        proof {
            t.names.index_of_first_ensures(name@);
        }
        let mut i: usize = 0;
        while i < self.names.len()
            invariant
                self@ == t,
                t.names.no_duplicates(),
                t.names.contains(name@),
                i <= t.names.len(),
                forall|j: int| 0 <= j < i ==> t.names[j] != name@,
            decreases t.names.len() - i,
        {
            if vec_eq(&self.names[i], name) {
                assert(t.names[i as int] == name@);
                assert(t.names[t.names.index_of(name@)] == name@);
                return i;
            }
            i = i + 1;
        }
        assert(false);
        0
    }

    /// Moves the children of `n` into its place in its parent's child list
    /// (they lose their parent when `n` has none) and leaves `n` on its own.
    pub fn unwrap_node(&mut self, n: usize)
        requires
            old(self).wf(),
            0 < n < old(self).nodes().len(),
        ensures
            final(self).wf(),
            final(self).nodes() == unwrapped(old(self).nodes(), n as int),
            final(self)@.names == old(self)@.names,
    {
        let ghost t = self@;
        let ghost d = t.nodes;
        proof {
            lemma_unwrapped_wf(t, n as int);
        }
        let up = self.nodes[n].parent;
        let mut kids: Vec<usize> = Vec::new();
        let len = self.nodes[n].children.len();
        let mut k: usize = 0;
        while k < len
            invariant
                self@ == t,
                d == t.nodes,
                self.nodes() == d,
                n < d.len(),
                len == d[n as int].children.len(),
                k <= len,
                kids@ == d[n as int].children.subrange(0, k as int),
            decreases len - k,
        {
            kids.push(self.nodes[n].children[k]);
            k = k + 1;
            assert(kids@ =~= d[n as int].children.subrange(0, k as int));
        }
        assert(kids@ =~= d[n as int].children);
        assert(kids@.no_duplicates());
        let pos = match up {
            Some(_) => self.index_in_parent(n),
            None => 0,
        };
        let mut k: usize = 0;
        while k < kids.len()
            invariant
                self.nodes().len() == d.len(),
                self@.names == t.names,
                wf_tree(t),
                d == t.nodes,
                n < d.len(),
                kids@.no_duplicates(),
                up == d[n as int].parent,
                kids@ == d[n as int].children,
                k <= kids.len(),
                forall|m: int|
                    0 <= m < d.len() ==> #[trigger] self.nodes()[m] == if kids@.subrange(
                        0,
                        k as int,
                    ).contains(m as usize) {
                        with_parent(d[m], up)
                    } else {
                        d[m]
                    },
            decreases kids.len() - k,
        {
            let c = kids[k];
            assert(d[n as int].children[k as int] == c);
            assert(c < d.len());
            assert(!kids@.subrange(0, k as int).contains(c)) by {
                if kids@.subrange(0, k as int).contains(c) {
                    let j = choose|j: int| 0 <= j < k && #[trigger] kids@.subrange(0, k as int)[j] == c;
                    assert(kids@[j] == kids@[k as int]);
                }
            }
            assert(self.nodes()[c as int] == d[c as int]);
            let ghost before = self.nodes();
            self.nodes[c].parent = up;
            assert(self.nodes() =~= before.update(c as int, with_parent(d[c as int], up)));
            assert forall|m: int|
                0 <= m < d.len() implies #[trigger] self.nodes()[m] == if kids@.subrange(
                    0,
                    k + 1,
                ).contains(m as usize) {
                    with_parent(d[m], up)
                } else {
                    d[m]
                } by {
                if m == c {
                    assert(kids@.subrange(0, k + 1)[k as int] == c);
                } else {
                    if kids@.subrange(0, k + 1).contains(m as usize) {
                        let j = choose|j: int| 0 <= j < k + 1 && #[trigger] kids@.subrange(0, k + 1)[j] == m as usize;
                        assert(j < k);
                        assert(kids@.subrange(0, k as int)[j] == m as usize);
                    }
                    if kids@.subrange(0, k as int).contains(m as usize) {
                        let j = choose|j: int| 0 <= j < k && #[trigger] kids@.subrange(0, k as int)[j] == m as usize;
                        assert(kids@.subrange(0, k + 1)[j] == m as usize);
                    }
                }
            }
            k = k + 1;
        }
        assert(kids@.subrange(0, k as int) =~= kids@);
        match up {
            Some(p) => {
                let ghost ch = d[p as int].children;
                assert(self.nodes()[p as int].children == ch) by {
                    if kids@.contains(p) {
                        let j = choose|j: int| 0 <= j < kids@.len() && kids@[j] == p;
                        assert(d[n as int].children[j] == p);
                    }
                }
                let mut list: Vec<usize> = Vec::new();
                let mut j: usize = 0;
                while j < pos
                    invariant
                        j <= pos,
                        pos < ch.len(),
                        p < self.nodes().len(),
                        self.nodes()[p as int].children == ch,
                        list@ == ch.subrange(0, j as int),
                    decreases pos - j,
                {
                    list.push(self.nodes[p].children[j]);
                    j = j + 1;
                    assert(list@ =~= ch.subrange(0, j as int));
                }
                let mut j: usize = 0;
                while j < kids.len()
                    invariant
                        j <= kids.len(),
                        list@ == ch.subrange(0, pos as int) + kids@.subrange(0, j as int),
                    decreases kids.len() - j,
                {
                    list.push(kids[j]);
                    j = j + 1;
                    assert(list@ =~= ch.subrange(0, pos as int) + kids@.subrange(0, j as int));
                }
                assert(kids@.subrange(0, j as int) =~= kids@);
                let clen = self.nodes[p].children.len();
                let mut j: usize = pos + 1;
                while j < clen
                    invariant
                        pos + 1 <= j <= clen,
                        clen == ch.len(),
                        p < self.nodes().len(),
                        self.nodes()[p as int].children == ch,
                        list@ == ch.subrange(0, pos as int) + kids@ + ch.subrange(pos + 1, j as int),
                    decreases clen - j,
                {
                    list.push(self.nodes[p].children[j]);
                    j = j + 1;
                    assert(list@ =~= ch.subrange(0, pos as int) + kids@ + ch.subrange(pos + 1, j as int));
                }
                assert(list@ == spliced(ch, child_index(d, n as int), kids@));
                let ghost before = self.nodes();
                let ghost lv = list@;
                self.nodes[p].children = list;
                assert(self.nodes() =~= before.update(p as int, with_children(before[p as int], lv)));
            },
            None => {},
        }
        let ghost mid = self.nodes();
        self.nodes[n].children = Vec::new();
        self.nodes[n].parent = None;
        assert(self.nodes() =~= mid.update(
            n as int,
            with_children(with_parent(mid[n as int], None), Seq::empty()),
        ));
        let ghost target = unwrapped(d, n as int);
        assert forall|m: int| 0 <= m < d.len() implies #[trigger] self.nodes()[m] == target[m] by {
            if m != n {
                if kids@.contains(m as usize) {
                    let j = choose|j: int| 0 <= j < kids@.len() && kids@[j] == m as usize;
                    assert(d[n as int].children[j] == m);
                    assert(d[m].parent == Some(n));
                } else {
                    if d[m].parent == Some(n) {
                        assert(d[n as int].children.contains(m as usize));
                    }
                }
            }
        }
        assert(self.nodes() =~= target);
    }

    /// Merges the adjacent text children of `q`: the first node of each
    /// run of adjacent text nodes takes the data of the whole run, and the
    /// other nodes of the run are unlinked.
    pub fn merge_children(&mut self, q: usize)
        requires
            old(self).wf(),
            q < old(self).nodes().len(),
        ensures
            final(self).wf(),
            final(self).nodes() == merged_children(old(self).nodes(), q as int),
            final(self).nodes().len() == old(self).nodes().len(),
            final(self)@.names == old(self)@.names,
    {
        reveal(merged_children);
        let ghost t = self@;
        let ghost d = t.nodes;
        let ghost ch = d[q as int].children;
        let ghost goal = merged_children(d, q as int);
        proof {
            lemma_merged_children_wf(t, q as int);
        }
        let len = self.nodes[q].children.len();
        let mut kept: Vec<usize> = Vec::new();
        let mut j: usize = 0;
        assert(kept@ + kept_children(d, ch, 0) =~= kept_children(d, ch, 0));
        while j < len
            invariant
                wf_tree(t),
                d == t.nodes,
                goal == merged_children(d, q as int),
                goal.len() == d.len(),
                self.nodes().len() == d.len(),
                self@.names == t.names,
                q < d.len(),
                ch == d[q as int].children,
                len == ch.len(),
                self.nodes()[q as int] == d[q as int],
                j <= len,
                kept@ + kept_children(d, ch, j as int) == kept_children(d, ch, 0),
                forall|m: int|
                    0 <= m < d.len() ==> #[trigger] self.nodes()[m] == if m != q && d[m].parent == Some(
                        q,
                    ) && child_index(d, m) < j {
                        goal[m]
                    } else {
                        d[m]
                    },
            decreases len - j,
        {
            proof {
                reveal(merged_children);
                lemma_child_index(d, q as int, j as int);
            }
            let c = self.nodes[q].children[j];
            assert(c == ch[j as int]);
            assert(q < c < d.len());
            assert(self.nodes()[c as int] == d[c as int]);
            let is_text = self.nodes[c].kind == NodeKind::Text;
            let mut prev_text = false;
            if j > 0 {
                proof {
                    lemma_child_index(d, q as int, j - 1);
                }
                let b = self.nodes[q].children[j - 1];
                assert(b == ch[j - 1]);
                assert(self.nodes()[b as int].kind == d[b as int].kind);
                prev_text = self.nodes[b].kind == NodeKind::Text;
            }
            assert(prev_text == (j > 0 && d[ch[j - 1] as int].kind == NodeKind::Text));
            let ghost before = self.nodes();
            if is_text && prev_text {
                assert(follows_text(d, ch, j as int));
                self.nodes[c].parent = None;
                assert(self.nodes() =~= before.update(c as int, goal[c as int]));
            } else {
                assert(!follows_text(d, ch, j as int));
                if is_text {
                    let mut acc = self.nodes[c].data.clone();
                    assert(acc@ =~= d[c as int].data);
                    let mut k = j + 1;
                    while k < len
                        invariant
                            wf_tree(t),
                            d == t.nodes,
                            self.nodes() == before,
                            self.nodes().len() == d.len(),
                            q < d.len(),
                            ch == d[q as int].children,
                            len == ch.len(),
                            self.nodes()[q as int] == d[q as int],
                            j < k <= len,
                            forall|m: int|
                                0 <= m < d.len() ==> #[trigger] self.nodes()[m] == if m != q
                                    && d[m].parent == Some(q) && child_index(d, m) < j {
                                    goal[m]
                                } else {
                                    d[m]
                                },
                            acc@ + (if k < len && d[ch[k as int] as int].kind == NodeKind::Text {
                                run_data(d, ch, k as int)
                            } else {
                                Seq::empty()
                            }) == run_data(d, ch, j as int),
                        ensures
                            k < len ==> d[ch[k as int] as int].kind != NodeKind::Text,
                        decreases len - k,
                    {
                        proof {
                            reveal(merged_children);
                            lemma_child_index(d, q as int, k as int);
                        }
                        let e = self.nodes[q].children[k];
                        assert(e == ch[k as int]);
                        assert(self.nodes()[e as int] == d[e as int]);
                        if self.nodes[e].kind != NodeKind::Text {
                            break;
                        }
                        let mut more = self.nodes[e].data.clone();
                        assert(more@ =~= d[e as int].data);
                        let ghost a0 = acc@;
                        acc.append(&mut more);
                        k = k + 1;
                        assert(acc@ + (if k < len && d[ch[k as int] as int].kind == NodeKind::Text {
                            run_data(d, ch, k as int)
                        } else {
                            Seq::empty()
                        }) =~= a0 + run_data(d, ch, k - 1));
                    }
                    if k < len {
                        proof {
                            lemma_child_index(d, q as int, k as int);
                        }
                        assert(self.nodes()[ch[k as int] as int] == d[ch[k as int] as int]);
                    }
                    assert(acc@ =~= run_data(d, ch, j as int));
                    let ghost av = acc@;
                    self.nodes[c].data = acc;
                    assert(self.nodes() =~= before.update(c as int, goal[c as int]));
                } else {
                    assert(goal[c as int] == d[c as int]);
                }
                kept.push(c);
            }
            assert(kept_children(d, ch, j as int) == (if follows_text(d, ch, j as int) {
                Seq::empty()
            } else {
                seq![ch[j as int]]
            }) + kept_children(d, ch, j + 1));
            j = j + 1;
            assert forall|m: int|
                0 <= m < d.len() implies #[trigger] self.nodes()[m] == if m != q && d[m].parent == Some(
                    q,
                ) && child_index(d, m) < j {
                    goal[m]
                } else {
                    d[m]
                } by {
                if m != c && m != q && d[m].parent == Some(q) && child_index(d, m) == j - 1 {
                    assert(d[q as int].children.contains(m as usize));
                    let i = choose|i: int| 0 <= i < ch.len() && ch[i] == m as usize;
                    lemma_child_index(d, q as int, i);
                }
            }
        }
        assert(kept@ =~= kept_children(d, ch, 0));
        let ghost mid = self.nodes();
        let ghost kv = kept@;
        self.nodes[q].children = kept;
        assert(self.nodes() =~= mid.update(q as int, with_children(d[q as int], kv)));
        assert forall|m: int| 0 <= m < d.len() implies #[trigger] self.nodes()[m] == goal[m] by {
            if m != q && d[m].parent == Some(q) {
                assert(d[q as int].children.contains(m as usize));
                let i = choose|i: int| 0 <= i < ch.len() && ch[i] == m as usize;
                lemma_child_index(d, q as int, i);
            }
        }
        assert(self.nodes() =~= goal);
    }

    /// Takes the whole subtree of `n` apart: every node in it is unlinked
    /// from its parent, bottom-up, as a deep removal does.
    pub fn take_apart(&mut self, n: usize)
        requires
            old(self).wf(),
            n < old(self).nodes().len(),
        ensures
            final(self).wf(),
            final(self).nodes() == decomposed(old(self).nodes(), n as int),
            final(self)@.names == old(self)@.names,
    {
        let ghost t = self@;
        let ghost d = t.nodes;
        proof {
            lemma_decomposed_wf(t, n as int);
        }
        let len = self.nodes.len();
        let mut marks: Vec<bool> = Vec::new();
        let mut m: usize = 0;
        while m < len
            invariant
                self.nodes() == d,
                self@.names == t.names,
                self.wf(),
                len == d.len(),
                self.nodes@.len() == len,
                n < len,
                m <= len,
                marks@.len() == m,
                forall|k: int| 0 <= k < m ==> marks@[k] == in_subtree(d, n as int, k),
            decreases len - m,
        {
            let b: bool = if m < n {
                proof {
                    if in_subtree(d, n as int, m as int) {
                        lemma_subtree_ge(d, n as int, m as int);
                    }
                }
                false
            } else if m == n {
                true
            } else {
                assert(self.nodes() == d);
                assert(self.nodes()[m as int] == self.nodes@[m as int]@);
                match self.nodes[m].parent {
                    Some(q) => {
                        assert(d[m as int].parent == Some(q));
                        assert(q < m);
                        marks[q]
                    },
                    None => false,
                }
            };
            marks.push(b);
            m = m + 1;
        }
        let par = self.nodes[n].parent;
        let idx: usize = match par {
            Some(_) => self.index_in_parent(n),
            None => 0,
        };
        let mut k: usize = 0;
        while k < len
            invariant
                len == d.len(),
                self.nodes@.len() == len,
                n < len,
                marks@.len() == len,
                forall|j: int| 0 <= j < len ==> marks@[j] == in_subtree(d, n as int, j),
                k <= len,
                self@.names == t.names,
                self.nodes().len() == len,
                forall|j: int|
                    0 <= j < len ==> #[trigger] self.nodes()[j] == if j < k && in_subtree(
                        d,
                        n as int,
                        j,
                    ) {
                        with_children(with_parent(d[j], None), Seq::empty())
                    } else {
                        d[j]
                    },
            decreases len - k,
        {
            let ghost before = self.nodes();
            if marks[k] {
                self.nodes[k].parent = None;
                self.nodes[k].children = Vec::new();
                assert(self.nodes()[k as int] == with_children(
                    with_parent(before[k as int], None),
                    Seq::empty(),
                ));
            }
            assert(forall|j: int| 0 <= j < len && j != k ==> self.nodes()[j] == before[j]);
            k = k + 1;
        }
        match par {
            Some(p) => {
                proof {
                    lemma_subtree_ge(d, n as int, n as int);
                    if in_subtree(d, n as int, p as int) {
                        lemma_subtree_ge(d, n as int, p as int);
                    }
                }
                let ghost before = self.nodes();
                assert(before[p as int] == d[p as int]);
                self.nodes[p].children.remove(idx);
                assert(forall|j: int| 0 <= j < len && j != p ==> self.nodes()[j] == before[j]);
                assert(self.nodes()[p as int] == with_children(
                    d[p as int],
                    d[p as int].children.remove(child_index(d, n as int)),
                ));
                assert(!in_subtree(d, n as int, p as int));
                assert forall|j: int| 0 <= j < len implies #[trigger] self.nodes()[j] == decomposed(
                    d,
                    n as int,
                )[j] by {
                    if j != p {
                        assert(before[j] == self.nodes()[j]);
                    }
                }
            },
            None => {
                assert forall|j: int| 0 <= j < len implies #[trigger] self.nodes()[j] == decomposed(
                    d,
                    n as int,
                )[j] by {}
            },
        }
        assert(self.nodes() =~= decomposed(d, n as int));
    }

    /// Sets attribute `name` of `n` to `value`.
    pub fn set_attribute(&mut self, n: usize, name: Vec<char>, value: Option<Vec<char>>)
        requires
            old(self).wf(),
            n < old(self).nodes().len(),
            lower_seq(name@) == name@,
            !name@.contains('\0'),
        ensures
            final(self).wf(),
            final(self)@.names == old(self)@.names,
            final(self).nodes() == old(self).nodes().update(
                n as int,
                with_attrs(
                    old(self).nodes()[n as int],
                    attrs_set(
                        old(self).nodes()[n as int].attrs,
                        name@,
                        opt_chars(value),
                    ),
                ),
            ),
    {
        let ghost t = self@;
        let ghost d = t.nodes;
        let ghost vv = opt_chars(value);
        let found = self.find_attr(n, &name);
        let ghost nm = name@;
        match found {
            Some(i) => {
                let a = Attribute { name, value };
                assert(a@ == AttrView { name: nm, value: vv });
                self.nodes[n].attrs.set(i, a);
            },
            None => {
                let a = Attribute { name, value };
                assert(a@ == AttrView { name: nm, value: vv });
                self.nodes[n].attrs.push(a);
            },
        }
        let ghost target = d.update(
            n as int,
            with_attrs(d[n as int], attrs_set(d[n as int].attrs, nm, vv)),
        );
        assert(self.nodes()[n as int].attrs =~= target[n as int].attrs);
        assert(self.nodes() =~= target);
        proof {
            lemma_same_shape(t, self@);
            lemma_attrs_set_ok(d[n as int].attrs, nm, vv);
            assert forall|m: int| 0 <= m < target.len() implies attrs_ok(#[trigger] target[m].attrs) by {
                if m != n {
                    assert(target[m] == d[m]);
                }
            }
        }
    }

    /// Removes attribute `name` of `n` if it is present.
    pub fn remove_attribute(&mut self, n: usize, name: &Vec<char>)
        requires
            old(self).wf(),
            n < old(self).nodes().len(),
        ensures
            final(self).wf(),
            final(self)@.names == old(self)@.names,
            final(self).nodes() == old(self).nodes().update(
                n as int,
                with_attrs(
                    old(self).nodes()[n as int],
                    attrs_removed(old(self).nodes()[n as int].attrs, name@),
                ),
            ),
    {
        let ghost t = self@;
        let ghost d = t.nodes;
        let ghost a0 = d[n as int].attrs;
        let ghost nm = name@;
        let ghost pred = |x: AttrView| x.name != nm;
        let mut i: usize = 0;
        let ghost mut j: int = 0;
        while i < self.nodes[n].attrs.len()
            invariant
                n < self.nodes().len(),
                self.nodes().len() == d.len(),
                self@.names == t.names,
                nm == name@,
                pred == (|x: AttrView| x.name != nm),
                forall|m: int| 0 <= m < d.len() && m != n ==> self.nodes()[m] == d[m],
                self.nodes()[n as int] == with_attrs(d[n as int], self.nodes()[n as int].attrs),
                0 <= j <= a0.len(),
                i <= self.nodes()[n as int].attrs.len(),
                self.nodes()[n as int].attrs.subrange(0, i as int) == a0.subrange(0, j).filter(pred),
                self.nodes()[n as int].attrs.subrange(i as int, self.nodes()[n as int].attrs.len() as int)
                    == a0.subrange(j, a0.len() as int),
            decreases self.nodes()[n as int].attrs.len() - i,
        {
            let ghost cur = self.nodes()[n as int].attrs;
            assert(cur.subrange(i as int, cur.len() as int).len() == a0.subrange(j, a0.len() as int).len());
            assert(j < a0.len());
            assert(cur[i as int] == a0[j]) by {
                assert(cur.subrange(i as int, cur.len() as int)[0] == a0.subrange(j, a0.len() as int)[0]);
            }
            assert(a0.subrange(0, j + 1).drop_last() =~= a0.subrange(0, j));
            assert(a0.subrange(0, j + 1).last() == a0[j]);
            proof {
                reveal(Seq::filter);
            }
            let ghost a = self.nodes[n as int].attrs@[i as int]@;
            if vec_eq(&self.nodes[n].attrs[i].name, name) {
                assert(!pred(a0[j]));
                self.nodes[n].attrs.remove(i);
                let ghost now = self.nodes()[n as int].attrs;
                assert(now.subrange(0, i as int) =~= cur.subrange(0, i as int));
                assert(now.subrange(i as int, now.len() as int) =~= cur.subrange(i + 1, cur.len() as int));
                assert(cur.subrange(i + 1, cur.len() as int) =~= a0.subrange(j + 1, a0.len() as int)) by {
                    assert forall|k: int| 0 <= k < cur.len() - (i + 1) implies #[trigger] cur.subrange(
                        i + 1,
                        cur.len() as int,
                    )[k] == a0.subrange(j + 1, a0.len() as int)[k] by {
                        assert(cur.subrange(i as int, cur.len() as int)[k + 1] == a0.subrange(j, a0.len() as int)[k + 1]);
                    }
                }
            } else {
                assert(pred(a0[j]));
                i = i + 1;
                let ghost now = self.nodes()[n as int].attrs;
                assert(now.subrange(0, i as int) =~= cur.subrange(0, i - 1).push(a0[j]));
                assert(now.subrange(i as int, now.len() as int) =~= a0.subrange(j + 1, a0.len() as int)) by {
                    assert forall|k: int| 0 <= k < now.len() - i implies #[trigger] now.subrange(
                        i as int,
                        now.len() as int,
                    )[k] == a0.subrange(j + 1, a0.len() as int)[k] by {
                        assert(cur.subrange(i - 1, cur.len() as int)[k + 1] == a0.subrange(j, a0.len() as int)[k + 1]);
                    }
                }
            }
            proof {
                j = j + 1;
            }
        }
        let ghost fin = self.nodes()[n as int].attrs;
        assert(j == a0.len()) by {
            assert(fin.subrange(i as int, fin.len() as int).len() == 0);
        }
        assert(a0.subrange(0, j) =~= a0);
        assert(fin.subrange(0, i as int) =~= fin);
        let ghost target = d.update(
            n as int,
            with_attrs(d[n as int], attrs_removed(d[n as int].attrs, name@)),
        );
        assert(self.nodes()[n as int].attrs =~= target[n as int].attrs);
        assert(self.nodes() =~= target);
        proof {
            lemma_same_shape(t, self@);
            lemma_attrs_filter_ok(a0, pred);
            assert forall|m: int| 0 <= m < target.len() implies attrs_ok(#[trigger] target[m].attrs) by {
                if m != n {
                    assert(target[m] == d[m]);
                }
            }
        }
    }

    /// Replaces the character data of `n`.
    pub fn set_data(&mut self, n: usize, data: Vec<char>)
        requires
            old(self).wf(),
            n < old(self).nodes().len(),
        ensures
            final(self).wf(),
            final(self)@.names == old(self)@.names,
            final(self).nodes() == old(self).nodes().update(
                n as int,
                with_data(old(self).nodes()[n as int], data@),
            ),
    {
        let ghost t = self@;
        let ghost d = t.nodes;
        let ghost x = data@;
        self.nodes[n].data = data;
        assert(self.nodes() =~= d.update(n as int, with_data(d[n as int], x)));
        proof {
            lemma_same_shape(t, self@);
        }
    }
}

} // verus!
