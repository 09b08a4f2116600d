//! Properties of the library as a whole: how traversal, selection and
//! mutation relate to each other, stated over the specification functions
//! that the operations' contracts use, and proved.

use vstd::prelude::*;
use crate::document::HtmlDocument;
use crate::dom::{
    text_nodes_are_leaves, NodeKind, NodeView, TreeView, wf_links, wf_names, wf_tree, in_subtree, ancestors, preorder, preorder_from,
    next_sibling, child_index, decomposed, detached, lemma_decomposed_wf, lemma_detached_wf,
    lemma_subtree_ge, AttrView, attr_index, attr_index_from, lemma_attr_index_from, attr_text,
    attrs_set, attrs_removed, with_attrs, appended, subtree_text, subtree_text_from, unwrapped,
    lemma_unwrapped_wf, merged_children, merged_all, kept_children, follows_text, run_data,
    lemma_merged_children_wf, lemma_child_index, lemma_merged_at,
};
use crate::node::{Node, walk_step, climb, tag_id_of, attr_lookup, deep_text};
use crate::text::{lower_seq, is_ascii_ws};
use crate::serialize::{escape, escape_char, outer_html_of, children_html, attrs_html};
use crate::html_build::{
    is_void, built, initial, build_from, apply, apply_text, make_body, drop_leading_ws, insert_text, without_nul,
};
use crate::html_token::{TokenV, tokenize, tokenize_from, step, decode, normalize_newlines};
use crate::selector_parse::{find_char, skip_ws};
use crate::node::all_ascii_ws;
use crate::query::{selected, text_matches, decompose_all, stripped};
use crate::selector::{list_holds, select_below, ComplexV};
use crate::selector_parse::parse_list;

verus! {

broadcast use crate::document::group_doc_reveal;

/// Child `i` of `n` sits at position `i` of its parent's list, and its next
/// sibling is child `i + 1`.
proof fn lemma_child_position(d: Seq<NodeView>, n: int, i: int)
    requires
        wf_links(d),
        0 <= n < d.len(),
        0 <= i < d[n].children.len(),
    ensures
        child_index(d, d[n].children[i] as int) == i,
        next_sibling(d, d[n].children[i] as int) == if i + 1 < d[n].children.len() {
            Some(d[n].children[i + 1])
        } else {
            None::<usize>
        },
{
    let ch = d[n].children;
    let c = ch[i];
    assert(d[c as int].parent == Some(n as usize));
    assert(ch.contains(c));
    let j = ch.index_of(c);
    assert(0 <= j < ch.len() && ch[j] == c);
    assert(ch.no_duplicates());
    assert(j == i);
}

/// The pre-order of `n` starts with `n`.
proof fn lemma_preorder_head(d: Seq<NodeView>, n: int)
    requires
        wf_links(d),
        0 <= n < d.len(),
    ensures
        preorder(d, n).len() >= 1,
        preorder(d, n)[0] == n,
        preorder(d, n) == seq![n as usize] + preorder_from(d, n, 0),
{
}

/// Inside the subtree of `n` (itself inside the walk's root), the walk goes
/// from each node of the pre-order of `n` to the next; from the last one it
/// goes on as it would after leaving `n`.
proof fn lemma_walk_subtree(d: Seq<NodeView>, root: int, n: int, k: int)
    requires
        wf_links(d),
        0 <= root <= n < d.len(),
        0 <= k < preorder(d, n).len(),
    ensures
        k + 1 < preorder(d, n).len() ==> walk_step(d, root, Some(Node { idx: preorder(d, n)[k] }))
            == (Some(Node { idx: preorder(d, n)[k + 1] }), Some(Node { idx: preorder(d, n)[k + 1] })),
        k + 1 == preorder(d, n).len() ==> d[preorder(d, n)[k] as int].children.len() == 0 && climb(
            d,
            root,
            preorder(d, n)[k] as int,
        ) == climb(d, root, n),
    decreases d.len() - n, 1nat, 0nat,
{
    let p = preorder(d, n);
    let f = preorder_from(d, n, 0);
    lemma_preorder_head(d, n);
    if k == 0 {
        if d[n].children.len() > 0 {
            let c0 = d[n].children[0] as int;
            assert(n < c0 < d.len());
            lemma_preorder_head(d, c0);
            assert(f == preorder(d, c0) + preorder_from(d, n, 1));
            assert(p[1] == f[0]);
            assert(f[0] == preorder(d, c0)[0]);
        } else {
            assert(f =~= Seq::<usize>::empty());
        }
    } else {
        lemma_walk_children(d, root, n, 0, k - 1);
        assert(p[k] == f[k - 1]);
        if k + 1 < p.len() {
            assert(p[k + 1] == f[k]);
        }
    }
}

/// The same for the pre-order of the children of `n` from child `i` on.
proof fn lemma_walk_children(d: Seq<NodeView>, root: int, n: int, i: int, k: int)
    requires
        wf_links(d),
        0 <= root <= n < d.len(),
        0 <= i,
        0 <= k < preorder_from(d, n, i).len(),
    ensures
        k + 1 < preorder_from(d, n, i).len() ==> walk_step(
            d,
            root,
            Some(Node { idx: preorder_from(d, n, i)[k] }),
        ) == (Some(Node { idx: preorder_from(d, n, i)[k + 1] }), Some(
            Node { idx: preorder_from(d, n, i)[k + 1] },
        )),
        k + 1 == preorder_from(d, n, i).len() ==> d[preorder_from(
            d,
            n,
            i,
        )[k] as int].children.len() == 0 && climb(d, root, preorder_from(d, n, i)[k] as int)
            == climb(d, root, n),
    decreases d.len() - n, 0nat, d[n].children.len() - i,
{
    let f = preorder_from(d, n, i);
    let ch = d[n].children;
    if !(i < ch.len()) {
        assert(f =~= Seq::<usize>::empty());
        return;
    }
    let c = ch[i] as int;
    assert(n < c < d.len());
    let pc = preorder(d, c);
    let rest = preorder_from(d, n, i + 1);
    assert(f == pc + rest);
    if k < pc.len() {
        lemma_walk_subtree(d, root, c, k);
        assert(f[k] == pc[k]);
        if k + 1 < pc.len() {
            assert(f[k + 1] == pc[k + 1]);
        } else {
            lemma_child_position(d, n, i);
            assert(c != root);
            if i + 1 < ch.len() {
                let s = ch[i + 1] as int;
                assert(n < s < d.len());
                lemma_preorder_head(d, s);
                assert(rest == preorder(d, s) + preorder_from(d, n, i + 2));
                assert(rest[0] == s);
                assert(f[k + 1] == rest[0]);
                assert(climb(d, root, c) == (Some(s as usize), true));
            } else {
                assert(rest =~= Seq::<usize>::empty());
                assert(d[c].parent == Some(n as usize));
                assert(climb(d, root, c) == climb(d, root, n));
            }
        }
    } else {
        lemma_walk_children(d, root, n, i + 1, k - pc.len());
        assert(f[k] == rest[k - pc.len()]);
        if k + 1 < f.len() {
            assert(f[k + 1] == rest[k + 1 - pc.len()]);
        }
    }
}

/// The walk of `descendants` and `traverse` visits the subtree of `root` in
/// depth-first pre-order: from each node of it the walk yields the next one
/// in pre-order, and after the last one it ends.
pub proof fn law_walk_is_preorder(doc: &HtmlDocument, root: Node, k: int)
    requires
        doc.wf(),
        doc.has(root),
        0 <= k < preorder(doc.nodes(), root.index()).len(),
    ensures
        k + 1 < preorder(doc.nodes(), root.index()).len() ==> walk_step(
            doc.nodes(),
            root.index(),
            Some(Node { idx: preorder(doc.nodes(), root.index())[k] }),
        ) == (Some(Node { idx: preorder(doc.nodes(), root.index())[k + 1] }), Some(
            Node { idx: preorder(doc.nodes(), root.index())[k + 1] },
        )),
        k + 1 == preorder(doc.nodes(), root.index()).len() ==> walk_step(
            doc.nodes(),
            root.index(),
            Some(Node { idx: preorder(doc.nodes(), root.index())[k] }),
        ) == (None::<Node>, None::<Node>),
{
    let d = doc.nodes();
    assert(wf_links(d));
    lemma_walk_subtree(d, root.index(), root.index(), k);
}

/// Walking up from `x` through `c`, whose parent is `n`, reaches `n`.
proof fn lemma_in_subtree_up(d: Seq<NodeView>, n: int, c: int, x: int)
    requires
        wf_links(d),
        0 <= n < c < d.len(),
        d[c].parent == Some(n as usize),
        in_subtree(d, c, x),
    ensures
        in_subtree(d, n, x),
    decreases x,
{
    if x == c {
        assert(in_subtree(d, n, n));
    } else if x != n {
        let p = d[x].parent->0 as int;
        lemma_in_subtree_up(d, n, c, p);
    }
}

/// The nodes of the pre-order of `n` lie in the subtree of `n`, at or after
/// `n`.
pub(crate) proof fn lemma_preorder_members(d: Seq<NodeView>, n: int, x: usize)
    requires
        wf_links(d),
        0 <= n < d.len(),
        preorder(d, n).contains(x),
    ensures
        in_subtree(d, n, x as int),
        n <= x < d.len(),
    decreases d.len() - n, 1nat, 0nat,
{
    lemma_preorder_head(d, n);
    let f = preorder_from(d, n, 0);
    if x != n {
        let j = choose|j: int| 0 <= j < preorder(d, n).len() && preorder(d, n)[j] == x;
        assert(j > 0);
        assert(f[j - 1] == x);
        lemma_preorder_from_members(d, n, 0, x);
    }
}

/// The nodes of the pre-order of the children of `n` from child `i` on lie
/// strictly below `n`.
proof fn lemma_preorder_from_members(d: Seq<NodeView>, n: int, i: int, x: usize)
    requires
        wf_links(d),
        0 <= n < d.len(),
        0 <= i,
        preorder_from(d, n, i).contains(x),
    ensures
        in_subtree(d, n, x as int),
        n < x < d.len(),
    decreases d.len() - n, 0nat, d[n].children.len() - i,
{
    let f = preorder_from(d, n, i);
    let ch = d[n].children;
    if !(i < ch.len()) {
        assert(f =~= Seq::<usize>::empty());
        return;
    }
    let c = ch[i] as int;
    assert(n < c < d.len());
    assert(d[c].parent == Some(n as usize));
    let pc = preorder(d, c);
    let rest = preorder_from(d, n, i + 1);
    assert(f == pc + rest);
    let j = choose|j: int| 0 <= j < f.len() && f[j] == x;
    if j < pc.len() {
        assert(pc[j] == x);
        lemma_preorder_members(d, c, x);
        lemma_in_subtree_up(d, n, c, x as int);
    } else {
        assert(rest[j - pc.len()] == x);
        lemma_preorder_from_members(d, n, i + 1, x);
    }
}

/// The pre-order of child `j` of `n` is part of the pre-order of the
/// children of `n` from any `i <= j` on.
proof fn lemma_child_preorder_included(d: Seq<NodeView>, n: int, i: int, j: int, x: usize)
    requires
        wf_links(d),
        0 <= n < d.len(),
        0 <= i <= j < d[n].children.len(),
        preorder(d, d[n].children[j] as int).contains(x),
    ensures
        preorder_from(d, n, i).contains(x),
    decreases j - i,
{
    let ch = d[n].children;
    let c = ch[i] as int;
    assert(n < c < d.len());
    let pc = preorder(d, c);
    let rest = preorder_from(d, n, i + 1);
    assert(preorder_from(d, n, i) == pc + rest);
    if i == j {
        let k = choose|k: int| 0 <= k < pc.len() && pc[k] == x;
        assert((pc + rest)[k] == x);
    } else {
        lemma_child_preorder_included(d, n, i + 1, j, x);
        let k = choose|k: int| 0 <= k < rest.len() && rest[k] == x;
        assert((pc + rest)[pc.len() + k] == x);
    }
}

/// A node strictly below `n` lies below a child of `n`.
proof fn lemma_child_on_path(d: Seq<NodeView>, n: int, x: int) -> (c: int)
    requires
        wf_links(d),
        0 <= n < d.len(),
        0 <= x < d.len(),
        x != n,
        in_subtree(d, n, x),
    ensures
        0 <= c < d.len(),
        d[c].parent == Some(n as usize),
        in_subtree(d, c, x),
    decreases x,
{
    let p = d[x].parent->0 as int;
    if p == n {
        x
    } else {
        let c = lemma_child_on_path(d, n, p);
        c
    }
}

/// Every node of the subtree of `n` is in the pre-order of `n`.
pub(crate) proof fn lemma_subtree_in_preorder(d: Seq<NodeView>, n: int, x: int)
    requires
        wf_links(d),
        0 <= n < d.len(),
        0 <= x < d.len(),
        in_subtree(d, n, x),
    ensures
        preorder(d, n).contains(x as usize),
    decreases d.len() - n,
{
    lemma_preorder_head(d, n);
    if x == n {
        assert(preorder(d, n)[0] == x);
    } else {
        let c = lemma_child_on_path(d, n, x);
        assert(n < c);
        let ch = d[n].children;
        assert(ch.contains(c as usize));
        let j = choose|j: int| 0 <= j < ch.len() && ch[j] == c as usize;
        lemma_subtree_in_preorder(d, c, x);
        lemma_child_preorder_included(d, n, 0, j, x as usize);
        let f = preorder_from(d, n, 0);
        let k = choose|k: int| 0 <= k < f.len() && f[k] == x as usize;
        assert(preorder(d, n)[k + 1] == x as usize);
    }
}

/// The pre-order of the children of `n` holds exactly the nodes strictly
/// below `n`.
proof fn lemma_below_iff(d: Seq<NodeView>, n: int, x: int)
    requires
        wf_links(d),
        0 <= n < d.len(),
        0 <= x < d.len(),
    ensures
        preorder_from(d, n, 0).contains(x as usize) <==> (x != n && in_subtree(d, n, x)),
{
    lemma_preorder_head(d, n);
    let f = preorder_from(d, n, 0);
    if f.contains(x as usize) {
        lemma_preorder_from_members(d, n, 0, x as usize);
    }
    if x != n && in_subtree(d, n, x) {
        lemma_subtree_in_preorder(d, n, x);
        let p = preorder(d, n);
        let k = choose|k: int| 0 <= k < p.len() && p[k] == x as usize;
        assert(k != 0);
        assert(f[k - 1] == x as usize);
    }
}

/// Selection over any well-linked tree.
pub(crate) proof fn lemma_selected_iff(d: Seq<NodeView>, root: int, sel: Seq<char>, m: int)
    requires
        wf_links(d),
        0 <= root < d.len(),
        0 <= m < d.len(),
    ensures
        selected(d, root, sel).contains(m as usize) <==> (m != root && in_subtree(d, root, m)
            && text_matches(d, m, sel)),
{
    lemma_below_iff(d, root, m);
    match parse_list(sel) {
        Some(l) => {
            let f = preorder_from(d, root, 0);
            let pred = |x: usize| list_holds(d, x as int, l);
            if f.filter(pred).contains(m as usize) {
                f.lemma_filter_contains_rev(pred, m as usize);
                let k = choose|k: int| 0 <= k < f.filter(pred).len() && f.filter(pred)[k] == m as usize;
                f.lemma_filter_pred(pred, k);
            }
            if f.contains(m as usize) && list_holds(d, m, l) {
                let k = choose|k: int| 0 <= k < f.len() && f[k] == m as usize;
                f.lemma_filter_contains(pred, k);
            }
        },
        None => {},
    }
}

/// A selection from `root` (`select_from`, and `select` from the body)
/// returns exactly the nodes strictly below `root` that match the selector
/// (those for which `css_matches` holds); an unparsable selector returns
/// nothing.
pub proof fn law_selected_iff_matching_below(doc: &HtmlDocument, root: Node, sel: Seq<char>, m: int)
    requires
        doc.wf(),
        doc.has(root),
        0 <= m < doc.nodes().len(),
    ensures
        selected(doc.nodes(), root.index(), sel).contains(m as usize) <==> (m != root.index()
            && in_subtree(doc.nodes(), root.index(), m) && text_matches(doc.nodes(), m, sel)),
{
    lemma_selected_iff(doc.nodes(), root.index(), sel, m);
}

/// A compiled selector selects and matches exactly as its text does:
/// `compile(s)` then `find_from(root)` returns what `select_from(root, s)`
/// returns, and `Selector::matches` agrees with `css_matches`.
pub proof fn law_compiled_agrees_with_text(d: Seq<NodeView>, root: int, n: int, sel: Seq<char>)
    requires
        parse_list(sel) is Some,
    ensures
        select_below(d, root, parse_list(sel)->0) == selected(d, root, sel),
        list_holds(d, n, parse_list(sel)->0) == text_matches(d, n, sel),
{
}

/// `children` visits the child list in order: after child `i` the
/// iteration moves to child `i + 1`, and after the last child it ends.
pub proof fn law_children_in_order(doc: &HtmlDocument, parent: Node, i: int)
    requires
        doc.wf(),
        doc.has(parent),
        0 <= i < doc.nodes()[parent.index()].children.len(),
    ensures
        next_sibling(doc.nodes(), doc.nodes()[parent.index()].children[i] as int) == if i + 1
            < doc.nodes()[parent.index()].children.len() {
            Some(doc.nodes()[parent.index()].children[i + 1])
        } else {
            None::<usize>
        },
{
    lemma_child_position(doc.nodes(), parent.index(), i);
}

/// `ancestors` walks the parent chain: it starts at the node itself, each
/// node of the chain is followed by its parent, and the chain ends at a
/// node without a parent.
pub proof fn law_ancestors_chain(doc: &HtmlDocument, n: Node, k: int)
    requires
        doc.wf(),
        doc.has(n),
        0 <= k < ancestors(doc.nodes(), n.index()).len(),
    ensures
        ancestors(doc.nodes(), n.index())[0] == n.idx,
        doc.nodes()[ancestors(doc.nodes(), n.index())[k] as int].parent == if k + 1 < ancestors(
            doc.nodes(),
            n.index(),
        ).len() {
            Some(ancestors(doc.nodes(), n.index())[k + 1])
        } else {
            None::<usize>
        },
    decreases n.idx,
{
    let d = doc.nodes();
    assert(wf_links(d));
    let a = ancestors(d, n.index());
    match d[n.index()].parent {
        Some(p) => {
            assert(p < n.idx);
            let rest = ancestors(d, p as int);
            assert(a == seq![n.idx] + rest);
            if k > 0 {
                law_ancestors_chain(doc, Node { idx: p }, k - 1);
                assert(a[k] == rest[k - 1]);
                if k + 1 < a.len() {
                    assert(a[k + 1] == rest[k]);
                }
            } else {
                law_ancestors_chain(doc, Node { idx: p }, 0);
                assert(a[1] == rest[0]);
            }
        },
        None => {
            assert(a =~= seq![n.idx]);
        },
    }
}

/// Tag ids compare as names do: two elements have the same tag id exactly
/// when they have the same name.
pub proof fn law_tag_id_compares_names(doc: &HtmlDocument, a: Node, b: Node)
    requires
        doc.wf(),
        doc.has(a),
        doc.has(b),
        doc.nodes()[a.index()].kind == NodeKind::Element,
        doc.nodes()[b.index()].kind == NodeKind::Element,
    ensures
        (tag_id_of(doc.nodes(), doc.tree_view().names, a.index()) == tag_id_of(
            doc.nodes(),
            doc.tree_view().names,
            b.index(),
        )) <==> (doc.nodes()[a.index()].name == doc.nodes()[b.index()].name),
{
    let t = doc.tree_view();
    let d = t.nodes;
    assert(wf_names(t));
    let na = d[a.index()].name;
    let nb = d[b.index()].name;
    assert(t.names.contains(na));
    assert(t.names.contains(nb));
    let ia = t.names.index_of(na);
    let ib = t.names.index_of(nb);
    assert(t.names[ia] == na);
    assert(t.names[ib] == nb);
}

/// After `decompose(n)`, no node of the former subtree of `n` lies below
/// any other node, so no selection from any root returns it.
pub proof fn law_decompose_unreachable(doc: &HtmlDocument, n: Node, root: Node, sel: Seq<char>, m: int)
    requires
        doc.wf(),
        doc.has(n),
        doc.has(root),
        0 <= m < doc.nodes().len(),
        in_subtree(doc.nodes(), n.index(), m),
    ensures
        forall|a: int| a != m ==> !in_subtree(decomposed(doc.nodes(), n.index()), a, m),
        !selected(decomposed(doc.nodes(), n.index()), root.index(), sel).contains(m as usize),
{
    let d = doc.nodes();
    let d2 = decomposed(d, n.index());
    lemma_decomposed_wf(doc.tree_view(), n.index());
    assert(d2[m].parent is None);
    lemma_selected_iff(d2, root.index(), sel, m);
}

/// After `decompose(n)`, the nodes outside the former subtree of `n` keep
/// their place: each stays below exactly the nodes it was below.
pub proof fn law_decompose_keeps_rest(doc: &HtmlDocument, n: Node, a: int, m: int)
    requires
        doc.wf(),
        doc.has(n),
        0 <= m < doc.nodes().len(),
        !in_subtree(doc.nodes(), n.index(), m),
    ensures
        in_subtree(decomposed(doc.nodes(), n.index()), a, m) <==> in_subtree(doc.nodes(), a, m),
    decreases m,
{
    let d = doc.nodes();
    let d2 = decomposed(d, n.index());
    assert(d2[m].parent == d[m].parent);
    if m != a {
        match d[m].parent {
            Some(p) => {
                assert(p < m);
                assert(!in_subtree(d, n.index(), p as int));
                law_decompose_keeps_rest(doc, n, a, p as int);
            },
            None => {},
        }
    }
}

/// After `decompose_shallow(n)`, the former subtree of `n` hangs below `n`
/// alone: a node of it lies below exactly the nodes of the subtree it lay
/// below before, and below nothing outside the subtree; so a selection from
/// a root outside the subtree no longer returns it.
pub proof fn law_detach_subtree(doc: &HtmlDocument, n: Node, root: Node, sel: Seq<char>, a: int, m: int)
    requires
        doc.wf(),
        doc.has(n),
        doc.has(root),
        0 <= m < doc.nodes().len(),
        in_subtree(doc.nodes(), n.index(), m),
    ensures
        in_subtree(detached(doc.nodes(), n.index()), a, m) <==> (in_subtree(doc.nodes(), n.index(), a)
            && in_subtree(doc.nodes(), a, m)),
        !in_subtree(doc.nodes(), n.index(), root.index()) ==> !selected(
            detached(doc.nodes(), n.index()),
            root.index(),
            sel,
        ).contains(m as usize),
{
    lemma_detached_in_subtree(doc.nodes(), n.index(), a, m);
    lemma_detached_in_subtree(doc.nodes(), n.index(), root.index(), m);
    lemma_detached_wf(doc.tree_view(), n.index());
    lemma_selected_iff(detached(doc.nodes(), n.index()), root.index(), sel, m);
}

proof fn lemma_detached_in_subtree(d: Seq<NodeView>, n: int, a: int, m: int)
    requires
        wf_links(d),
        0 <= n < d.len(),
        0 <= m < d.len(),
        in_subtree(d, n, m),
    ensures
        in_subtree(detached(d, n), a, m) <==> (in_subtree(d, n, a) && in_subtree(d, a, m)),
    decreases m,
{
    let d2 = detached(d, n);
    if m == a {
    } else if m == n {
        assert(d2[m].parent is None);
        if in_subtree(d, n, a) && in_subtree(d, a, m) {
            lemma_subtree_ge(d, n, a);
            lemma_subtree_ge(d, a, n);
        }
    } else {
        assert(d2[m].parent == d[m].parent);
        let p = d[m].parent->0 as int;
        assert(0 <= p < m);
        lemma_detached_in_subtree(d, n, a, p);
    }
}

/// The attribute `attr_index` finds, if any.
pub open spec fn attr_found(a: Seq<AttrView>, name: Seq<char>) -> Option<AttrView> {
    match attr_index(a, name) {
        Some(i) => Some(a[i]),
        None => None,
    }
}

proof fn lemma_attr_index_at(a: Seq<AttrView>, name: Seq<char>, i: int, k: int)
    requires
        0 <= i <= k < a.len(),
        a[k].name == name,
        forall|j: int| i <= j < k ==> a[j].name != name,
    ensures
        attr_index_from(a, name, i) == Some(k),
    decreases k - i,
{
    if i < k {
        lemma_attr_index_at(a, name, i + 1, k);
    }
}

/// `attr_index` finds the first attribute of the name.
proof fn lemma_attr_index_first(a: Seq<AttrView>, name: Seq<char>, k: int)
    requires
        0 <= k < a.len(),
        a[k].name == name,
        forall|j: int| 0 <= j < k ==> a[j].name != name,
    ensures
        attr_index(a, name) == Some(k),
{
    lemma_attr_index_at(a, name, 0, k);
}

/// `attr_index` finds nothing when no attribute has the name.
proof fn lemma_attr_index_none(a: Seq<AttrView>, name: Seq<char>)
    requires
        forall|j: int| 0 <= j < a.len() ==> a[j].name != name,
    ensures
        attr_index(a, name) is None,
{
    lemma_attr_index_from(a, name, 0);
}

/// The attribute found after one more is added at the end.
proof fn lemma_found_push(s: Seq<AttrView>, x: AttrView, name: Seq<char>)
    ensures
        attr_found(s.push(x), name) == if attr_found(s, name) is Some {
            attr_found(s, name)
        } else if x.name == name {
            Some(x)
        } else {
            None
        },
{
    let s2 = s.push(x);
    lemma_attr_index_from(s, name, 0);
    match attr_index(s, name) {
        Some(k) => {
            lemma_attr_index_first(s2, name, k);
        },
        None => {
            if x.name == name {
                lemma_attr_index_first(s2, name, s.len() as int);
            } else {
                lemma_attr_index_none(s2, name);
            }
        },
    }
}

/// Removing the attributes of one name does not change which attribute of
/// another name is found.
proof fn lemma_found_filter(a: Seq<AttrView>, removed: Seq<char>, name: Seq<char>)
    requires
        removed != name,
    ensures
        attr_found(attrs_removed(a, removed), name) == attr_found(a, name),
    decreases a.len(),
{
    let pred = |x: AttrView| x.name != removed;
    if a.len() == 0 {
        assert(a.filter(pred) =~= a) by {
            reveal(Seq::filter);
        }
    } else {
        let init = a.drop_last();
        let x = a.last();
        assert(a =~= init.push(x));
        lemma_found_filter(init, removed, name);
        assert(a.filter(pred) == if pred(x) {
            init.filter(pred).push(x)
        } else {
            init.filter(pred)
        }) by {
            reveal(Seq::filter);
        }
        lemma_found_push(init, x, name);
        if pred(x) {
            lemma_found_push(init.filter(pred), x, name);
        }
    }
}

/// The value `attr` reads through `attr_found`.
proof fn lemma_lookup_found(d: Seq<NodeView>, n: int, name: Seq<char>)
    ensures
        attr_lookup(d, n, name) == if d[n].kind == NodeKind::Element && !name.contains('\0') {
            match attr_found(d[n].attrs, lower_seq(name)) {
                Some(x) => Some(attr_text(x)),
                None => None,
            }
        } else {
            None
        },
{
}

/// After `set_attr(name, value)` on an element, `attr(name)` reads the value
/// that was set (`""` for a boolean attribute).
pub proof fn law_set_attr_then_attr(doc: &HtmlDocument, n: Node, name: Seq<char>, value: Option<Seq<char>>)
    requires
        doc.wf(),
        doc.has(n),
        doc.nodes()[n.index()].kind == NodeKind::Element,
        !name.contains('\0'),
    ensures
        attr_lookup(
            doc.nodes().update(
                n.index(),
                with_attrs(
                    doc.nodes()[n.index()],
                    attrs_set(doc.nodes()[n.index()].attrs, lower_seq(name), value),
                ),
            ),
            n.index(),
            name,
        ) == Some(attr_text(AttrView { name: lower_seq(name), value: value })),
{
    let d = doc.nodes();
    let k = lower_seq(name);
    let a = d[n.index()].attrs;
    let a2 = attrs_set(a, k, value);
    let d2 = d.update(n.index(), with_attrs(d[n.index()], a2));
    lemma_attr_index_from(a, k, 0);
    match attr_index(a, k) {
        Some(i) => {
            lemma_attr_index_first(a2, k, i);
        },
        None => {
            lemma_attr_index_first(a2, k, a.len() as int);
        },
    }
    lemma_lookup_found(d2, n.index(), name);
}

/// `set_attr(name, value)` leaves every attribute of another name reading
/// as before.
pub proof fn law_set_attr_keeps_others(
    doc: &HtmlDocument,
    n: Node,
    name: Seq<char>,
    value: Option<Seq<char>>,
    other: Seq<char>,
)
    requires
        doc.wf(),
        doc.has(n),
        lower_seq(other) != lower_seq(name),
    ensures
        attr_lookup(
            doc.nodes().update(
                n.index(),
                with_attrs(
                    doc.nodes()[n.index()],
                    attrs_set(doc.nodes()[n.index()].attrs, lower_seq(name), value),
                ),
            ),
            n.index(),
            other,
        ) == attr_lookup(doc.nodes(), n.index(), other),
{
    let d = doc.nodes();
    let k = lower_seq(name);
    let o = lower_seq(other);
    let a = d[n.index()].attrs;
    let a2 = attrs_set(a, k, value);
    let d2 = d.update(n.index(), with_attrs(d[n.index()], a2));
    lemma_attr_index_from(a, k, 0);
    lemma_attr_index_from(a, o, 0);
    match attr_index(a, o) {
        Some(j) => {
            lemma_attr_index_first(a2, o, j);
        },
        None => {
            lemma_attr_index_none(a2, o);
        },
    }
    lemma_lookup_found(d2, n.index(), other);
    lemma_lookup_found(d, n.index(), other);
}

/// After `remove_attr(name)`, `attr(name)` finds nothing, and every
/// attribute of another name reads as before.
pub proof fn law_remove_attr(doc: &HtmlDocument, n: Node, name: Seq<char>, other: Seq<char>)
    requires
        doc.wf(),
        doc.has(n),
    ensures
        attr_lookup(
            doc.nodes().update(
                n.index(),
                with_attrs(
                    doc.nodes()[n.index()],
                    attrs_removed(doc.nodes()[n.index()].attrs, lower_seq(name)),
                ),
            ),
            n.index(),
            name,
        ) is None,
        lower_seq(other) != lower_seq(name) ==> attr_lookup(
            doc.nodes().update(
                n.index(),
                with_attrs(
                    doc.nodes()[n.index()],
                    attrs_removed(doc.nodes()[n.index()].attrs, lower_seq(name)),
                ),
            ),
            n.index(),
            other,
        ) == attr_lookup(doc.nodes(), n.index(), other),
{
    let d = doc.nodes();
    let k = lower_seq(name);
    let a = d[n.index()].attrs;
    let a2 = attrs_removed(a, k);
    let d2 = d.update(n.index(), with_attrs(d[n.index()], a2));
    let pred = |x: AttrView| x.name != k;
    assert forall|j: int| 0 <= j < a2.len() implies a2[j].name != k by {
        a.lemma_filter_pred(pred, j);
    }
    lemma_attr_index_none(a2, k);
    lemma_lookup_found(d2, n.index(), name);
    if lower_seq(other) != k {
        lemma_found_filter(a, k, lower_seq(other));
        lemma_lookup_found(d2, n.index(), other);
        lemma_lookup_found(d, n.index(), other);
    }
}

/// The text node `append_text` adds.
pub open spec fn text_node(t: Seq<char>) -> NodeView {
    NodeView {
        kind: NodeKind::Text,
        name: Seq::empty(),
        attrs: Seq::empty(),
        data: t,
        parent: None,
        children: Seq::empty(),
    }
}

/// Appending below `n` leaves the text of every subtree after `n` as it was.
proof fn lemma_appended_text_frame(d: Seq<NodeView>, n: int, v: NodeView, m: int)
    requires
        wf_links(d),
        0 <= n < m < d.len(),
    ensures
        subtree_text(appended(d, n, v), m) == subtree_text(d, m),
    decreases d.len() - m, 1nat,
{
    lemma_appended_text_frame_from(d, n, v, m, 0);
}

proof fn lemma_appended_text_frame_from(d: Seq<NodeView>, n: int, v: NodeView, m: int, i: int)
    requires
        wf_links(d),
        0 <= n < m < d.len(),
        0 <= i,
    ensures
        subtree_text_from(appended(d, n, v), m, i) == subtree_text_from(d, m, i),
    decreases d.len() - m, 0nat, d[m].children.len() - i,
{
    let d2 = appended(d, n, v);
    assert(d2[m] == d[m]);
    if i < d[m].children.len() {
        let c = d[m].children[i] as int;
        assert(m < c < d.len());
        lemma_appended_text_frame(d, n, v, c);
        lemma_appended_text_frame_from(d, n, v, m, i + 1);
    }
}

proof fn lemma_appended_text_children(d: Seq<NodeView>, n: int, t: Seq<char>, i: int)
    requires
        wf_links(d),
        0 <= n < d.len() < usize::MAX,
        0 <= i <= d[n].children.len(),
    ensures
        subtree_text_from(appended(d, n, text_node(t)), n, i) == subtree_text_from(d, n, i) + t,
    decreases d[n].children.len() - i,
{
    let d2 = appended(d, n, text_node(t));
    let ch = d[n].children;
    assert(d2[n].children == ch.push(d.len() as usize));
    if i < ch.len() {
        let c = ch[i] as int;
        assert(n < c < d.len());
        lemma_appended_text_frame(d, n, text_node(t), c);
        lemma_appended_text_children(d, n, t, i + 1);
        assert(subtree_text_from(d2, n, i) == subtree_text(d2, c) + subtree_text_from(d2, n, i + 1));
    } else {
        let l = d.len() as int;
        assert(d2[n].children[i] == l);
        assert(d2[l].children.len() == 0);
        assert(subtree_text_from(d2, l, 0) =~= Seq::<char>::empty());
        assert(subtree_text(d2, l) =~= t);
        assert(subtree_text_from(d2, n, i + 1) =~= Seq::<char>::empty());
        assert(subtree_text_from(d, n, i) =~= Seq::<char>::empty());
        assert(subtree_text_from(d2, n, i) =~= subtree_text(d2, l));
    }
}

/// After `append_text(t)` on an element, its text is its former text
/// followed by `t`.
pub proof fn law_append_text_extends_text(doc: &HtmlDocument, n: Node, t: Seq<char>)
    requires
        doc.wf(),
        doc.has(n),
        doc.nodes()[n.index()].kind == NodeKind::Element,
        doc.nodes().len() < usize::MAX,
    ensures
        deep_text(appended(doc.nodes(), n.index(), text_node(t)), n.index()) == deep_text(
            doc.nodes(),
            n.index(),
        ) + t,
{
    let d = doc.nodes();
    assert(wf_links(d));
    lemma_appended_text_children(d, n.index(), t, 0);
    let d2 = appended(d, n.index(), text_node(t));
    assert(d2[n.index()].kind == NodeKind::Element);
    assert(subtree_text(d2, n.index()) =~= subtree_text_from(d2, n.index(), 0));
    assert(subtree_text(d, n.index()) =~= subtree_text_from(d, n.index(), 0));
}

/// Escaped text holds no `<` or `>`, and an escaped attribute value no `"`:
/// serialized text never opens or closes a tag, and a serialized attribute
/// value never ends its quotes early.
pub proof fn law_escape_is_safe(t: Seq<char>)
    ensures
        forall|i: int| 0 <= i < escape(t, false).len() ==> escape(t, false)[i] != '<' && escape(t, false)[i] != '>',
        forall|i: int| 0 <= i < escape(t, true).len() ==> escape(t, true)[i] != '"',
    decreases t.len(),
{
    reveal_strlit("&amp;");
    reveal_strlit("&nbsp;");
    reveal_strlit("&quot;");
    reveal_strlit("&lt;");
    reveal_strlit("&gt;");
    if t.len() > 0 {
        law_escape_is_safe(t.drop_last());
        let c = t.last();
        let a = escape(t.drop_last(), false);
        let b = escape_char(c, false);
        assert(escape(t, false) == a + b);
        assert forall|i: int| 0 <= i < b.len() implies b[i] != '<' && b[i] != '>' by {}
        let a2 = escape(t.drop_last(), true);
        let b2 = escape_char(c, true);
        assert(escape(t, true) == a2 + b2);
        assert forall|i: int| 0 <= i < b2.len() implies b2[i] != '"' by {}
        assert forall|i: int| 0 <= i < escape(t, false).len() implies escape(t, false)[i] != '<'
            && escape(t, false)[i] != '>' by {
            if i >= a.len() {
                assert(escape(t, false)[i] == b[i - a.len()]);
            } else {
                assert(escape(t, false)[i] == a[i]);
            }
        }
        assert forall|i: int| 0 <= i < escape(t, true).len() implies escape(t, true)[i] != '"' by {
            if i >= a2.len() {
                assert(escape(t, true)[i] == b2[i - a2.len()]);
            } else {
                assert(escape(t, true)[i] == a2[i]);
            }
        }
    }
}

/// The nodes `strip_tags` takes apart: for each tag in turn, the nodes it
/// selects below the scope when its turn comes.
pub open spec fn strip_targets(d: Seq<NodeView>, scope: int, tags: Seq<Seq<char>>) -> Seq<usize>
    decreases tags.len(),
{
    if tags.len() == 0 {
        Seq::empty()
    } else {
        selected(d, scope, tags[0]) + strip_targets(
            decompose_all(d, selected(d, scope, tags[0])),
            scope,
            tags.drop_first(),
        )
    }
}

/// Selected nodes are nodes of the tree.
pub(crate) proof fn lemma_selected_bounds(d: Seq<NodeView>, root: int, sel: Seq<char>, m: usize)
    requires
        wf_links(d),
        0 <= root < d.len(),
        selected(d, root, sel).contains(m),
    ensures
        m < d.len(),
{
    match parse_list(sel) {
        Some(l) => {
            let pred = |x: usize| list_holds(d, x as int, l);
            preorder_from(d, root, 0).lemma_filter_contains_rev(pred, m);
            lemma_preorder_from_members(d, root, 0, m);
        },
        None => {},
    }
}

/// Nodes a selector list selects are nodes of the tree.
pub(crate) proof fn lemma_select_below_bounds(d: Seq<NodeView>, root: int, l: Seq<ComplexV>, m: usize)
    requires
        wf_links(d),
        0 <= root < d.len(),
        select_below(d, root, l).contains(m),
    ensures
        m < d.len(),
{
    let pred = |x: usize| list_holds(d, x as int, l);
    preorder_from(d, root, 0).lemma_filter_contains_rev(pred, m);
    lemma_preorder_from_members(d, root, 0, m);
}

/// Taking a subtree apart unlinks its nodes and leaves every other parent
/// link as it was.
proof fn lemma_decomposed_parent(d: Seq<NodeView>, x: int, m: int)
    requires
        0 <= m < d.len(),
    ensures
        decomposed(d, x).len() == d.len(),
        decomposed(d, x)[m].parent == if in_subtree(d, x, m) {
            None::<usize>
        } else {
            d[m].parent
        },
{
}

/// Taking a subtree apart only removes links: whatever lies below a node
/// afterwards lay below it before.
proof fn lemma_decomposed_only_unlinks(d: Seq<NodeView>, x: int, a: int, m: int)
    requires
        in_subtree(decomposed(d, x), a, m),
    ensures
        in_subtree(d, a, m),
    decreases m,
{
    let d2 = decomposed(d, x);
    if m != a {
        lemma_decomposed_parent(d, x, m);
        let p = d2[m].parent->0 as int;
        lemma_decomposed_only_unlinks(d, x, a, p);
    }
}

/// After the nodes of `ns` are taken apart one after another, each of them,
/// and every node that had no parent, has none.
proof fn lemma_decompose_all(t: TreeView, ns: Seq<usize>, m: int)
    requires
        wf_tree(t),
        forall|j: int| 0 <= j < ns.len() ==> #[trigger] ns[j] < t.nodes.len(),
        0 <= m < t.nodes.len(),
    ensures
        wf_tree(TreeView { nodes: decompose_all(t.nodes, ns), names: t.names }),
        decompose_all(t.nodes, ns).len() == t.nodes.len(),
        (t.nodes[m].parent is None || ns.contains(m as usize)) ==> decompose_all(
            t.nodes,
            ns,
        )[m].parent is None,
        forall|a: int| in_subtree(decompose_all(t.nodes, ns), a, m) ==> in_subtree(t.nodes, a, m),
    decreases ns.len(),
{
    if ns.len() > 0 {
        let x = ns[0] as int;
        let d2 = decomposed(t.nodes, x);
        let t2 = TreeView { nodes: d2, names: t.names };
        lemma_decomposed_wf(t, x);
        lemma_decomposed_parent(t.nodes, x, m);
        if m == x {
            assert(in_subtree(t.nodes, x, m));
        }
        assert forall|j: int| 0 <= j < ns.drop_first().len() implies #[trigger] ns.drop_first()[j]
            < d2.len() by {
            assert(ns.drop_first()[j] == ns[j + 1]);
        }
        if ns.contains(m as usize) && ns[0] != m as usize {
            let j = choose|j: int| 0 <= j < ns.len() && ns[j] == m as usize;
            assert(ns.drop_first()[j - 1] == m as usize);
        }
        lemma_decompose_all(t2, ns.drop_first(), m);
        assert forall|a: int| in_subtree(decompose_all(t.nodes, ns), a, m) implies in_subtree(
            t.nodes,
            a,
            m,
        ) by {
            lemma_decomposed_only_unlinks(t.nodes, x, a, m);
        }
    }
}

/// Stripping keeps parentless nodes parentless and only removes links.
proof fn lemma_stripped(t: TreeView, scope: int, tags: Seq<Seq<char>>, m: int)
    requires
        wf_tree(t),
        0 <= scope < t.nodes.len(),
        0 <= m < t.nodes.len(),
    ensures
        wf_tree(TreeView { nodes: stripped(t.nodes, scope, tags), names: t.names }),
        stripped(t.nodes, scope, tags).len() == t.nodes.len(),
        t.nodes[m].parent is None ==> stripped(t.nodes, scope, tags)[m].parent is None,
        strip_targets(t.nodes, scope, tags).contains(m as usize) ==> stripped(
            t.nodes,
            scope,
            tags,
        )[m].parent is None,
        forall|a: int| in_subtree(stripped(t.nodes, scope, tags), a, m) ==> in_subtree(t.nodes, a, m),
    decreases tags.len(),
{
    if tags.len() > 0 {
        let ns = selected(t.nodes, scope, tags[0]);
        assert forall|j: int| 0 <= j < ns.len() implies #[trigger] ns[j] < t.nodes.len() by {
            lemma_selected_bounds(t.nodes, scope, tags[0], ns[j]);
        }
        lemma_decompose_all(t, ns, m);
        let d2 = decompose_all(t.nodes, ns);
        let t2 = TreeView { nodes: d2, names: t.names };
        lemma_stripped(t2, scope, tags.drop_first(), m);
        let rest = strip_targets(d2, scope, tags.drop_first());
        if strip_targets(t.nodes, scope, tags).contains(m as usize) && !ns.contains(m as usize) {
            let all = ns + rest;
            let j = choose|j: int| 0 <= j < all.len() && all[j] == m as usize;
            if j < ns.len() {
                assert(ns[j] == m as usize);
            } else {
                assert(rest[j - ns.len()] == m as usize);
            }
        }
    }
}

/// After `strip_tags(tags)`, every node that a tag selected when its turn
/// came is unlinked, so it lies below no other node and no selection from
/// any root returns it; and stripping only removes links: whatever lies
/// below a node afterwards lay below it before.
pub proof fn law_strip_tags(doc: &HtmlDocument, tags: Seq<Seq<char>>, root: Node, sel: Seq<char>, m: int)
    requires
        doc.wf(),
        doc.has(root),
        0 <= m < doc.nodes().len(),
    ensures
        strip_targets(doc.nodes(), 0, tags).contains(m as usize) ==> !selected(
            stripped(doc.nodes(), 0, tags),
            root.index(),
            sel,
        ).contains(m as usize),
        forall|a: int|
            in_subtree(stripped(doc.nodes(), 0, tags), a, m) ==> in_subtree(
                doc.nodes(),
                a,
                m,
            ),
{
    let t = doc.tree_view();
    let scope = 0int;
    lemma_stripped(t, scope, tags, m);
    let d2 = stripped(t.nodes, scope, tags);
    lemma_selected_iff(d2, root.index(), sel, m);
}

/// Taking subtrees apart changes links only: every node keeps its kind,
/// name, attributes and data.
proof fn lemma_decompose_all_content(d: Seq<NodeView>, ns: Seq<usize>, m: int)
    requires
        0 <= m < d.len(),
    ensures
        decompose_all(d, ns).len() == d.len(),
        decompose_all(d, ns)[m].kind == d[m].kind,
        decompose_all(d, ns)[m].name == d[m].name,
        decompose_all(d, ns)[m].attrs == d[m].attrs,
        decompose_all(d, ns)[m].data == d[m].data,
    decreases ns.len(),
{
    if ns.len() > 0 {
        lemma_decompose_all_content(decomposed(d, ns[0] as int), ns.drop_first(), m);
    }
}

/// The stage-by-stage form of stripping: a node still in the document at
/// the end was in it, and not selected, when each tag had its turn.
proof fn lemma_strip_stage(t: TreeView, tags: Seq<Seq<char>>, m: int, k: int)
    requires
        wf_tree(t),
        0 < m < t.nodes.len(),
        in_subtree(stripped(t.nodes, 0, tags), 0, m),
        0 <= k < tags.len(),
    ensures
        !text_matches(stripped(t.nodes, 0, tags.take(k)), m, tags[k]),
        stripped(t.nodes, 0, tags.take(k)).len() == t.nodes.len(),
        stripped(t.nodes, 0, tags.take(k))[m].kind == t.nodes[m].kind,
        stripped(t.nodes, 0, tags.take(k))[m].name == t.nodes[m].name,
        stripped(t.nodes, 0, tags.take(k))[m].attrs == t.nodes[m].attrs,
    decreases tags.len(),
{
    let d = t.nodes;
    let ns = selected(d, 0, tags[0]);
    assert forall|j: int| 0 <= j < ns.len() implies #[trigger] ns[j] < d.len() by {
        lemma_selected_bounds(d, 0, tags[0], ns[j]);
    }
    lemma_decompose_all(t, ns, m);
    lemma_decompose_all_content(d, ns, m);
    let d1 = decompose_all(d, ns);
    let t1 = TreeView { nodes: d1, names: t.names };
    let rest = tags.drop_first();
    assert(stripped(d, 0, tags) == stripped(d1, 0, rest));
    lemma_stripped(t1, 0, rest, m);
    assert(in_subtree(d1, 0, m));
    if k == 0 {
        assert(tags.take(0) =~= Seq::<Seq<char>>::empty());
        assert(stripped(d, 0, tags.take(0)) == d);
        assert(!ns.contains(m as usize)) by {
            if ns.contains(m as usize) {
                assert(d1[m].parent is None);
            }
        }
        assert(in_subtree(d, 0, m));
        lemma_selected_iff(d, 0, tags[0], m);
    } else {
        lemma_strip_stage(t1, rest, m, k - 1);
        assert(tags.take(k)[0] == tags[0]);
        assert(tags.take(k).drop_first() =~= rest.take(k - 1));
        assert(stripped(d, 0, tags.take(k)) == stripped(d1, 0, rest.take(k - 1)));
        assert(rest[k - 1] == tags[k]);
    }
}

/// After `strip_tags(tags)`, no node left in the document matched any of
/// the tags when its turn came; and stripping changes links only, so every
/// node keeps its kind, tag name and attributes. For a tag name, which a
/// node matches by its name alone, this means that no element of that name
/// is left in the document.
pub proof fn law_strip_tags_leaves_no_match(doc: &HtmlDocument, tags: Seq<Seq<char>>, m: int, k: int)
    requires
        doc.wf(),
        0 < m < doc.nodes().len(),
        in_subtree(stripped(doc.nodes(), 0, tags), 0, m),
        0 <= k < tags.len(),
    ensures
        !text_matches(stripped(doc.nodes(), 0, tags.take(k)), m, tags[k]),
        stripped(doc.nodes(), 0, tags.take(k))[m].kind == doc.nodes()[m].kind,
        stripped(doc.nodes(), 0, tags.take(k))[m].name == doc.nodes()[m].name,
        stripped(doc.nodes(), 0, tags.take(k))[m].attrs == doc.nodes()[m].attrs,
{
    lemma_strip_stage(doc.tree_view(), tags, m, k);
}

/// The texts of the subtrees of the nodes of `s`, one after another.
pub open spec fn texts(d: Seq<NodeView>, s: Seq<usize>) -> Seq<char>
    decreases s.len(),
{
    if s.len() == 0 {
        Seq::empty()
    } else {
        subtree_text(d, s[0] as int) + texts(d, s.drop_first())
    }
}

proof fn lemma_texts_concat(d: Seq<NodeView>, a: Seq<usize>, b: Seq<usize>)
    ensures
        texts(d, a + b) == texts(d, a) + texts(d, b),
    decreases a.len(),
{
    if a.len() == 0 {
        assert(a + b =~= b);
    } else {
        assert((a + b).drop_first() =~= a.drop_first() + b);
        lemma_texts_concat(d, a.drop_first(), b);
        assert((a + b)[0] == a[0]);
    }
}

proof fn lemma_texts_single(d: Seq<NodeView>, x: usize)
    ensures
        texts(d, seq![x]) == subtree_text(d, x as int),
{
    assert(seq![x].drop_first() =~= Seq::<usize>::empty());
    assert(texts(d, seq![x].drop_first()) =~= Seq::<char>::empty());
}

/// Two trees whose subtrees of the nodes of `s` have the same text give the
/// same texts over `s`.
proof fn lemma_texts_same(d: Seq<NodeView>, d2: Seq<NodeView>, s: Seq<usize>)
    requires
        forall|k: int| 0 <= k < s.len() ==> subtree_text(d2, #[trigger] s[k] as int) == subtree_text(d, s[k] as int),
    ensures
        texts(d2, s) == texts(d, s),
    decreases s.len(),
{
    if s.len() > 0 {
        assert forall|k: int| 0 <= k < s.drop_first().len() implies subtree_text(
            d2,
            #[trigger] s.drop_first()[k] as int,
        ) == subtree_text(d, s.drop_first()[k] as int) by {
            assert(s.drop_first()[k] == s[k + 1]);
        }
        lemma_texts_same(d, d2, s.drop_first());
        assert(subtree_text(d2, s[0] as int) == subtree_text(d, s[0] as int));
    }
}

/// The text below the children of `n` from child `i` on is the texts over
/// that part of the child list.
proof fn lemma_text_from_is_texts(d: Seq<NodeView>, n: int, i: int)
    requires
        wf_links(d),
        0 <= n < d.len(),
        0 <= i <= d[n].children.len(),
    ensures
        subtree_text_from(d, n, i) == texts(d, d[n].children.subrange(i, d[n].children.len() as int)),
    decreases d[n].children.len() - i,
{
    let ch = d[n].children;
    let s = ch.subrange(i, ch.len() as int);
    if i < ch.len() {
        assert(n < ch[i] < d.len());
        lemma_text_from_is_texts(d, n, i + 1);
        assert(s.drop_first() =~= ch.subrange(i + 1, ch.len() as int));
        assert(s[0] == ch[i]);
    } else {
        assert(s =~= Seq::<usize>::empty());
    }
}

/// The text of the subtree of `n`: its own data if it is a text node, then
/// the texts of its children.
proof fn lemma_subtree_text_unfold(d: Seq<NodeView>, n: int)
    requires
        wf_links(d),
        0 <= n < d.len(),
    ensures
        subtree_text(d, n) == (if d[n].kind == NodeKind::Text {
            d[n].data
        } else {
            Seq::empty()
        }) + texts(d, d[n].children),
{
    lemma_text_from_is_texts(d, n, 0);
    assert(d[n].children.subrange(0, d[n].children.len() as int) =~= d[n].children);
}


/// Over the child list of `q`, the kept entries of the merged tree carry
/// the same text as all entries of the tree before.
proof fn lemma_merge_runs(d: Seq<NodeView>, q: int, j: int)
    requires
        wf_links(d),
        wf_links(merged_children(d, q)),
        text_nodes_are_leaves(d),
        0 <= q < d.len(),
        0 <= j <= d[q].children.len(),
        forall|k: int|
            0 <= k < d[q].children.len() && d[d[q].children[k] as int].kind != NodeKind::Text
                ==> subtree_text(merged_children(d, q), #[trigger] d[q].children[k] as int)
                == subtree_text(d, d[q].children[k] as int),
    ensures
        !follows_text(d, d[q].children, j) ==> texts(
            merged_children(d, q),
            kept_children(d, d[q].children, j),
        ) == texts(d, d[q].children.subrange(j, d[q].children.len() as int)),
        j < d[q].children.len() && d[d[q].children[j] as int].kind == NodeKind::Text ==> run_data(
            d,
            d[q].children,
            j,
        ) + texts(merged_children(d, q), kept_children(d, d[q].children, j + 1)) == texts(
            d,
            d[q].children.subrange(j, d[q].children.len() as int),
        ),
    decreases d[q].children.len() - j,
{
    let d2 = merged_children(d, q);
    let ch = d[q].children;
    let len = ch.len() as int;
    if j == len {
        assert(kept_children(d, ch, j) =~= Seq::<usize>::empty());
        assert(ch.subrange(j, len) =~= Seq::<usize>::empty());
        return;
    }
    lemma_merge_runs(d, q, j + 1);
    let c = ch[j] as int;
    lemma_child_index(d, q, j);
    assert(q < c < d.len());
    lemma_merged_at(d, q, c);
    let whole = ch.subrange(j, len);
    assert(whole == seq![ch[j]] + ch.subrange(j + 1, len));
    lemma_texts_concat(d, seq![ch[j]], ch.subrange(j + 1, len));
    lemma_texts_single(d, ch[j]);
    let head: Seq<usize> = if follows_text(d, ch, j) {
        Seq::empty()
    } else {
        seq![ch[j]]
    };
    assert(kept_children(d, ch, j) == head + kept_children(d, ch, j + 1));
    lemma_texts_concat(d2, head, kept_children(d, ch, j + 1));
    lemma_texts_single(d2, ch[j]);
    assert(texts(d2, Seq::<usize>::empty()) =~= Seq::<char>::empty());
    lemma_subtree_text_unfold(d, c);
    if d[c].kind == NodeKind::Text {
        assert(d[c].children.len() == 0);
        assert(d[c].children =~= Seq::<usize>::empty());
        assert(texts(d, d[c].children) =~= Seq::<char>::empty());
        assert(subtree_text(d, c) =~= d[c].data);
        let more = j + 1 < len && d[ch[j + 1] as int].kind == NodeKind::Text;
        if more {
            lemma_child_index(d, q, j + 1);
            assert(follows_text(d, ch, j + 1));
        }
        if !follows_text(d, ch, j) {
            lemma_subtree_text_unfold(d2, c);
            assert(d2[c].children == d[c].children);
            assert(d2[c].kind == NodeKind::Text);
            assert(d2[c].data == run_data(d, ch, j));
            assert(subtree_text(d2, c) =~= run_data(d, ch, j));
        }
    } else {
        assert(!follows_text(d, ch, j));
        assert(subtree_text(d2, c) == subtree_text(d, c));
        if j + 1 < len {
            assert(!follows_text(d, ch, j + 1));
        }
    }
}

/// Merging the text children of `q` changes the text of no node other than
/// the text children of `q`.
proof fn lemma_merge_step_text(t: TreeView, q: int, a: int)
    requires
        wf_tree(t),
        text_nodes_are_leaves(t.nodes),
        0 <= q < t.nodes.len(),
        0 <= a < t.nodes.len(),
        !(t.nodes[a].parent == Some(q as usize) && t.nodes[a].kind == NodeKind::Text),
    ensures
        subtree_text(merged_children(t.nodes, q), a) == subtree_text(t.nodes, a),
        merged_children(t.nodes, q)[a].data == t.nodes[a].data,
    decreases t.nodes.len() - a,
{
    let d = t.nodes;
    let d2 = merged_children(d, q);
    lemma_merged_children_wf(t, q);
    lemma_merged_at(d, q, a);
    assert(wf_links(d2));
    lemma_subtree_text_unfold(d, a);
    lemma_subtree_text_unfold(d2, a);
    assert(d2[a].data == d[a].data);
    assert(d2[a].kind == d[a].kind);
    if a == q {
        let ch = d[q].children;
        assert forall|k: int|
            0 <= k < ch.len() && d[ch[k] as int].kind != NodeKind::Text implies subtree_text(
            d2,
            #[trigger] ch[k] as int,
        ) == subtree_text(d, ch[k] as int) by {
            assert(q < ch[k] < d.len());
            lemma_merge_step_text(t, q, ch[k] as int);
        }
        lemma_merge_runs(d, q, 0);
        assert(ch.subrange(0, ch.len() as int) =~= ch);
        assert(d2[q].children == kept_children(d, ch, 0));
    } else {
        assert(d2[a].children == d[a].children);
        let ch = d[a].children;
        assert forall|k: int| 0 <= k < ch.len() implies subtree_text(d2, #[trigger] ch[k] as int)
            == subtree_text(d, ch[k] as int) by {
            assert(a < ch[k] < d.len());
            assert(d[ch[k] as int].parent == Some(a as usize));
            lemma_merge_step_text(t, q, ch[k] as int);
        }
        lemma_texts_same(d, d2, ch);
    }
}

/// Merging keeps text nodes leaves.
proof fn lemma_merge_keeps_leaves(t: TreeView, q: int)
    requires
        wf_tree(t),
        text_nodes_are_leaves(t.nodes),
        0 <= q < t.nodes.len(),
    ensures
        text_nodes_are_leaves(merged_children(t.nodes, q)),
{
    let d = t.nodes;
    let d2 = merged_children(d, q);
    lemma_merged_children_wf(t, q);
    assert forall|m: int| 0 <= m < d2.len() && #[trigger] d2[m].kind == NodeKind::Text implies d2[m].children.len() == 0 by {
        lemma_merged_at(d, q, m);
        assert(d[m].kind == NodeKind::Text);
        if m == q {
            assert(d[q].children =~= Seq::<usize>::empty());
            assert(kept_children(d, d[q].children, 0) =~= Seq::<usize>::empty());
        }
    }
}

proof fn lemma_merged_all_text(t: TreeView, qs: Seq<usize>, n: int)
    requires
        wf_tree(t),
        text_nodes_are_leaves(t.nodes),
        0 <= n < t.nodes.len(),
        forall|k: int| 0 <= k < qs.len() ==> n <= #[trigger] qs[k] < t.nodes.len(),
    ensures
        subtree_text(merged_all(t.nodes, qs), n) == subtree_text(t.nodes, n),
        merged_all(t.nodes, qs)[n].data == t.nodes[n].data,
        merged_all(t.nodes, qs)[n].kind == t.nodes[n].kind,
    decreases qs.len(),
{
    if qs.len() > 0 {
        let d = t.nodes;
        let q = qs[0] as int;
        let d1 = merged_children(d, q);
        lemma_merged_children_wf(t, q);
        lemma_merge_keeps_leaves(t, q);
        let t1 = TreeView { nodes: d1, names: t.names };
        assert(d[n].parent matches Some(p) ==> p < n);
        lemma_merge_step_text(t, q, n);
        lemma_merged_at(d, q, n);
        assert forall|k: int| 0 <= k < qs.drop_first().len() implies n <= #[trigger] qs.drop_first()[k]
            < d1.len() by {
            assert(qs.drop_first()[k] == qs[k + 1]);
        }
        lemma_merged_all_text(t1, qs.drop_first(), n);
    }
}

/// Merging adjacent text nodes below a node leaves the node's text as it
/// was (in a document where no text node has children).
pub proof fn law_merge_keeps_text(doc: &HtmlDocument, n: Node)
    requires
        doc.wf(),
        doc.has(n),
        text_nodes_are_leaves(doc.nodes()),
    ensures
        deep_text(merged_all(doc.nodes(), preorder(doc.nodes(), n.index())), n.index()) == deep_text(
            doc.nodes(),
            n.index(),
        ),
{
    let t = doc.tree_view();
    let d = t.nodes;
    let qs = preorder(d, n.index());
    assert forall|k: int| 0 <= k < qs.len() implies n.index() <= #[trigger] qs[k] < d.len() by {
        assert(qs.contains(qs[k]));
        lemma_preorder_members(d, n.index(), qs[k]);
    }
    lemma_merged_all_text(t, qs, n.index());
}

/// Unwrapping a node that is not a text node leaves the text of every other
/// node as it was: its children's text takes its place in its parent.
pub proof fn law_unwrap_keeps_text(doc: &HtmlDocument, n: Node, a: int)
    requires
        doc.wf(),
        doc.has(n),
        doc.nodes()[n.index()].kind != NodeKind::Text,
        doc.nodes()[n.index()].kind != NodeKind::Document,
        0 <= a < doc.nodes().len(),
        a != n.index(),
    ensures
        subtree_text(unwrapped(doc.nodes(), n.index()), a) == subtree_text(doc.nodes(), a),
    decreases doc.nodes().len() - a,
{
    let t = doc.tree_view();
    let d = t.nodes;
    let ni = n.index();
    assert(wf_links(d));
    assert(ni != 0);
    lemma_unwrapped_wf(t, ni);
    let d2 = unwrapped(d, ni);
    assert(wf_links(d2));
    lemma_subtree_text_unfold(d, a);
    lemma_subtree_text_unfold(d2, a);
    assert(d2[a].data == d[a].data);
    assert(d2[a].kind == d[a].kind);
    if d[ni].parent == Some(a as usize) {
        let ch = d[a].children;
        let kids = d[ni].children;
        assert(ch.contains(ni as usize));
        let i = child_index(d, ni);
        assert(0 <= i < ch.len() && ch[i] == ni);
        let pre = ch.subrange(0, i);
        let post = ch.subrange(i + 1, ch.len() as int);
        assert(ch =~= pre + seq![ni as usize] + post);
        assert(d2[a].children == pre + kids + post);
        assert forall|k: int| 0 <= k < pre.len() implies subtree_text(d2, #[trigger] pre[k] as int)
            == subtree_text(d, pre[k] as int) by {
            assert(pre[k] == ch[k]);
            assert(a < ch[k] < d.len());
            law_unwrap_keeps_text(doc, n, pre[k] as int);
        }
        assert forall|k: int| 0 <= k < post.len() implies subtree_text(d2, #[trigger] post[k] as int)
            == subtree_text(d, post[k] as int) by {
            assert(post[k] == ch[k + i + 1]);
            assert(a < ch[k + i + 1] < d.len());
            assert(ch[k + i + 1] != ni) by {
                assert(ch.no_duplicates());
            }
            law_unwrap_keeps_text(doc, n, post[k] as int);
        }
        assert forall|k: int| 0 <= k < kids.len() implies subtree_text(d2, #[trigger] kids[k] as int)
            == subtree_text(d, kids[k] as int) by {
            assert(ni < kids[k] < d.len());
            law_unwrap_keeps_text(doc, n, kids[k] as int);
        }
        lemma_texts_same(d, d2, pre);
        lemma_texts_same(d, d2, post);
        lemma_texts_same(d, d2, kids);
        lemma_texts_concat(d2, pre + kids, post);
        lemma_texts_concat(d2, pre, kids);
        lemma_texts_concat(d, pre + seq![ni as usize], post);
        lemma_texts_concat(d, pre, seq![ni as usize]);
        lemma_texts_single(d, ni as usize);
        lemma_subtree_text_unfold(d, ni);
    } else {
        assert(d2[a].children == d[a].children);
        let ch = d[a].children;
        assert forall|k: int| 0 <= k < ch.len() implies subtree_text(d2, #[trigger] ch[k] as int)
            == subtree_text(d, ch[k] as int) by {
            assert(a < ch[k] < d.len());
            assert(d[ch[k] as int].parent == Some(a as usize));
            law_unwrap_keeps_text(doc, n, ch[k] as int);
        }
        lemma_texts_same(d, d2, ch);
    }
}

/// Two nodes above the same node lie on one chain: one is above the other.
proof fn lemma_chain_comparable(d: Seq<NodeView>, a: int, b: int, x: int)
    requires
        in_subtree(d, a, x),
        in_subtree(d, b, x),
    ensures
        in_subtree(d, a, b) || in_subtree(d, b, a),
    decreases x,
{
    if x != a && x != b {
        let p = d[x].parent->0 as int;
        lemma_chain_comparable(d, a, b, p);
    }
}

/// A node of the pre-order of the children of `n` from `i` on lies below
/// one of those children.
proof fn lemma_preorder_from_child(d: Seq<NodeView>, n: int, i: int, x: usize) -> (j: int)
    requires
        wf_links(d),
        0 <= n < d.len(),
        0 <= i,
        preorder_from(d, n, i).contains(x),
    ensures
        i <= j < d[n].children.len(),
        in_subtree(d, d[n].children[j] as int, x as int),
    decreases d[n].children.len() - i,
{
    let f = preorder_from(d, n, i);
    let ch = d[n].children;
    if !(i < ch.len()) {
        assert(f =~= Seq::<usize>::empty());
        assert(false);
        return 0;
    }
    let c = ch[i] as int;
    assert(n < c < d.len());
    let pc = preorder(d, c);
    let rest = preorder_from(d, n, i + 1);
    assert(f == pc + rest);
    let k = choose|k: int| 0 <= k < f.len() && f[k] == x;
    if k < pc.len() {
        assert(pc[k] == x);
        lemma_preorder_members(d, c, x);
        i
    } else {
        assert(rest[k - pc.len()] == x);
        lemma_preorder_from_child(d, n, i + 1, x)
    }
}

/// The pre-order of `n` lists no node twice.
pub(crate) proof fn lemma_preorder_no_dup(d: Seq<NodeView>, n: int)
    requires
        wf_links(d),
        0 <= n < d.len(),
    ensures
        preorder(d, n).no_duplicates(),
    decreases d.len() - n, 1nat, 0nat,
{
    lemma_preorder_head(d, n);
    let f = preorder_from(d, n, 0);
    lemma_preorder_from_no_dup(d, n, 0);
    assert forall|k: int| 0 <= k < f.len() implies f[k] != n as usize by {
        assert(f.contains(f[k]));
        lemma_preorder_from_members(d, n, 0, f[k]);
    }
    vstd::seq_lib::lemma_no_dup_in_concat(seq![n as usize], f);
}

/// The pre-order of the children of `n` from `i` on lists no node twice.
proof fn lemma_preorder_from_no_dup(d: Seq<NodeView>, n: int, i: int)
    requires
        wf_links(d),
        0 <= n < d.len(),
        0 <= i,
    ensures
        preorder_from(d, n, i).no_duplicates(),
    decreases d.len() - n, 0nat, d[n].children.len() - i,
{
    let f = preorder_from(d, n, i);
    let ch = d[n].children;
    if !(i < ch.len()) {
        assert(f =~= Seq::<usize>::empty());
        return;
    }
    let c = ch[i] as int;
    assert(n < c < d.len());
    let pc = preorder(d, c);
    let rest = preorder_from(d, n, i + 1);
    assert(f == pc + rest);
    lemma_preorder_no_dup(d, c);
    lemma_preorder_from_no_dup(d, n, i + 1);
    assert forall|a: int, b: int| 0 <= a < pc.len() && 0 <= b < rest.len() implies pc[a] != rest[b] by {
        if pc[a] == rest[b] {
            let x = pc[a];
            assert(pc.contains(x));
            lemma_preorder_members(d, c, x);
            assert(rest.contains(x));
            let j = lemma_preorder_from_child(d, n, i + 1, x);
            let cj = ch[j] as int;
            assert(n < cj < d.len());
            assert(ch.no_duplicates());
            assert(cj != c);
            lemma_chain_comparable(d, c, cj, x as int);
            if in_subtree(d, c, cj) {
                assert(d[cj].parent == Some(n as usize));
                assert(in_subtree(d, c, n));
                lemma_subtree_ge(d, c, n);
            } else {
                assert(d[c].parent == Some(n as usize));
                assert(in_subtree(d, cj, n));
                lemma_subtree_ge(d, cj, n);
            }
        }
    }
    vstd::seq_lib::lemma_no_dup_in_concat(pc, rest);
}

/// Filtering keeps a sequence free of repetitions.
proof fn lemma_filter_no_dup(s: Seq<usize>, pred: spec_fn(usize) -> bool)
    requires
        s.no_duplicates(),
    ensures
        s.filter(pred).no_duplicates(),
    decreases s.len(),
{
    reveal(Seq::filter);
    if s.len() > 0 {
        let init = s.drop_last();
        assert(init.no_duplicates());
        lemma_filter_no_dup(init, pred);
        if pred(s.last()) {
            let f = init.filter(pred);
            assert forall|k: int| 0 <= k < f.len() implies f[k] != s.last() by {
                assert(f.contains(f[k]));
                init.lemma_filter_contains_rev(pred, f[k]);
                let j = choose|j: int| 0 <= j < init.len() && init[j] == f[k];
                assert(s[j] == init[j]);
            }
            vstd::seq_lib::lemma_no_dup_in_concat(f, seq![s.last()]);
            assert(f + seq![s.last()] =~= f.push(s.last()));
        }
    }
}

/// A selection returns each node at most once, in document order: its
/// result is the pre-order of the nodes below the root, filtered.
pub proof fn law_selected_once_in_order(doc: &HtmlDocument, root: Node, sel: Seq<char>)
    requires
        doc.wf(),
        doc.has(root),
    ensures
        selected(doc.nodes(), root.index(), sel).no_duplicates(),
        selected(doc.nodes(), root.index(), sel) == match parse_list(sel) {
            Some(l) => preorder_from(doc.nodes(), root.index(), 0).filter(
                |m: usize| list_holds(doc.nodes(), m as int, l),
            ),
            None => Seq::<usize>::empty(),
        },
{
    let d = doc.nodes();
    assert(wf_links(d));
    lemma_preorder_from_no_dup(d, root.index(), 0);
    match parse_list(sel) {
        Some(l) => {
            lemma_filter_no_dup(
                preorder_from(d, root.index(), 0),
                |m: usize| list_holds(d, m as int, l),
            );
        },
        None => {
            assert(Seq::<usize>::empty().no_duplicates());
        },
    }
}

/// The outer HTML of an element is its start tag, its inner HTML and, unless
/// it is a void element, its end tag.
pub proof fn law_outer_wraps_inner(doc: &HtmlDocument, n: Node)
    requires
        doc.wf(),
        doc.has(n),
        doc.nodes()[n.index()].kind == NodeKind::Element,
    ensures
        outer_html_of(doc.nodes(), n.index()) == "<"@ + doc.nodes()[n.index()].name + attrs_html(
            doc.nodes()[n.index()].attrs,
        ) + ">"@ + if is_void(doc.nodes()[n.index()].name) {
            Seq::empty()
        } else {
            children_html(doc.nodes(), n.index(), 0) + "</"@ + doc.nodes()[n.index()].name + ">"@
        },
{
}

/// After a text entry, the first kept entry from `j` on is not a text node.
proof fn lemma_kept_after_text(d: Seq<NodeView>, ch: Seq<usize>, j: int)
    requires
        1 <= j,
        j - 1 < ch.len(),
        d[ch[j - 1] as int].kind == NodeKind::Text,
        kept_children(d, ch, j).len() > 0,
    ensures
        d[kept_children(d, ch, j)[0] as int].kind != NodeKind::Text,
    decreases ch.len() - j,
{
    if j < ch.len() {
        if follows_text(d, ch, j) {
            assert(kept_children(d, ch, j) == Seq::<usize>::empty() + kept_children(d, ch, j + 1));
            assert(kept_children(d, ch, j) =~= kept_children(d, ch, j + 1));
            lemma_kept_after_text(d, ch, j + 1);
        } else {
            assert(kept_children(d, ch, j) == seq![ch[j]] + kept_children(d, ch, j + 1));
        }
    } else {
        assert(kept_children(d, ch, j) =~= Seq::<usize>::empty());
    }
}

/// No two neighbouring kept entries from `j` on are both text nodes.
proof fn lemma_kept_no_adjacent_text(d: Seq<NodeView>, ch: Seq<usize>, j: int, k: int)
    requires
        0 <= j,
        0 <= k,
        k + 1 < kept_children(d, ch, j).len(),
    ensures
        !(d[kept_children(d, ch, j)[k] as int].kind == NodeKind::Text && d[kept_children(
            d,
            ch,
            j,
        )[k + 1] as int].kind == NodeKind::Text),
    decreases ch.len() - j,
{
    let kj = kept_children(d, ch, j);
    if !(j < ch.len()) {
        assert(kj =~= Seq::<usize>::empty());
        return;
    }
    let rest = kept_children(d, ch, j + 1);
    if follows_text(d, ch, j) {
        assert(kj == Seq::<usize>::empty() + rest);
        assert(kj =~= rest);
        lemma_kept_no_adjacent_text(d, ch, j + 1, k);
    } else {
        assert(kj == seq![ch[j]] + rest);
        if k == 0 {
            assert(kj[0] == ch[j]);
            assert(kj[1] == rest[0]);
            if d[ch[j] as int].kind == NodeKind::Text {
                lemma_kept_after_text(d, ch, j + 1);
            }
        } else {
            assert(kj[k] == rest[k - 1]);
            assert(kj[k + 1] == rest[k]);
            lemma_kept_no_adjacent_text(d, ch, j + 1, k - 1);
        }
    }
}

/// Merging the text children of `q` leaves no two neighbouring text
/// children of `q`.
proof fn lemma_merge_no_adjacent(t: TreeView, qi: int, k: int)
    requires
        wf_tree(t),
        0 <= qi < t.nodes.len(),
        0 <= k,
        k + 1 < merged_children(t.nodes, qi)[qi].children.len(),
    ensures
        !(merged_children(t.nodes, qi)[merged_children(
            t.nodes,
            qi,
        )[qi].children[k] as int].kind == NodeKind::Text && merged_children(
            t.nodes,
            qi,
        )[merged_children(t.nodes, qi)[qi].children[k + 1] as int].kind == NodeKind::Text),
{
    let d = t.nodes;
    let d2 = merged_children(d, qi);
    lemma_merged_at(d, qi, qi);
    let ch = d[qi].children;
    let kept = kept_children(d, ch, 0);
    assert(d2[qi].children == kept);
    lemma_kept_no_adjacent_text(d, ch, 0, k);
    lemma_merged_children_wf(t, qi);
    let a = kept[k];
    let b = kept[k + 1];
    assert(wf_links(d2));
    assert(a < d.len() && b < d.len()) by {
        assert(d2[qi].children[k] == a);
        assert(d2[qi].children[k + 1] == b);
    }
    lemma_merged_at(d, qi, a as int);
    lemma_merged_at(d, qi, b as int);
}

/// After the adjacent text children of `q` are merged, no two neighbouring
/// children of `q` are both text nodes.
pub proof fn law_merge_leaves_no_adjacent_text(doc: &HtmlDocument, q: Node, k: int)
    requires
        doc.wf(),
        doc.has(q),
        0 <= k,
        k + 1 < merged_children(doc.nodes(), q.index())[q.index()].children.len(),
    ensures
        !(merged_children(doc.nodes(), q.index())[merged_children(
            doc.nodes(),
            q.index(),
        )[q.index()].children[k] as int].kind == NodeKind::Text && merged_children(
            doc.nodes(),
            q.index(),
        )[merged_children(doc.nodes(), q.index())[q.index()].children[k + 1] as int].kind
            == NodeKind::Text),
{
    lemma_merge_no_adjacent(doc.tree_view(), q.index(), k);
}

/// Merging in turn over `a` and then `b` is merging over `a + b`.
proof fn lemma_merged_all_split(d: Seq<NodeView>, a: Seq<usize>, b: Seq<usize>)
    ensures
        merged_all(d, a + b) == merged_all(merged_all(d, a), b),
    decreases a.len(),
{
    if a.len() == 0 {
        assert(a + b =~= b);
    } else {
        assert((a + b).drop_first() =~= a.drop_first() + b);
        assert((a + b)[0] == a[0]);
        lemma_merged_all_split(merged_children(d, a[0] as int), a.drop_first(), b);
    }
}

/// Merging over `qs` keeps the tree well formed, keeps every node's kind,
/// and leaves the child list of a node outside `qs` as it was.
proof fn lemma_merged_all_frame(t: TreeView, qs: Seq<usize>, m: int)
    requires
        wf_tree(t),
        forall|k: int| 0 <= k < qs.len() ==> #[trigger] qs[k] < t.nodes.len(),
        0 <= m < t.nodes.len(),
    ensures
        wf_tree(TreeView { nodes: merged_all(t.nodes, qs), names: t.names }),
        merged_all(t.nodes, qs).len() == t.nodes.len(),
        merged_all(t.nodes, qs)[m].kind == t.nodes[m].kind,
        !qs.contains(m as usize) ==> merged_all(t.nodes, qs)[m].children == t.nodes[m].children,
    decreases qs.len(),
{
    if qs.len() > 0 {
        let q = qs[0] as int;
        let d1 = merged_children(t.nodes, q);
        lemma_merged_children_wf(t, q);
        lemma_merged_at(t.nodes, q, m);
        let t1 = TreeView { nodes: d1, names: t.names };
        assert forall|k: int| 0 <= k < qs.drop_first().len() implies #[trigger] qs.drop_first()[k]
            < d1.len() by {
            assert(qs.drop_first()[k] == qs[k + 1]);
        }
        if !qs.contains(m as usize) {
            assert forall|k: int| 0 <= k < qs.drop_first().len() implies qs.drop_first()[k] != m as usize by {
                assert(qs.drop_first()[k] == qs[k + 1]);
            }
            assert(m != q) by {
                assert(qs[0] == q as usize);
            }
        }
        lemma_merged_all_frame(t1, qs.drop_first(), m);
    }
}

/// Merging over `qs` leaves the data and parent of a node alone when its
/// parent is not in `qs`.
proof fn lemma_merged_all_child_frame(t: TreeView, qs: Seq<usize>, m: int)
    requires
        wf_tree(t),
        forall|k: int| 0 <= k < qs.len() ==> #[trigger] qs[k] < t.nodes.len(),
        0 <= m < t.nodes.len(),
        t.nodes[m].parent matches Some(p) ==> !qs.contains(p),
    ensures
        merged_all(t.nodes, qs)[m].data == t.nodes[m].data,
        merged_all(t.nodes, qs)[m].parent == t.nodes[m].parent,
    decreases qs.len(),
{
    if qs.len() > 0 {
        let q = qs[0] as int;
        let d1 = merged_children(t.nodes, q);
        lemma_merged_children_wf(t, q);
        lemma_merged_at(t.nodes, q, m);
        if t.nodes[m].parent is Some {
            assert(qs.contains(qs[0]));
        }
        let t1 = TreeView { nodes: d1, names: t.names };
        assert forall|k: int| 0 <= k < qs.drop_first().len() implies #[trigger] qs.drop_first()[k]
            < d1.len() by {
            assert(qs.drop_first()[k] == qs[k + 1]);
        }
        if let Some(p) = t.nodes[m].parent {
            assert(!qs.drop_first().contains(p)) by {
                if qs.drop_first().contains(p) {
                    let k = choose|k: int| 0 <= k < qs.drop_first().len() && qs.drop_first()[k] == p;
                    assert(qs[k + 1] == p);
                }
            }
        }
        lemma_merged_all_child_frame(t1, qs.drop_first(), m);
    }
}

/// Runs, follows and kept lists read only the kinds and data of the
/// entries.
proof fn lemma_runs_congruent(d1: Seq<NodeView>, d2: Seq<NodeView>, ch: Seq<usize>, j: int)
    requires
        forall|i: int| 0 <= i < ch.len() ==> #[trigger] d1[ch[i] as int].kind == d2[ch[i] as int].kind
            && d1[ch[i] as int].data == d2[ch[i] as int].data,
    ensures
        run_data(d1, ch, j) == run_data(d2, ch, j),
        kept_children(d1, ch, j) == kept_children(d2, ch, j),
        follows_text(d1, ch, j) == follows_text(d2, ch, j),
    decreases ch.len() - j,
{
    if 0 <= j < ch.len() {
        lemma_runs_congruent(d1, d2, ch, j + 1);
        assert(d1[ch[j] as int].kind == d2[ch[j] as int].kind);
        if j + 1 < ch.len() {
            assert(d1[ch[j + 1] as int].kind == d2[ch[j + 1] as int].kind);
        }
        if j > 0 {
            assert(d1[ch[j - 1] as int].kind == d2[ch[j - 1] as int].kind);
        }
    }
}

/// After `merge_text_nodes` on `n`, in the subtree of `n`: each node's
/// child list keeps its entries but the text nodes that follow a text node;
/// the first text node of each run of neighbouring text children holds the
/// data of the whole run; and the other text nodes of the run have left
/// the tree.
pub proof fn law_merge_text_nodes_runs(doc: &HtmlDocument, n: Node, q: int, m: int)
    requires
        doc.wf(),
        doc.has(n),
        0 <= q < doc.nodes().len(),
        in_subtree(doc.nodes(), n.index(), q),
        0 <= m < doc.nodes().len(),
    ensures
        ({
            let d = doc.nodes();
            let f = merged_all(d, preorder(d, n.index()));
            let ch = d[q].children;
            &&& f[q].children == kept_children(d, ch, 0)
            &&& d[m].parent == Some(q as usize) && d[m].kind == NodeKind::Text ==> {
                &&& follows_text(d, ch, child_index(d, m)) ==> f[m].parent is None
                &&& !follows_text(d, ch, child_index(d, m)) ==> f[m].data == run_data(
                    d,
                    ch,
                    child_index(d, m),
                ) && f[m].parent == Some(q as usize)
            }
        }),
{
    let t = doc.tree_view();
    let d = t.nodes;
    assert(wf_links(d));
    let p = preorder(d, n.index());
    assert forall|j: int| 0 <= j < p.len() implies #[trigger] p[j] < d.len() by {
        assert(p.contains(p[j]));
        lemma_preorder_members(d, n.index(), p[j]);
    }
    lemma_subtree_in_preorder(d, n.index(), q);
    lemma_preorder_no_dup(d, n.index());
    let i = choose|i: int| 0 <= i < p.len() && p[i] == q as usize;
    let pre = p.subrange(0, i);
    let post = p.subrange(i + 1, p.len() as int);
    assert(p =~= pre + (seq![q as usize] + post));
    lemma_merged_all_split(d, pre, seq![q as usize] + post);
    let di = merged_all(d, pre);
    assert forall|j: int| 0 <= j < pre.len() implies #[trigger] pre[j] < d.len() by {
        assert(pre[j] == p[j]);
    }
    assert(!pre.contains(q as usize)) by {
        if pre.contains(q as usize) {
            let j = choose|j: int| 0 <= j < pre.len() && pre[j] == q as usize;
            assert(p[j] == p[i]);
        }
    }
    lemma_merged_all_frame(t, pre, q);
    let ch = d[q].children;
    assert(di[q].children == ch);
    assert forall|k: int| 0 <= k < ch.len() implies #[trigger] di[ch[k] as int].kind == d[ch[k] as int].kind
        && di[ch[k] as int].data == d[ch[k] as int].data && di[ch[k] as int].parent == d[ch[k] as int].parent by {
        let c = ch[k] as int;
        assert(d[c].parent == Some(q as usize));
        lemma_merged_all_frame(t, pre, c);
        lemma_merged_all_child_frame(t, pre, c);
    }
    lemma_runs_congruent(di, d, ch, 0);
    let ti = TreeView { nodes: di, names: t.names };
    let e = merged_children(di, q);
    lemma_merged_children_wf(ti, q);
    lemma_merged_at(di, q, q);
    let te = TreeView { nodes: e, names: t.names };
    assert((seq![q as usize] + post)[0] == q as usize);
    assert((seq![q as usize] + post).drop_first() =~= post);
    let f = merged_all(e, post);
    assert(f == merged_all(d, p));
    assert forall|j: int| 0 <= j < post.len() implies #[trigger] post[j] < d.len() by {
        assert(post[j] == p[j + i + 1]);
    }
    assert(!post.contains(q as usize)) by {
        if post.contains(q as usize) {
            let j = choose|j: int| 0 <= j < post.len() && post[j] == q as usize;
            assert(p[j + i + 1] == p[i]);
        }
    }
    lemma_merged_all_frame(te, post, q);
    assert(f[q].children == kept_children(d, ch, 0));
    if d[m].parent == Some(q as usize) && d[m].kind == NodeKind::Text {
        assert(ch.contains(m as usize));
        let k = choose|k: int| 0 <= k < ch.len() && ch[k] == m as usize;
        assert(di[ch[k] as int].parent == d[m].parent);
        assert(child_index(di, m) == child_index(d, m));
        let j = child_index(d, m);
        lemma_runs_congruent(di, d, ch, j);
        assert(di[m].kind == NodeKind::Text && di[m].parent == Some(q as usize));
        assert(m != q) by {
            assert(d[m].parent == Some(q as usize));
        }
        lemma_merged_at(di, q, m);
        if follows_text(d, ch, j) {
            assert(e[m].parent is None);
        } else {
            assert(e[m].data == run_data(d, ch, j));
            assert(e[m].parent == Some(q as usize));
        }
        lemma_merged_all_child_frame(te, post, m);
    }
}

/// After `merge_text_nodes` on `n`, no node of the subtree of `n` has two
/// neighbouring text children.
pub proof fn law_merge_text_nodes_leaves_no_adjacent_text(doc: &HtmlDocument, n: Node, q: int, k: int)
    requires
        doc.wf(),
        doc.has(n),
        0 <= q < doc.nodes().len(),
        in_subtree(doc.nodes(), n.index(), q),
        0 <= k,
        k + 1 < merged_all(doc.nodes(), preorder(doc.nodes(), n.index()))[q].children.len(),
    ensures
        ({
            let f = merged_all(doc.nodes(), preorder(doc.nodes(), n.index()));
            !(f[f[q].children[k] as int].kind == NodeKind::Text && f[f[q].children[k + 1] as int].kind
                == NodeKind::Text)
        }),
{
    let t = doc.tree_view();
    let d = t.nodes;
    assert(wf_links(d));
    let p = preorder(d, n.index());
    assert forall|j: int| 0 <= j < p.len() implies #[trigger] p[j] < d.len() by {
        assert(p.contains(p[j]));
        lemma_preorder_members(d, n.index(), p[j]);
    }
    lemma_subtree_in_preorder(d, n.index(), q);
    lemma_preorder_no_dup(d, n.index());
    let i = choose|i: int| 0 <= i < p.len() && p[i] == q as usize;
    let pre = p.subrange(0, i);
    let post = p.subrange(i + 1, p.len() as int);
    assert(p =~= pre + (seq![q as usize] + post));
    lemma_merged_all_split(d, pre, seq![q as usize] + post);
    let di = merged_all(d, pre);
    assert forall|j: int| 0 <= j < pre.len() implies #[trigger] pre[j] < d.len() by {
        assert(pre[j] == p[j]);
    }
    lemma_merged_all_frame(t, pre, q);
    let ti = TreeView { nodes: di, names: t.names };
    let e = merged_children(di, q);
    lemma_merged_children_wf(ti, q);
    let te = TreeView { nodes: e, names: t.names };
    assert((seq![q as usize] + post)[0] == q as usize);
    assert((seq![q as usize] + post).drop_first() =~= post);
    let f = merged_all(e, post);
    assert(f == merged_all(d, p));
    assert forall|j: int| 0 <= j < post.len() implies #[trigger] post[j] < d.len() by {
        assert(post[j] == p[j + i + 1]);
    }
    assert(!post.contains(q as usize)) by {
        if post.contains(q as usize) {
            let j = choose|j: int| 0 <= j < post.len() && post[j] == q as usize;
            assert(p[j + i + 1] == p[i]);
        }
    }
    lemma_merged_all_frame(te, post, q);
    assert(f[q].children == e[q].children);
    lemma_merge_no_adjacent(ti, q, k);
    let a = e[q].children[k] as int;
    let b = e[q].children[k + 1] as int;
    assert(wf_links(e));
    assert(0 <= a < d.len() && 0 <= b < d.len());
    lemma_merged_all_frame(te, post, a);
    lemma_merged_all_frame(te, post, b);
}

/// Text without a carriage return is unchanged by newline normalization.
proof fn lemma_normalize_plain(s: Seq<char>)
    requires
        forall|i: int| 0 <= i < s.len() ==> s[i] != '\r',
    ensures
        normalize_newlines(s) == s,
    decreases s.len(),
{
    if s.len() > 0 {
        let rest = s.subrange(1, s.len() as int);
        assert forall|i: int| 0 <= i < rest.len() implies rest[i] != '\r' by {
            assert(rest[i] == s[i + 1]);
        }
        lemma_normalize_plain(rest);
        assert(seq![s[0]] + rest =~= s);
    }
}

/// Without `<`, the search for one runs to the end.
proof fn lemma_no_tag_open(s: Seq<char>, i: int)
    requires
        0 <= i <= s.len(),
        forall|k: int| 0 <= k < s.len() ==> s[k] != '<',
    ensures
        find_char(s, i, '<') == s.len(),
    decreases s.len() - i,
{
    if i < s.len() {
        lemma_no_tag_open(s, i + 1);
    }
}

/// HTML text without markup (no `<`) and without carriage returns parses
/// to a document whose body holds that text, with its character references
/// decoded, its leading white space and its NUL characters dropped.
pub proof fn law_plain_text_parses_to_body_text(s: Seq<char>)
    requires
        forall|i: int| 0 <= i < s.len() ==> s[i] != '<' && s[i] != '\r',
    ensures
        built(s).body matches Some(body) && deep_text(built(s).tree.nodes, body as int)
            == without_nul(drop_leading_ws(decode(s, 0, s.len() as int, false))),
{
    lemma_normalize_plain(s);
    let t = decode(s, 0, s.len() as int, false);
    let toks = tokenize(s);
    let b0 = initial();
    reveal_strlit("#undef");
    reveal_strlit("#end-of-file");
    reveal_strlit("#text");
    reveal_strlit("#document");
    reveal_strlit("!--");
    reveal_strlit("!doctype");
    reveal_strlit("html");
    reveal_strlit("head");
    reveal_strlit("body");
    if s.len() == 0 {
        assert(toks =~= Seq::<TokenV>::empty());
        assert(build_from(b0, toks, 0) == b0);
        assert(t =~= Seq::<char>::empty());
        assert(drop_leading_ws(t) =~= Seq::<char>::empty());
    } else {
        lemma_no_tag_open(s, 0);
        assert(step(s, 0) == (seq![TokenV::Text(t)], s.len() as int));
        assert(tokenize_from(s, s.len() as int) =~= Seq::<TokenV>::empty());
        assert(toks =~= seq![TokenV::Text(t)]);
        assert(build_from(b0, toks, 0) == build_from(apply(b0, toks[0]), toks, 1));
        assert(build_from(apply(b0, toks[0]), toks, 1) == apply(b0, toks[0]));
        reveal(apply);
        assert(apply(b0, toks[0]) == apply_text(b0, t));
    }
    let b = built(s);
    assert(b == make_body(build_from(b0, toks, 0), Seq::empty()));
    let d = b.tree.nodes;
    let body = b.body->0 as int;
    assert(b.body == Some(3usize)) by {
        if s.len() > 0 && !all_ascii_ws(t) {
            let m = make_body(b0, Seq::empty());
            assert(m.body == Some(3usize));
        }
    }
    let m = make_body(b0, Seq::empty());
    let dm = m.tree.nodes;
    assert(dm.len() == 4 && dm[3].children.len() == 0);
    if s.len() > 0 && !all_ascii_ws(t) {
        let w = without_nul(drop_leading_ws(t));
        assert(b == insert_text(m, 3, w));
        if w.len() > 0 {
            assert(d.len() == 5 && d[3].children =~= seq![4usize]);
            assert(d[4].kind == NodeKind::Text && d[4].data == w && d[4].children.len() == 0);
            assert(subtree_text_from(d, 4, 0) =~= Seq::<char>::empty());
            assert(subtree_text(d, 4) =~= w);
            assert(subtree_text_from(d, 3, 1) =~= Seq::<char>::empty());
            assert(subtree_text_from(d, 3, 0) =~= w);
        } else {
            assert(d == dm);
            assert(subtree_text_from(d, 3, 0) =~= Seq::<char>::empty());
        }
        assert(subtree_text(d, 3) =~= subtree_text_from(d, 3, 0));
    } else {
        assert(b == m);
        assert(subtree_text_from(d, 3, 0) =~= Seq::<char>::empty());
        assert(subtree_text(d, 3) =~= Seq::<char>::empty());
        lemma_skip_all_ws(t, 0);
        assert(drop_leading_ws(t) =~= Seq::<char>::empty());
        reveal_with_fuel(Seq::<_>::filter, 1);
        assert(without_nul(drop_leading_ws(t)) =~= Seq::<char>::empty());
    }
}

/// Past white space only, skipping white space reaches the end.
proof fn lemma_skip_all_ws(t: Seq<char>, i: int)
    requires
        0 <= i <= t.len(),
        all_ascii_ws(t),
    ensures
        skip_ws(t, i) == t.len(),
    decreases t.len() - i,
{
    if i < t.len() {
        assert(is_ascii_ws(t[i]));
        lemma_skip_all_ws(t, i + 1);
    }
}


/// The first `n` results of repeated steps of the depth-first walk below
/// `root` from position `cur`: what `n` calls of `DescendantsIter::next`
/// return.
pub open spec fn walk_outputs(d: Seq<NodeView>, root: int, cur: Option<Node>, n: nat) -> Seq<
    Option<Node>,
>
    decreases n,
{
    if n == 0 {
        Seq::empty()
    } else {
        seq![walk_step(d, root, cur).0] + walk_outputs(d, root, walk_step(d, root, cur).1, (n - 1) as nat)
    }
}

/// What `n` calls of `TraverseIter::next` return on a fresh traversal of
/// `root`: the root, then the walk from it.
pub open spec fn traverse_outputs(d: Seq<NodeView>, root: int, n: nat) -> Seq<Option<Node>> {
    if n == 0 {
        Seq::empty()
    } else {
        seq![Some(Node { idx: root as usize })] + walk_outputs(
            d,
            root,
            Some(Node { idx: root as usize }),
            (n - 1) as nat,
        )
    }
}

/// `n` steps give `n` results.
proof fn lemma_walk_outputs_len(d: Seq<NodeView>, root: int, cur: Option<Node>, n: nat)
    ensures
        walk_outputs(d, root, cur, n).len() == n,
    decreases n,
{
    if n > 0 {
        lemma_walk_outputs_len(d, root, walk_step(d, root, cur).1, (n - 1) as nat);
    }
}

/// Once the walk has ended it stays ended.
proof fn lemma_walk_outputs_none(d: Seq<NodeView>, root: int, n: nat, k: int)
    requires
        0 <= k < n,
    ensures
        walk_outputs(d, root, None, n)[k] == None::<Node>,
    decreases n,
{
    let rest = walk_outputs(d, root, None, (n - 1) as nat);
    assert(walk_outputs(d, root, None, n) == seq![None::<Node>] + rest);
    if k > 0 {
        lemma_walk_outputs_none(d, root, (n - 1) as nat, k - 1);
        lemma_walk_outputs_len(d, root, None, (n - 1) as nat);
        assert((seq![None::<Node>] + rest)[k] == rest[k - 1]);
    }
}

/// From the `j`-th node of the pre-order, the walk yields the nodes after
/// it, in order, and then nothing.
proof fn lemma_walk_outputs_from(doc: &HtmlDocument, root: Node, j: int, n: nat, k: int)
    requires
        doc.wf(),
        doc.has(root),
        0 <= j < preorder(doc.nodes(), root.index()).len(),
        0 <= k < n,
    ensures
        walk_outputs(
            doc.nodes(),
            root.index(),
            Some(Node { idx: preorder(doc.nodes(), root.index())[j] }),
            n,
        )[k] == if j + k + 1 < preorder(doc.nodes(), root.index()).len() {
            Some(Node { idx: preorder(doc.nodes(), root.index())[j + k + 1] })
        } else {
            None::<Node>
        },
    decreases n,
{
    let d = doc.nodes();
    let p = preorder(d, root.index());
    law_walk_is_preorder(doc, root, j);
    let cur = Some(Node { idx: p[j] });
    let st = walk_step(d, root.index(), cur);
    let rest = walk_outputs(d, root.index(), st.1, (n - 1) as nat);
    assert(walk_outputs(d, root.index(), cur, n) == seq![st.0] + rest);
    if k > 0 {
        lemma_walk_outputs_len(d, root.index(), st.1, (n - 1) as nat);
        assert((seq![st.0] + rest)[k] == rest[k - 1]);
        if j + 1 < p.len() {
            lemma_walk_outputs_from(doc, root, j + 1, (n - 1) as nat, k - 1);
        } else {
            lemma_walk_outputs_none(d, root.index(), (n - 1) as nat, k - 1);
        }
    }
}

/// `descendants` yields the subtree of the node below the node itself, in
/// depth-first pre-order, then `None` at every later call: each node of
/// the subtree other than the node itself exactly once, and nothing else.
pub proof fn law_descendants_yield_subtree(doc: &HtmlDocument, root: Node, n: nat, k: int)
    requires
        doc.wf(),
        doc.has(root),
        0 <= k < n,
    ensures
        walk_outputs(doc.nodes(), root.index(), Some(root), n)[k] == if k + 1 < preorder(
            doc.nodes(),
            root.index(),
        ).len() {
            Some(Node { idx: preorder(doc.nodes(), root.index())[k + 1] })
        } else {
            None::<Node>
        },
        preorder(doc.nodes(), root.index())[0] == root.idx,
        preorder(doc.nodes(), root.index()).no_duplicates(),
        forall|m: int|
            0 <= m < doc.nodes().len() ==> (preorder(doc.nodes(), root.index()).contains(m as usize)
                <==> in_subtree(doc.nodes(), root.index(), m)),
{
    let d = doc.nodes();
    assert(wf_links(d));
    let p = preorder(d, root.index());
    assert(p[0] == root.idx);
    assert(Node { idx: p[0] } == root);
    lemma_walk_outputs_from(doc, root, 0, n, k);
    lemma_preorder_no_dup(d, root.index());
    assert forall|m: int| 0 <= m < d.len() implies (p.contains(m as usize) <==> in_subtree(
        d,
        root.index(),
        m,
    )) by {
        if p.contains(m as usize) {
            lemma_preorder_members(d, root.index(), m as usize);
        }
        if in_subtree(d, root.index(), m) {
            lemma_subtree_in_preorder(d, root.index(), m);
        }
    }
}

/// `traverse` yields the node itself followed by exactly what
/// `descendants` yields: the whole subtree in pre-order, then `None` at
/// every later call.
pub proof fn law_traverse_is_self_then_descendants(doc: &HtmlDocument, root: Node, n: nat, k: int)
    requires
        doc.wf(),
        doc.has(root),
        0 <= k < n,
    ensures
        traverse_outputs(doc.nodes(), root.index(), n + 1) == seq![Some(root)] + walk_outputs(
            doc.nodes(),
            root.index(),
            Some(root),
            n,
        ),
        traverse_outputs(doc.nodes(), root.index(), n)[k] == if k < preorder(
            doc.nodes(),
            root.index(),
        ).len() {
            Some(Node { idx: preorder(doc.nodes(), root.index())[k] })
        } else {
            None::<Node>
        },
{
    let d = doc.nodes();
    let p = preorder(d, root.index());
    assert(Node { idx: root.index() as usize } == root);
    assert(p[0] == root.idx);
    let w = walk_outputs(d, root.index(), Some(root), (n - 1) as nat);
    assert(traverse_outputs(d, root.index(), n) == seq![Some(root)] + w);
    assert(traverse_outputs(d, root.index(), n + 1) == seq![Some(root)] + walk_outputs(
        d,
        root.index(),
        Some(root),
        n,
    ));
    if k > 0 {
        law_descendants_yield_subtree(doc, root, (n - 1) as nat, k - 1);
        lemma_walk_outputs_len(d, root.index(), Some(root), (n - 1) as nat);
        assert((seq![Some(root)] + w)[k] == w[k - 1]);
    }
}

} // verus!
