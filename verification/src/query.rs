//! CSS selection over a document: compiled selectors, document-wide and
//! scoped queries, and matching of single nodes.

use vstd::prelude::*;
use crate::document::HtmlDocument;
use crate::dom::{NodeView, in_subtree};
use crate::error::Error;
use crate::node::Node;
use crate::selector::{
    Complex, ComplexV, list_view, list_shape, list_holds, list_exec, select_below,
    select_below_exec,
};
use crate::selector_parse::{parse_list, parse_selector_list};
use crate::text::str_to_vec;

verus! {

broadcast use crate::document::group_doc_reveal;

/// The indices of a list of node handles.
pub open spec fn node_indices(v: Seq<Node>) -> Seq<usize> {
    v.map_values(|n: Node| n.idx)
}

/// The nodes below `root` that the selector text `sel` selects: none when
/// the text is not a selector list.
pub open spec fn selected(d: Seq<NodeView>, root: int, sel: Seq<char>) -> Seq<usize> {
    match parse_list(sel) {
        Some(l) => select_below(d, root, l),
        None => Seq::empty(),
    }
}

/// Node `n` matches the selector text `sel`; never when the text is not a
/// selector list.
pub open spec fn text_matches(d: Seq<NodeView>, n: int, sel: Seq<char>) -> bool {
    match parse_list(sel) {
        Some(l) => list_holds(d, n, l),
        None => false,
    }
}

fn to_nodes(v: Vec<usize>) -> (r: Vec<Node>)
    ensures
        node_indices(r@) == v@,
{
    let mut r: Vec<Node> = Vec::new();
    let mut i: usize = 0;
    while i < v.len()
        invariant
            i <= v.len(),
            node_indices(r@) == v@.take(i as int),
        decreases v.len() - i,
    {
        let ghost before = r@;
        r.push(Node { idx: v[i] });
        assert(node_indices(r@) =~= node_indices(before).push(v@[i as int]));
        assert(v@.take(i + 1) =~= v@.take(i as int).push(v@[i as int]));
        i = i + 1;
    }
    assert(v@.take(i as int) =~= v@);
    r
}

/// A pre-compiled CSS selector list.
pub struct Selector {
    list: Vec<Complex>,
}

impl Selector {
    /// The selector list.
    pub closed spec fn view(&self) -> Seq<ComplexV> {
        list_view(self.list)
    }

    /// Every complex selector of the list is well shaped.
    pub closed spec fn wf(&self) -> bool {
        list_shape(list_view(self.list))
    }

    /// Compile a CSS selector string; fails with `SelectorParse` holding the
    /// text when it is not a selector list.
    pub fn compile(doc: &HtmlDocument, selector: &str) -> (r: Result<Selector, Error>)
        ensures
            parse_list(selector@) is Some <==> r is Ok,
            r matches Ok(sel) ==> sel.wf() && sel.view() == parse_list(selector@)->0,
            r matches Err(e) ==> (e matches Error::SelectorParse(m) && m@ == selector@),
    {
        let text = str_to_vec(selector);
        match parse_selector_list(&text) {
            Some(list) => Ok(Selector { list }),
            None => Err(Error::SelectorParse(String::from_str(selector))),
        }
    }

    /// Find all nodes matching this selector, scoped to the document body.
    pub fn find(&self, doc: &HtmlDocument) -> (r: Vec<Node>)
        requires
            doc.wf(),
            self.wf(),
        ensures
            forall|i: int| 0 <= i < r@.len() ==> doc.has(#[trigger] r@[i]),
            node_indices(r@) == select_below(doc.nodes(), doc.scope() as int, self.view()),
    {
        let body = doc.body_node();
        self.find_from(doc, &body)
    }

    /// Find all nodes matching this selector below the given root, in
    /// document order.
    pub fn find_from(&self, doc: &HtmlDocument, root: &Node) -> (r: Vec<Node>)
        requires
            doc.wf(),
            doc.has(*root),
            self.wf(),
        ensures
            forall|i: int| 0 <= i < r@.len() ==> doc.has(#[trigger] r@[i]),
            node_indices(r@) == select_below(doc.nodes(), root.index(), self.view()),
    {
        let found = select_below_exec(&doc.tree, root.idx, &self.list);
        let r = to_nodes(found);
        proof {
            assert forall|i: int| 0 <= i < r@.len() implies doc.has(#[trigger] r@[i]) by {
                assert(node_indices(r@)[i] == r@[i].idx);
                crate::properties::lemma_select_below_bounds(
                    doc.nodes(),
                    root.index(),
                    self.view(),
                    r@[i].idx,
                );
            }
        }
        r
    }

    /// Find the first node matching this selector, scoped to the document body.
    pub fn find_first(&self, doc: &HtmlDocument) -> (r: Option<Node>)
        requires
            doc.wf(),
            self.wf(),
        ensures
            r matches Some(m) ==> doc.has(m),
            r == first_of(select_below(doc.nodes(), doc.scope() as int, self.view())),
    {
        let body = doc.body_node();
        self.find_first_from(doc, &body)
    }

    /// Find the first node matching this selector below the given root.
    pub fn find_first_from(&self, doc: &HtmlDocument, root: &Node) -> (r: Option<Node>)
        requires
            doc.wf(),
            doc.has(*root),
            self.wf(),
        ensures
            r matches Some(m) ==> doc.has(m),
            r == first_of(select_below(doc.nodes(), root.index(), self.view())),
    {
        let found = select_below_exec(&doc.tree, root.idx, &self.list);
        if found.len() > 0 {
            Some(Node { idx: found[0] })
        } else {
            None
        }
    }

    /// Check if a specific node matches this selector.
    pub fn matches(&self, doc: &HtmlDocument, node: &Node) -> (r: bool)
        requires
            doc.wf(),
            doc.has(*node),
            self.wf(),
        ensures
            r == list_holds(doc.nodes(), node.index(), self.view()),
    {
        list_exec(&doc.tree, node.idx, &self.list)
    }
}

/// The first of a sequence of nodes, as a handle.
pub open spec fn first_of(s: Seq<usize>) -> Option<Node> {
    if s.len() > 0 {
        Some(Node { idx: s[0] })
    } else {
        None
    }
}

/// The tree after the nodes of `ns` are taken apart, one after another.
pub open spec fn decompose_all(d: Seq<NodeView>, ns: Seq<usize>) -> Seq<NodeView>
    decreases ns.len(),
{
    if ns.len() == 0 {
        d
    } else {
        decompose_all(crate::dom::decomposed(d, ns[0] as int), ns.drop_first())
    }
}

/// The tree after, for each tag in turn, every node the tag selects below
/// `scope` is taken apart.
pub open spec fn stripped(d: Seq<NodeView>, scope: int, tags: Seq<Seq<char>>) -> Seq<NodeView>
    decreases tags.len(),
{
    if tags.len() == 0 {
        d
    } else {
        stripped(decompose_all(d, selected(d, scope, tags[0])), scope, tags.drop_first())
    }
}

impl HtmlDocument {
    /// Select all nodes matching a CSS selector, scoped to the document body;
    /// none when the selector does not parse.
    pub fn select(&self, selector: &str) -> (r: Vec<Node>)
        requires
            self.wf(),
        ensures
            forall|i: int| 0 <= i < r@.len() ==> self.has(#[trigger] r@[i]),
            node_indices(r@) == selected(self.nodes(), self.scope() as int, selector@),
    {
        let body = self.body_node();
        self.select_from(&body, selector)
    }

    /// Select all nodes below `root` matching a CSS selector, in document
    /// order; none when the selector does not parse.
    pub fn select_from(&self, root: &Node, selector: &str) -> (r: Vec<Node>)
        requires
            self.wf(),
            self.has(*root),
        ensures
            forall|i: int| 0 <= i < r@.len() ==> self.has(#[trigger] r@[i]),
            node_indices(r@) == selected(self.nodes(), root.index(), selector@),
    {
        let text = str_to_vec(selector);
        match parse_selector_list(&text) {
            Some(list) => {
                let found = select_below_exec(&self.tree, root.idx, &list);
                let r = to_nodes(found);
                proof {
                    assert forall|i: int| 0 <= i < r@.len() implies self.has(#[trigger] r@[i]) by {
                        assert(node_indices(r@)[i] == r@[i].idx);
                        crate::properties::lemma_selected_bounds(
                            self.nodes(),
                            root.index(),
                            selector@,
                            r@[i].idx,
                        );
                    }
                }
                r
            },
            None => {
                let r: Vec<Node> = Vec::new();
                assert(node_indices(r@) =~= Seq::<usize>::empty());
                r
            },
        }
    }

    /// Select the first node matching a CSS selector, scoped to the body.
    pub fn select_first(&self, selector: &str) -> (r: Option<Node>)
        requires
            self.wf(),
        ensures
            r matches Some(m) ==> self.has(m),
            r == first_of(selected(self.nodes(), self.scope() as int, selector@)),
    {
        let all = self.select(selector);
        if all.len() > 0 {
            Some(all[0])
        } else {
            None
        }
    }

    /// Find all elements with a given tag name (through CSS selection).
    pub fn tags(&self, name: &str) -> (r: Vec<Node>)
        requires
            self.wf(),
        ensures
            forall|i: int| 0 <= i < r@.len() ==> self.has(#[trigger] r@[i]),
            node_indices(r@) == selected(self.nodes(), self.scope() as int, name@),
    {
        self.select(name)
    }

    /// Check if any node in the document matches a CSS selector: the head,
    /// the body and the document element included; `false` when the
    /// selector does not parse.
    pub fn matches(&self, selector: &str) -> (r: bool)
        requires
            self.wf(),
        ensures
            r == (selected(self.nodes(), 0, selector@).len() > 0),
            r <==> exists|m: int|
                0 < m < self.nodes().len() && in_subtree(self.nodes(), 0, m) && #[trigger] text_matches(
                    self.nodes(),
                    m,
                    selector@,
                ),
    {
        let document = Node { idx: 0 };
        let found = self.select_from(&document, selector);
        proof {
            let d = self.nodes();
            let s = selected(d, 0, selector@);
            if s.len() > 0 {
                crate::properties::lemma_selected_bounds(d, 0, selector@, s[0]);
                crate::properties::lemma_selected_iff(d, 0, selector@, s[0] as int);
                assert(s.contains(s[0]));
            }
            assert forall|m: int|
                0 < m < d.len() && in_subtree(d, 0, m) && #[trigger] text_matches(d, m, selector@)
                implies s.len() > 0 by {
                crate::properties::lemma_selected_iff(d, 0, selector@, m);
            }
        }
        assert(node_indices(found@).len() == found@.len());
        found.len() > 0
    }

    /// Compile a CSS selector for repeated use.
    pub fn compile_selector(&self, selector: &str) -> (r: Result<Selector, Error>)
        ensures
            parse_list(selector@) is Some <==> r is Ok,
            r matches Ok(sel) ==> sel.wf() && sel.view() == parse_list(selector@)->0,
            r matches Err(e) ==> (e matches Error::SelectorParse(m) && m@ == selector@),
    {
        Selector::compile(self, selector)
    }

    /// Remove all elements with the given tag names from the document: for
    /// each name in turn, every element it selects anywhere in the document
    /// (head included) is decomposed.
    pub fn strip_tags(&mut self, tags: &[&str])
        requires
            old(self).wf(),
        ensures
            final(self).wf(),
            final(self).same_frame(*old(self)),
            final(self).nodes().len() == old(self).nodes().len(),
            final(self).nodes() == stripped(
                old(self).nodes(),
                0,
                tags@.map_values(|t: &str| t@),
            ),
    {
        let ghost d0 = self.nodes();
        let ghost tv = tags@.map_values(|t: &str| t@);
        let ghost scope = 0int;
        let document = Node { idx: 0 };
        let mut k: usize = 0;
        assert(tv.skip(0) =~= tv);
        while k < tags.len()
            invariant
                self.wf(),
                self.same_frame(*old(self)),
                scope == 0,
                document.idx == 0,
                self.nodes().len() == old(self).nodes().len(),
                tv == tags@.map_values(|t: &str| t@),
                k <= tags.len(),
                stripped(d0, scope, tv) == stripped(self.nodes(), scope, tv.skip(k as int)),
            decreases tags.len() - k,
        {
            let found = self.select_from(&document, tags[k]);
            let ghost before = self.nodes();
            let ghost sel = node_indices(found@);
            assert(tv.skip(k as int).drop_first() =~= tv.skip(k + 1));
            assert(tv.skip(k as int)[0] == tags@[k as int]@);
            let mut i: usize = 0;
            assert(sel.skip(0) =~= sel);
            while i < found.len()
                invariant
                    self.wf(),
                    self.same_frame(*old(self)),
                    scope == 0,
                    self.nodes().len() == old(self).nodes().len(),
                    sel == node_indices(found@),
                    i <= found.len(),
                    decompose_all(before, sel) == decompose_all(self.nodes(), sel.skip(i as int)),
                    forall|j: int| 0 <= j < sel.len() ==> #[trigger] sel[j] < self.nodes().len(),
                    forall|j: int|
                        0 <= j < sel.len() ==> self.nodes()[#[trigger] sel[j] as int].kind
                            != crate::dom::NodeKind::Document,
                decreases found.len() - i,
            {
                let node = found[i];
                assert(sel[i as int] == node.idx);
                assert(sel.skip(i as int).drop_first() =~= sel.skip(i + 1));
                let ghost mid = self.nodes();
                let ghost prev = *self;
                let _ = node.decompose(self);
                assert(self.same_frame(prev));
                assert(self.nodes() == crate::dom::decomposed(mid, node.idx as int));
                i = i + 1;
            }
            assert(sel.skip(i as int) =~= Seq::<usize>::empty());
            k = k + 1;
        }
        assert(tv.skip(k as int) =~= Seq::<Seq<char>>::empty());
    }
}

impl Node {
    /// Check if this specific node matches a CSS selector; `false` when the
    /// selector does not parse. Descendants are not searched.
    pub fn css_matches(&self, doc: &HtmlDocument, selector: &str) -> (r: bool)
        requires
            doc.wf(),
            doc.has(*self),
        ensures
            r == text_matches(doc.nodes(), self.index(), selector@),
    {
        let text = str_to_vec(selector);
        match parse_selector_list(&text) {
            Some(list) => list_exec(&doc.tree, self.idx, &list),
            None => false,
        }
    }

    /// Check if any of the given CSS selectors match this node.
    pub fn any_css_matches(&self, doc: &HtmlDocument, selectors: &[&str]) -> (r: bool)
        requires
            doc.wf(),
            doc.has(*self),
        ensures
            r == exists|i: int|
                0 <= i < selectors@.len() && text_matches(
                    doc.nodes(),
                    self.index(),
                    #[trigger] selectors@[i]@,
                ),
    {
        let mut i: usize = 0;
        while i < selectors.len()
            invariant
                doc.wf(),
                doc.has(*self),
                i <= selectors.len(),
                forall|j: int|
                    0 <= j < i ==> !text_matches(doc.nodes(), self.index(), #[trigger] selectors@[j]@),
            decreases selectors.len() - i,
        {
            if self.css_matches(doc, selectors[i]) {
                return true;
            }
            i = i + 1;
        }
        false
    }
}

} // verus!
