//! The parsed document: owner of the node tree, entry point for parsing and
//! CSS selection.

use vstd::prelude::*;
use crate::dom::{NodeKind, NodeView, Tree, TreeView, text_nodes_are_leaves};
use crate::node::Node;
use crate::error::Error;
use crate::html_build::{build, built, is_named};
use crate::conformance::void_element_name;
use crate::text::str_to_vec;

verus! {

/// A parsed HTML document.
///
/// Nodes are handles into the document; every operation on a node takes the
/// document it belongs to.
pub struct HtmlDocument {
    pub(crate) tree: Tree,
    /// The document element (`<html>`).
    pub(crate) root: usize,
    pub(crate) head: Option<usize>,
    pub(crate) body: Option<usize>,
}

impl HtmlDocument {
    /// The nodes of the document.
    pub closed spec fn nodes(&self) -> Seq<NodeView> {
        self.tree@.nodes
    }

    /// The tree with its registry of element names.
    pub closed spec fn tree_view(&self) -> TreeView {
        self.tree@
    }

    pub closed spec fn root_index(&self) -> usize {
        self.root
    }

    pub closed spec fn head_index(&self) -> Option<usize> {
        self.head
    }

    pub closed spec fn body_index(&self) -> Option<usize> {
        self.body
    }

    /// The document is well formed: the tree is, and the cached document
    /// element, head and body are nodes of it.
    pub closed spec fn wf(&self) -> bool {
        &&& self.tree.wf()
        &&& self.root < self.nodes().len()
        &&& self.head matches Some(h) ==> h < self.nodes().len()
        &&& self.body matches Some(b) ==> b < self.nodes().len()
    }

    /// `other` is this document up to its nodes: same document element,
    /// head, body and element-name registry.
    pub closed spec fn same_frame(&self, other: HtmlDocument) -> bool {
        &&& self.root == other.root
        &&& self.head == other.head
        &&& self.body == other.body
        &&& self.tree@.names == other.tree@.names
    }

    /// `node` belongs to this document.
    pub open spec fn has(&self, node: Node) -> bool {
        node.idx < self.nodes().len()
    }

    /// Parses an HTML string into a document. Parsing is total: every input
    /// yields a document, malformed markup being repaired as the tree is
    /// built.
    pub fn parse(html: &str) -> (r: Result<HtmlDocument, Error>)
        ensures
            r matches Ok(doc) && {
                let b = built(html@);
                &&& doc.wf()
                &&& doc.tree_view() == b.tree
                &&& doc.root_index() == match b.html {
                    Some(h) => h,
                    None => 0,
                }
                &&& doc.head_index() == b.head
                &&& doc.body_index() == b.body
                &&& is_named(doc.nodes(), doc.head_index(), "head"@)
                &&& is_named(doc.nodes(), doc.body_index(), "body"@)
                &&& text_nodes_are_leaves(doc.nodes())
                &&& forall|n: int|
                    0 <= n < doc.nodes().len() && doc.nodes()[n].kind == NodeKind::Element
                        && #[trigger] void_element_name(doc.nodes()[n].name) ==> doc.nodes()[n].children.len() == 0
                &&& doc.nodes().len() < usize::MAX ==> {
                    &&& is_named(doc.nodes(), Some(doc.root_index()), "html"@)
                    &&& doc.head_index() is Some
                    &&& doc.body_index() is Some
                }
            },
    {
        let chars = str_to_vec(html);
        let (tree, html_el, head, body) = build(&chars);
        proof {
            let d = built(html@).tree.nodes;
            assert forall|n: int|
                0 <= n < d.len() && d[n].kind == NodeKind::Element && #[trigger] void_element_name(d[n].name)
                    implies d[n].children.len() == 0 by {
                crate::conformance::lemma_void_names_are_void(d[n].name);
            }
        }
        let root = match html_el {
            Some(h) => h,
            None => 0,
        };
        Ok(HtmlDocument { tree, root, head, body })
    }

    /// Returns the document element (`<html>`).
    pub fn root(&self) -> (r: Node)
        requires
            self.wf(),
        ensures
            r.idx == self.root_index(),
            self.has(r),
    {
        Node { idx: self.root }
    }

    /// Returns the document's `<head>` element, if it exists.
    pub fn head(&self) -> (r: Option<Node>)
        requires
            self.wf(),
        ensures
            r == match self.head_index() {
                Some(h) => Some(Node { idx: h }),
                None => None::<Node>,
            },
    {
        match self.head {
            Some(h) => Some(Node { idx: h }),
            None => None,
        }
    }

    /// Returns the document's `<body>` element, if it exists.
    pub fn body(&self) -> (r: Option<Node>)
        requires
            self.wf(),
        ensures
            r == match self.body_index() {
                Some(b) => Some(Node { idx: b }),
                None => None::<Node>,
            },
    {
        match self.body {
            Some(b) => Some(Node { idx: b }),
            None => None,
        }
    }

    /// The node selections are scoped to: the body, or the document element
    /// when there is no body.
    pub closed spec fn scope(&self) -> usize {
        match self.body {
            Some(b) => b,
            None => self.root,
        }
    }

    /// Returns the body node (or the document element as fallback).
    pub fn body_node(&self) -> (r: Node)
        requires
            self.wf(),
        ensures
            r.idx == self.scope(),
            self.has(r),
    {
        match self.body() {
            Some(b) => b,
            None => self.root(),
        }
    }
}

/// Inside the crate, the document's specification functions unfold to its
/// fields.
pub(crate) broadcast proof fn reveal_nodes(doc: &HtmlDocument)
    ensures
        #[trigger] doc.nodes() == doc.tree@.nodes,
{
}

pub(crate) broadcast proof fn reveal_tree_view(doc: &HtmlDocument)
    ensures
        #[trigger] doc.tree_view() == doc.tree@,
{
}

pub(crate) broadcast proof fn reveal_wf(doc: &HtmlDocument)
    ensures
        #[trigger] doc.wf() == ({
            &&& doc.tree.wf()
            &&& doc.root < doc.tree@.nodes.len()
            &&& doc.head matches Some(h) ==> h < doc.tree@.nodes.len()
            &&& doc.body matches Some(b) ==> b < doc.tree@.nodes.len()
        }),
{
}

pub(crate) broadcast proof fn reveal_root(doc: &HtmlDocument)
    ensures
        #[trigger] doc.root_index() == doc.root,
{
}

pub(crate) broadcast proof fn reveal_head(doc: &HtmlDocument)
    ensures
        #[trigger] doc.head_index() == doc.head,
{
}

pub(crate) broadcast proof fn reveal_body(doc: &HtmlDocument)
    ensures
        #[trigger] doc.body_index() == doc.body,
{
}

pub(crate) broadcast proof fn reveal_scope(doc: &HtmlDocument)
    ensures
        #[trigger] doc.scope() == match doc.body {
            Some(b) => b,
            None => doc.root,
        },
{
}

pub(crate) broadcast proof fn reveal_has(doc: &HtmlDocument, node: Node)
    ensures
        #[trigger] doc.has(node) == (node.idx < doc.tree@.nodes.len()),
{
}

pub(crate) broadcast proof fn reveal_same_frame(doc: &HtmlDocument, other: HtmlDocument)
    ensures
        #[trigger] doc.same_frame(other) == ({
            &&& doc.root == other.root
            &&& doc.head == other.head
            &&& doc.body == other.body
            &&& doc.tree@.names == other.tree@.names
        }),
{
}

pub(crate) broadcast group group_doc_reveal {
    reveal_same_frame,
    reveal_has,
    reveal_nodes,
    reveal_tree_view,
    reveal_wf,
    reveal_root,
    reveal_head,
    reveal_body,
    reveal_scope,
}

} // verus!
