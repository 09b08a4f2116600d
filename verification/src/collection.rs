//! Collections of nodes of a document, filled by hand or from a selection.

use vstd::prelude::*;
use crate::document::HtmlDocument;
use crate::node::Node;

verus! {

/// An ordered collection of node handles of one document.
pub struct Collection {
    nodes: Vec<Node>,
}

impl View for Collection {
    type V = Seq<Node>;

    closed spec fn view(&self) -> Seq<Node> {
        self.nodes@
    }
}

impl Collection {
    /// Create a new empty collection for nodes of `doc`.
    pub fn new(doc: &HtmlDocument) -> (r: Collection)
        ensures
            r@ == Seq::<Node>::empty(),
    {
        Collection { nodes: Vec::new() }
    }

    /// Create a collection holding `nodes`, in order.
    pub fn from_nodes(doc: &HtmlDocument, nodes: &[Node]) -> (r: Collection)
        ensures
            r@ == nodes@,
    {
        let mut v: Vec<Node> = Vec::new();
        let mut i: usize = 0;
        while i < nodes.len()
            invariant
                i <= nodes@.len(),
                v@ == nodes@.subrange(0, i as int),
            decreases nodes@.len() - i,
        {
            v.push(nodes[i]);
            i = i + 1;
            assert(v@ =~= nodes@.subrange(0, i as int));
        }
        assert(v@ =~= nodes@);
        Collection { nodes: v }
    }

    /// Returns the number of nodes in the collection.
    pub fn len(&self) -> (r: usize)
        ensures
            r == self@.len(),
    {
        self.nodes.len()
    }

    /// Returns true if the collection is empty.
    pub fn is_empty(&self) -> (r: bool)
        ensures
            r == (self@.len() == 0),
    {
        self.len() == 0
    }

    /// Get a node by index; `None` past the end.
    pub fn get(&self, index: usize) -> (r: Option<Node>)
        ensures
            r == if index < self@.len() {
                Some(self@[index as int])
            } else {
                None::<Node>
            },
    {
        if index >= self.len() {
            return None;
        }
        Some(self.nodes[index])
    }
}

} // verus!
