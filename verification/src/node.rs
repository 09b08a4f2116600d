//! Node handles: traversal, type checks, attributes, text and mutation.

use vstd::prelude::*;
use crate::document::HtmlDocument;
use crate::error::Error;
use crate::dom::{
    NodeKind, NodeView, detached, decomposed, unwrapped, merged_all, preorder, appended, with_attrs, attrs_set, attrs_removed, attr_value, attr_text, name_id, next_sibling, prev_sibling, subtree_text, subtree_text_from, Tree, attr_index,
    TEXT_ID, DOCUMENT_ID, COMMENT_ID, DOCTYPE_ID,
};
use crate::text::{
    is_ascii_ws, lower_seq, split_ascii_ws, trim, str_to_vec, vec_to_string, to_lower_vec,
    split_ascii_ws_vec, trim_vec,
};

verus! {

broadcast use crate::document::group_doc_reveal;

/// A handle to a node of an [`HtmlDocument`].
#[derive(Clone, Copy, PartialEq, Eq, Debug, Structural)]
pub struct Node {
    pub idx: usize,
}

/// The node-type number of a kind, as the DOM standard numbers them.
pub open spec fn kind_code(k: NodeKind) -> u32 {
    match k {
        NodeKind::Element => 1,
        NodeKind::Text => 3,
        NodeKind::Comment => 8,
        NodeKind::Document => 9,
        NodeKind::DocumentType => 10,
    }
}

/// View of an optional string.
pub open spec fn opt_view(o: Option<String>) -> Option<Seq<char>> {
    match o {
        Some(s) => Some(s@),
        None => None,
    }
}

/// All characters of `s` are ASCII white space.
pub open spec fn all_ascii_ws(s: Seq<char>) -> bool {
    forall|i: int| 0 <= i < s.len() ==> is_ascii_ws(#[trigger] s[i])
}

/// The value of attribute `name` of node `n` as `Node::attr` reads it: only
/// elements have attributes, names are matched in ASCII lower case, and a
/// name holding a NUL character matches nothing.
pub open spec fn attr_lookup(d: Seq<NodeView>, n: int, name: Seq<char>) -> Option<Seq<char>> {
    if d[n].kind == NodeKind::Element && !name.contains('\0') {
        attr_value(d, n, lower_seq(name))
    } else {
        None
    }
}

/// The class names of node `n`.
pub open spec fn class_list(d: Seq<NodeView>, n: int) -> Seq<Seq<char>> {
    match attr_lookup(d, n, seq!['c', 'l', 'a', 's', 's']) {
        Some(c) => split_ascii_ws(c),
        None => Seq::empty(),
    }
}

/// The tag id of node `n`.
pub open spec fn tag_id_of(d: Seq<NodeView>, names: Seq<Seq<char>>, n: int) -> int {
    match d[n].kind {
        NodeKind::Element => name_id(names, d[n].name),
        NodeKind::Text => TEXT_ID as int,
        NodeKind::Document => DOCUMENT_ID as int,
        NodeKind::Comment => COMMENT_ID as int,
        NodeKind::DocumentType => DOCTYPE_ID as int,
    }
}

fn contains_nul(s: &Vec<char>) -> (r: bool)
    ensures
        r == s@.contains('\0'),
{
    let mut i: usize = 0;
    while i < s.len()
        invariant
            i <= s.len(),
            forall|j: int| 0 <= j < i ==> s@[j] != '\0',
        decreases s.len() - i,
    {
        if s[i] == '\0' {
            assert(s@[i as int] == '\0');
            return true;
        }
        i = i + 1;
    }
    false
}

pub(crate) fn all_ws_vec(s: &Vec<char>) -> (r: bool)
    ensures
        r == all_ascii_ws(s@),
{
    let mut i: usize = 0;
    while i < s.len()
        invariant
            i <= s.len(),
            forall|j: int| 0 <= j < i ==> is_ascii_ws(s@[j]),
        decreases s.len() - i,
    {
        if !crate::text::ascii_ws(s[i]) {
            return false;
        }
        i = i + 1;
    }
    true
}

/// Options controlling text extraction.
#[derive(Clone, Copy)]
pub struct TextOpts {
    /// Include text from all descendants (true) or only direct children (false).
    pub deep: bool,
    /// String inserted between successive text fragments.
    pub separator: &'static str,
    /// Trim white space from each fragment before joining.
    pub strip: bool,
    /// Exclude text nodes that contain only ASCII whitespace.
    pub skip_empty: bool,
}

impl Default for TextOpts {
    fn default() -> (r: TextOpts)
        ensures
            r.deep,
            r.separator@ == Seq::<char>::empty(),
            !r.strip,
            !r.skip_empty,
    {
        proof {
            reveal_strlit("");
        }
        TextOpts { deep: true, separator: "", strip: false, skip_empty: false }
    }
}

/// Text of node `n` and its descendants as the DOM's text content defines
/// it: the data of a text or comment node, the text nodes below an element,
/// and nothing for the document and document types.
pub open spec fn deep_text(d: Seq<NodeView>, n: int) -> Seq<char> {
    match d[n].kind {
        NodeKind::Element => subtree_text(d, n),
        NodeKind::Text | NodeKind::Comment => d[n].data,
        _ => Seq::empty(),
    }
}

/// The fragment one text contributes to shallow text extraction.
pub open spec fn text_part(t: Seq<char>, strip: bool, skip_empty: bool) -> Seq<Seq<char>> {
    if !skip_empty || !all_ascii_ws(t) {
        let t2 = if strip {
            trim(t)
        } else {
            t
        };
        if t2.len() > 0 || !skip_empty {
            seq![t2]
        } else {
            Seq::empty()
        }
    } else {
        Seq::empty()
    }
}

/// Fragments of the non-empty text children of `n`, from child `i` on.
pub open spec fn child_text_parts(
    d: Seq<NodeView>,
    n: int,
    i: int,
    strip: bool,
    skip_empty: bool,
) -> Seq<Seq<char>>
    decreases d[n].children.len() - i,
{
    if 0 <= i < d[n].children.len() {
        let c = d[n].children[i] as int;
        (if 0 <= c < d.len() && d[c].kind == NodeKind::Text && d[c].data.len() > 0 {
            text_part(d[c].data, strip, skip_empty)
        } else {
            Seq::empty()
        }) + child_text_parts(d, n, i + 1, strip, skip_empty)
    } else {
        Seq::empty()
    }
}

/// Fragments of shallow text extraction: the node itself if it is a text
/// node, then its direct text children.
pub open spec fn shallow_parts(d: Seq<NodeView>, n: int, strip: bool, skip_empty: bool) -> Seq<
    Seq<char>,
> {
    (if d[n].kind == NodeKind::Text {
        text_part(d[n].data, strip, skip_empty)
    } else {
        Seq::empty()
    }) + child_text_parts(d, n, 0, strip, skip_empty)
}

/// The fragments joined with `sep` between successive ones.
pub open spec fn join(parts: Seq<Seq<char>>, sep: Seq<char>) -> Seq<char>
    decreases parts.len(),
{
    if parts.len() == 0 {
        Seq::empty()
    } else if parts.len() == 1 {
        parts[0]
    } else {
        join(parts.drop_last(), sep) + sep + parts.last()
    }
}

/// Fragments of the non-empty text nodes in the subtree of `n`, in
/// document order.
pub open spec fn subtree_parts(d: Seq<NodeView>, n: int, strip: bool, skip_empty: bool) -> Seq<
    Seq<char>,
>
    decreases d.len() - n, 1nat, 0nat,
{
    if 0 <= n < d.len() {
        (if d[n].kind == NodeKind::Text && d[n].data.len() > 0 {
            text_part(d[n].data, strip, skip_empty)
        } else {
            Seq::empty()
        }) + subtree_parts_from(d, n, 0, strip, skip_empty)
    } else {
        Seq::empty()
    }
}

/// Fragments of the subtrees of the children of `n`, from child `i` on.
pub open spec fn subtree_parts_from(
    d: Seq<NodeView>,
    n: int,
    i: int,
    strip: bool,
    skip_empty: bool,
) -> Seq<Seq<char>>
    decreases d.len() - n, 0nat, d[n].children.len() - i,
{
    if 0 <= n < d.len() && 0 <= i < d[n].children.len() && n < d[n].children[i] < d.len() {
        subtree_parts(d, d[n].children[i] as int, strip, skip_empty) + subtree_parts_from(
            d,
            n,
            i + 1,
            strip,
            skip_empty,
        )
    } else {
        Seq::empty()
    }
}

/// Fragments of deep text extraction: the text nodes below an element, the
/// data of a text or comment node, nothing for other nodes.
pub open spec fn deep_parts(d: Seq<NodeView>, n: int, strip: bool, skip_empty: bool) -> Seq<
    Seq<char>,
> {
    match d[n].kind {
        NodeKind::Element => subtree_parts(d, n, strip, skip_empty),
        NodeKind::Text | NodeKind::Comment => text_part(d[n].data, strip, skip_empty),
        _ => Seq::empty(),
    }
}

/// What `Node::text_with` returns: the fragments, deep or shallow, joined
/// with the separator.
pub open spec fn text_with_spec(
    d: Seq<NodeView>,
    n: int,
    deep: bool,
    sep: Seq<char>,
    strip: bool,
    skip_empty: bool,
) -> Seq<char> {
    if deep {
        join(deep_parts(d, n, strip, skip_empty), sep)
    } else {
        join(shallow_parts(d, n, strip, skip_empty), sep)
    }
}

/// Joining with no separator concatenates the fragments.
pub(crate) proof fn lemma_join_empty(p: Seq<Seq<char>>)
    ensures
        join(p, Seq::empty()) == p.flatten(),
    decreases p.len(),
{
    if p.len() == 0 {
    } else if p.len() == 1 {
        p.lemma_flatten_one_element();
    } else {
        lemma_join_empty(p.drop_last());
        p.drop_last().lemma_flatten_and_flatten_alt_are_equivalent();
        p.lemma_flatten_and_flatten_alt_are_equivalent();
        assert(join(p, Seq::empty()) =~= p.drop_last().flatten_alt() + p.last());
    }
}

/// Without strip or skip, the fragments of a subtree concatenate to its text.
proof fn lemma_subtree_parts_text(d: Seq<NodeView>, n: int)
    ensures
        subtree_parts(d, n, false, false).flatten() == subtree_text(d, n),
    decreases d.len() - n, 1nat, 0nat,
{
    if 0 <= n < d.len() {
        let own = if d[n].kind == NodeKind::Text && d[n].data.len() > 0 {
            text_part(d[n].data, false, false)
        } else {
            Seq::<Seq<char>>::empty()
        };
        lemma_subtree_parts_from_text(d, n, 0);
        vstd::seq_lib::lemma_flatten_concat(own, subtree_parts_from(d, n, 0, false, false));
        if d[n].kind == NodeKind::Text && d[n].data.len() > 0 {
            assert(own =~= seq![d[n].data]);
            own.lemma_flatten_one_element();
        } else {
            assert(own.flatten() =~= Seq::<char>::empty());
            if d[n].kind == NodeKind::Text {
                assert(d[n].data =~= Seq::<char>::empty());
            }
        }
        assert(subtree_text(d, n) =~= own.flatten() + subtree_text_from(d, n, 0));
    }
}

proof fn lemma_subtree_parts_from_text(d: Seq<NodeView>, n: int, i: int)
    ensures
        subtree_parts_from(d, n, i, false, false).flatten() == subtree_text_from(d, n, i),
    decreases d.len() - n, 0nat, d[n].children.len() - i,
{
    if 0 <= n < d.len() && 0 <= i < d[n].children.len() && n < d[n].children[i] < d.len() {
        let c = d[n].children[i] as int;
        lemma_subtree_parts_text(d, c);
        lemma_subtree_parts_from_text(d, n, i + 1);
        vstd::seq_lib::lemma_flatten_concat(
            subtree_parts(d, c, false, false),
            subtree_parts_from(d, n, i + 1, false, false),
        );
    }
}

/// With the default options, deep text extraction gives the text content.
pub proof fn lemma_default_text(d: Seq<NodeView>, n: int)
    ensures
        text_with_spec(d, n, true, Seq::empty(), false, false) == deep_text(d, n),
{
    lemma_join_empty(deep_parts(d, n, false, false));
    match d[n].kind {
        NodeKind::Element => lemma_subtree_parts_text(d, n),
        NodeKind::Text | NodeKind::Comment => {
            assert(text_part(d[n].data, false, false) =~= seq![d[n].data]);
            seq![d[n].data].lemma_flatten_one_element();
        },
        _ => {},
    }
}

fn text_part_exec(t: &Vec<char>, strip: bool, skip_empty: bool, parts: &mut Vec<Vec<char>>)
    ensures
        final(parts)@.map_values(|p: Vec<char>| p@) == old(parts)@.map_values(|p: Vec<char>| p@)
            + text_part(t@, strip, skip_empty),
{
    let ghost start = parts@.map_values(|p: Vec<char>| p@);
    if !skip_empty || !all_ws_vec(t) {
        let t2 = if strip {
            trim_vec(t)
        } else {
            t.clone()
        };
        assert(t2@ =~= (if strip {
            trim(t@)
        } else {
            t@
        }));
        if t2.len() > 0 || !skip_empty {
            let ghost v = t2@;
            parts.push(t2);
            assert(parts@.map_values(|p: Vec<char>| p@) =~= start + seq![v]);
            return ;
        }
    }
    assert(parts@.map_values(|p: Vec<char>| p@) =~= start + Seq::<Seq<char>>::empty());
}

/// Appends the fragments of the text nodes in the subtree of `n`.
fn collect_parts(t: &Tree, n: usize, strip: bool, skip_empty: bool, parts: &mut Vec<Vec<char>>)
    requires
        t.wf(),
        n < t.nodes().len(),
    ensures
        final(parts)@.map_values(|p: Vec<char>| p@) == old(parts)@.map_values(|p: Vec<char>| p@)
            + subtree_parts(t.nodes(), n as int, strip, skip_empty),
    decreases t.nodes().len() - n,
{
    let ghost d = t.nodes();
    let ghost start = parts@.map_values(|p: Vec<char>| p@);
    if t.kind(n) == NodeKind::Text && t.nodes[n].data.len() > 0 {
        assert(t.nodes[n as int]@ == d[n as int]);
        text_part_exec(&t.nodes[n].data, strip, skip_empty, parts);
    } else {
        assert(parts@.map_values(|p: Vec<char>| p@) =~= start + Seq::<Seq<char>>::empty());
    }
    let ghost mid = parts@.map_values(|p: Vec<char>| p@);
    let len = t.child_count(n);
    let mut i: usize = 0;
    while i < len
        invariant
            t.wf(),
            d == t.nodes(),
            n < d.len(),
            len == d[n as int].children.len(),
            i <= len,
            mid + subtree_parts_from(d, n as int, 0, strip, skip_empty) == parts@.map_values(
                |p: Vec<char>| p@,
            ) + subtree_parts_from(d, n as int, i as int, strip, skip_empty),
        decreases len - i,
    {
        let c = t.child(n, i);
        assert(d[n as int].children[i as int] == c);
        assert(n < c < d.len());
        let ghost before = parts@.map_values(|p: Vec<char>| p@);
        collect_parts(t, c, strip, skip_empty, parts);
        assert(subtree_parts_from(d, n as int, i as int, strip, skip_empty) == subtree_parts(
            d,
            c as int,
            strip,
            skip_empty,
        ) + subtree_parts_from(d, n as int, i + 1, strip, skip_empty));
        assert(before + subtree_parts_from(d, n as int, i as int, strip, skip_empty) =~= parts@.map_values(
            |p: Vec<char>| p@,
        ) + subtree_parts_from(d, n as int, i + 1, strip, skip_empty));
        i = i + 1;
    }
    assert(subtree_parts_from(d, n as int, i as int, strip, skip_empty) =~= Seq::<Seq<char>>::empty());
    assert(parts@.map_values(|p: Vec<char>| p@) =~= start + subtree_parts(d, n as int, strip, skip_empty));
}

/// The fragments joined with `sep` between successive ones.
fn join_parts(parts: &Vec<Vec<char>>, sep: &Vec<char>) -> (out: Vec<char>)
    ensures
        out@ == join(parts@.map_values(|p: Vec<char>| p@), sep@),
{
    let ghost ps = parts@.map_values(|p: Vec<char>| p@);
    let mut out: Vec<char> = Vec::new();
    let mut k: usize = 0;
    while k < parts.len()
        invariant
            k <= parts.len(),
            ps == parts@.map_values(|p: Vec<char>| p@),
            out@ == join(ps.take(k as int), sep@),
        decreases parts.len() - k,
    {
        let ghost prev = out@;
        if k > 0 {
            let mut j: usize = 0;
            while j < sep.len()
                invariant
                    j <= sep.len(),
                    out@ == prev + sep@.take(j as int),
                decreases sep.len() - j,
            {
                out.push(sep[j]);
                j = j + 1;
                assert(out@ =~= prev + sep@.take(j as int));
            }
            assert(sep@.take(j as int) =~= sep@);
        }
        let ghost mid = out@;
        let p = &parts[k];
        let mut j: usize = 0;
        while j < p.len()
            invariant
                j <= p.len(),
                out@ == mid + p@.take(j as int),
            decreases p.len() - j,
        {
            out.push(p[j]);
            j = j + 1;
            assert(out@ =~= mid + p@.take(j as int));
        }
        assert(p@.take(j as int) =~= p@);
        assert(ps[k as int] == p@);
        assert(ps.take(k + 1).drop_last() =~= ps.take(k as int));
        assert(ps.take(k + 1).last() == p@);
        if k == 0 {
            assert(ps.take(1) =~= seq![p@]);
            assert(out@ =~= join(ps.take(1), sep@));
        }
        k = k + 1;
    }
    assert(ps.take(k as int) =~= ps);
    out
}

impl Node {
    /// Position of the node in its document's arena.
    pub open spec fn index(self) -> int {
        self.idx as int
    }

    /// Returns the parent node, if any.
    pub fn parent(&self, doc: &HtmlDocument) -> (r: Option<Node>)
        requires
            doc.wf(),
            doc.has(*self),
        ensures
            r matches Some(m) ==> doc.has(m),
            r == match doc.nodes()[self.index()].parent {
                Some(p) => Some(Node { idx: p }),
                None => None::<Node>,
            },
    {
        match doc.tree.parent(self.idx) {
            Some(p) => Some(Node { idx: p }),
            None => None,
        }
    }

    /// Returns the first child node, if any.
    pub fn first_child(&self, doc: &HtmlDocument) -> (r: Option<Node>)
        requires
            doc.wf(),
            doc.has(*self),
        ensures
            r matches Some(m) ==> doc.has(m),
            r == if doc.nodes()[self.index()].children.len() > 0 {
                Some(Node { idx: doc.nodes()[self.index()].children[0] })
            } else {
                None::<Node>
            },
    {
        if doc.tree.child_count(self.idx) > 0 {
            Some(Node { idx: doc.tree.child(self.idx, 0) })
        } else {
            None
        }
    }

    /// Returns the last child node, if any.
    pub fn last_child(&self, doc: &HtmlDocument) -> (r: Option<Node>)
        requires
            doc.wf(),
            doc.has(*self),
        ensures
            r matches Some(m) ==> doc.has(m),
            r == if doc.nodes()[self.index()].children.len() > 0 {
                Some(Node { idx: doc.nodes()[self.index()].children.last() })
            } else {
                None::<Node>
            },
    {
        let k = doc.tree.child_count(self.idx);
        if k > 0 {
            Some(Node { idx: doc.tree.child(self.idx, k - 1) })
        } else {
            None
        }
    }

    /// Returns the next sibling, if any.
    pub fn next_sibling(&self, doc: &HtmlDocument) -> (r: Option<Node>)
        requires
            doc.wf(),
            doc.has(*self),
        ensures
            r matches Some(m) ==> doc.has(m),
            r == match next_sibling(doc.nodes(), self.index()) {
                Some(s) => Some(Node { idx: s }),
                None => None::<Node>,
            },
    {
        match doc.tree.parent(self.idx) {
            Some(p) => {
                let i = doc.tree.index_in_parent(self.idx);
                let k = doc.tree.child_count(p);
                if i + 1 < k {
                    Some(Node { idx: doc.tree.child(p, i + 1) })
                } else {
                    None
                }
            },
            None => None,
        }
    }

    /// Returns the previous sibling, if any.
    pub fn prev_sibling(&self, doc: &HtmlDocument) -> (r: Option<Node>)
        requires
            doc.wf(),
            doc.has(*self),
        ensures
            r matches Some(m) ==> doc.has(m),
            r == match prev_sibling(doc.nodes(), self.index()) {
                Some(s) => Some(Node { idx: s }),
                None => None::<Node>,
            },
    {
        match doc.tree.parent(self.idx) {
            Some(p) => {
                let i = doc.tree.index_in_parent(self.idx);
                if i > 0 {
                    Some(Node { idx: doc.tree.child(p, i - 1) })
                } else {
                    None
                }
            },
            None => None,
        }
    }

    /// Returns the DOM node-type number (1 element, 3 text, 8 comment,
    /// 9 document, 10 document type).
    pub fn node_type(&self, doc: &HtmlDocument) -> (r: u32)
        requires
            doc.wf(),
            doc.has(*self),
        ensures
            r == kind_code(doc.nodes()[self.index()].kind),
    {
        match doc.tree.kind(self.idx) {
            NodeKind::Element => 1,
            NodeKind::Text => 3,
            NodeKind::Comment => 8,
            NodeKind::Document => 9,
            NodeKind::DocumentType => 10,
        }
    }

    /// `true` for element nodes.
    pub fn is_element(&self, doc: &HtmlDocument) -> (r: bool)
        requires
            doc.wf(),
            doc.has(*self),
        ensures
            r == (doc.nodes()[self.index()].kind == NodeKind::Element),
    {
        self.node_type(doc) == 1
    }

    /// `true` for text nodes.
    pub fn is_text(&self, doc: &HtmlDocument) -> (r: bool)
        requires
            doc.wf(),
            doc.has(*self),
        ensures
            r == (doc.nodes()[self.index()].kind == NodeKind::Text),
    {
        self.node_type(doc) == 3
    }

    /// `true` for comment nodes.
    pub fn is_comment(&self, doc: &HtmlDocument) -> (r: bool)
        requires
            doc.wf(),
            doc.has(*self),
        ensures
            r == (doc.nodes()[self.index()].kind == NodeKind::Comment),
    {
        self.node_type(doc) == 8
    }

    /// `true` for document nodes.
    pub fn is_document(&self, doc: &HtmlDocument) -> (r: bool)
        requires
            doc.wf(),
            doc.has(*self),
        ensures
            r == (doc.nodes()[self.index()].kind == NodeKind::Document),
    {
        self.node_type(doc) == 9
    }

    /// `true` if this is a text node containing only ASCII whitespace.
    pub fn is_empty_text_node(&self, doc: &HtmlDocument) -> (r: bool)
        requires
            doc.wf(),
            doc.has(*self),
        ensures
            r == (doc.nodes()[self.index()].kind == NodeKind::Text && all_ascii_ws(
                doc.nodes()[self.index()].data,
            )),
    {
        if !self.is_text(doc) {
            return false;
        }
        all_ws_vec(&doc.tree.nodes[self.idx].data)
    }

    /// Returns the tag id: element names share an id exactly when they are
    /// equal; other kinds of node have fixed ids.
    pub fn tag_id(&self, doc: &HtmlDocument) -> (r: usize)
        requires
            doc.wf(),
            doc.has(*self),
        ensures
            r == tag_id_of(doc.nodes(), doc.tree_view().names, self.index()),
    {
        match doc.tree.kind(self.idx) {
            NodeKind::Element => {
                assert(doc.nodes()[self.index()].kind == NodeKind::Element);
                doc.tree.name_position(&doc.tree.nodes[self.idx].name)
            },
            NodeKind::Text => TEXT_ID,
            NodeKind::Document => DOCUMENT_ID,
            NodeKind::Comment => COMMENT_ID,
            NodeKind::DocumentType => DOCTYPE_ID,
        }
    }

    /// Returns the tag name of an element node in ASCII lower case (e.g.
    /// `"div"`); `""` for other nodes.
    pub fn tag_name(&self, doc: &HtmlDocument) -> (r: String)
        requires
            doc.wf(),
            doc.has(*self),
        ensures
            r@ == if doc.nodes()[self.index()].kind == NodeKind::Element {
                lower_seq(doc.nodes()[self.index()].name)
            } else {
                Seq::empty()
            },
    {
        if !self.is_element(doc) {
            return String::new();
        }
        let lowered = to_lower_vec(&doc.tree.nodes[self.idx].name);
        vec_to_string(&lowered)
    }

    /// Returns the value of an attribute by name, or `None`.
    pub fn attr(&self, doc: &HtmlDocument, name: &str) -> (r: Option<String>)
        requires
            doc.wf(),
            doc.has(*self),
        ensures
            opt_view(r) == attr_lookup(doc.nodes(), self.index(), name@),
    {
        if !self.is_element(doc) {
            return None;
        }
        let raw = str_to_vec(name);
        if contains_nul(&raw) {
            return None;
        }
        let key = to_lower_vec(&raw);
        match doc.tree.find_attr(self.idx, &key) {
            Some(i) => {
                let a = &doc.tree.nodes[self.idx].attrs[i];
                assert(a@ == doc.nodes()[self.index()].attrs[i as int]);
                match &a.value {
                    Some(v) => Some(vec_to_string(v)),
                    None => Some(String::new()),
                }
            },
            None => None,
        }
    }

    /// Returns the `id` attribute value, if set.
    pub fn id(&self, doc: &HtmlDocument) -> (r: Option<String>)
        requires
            doc.wf(),
            doc.has(*self),
        ensures
            opt_view(r) == attr_lookup(doc.nodes(), self.index(), seq!['i', 'd']),
    {
        proof {
            reveal_strlit("id");
        }
        assert("id"@ =~= seq!['i', 'd']);
        self.attr(doc, "id")
    }

    /// Returns the `class` attribute value, if set.
    pub fn class(&self, doc: &HtmlDocument) -> (r: Option<String>)
        requires
            doc.wf(),
            doc.has(*self),
        ensures
            opt_view(r) == attr_lookup(doc.nodes(), self.index(), seq!['c', 'l', 'a', 's', 's']),
    {
        proof {
            reveal_strlit("class");
        }
        assert("class"@ =~= seq!['c', 'l', 'a', 's', 's']);
        self.attr(doc, "class")
    }

    /// Returns true if the node has an attribute with the given name.
    pub fn has_attr(&self, doc: &HtmlDocument, name: &str) -> (r: bool)
        requires
            doc.wf(),
            doc.has(*self),
        ensures
            r == attr_lookup(doc.nodes(), self.index(), name@) is Some,
    {
        self.attr(doc, name).is_some()
    }

    /// Returns true if this node is an element with the given class.
    pub fn has_class(&self, doc: &HtmlDocument, name: &str) -> (r: bool)
        requires
            doc.wf(),
            doc.has(*self),
        ensures
            r == class_list(doc.nodes(), self.index()).contains(name@),
    {
        let words = self.classes(doc);
        let target = str_to_vec(name);
        let ghost ws = class_list(doc.nodes(), self.index());
        let mut i: usize = 0;
        while i < words.len()
            invariant
                i <= words.len(),
                words@.map_values(|w: String| w@) == ws,
                ws == class_list(doc.nodes(), self.index()),
                target@ == name@,
                forall|j: int| 0 <= j < i ==> ws[j] != name@,
            decreases words.len() - i,
        {
            let w = str_to_vec(words[i].as_str());
            assert(ws[i as int] == words@[i as int]@);
            if crate::text::vec_eq(&w, &target) {
                assert(ws[i as int] == name@);
                assert(words@.map_values(|w: String| w@).len() == words@.len());
                assert(0 <= i < ws.len());
                assert(ws.contains(name@));
                return true;
            }
            i = i + 1;
        }
        false
    }

    /// Returns all class names, in order.
    pub fn classes(&self, doc: &HtmlDocument) -> (r: Vec<String>)
        requires
            doc.wf(),
            doc.has(*self),
        ensures
            r@.map_values(|w: String| w@) == class_list(doc.nodes(), self.index()),
    {
        match self.class(doc) {
            Some(c) => {
                let chars = str_to_vec(c.as_str());
                let words = split_ascii_ws_vec(&chars);
                let mut r: Vec<String> = Vec::new();
                let mut i: usize = 0;
                while i < words.len()
                    invariant
                        i <= words.len(),
                        r@.map_values(|w: String| w@) == words@.map_values(|w: Vec<char>| w@).take(
                            i as int,
                        ),
                    decreases words.len() - i,
                {
                    let s = vec_to_string(&words[i]);
                    let ghost before = r@;
                    assert(words@.map_values(|w: Vec<char>| w@)[i as int] == words@[i as int]@);
                    r.push(s);
                    assert(r@.map_values(|w: String| w@) =~= before.map_values(|w: String| w@).push(
                        s@,
                    ));
                    i = i + 1;
                    assert(r@.map_values(|w: String| w@) =~= words@.map_values(|w: Vec<char>| w@).take(
                        i as int,
                    ));
                }
                assert(words@.map_values(|w: Vec<char>| w@).take(i as int) =~= words@.map_values(
                    |w: Vec<char>| w@,
                ));
                r
            },
            None => {
                let r: Vec<String> = Vec::new();
                assert(r@.map_values(|w: String| w@) =~= Seq::<Seq<char>>::empty());
                r
            },
        }
    }

    /// Returns all attributes as (name, value) pairs in document order; a
    /// boolean attribute has the value `""`. Non-elements have none.
    pub fn attributes(&self, doc: &HtmlDocument) -> (r: Vec<(String, String)>)
        requires
            doc.wf(),
            doc.has(*self),
        ensures
            r@.len() == if doc.nodes()[self.index()].kind == NodeKind::Element {
                doc.nodes()[self.index()].attrs.len()
            } else {
                0
            },
            forall|i: int|
                0 <= i < r@.len() ==> (#[trigger] r@[i]).0@ == doc.nodes()[self.index()].attrs[i].name
                    && r@[i].1@ == attr_text(doc.nodes()[self.index()].attrs[i]),
            forall|i: int, j: int| 0 <= i < j < r@.len() ==> (#[trigger] r@[i]).0@ != (#[trigger] r@[j]).0@,
            forall|i: int| 0 <= i < r@.len() ==> lower_seq((#[trigger] r@[i]).0@) == r@[i].0@,
            forall|i: int| 0 <= i < r@.len() ==> !(#[trigger] r@[i]).0@.contains('\0'),
            forall|i: int|
                0 <= i < r@.len() ==> attr_lookup(doc.nodes(), self.index(), (#[trigger] r@[i]).0@)
                    == Some(r@[i].1@),
    {
        proof {
            let av = doc.nodes()[self.index()].attrs;
            assert(crate::dom::attrs_ok(av));
            assert forall|i: int| 0 <= i < av.len() implies attr_index(av, #[trigger] av[i].name) == Some(i) by {
                crate::dom::lemma_attr_index_from(av, av[i].name, 0);
                if let Some(k) = attr_index(av, av[i].name) {
                    if k < i {
                        assert(av[k].name != av[i].name);
                    }
                }
            }
        }
        let mut r: Vec<(String, String)> = Vec::new();
        if !self.is_element(doc) {
            return r;
        }
        let attrs = &doc.tree.nodes[self.idx].attrs;
        let ghost av = doc.nodes()[self.index()].attrs;
        assert(av == attrs@.map_values(|a: crate::dom::Attribute| a@));
        let mut i: usize = 0;
        while i < attrs.len()
            invariant
                i <= attrs.len(),
                av == attrs@.map_values(|a: crate::dom::Attribute| a@),
                r@.len() == i,
                forall|j: int|
                    0 <= j < i ==> (#[trigger] r@[j]).0@ == av[j].name && r@[j].1@ == attr_text(
                        av[j],
                    ),
            decreases attrs.len() - i,
        {
            let a = &attrs[i];
            assert(av[i as int] == a@);
            let name = vec_to_string(&a.name);
            let value = match &a.value {
                Some(v) => vec_to_string(v),
                None => String::new(),
            };
            r.push((name, value));
            i = i + 1;
        }
        r
    }

    /// Returns the character data of a text or comment node; `None` for
    /// other nodes.
    pub fn text_content(&self, doc: &HtmlDocument) -> (r: Option<String>)
        requires
            doc.wf(),
            doc.has(*self),
        ensures
            opt_view(r) == match doc.nodes()[self.index()].kind {
                NodeKind::Text | NodeKind::Comment => Some(doc.nodes()[self.index()].data),
                _ => None,
            },
    {
        if !self.is_text(doc) && !self.is_comment(doc) {
            return None;
        }
        Some(vec_to_string(&doc.tree.nodes[self.idx].data))
    }

    /// Returns the comment content (text inside `<!-- -->`), or `None`.
    pub fn comment_content(&self, doc: &HtmlDocument) -> (r: Option<String>)
        requires
            doc.wf(),
            doc.has(*self),
        ensures
            opt_view(r) == if doc.nodes()[self.index()].kind == NodeKind::Comment {
                Some(doc.nodes()[self.index()].data)
            } else {
                None
            },
    {
        if !self.is_comment(doc) {
            return None;
        }
        self.text_content(doc)
    }

    /// Returns the text content of this node (all descendant text
    /// concatenated).
    pub fn text(&self, doc: &HtmlDocument) -> (r: String)
        requires
            doc.wf(),
            doc.has(*self),
        ensures
            r@ == deep_text(doc.nodes(), self.index()),
    {
        let r = self.text_with(doc, TextOpts::default());
        proof {
            lemma_default_text(doc.nodes(), self.index());
        }
        r
    }

    /// Returns text content with configurable options.
    pub fn text_with(&self, doc: &HtmlDocument, opts: TextOpts) -> (r: String)
        requires
            doc.wf(),
            doc.has(*self),
        ensures
            r@ == text_with_spec(
                doc.nodes(),
                self.index(),
                opts.deep,
                opts.separator@,
                opts.strip,
                opts.skip_empty,
            ),
    {
        if opts.deep {
            self.text_deep(doc, opts)
        } else {
            self.text_shallow(doc, opts)
        }
    }

    fn text_deep(&self, doc: &HtmlDocument, opts: TextOpts) -> (r: String)
        requires
            doc.wf(),
            doc.has(*self),
        ensures
            r@ == join(
                deep_parts(doc.nodes(), self.index(), opts.strip, opts.skip_empty),
                opts.separator@,
            ),
    {
        let mut parts: Vec<Vec<char>> = Vec::new();
        assert(parts@.map_values(|p: Vec<char>| p@) =~= Seq::<Seq<char>>::empty());
        match doc.tree.kind(self.idx) {
            NodeKind::Element => {
                collect_parts(&doc.tree, self.idx, opts.strip, opts.skip_empty, &mut parts);
            },
            NodeKind::Text | NodeKind::Comment => {
                assert(doc.tree.nodes[self.index()]@ == doc.nodes()[self.index()]);
                text_part_exec(&doc.tree.nodes[self.idx].data, opts.strip, opts.skip_empty, &mut parts);
            },
            _ => {},
        }
        assert(parts@.map_values(|p: Vec<char>| p@) =~= deep_parts(
            doc.nodes(),
            self.index(),
            opts.strip,
            opts.skip_empty,
        ));
        let sep = str_to_vec(opts.separator);
        let out = join_parts(&parts, &sep);
        vec_to_string(&out)
    }

    fn text_shallow(&self, doc: &HtmlDocument, opts: TextOpts) -> (r: String)
        requires
            doc.wf(),
            doc.has(*self),
        ensures
            r@ == join(
                shallow_parts(doc.nodes(), self.index(), opts.strip, opts.skip_empty),
                opts.separator@,
            ),
    {
        let ghost d = doc.nodes();
        let n = self.idx;
        let mut parts: Vec<Vec<char>> = Vec::new();
        if self.is_text(doc) {
            text_part_exec(&doc.tree.nodes[n].data, opts.strip, opts.skip_empty, &mut parts);
        } else {
            assert(parts@.map_values(|p: Vec<char>| p@) =~= Seq::<Seq<char>>::empty());
        }
        let ghost first = parts@.map_values(|p: Vec<char>| p@);
        let len = doc.tree.child_count(n);
        let mut i: usize = 0;
        while i < len
            invariant
                doc.wf(),
                d == doc.nodes(),
                n == self.idx,
                n < d.len(),
                len == d[n as int].children.len(),
                i <= len,
                first + child_text_parts(d, n as int, 0, opts.strip, opts.skip_empty) == parts@.map_values(
                    |p: Vec<char>| p@,
                ) + child_text_parts(d, n as int, i as int, opts.strip, opts.skip_empty),
            decreases len - i,
        {
            let c = doc.tree.child(n, i);
            assert(c < d.len());
            if doc.tree.kind(c) == NodeKind::Text && doc.tree.nodes[c].data.len() > 0 {
                assert(doc.tree.nodes[c as int]@ == d[c as int]);
                text_part_exec(&doc.tree.nodes[c].data, opts.strip, opts.skip_empty, &mut parts);
            }
            i = i + 1;
        }
        assert(child_text_parts(d, n as int, i as int, opts.strip, opts.skip_empty) =~= Seq::<
            Seq<char>,
        >::empty());
        let ghost ps = parts@.map_values(|p: Vec<char>| p@);
        assert(ps =~= shallow_parts(d, n as int, opts.strip, opts.skip_empty));
        let sep = str_to_vec(opts.separator);
        let out = join_parts(&parts, &sep);
        vec_to_string(&out)
    }

    /// Returns an iterator over this node's direct children.
    pub fn children(&self, doc: &HtmlDocument) -> (r: ChildrenIter)
        requires
            doc.wf(),
            doc.has(*self),
        ensures
            r.current() matches Some(c) ==> doc.has(c),
            r.current() == self.first_child_spec(doc),
    {
        ChildrenIter { current: self.first_child(doc) }
    }

    /// The first child, as `first_child` returns it.
    pub open spec fn first_child_spec(self, doc: &HtmlDocument) -> Option<Node> {
        if doc.nodes()[self.index()].children.len() > 0 {
            Some(Node { idx: doc.nodes()[self.index()].children[0] })
        } else {
            None::<Node>
        }
    }

    /// Returns an iterator over all descendants (depth-first).
    pub fn descendants(&self, doc: &HtmlDocument) -> (r: DescendantsIter)
        requires
            doc.wf(),
            doc.has(*self),
        ensures
            r.root() == *self,
            r.current() == Some(*self),
    {
        DescendantsIter { root: *self, current: Some(*self) }
    }

    /// Returns an iterator walking up the tree from this node to the root.
    pub fn ancestors(&self, doc: &HtmlDocument) -> (r: AncestorsIter)
        requires
            doc.wf(),
            doc.has(*self),
        ensures
            r.current() == Some(*self),
    {
        AncestorsIter { current: Some(*self) }
    }

    /// Depth-first traversal starting from this node, yielding this node first.
    pub fn traverse(&self, doc: &HtmlDocument) -> (r: TraverseIter)
        requires
            doc.wf(),
            doc.has(*self),
        ensures
            r.root() == *self,
            r.current() == Some(*self),
            !r.started(),
    {
        TraverseIter { root: *self, current: Some(*self), started: false }
    }

    /// The direct children that are elements, together with the text
    /// children when `include_text` is set, leaving out whitespace-only text
    /// when `skip_empty` is set.
    pub fn iter_children(&self, doc: &HtmlDocument, include_text: bool, skip_empty: bool) -> (r:
        Vec<Node>)
        requires
            doc.wf(),
            doc.has(*self),
        ensures
            forall|i: int| 0 <= i < r@.len() ==> doc.has(#[trigger] r@[i]),
            r@.map_values(|c: Node| c.idx) == doc.nodes()[self.index()].children.filter(
                |c: usize| kept_child(doc.nodes(), c as int, include_text, skip_empty),
            ),
    {
        let ghost d = doc.nodes();
        let ghost ch = d[self.index()].children;
        let ghost pred = |c: usize| kept_child(d, c as int, include_text, skip_empty);
        let n = self.idx;
        let len = doc.tree.child_count(n);
        let mut r: Vec<Node> = Vec::new();
        let mut i: usize = 0;
        while i < len
            invariant
                doc.wf(),
                d == doc.nodes(),
                n == self.idx,
                n < d.len(),
                ch == d[n as int].children,
                len == ch.len(),
                i <= len,
                pred == (|c: usize| kept_child(d, c as int, include_text, skip_empty)),
                r@.map_values(|c: Node| c.idx) == ch.take(i as int).filter(pred),
                forall|j: int| 0 <= j < r@.len() ==> #[trigger] r@[j].idx < d.len(),
            decreases len - i,
        {
            reveal_with_fuel(Seq::<_>::filter, 1);
            let c = doc.tree.child(n, i);
            let node = Node { idx: c };
            assert(c < d.len());
            let keep = node.is_element(doc) || (include_text && node.is_text(doc) && !(skip_empty
                && node.is_empty_text_node(doc)));
            assert(keep == kept_child(d, c as int, include_text, skip_empty));
            assert(keep == pred(c));
            assert(ch.take(i + 1).drop_last() =~= ch.take(i as int));
            let ghost before = r@;
            if keep {
                r.push(node);
                assert(r@.map_values(|c: Node| c.idx) =~= before.map_values(|c: Node| c.idx).push(c));
            }
            i = i + 1;
        }
        assert(ch.take(i as int) =~= ch);
        r
    }

    /// Remove this node from the tree; its descendants stay attached to it.
    /// Returns `Err` for the document node.
    pub fn decompose_shallow(&self, doc: &mut HtmlDocument) -> (r: Result<(), Error>)
        requires
            old(doc).wf(),
            old(doc).has(*self),
        ensures
            final(doc).wf(),
            old(doc).nodes()[self.index()].kind == NodeKind::Document ==> r == Err::<(), Error>(
                Error::RootNode,
            ) && *final(doc) == *old(doc),
            old(doc).nodes()[self.index()].kind != NodeKind::Document ==> r == Ok::<(), Error>(())
                && final(doc).nodes() == detached(old(doc).nodes(), self.index())
                && final(doc).same_frame(*old(doc)),
    {
        if self.is_document(doc) {
            return Err(Error::RootNode);
        }
        doc.tree.detach(self.idx);
        Ok(())
    }

    /// Remove this node and all its descendants from the tree: every node of
    /// the subtree is unlinked. Returns `Err` for the document node.
    pub fn decompose(&self, doc: &mut HtmlDocument) -> (r: Result<(), Error>)
        requires
            old(doc).wf(),
            old(doc).has(*self),
        ensures
            final(doc).wf(),
            old(doc).nodes()[self.index()].kind == NodeKind::Document ==> r == Err::<(), Error>(
                Error::RootNode,
            ) && *final(doc) == *old(doc),
            old(doc).nodes()[self.index()].kind != NodeKind::Document ==> r == Ok::<(), Error>(())
                && final(doc).nodes() == decomposed(old(doc).nodes(), self.index())
                && final(doc).same_frame(*old(doc)),
    {
        if self.is_document(doc) {
            return Err(Error::RootNode);
        }
        doc.tree.take_apart(self.idx);
        Ok(())
    }

    /// Alias for `decompose()`.
    pub fn remove(&self, doc: &mut HtmlDocument) -> (r: Result<(), Error>)
        requires
            old(doc).wf(),
            old(doc).has(*self),
        ensures
            final(doc).wf(),
            old(doc).nodes()[self.index()].kind == NodeKind::Document ==> r == Err::<(), Error>(
                Error::RootNode,
            ) && *final(doc) == *old(doc),
            old(doc).nodes()[self.index()].kind != NodeKind::Document ==> r == Ok::<(), Error>(())
                && final(doc).nodes() == decomposed(old(doc).nodes(), self.index())
                && final(doc).same_frame(*old(doc)),
    {
        self.decompose(doc)
    }

    /// Unwrap this node: its children move into its place in its parent's
    /// child list, and the node itself is removed. Returns `Err` for the
    /// document node.
    pub fn unwrap(&self, doc: &mut HtmlDocument) -> (r: Result<(), Error>)
        requires
            old(doc).wf(),
            old(doc).has(*self),
        ensures
            final(doc).wf(),
            old(doc).nodes()[self.index()].kind == NodeKind::Document ==> r == Err::<(), Error>(
                Error::RootNode,
            ) && *final(doc) == *old(doc),
            old(doc).nodes()[self.index()].kind != NodeKind::Document ==> r == Ok::<(), Error>(())
                && final(doc).nodes() == unwrapped(old(doc).nodes(), self.index())
                && final(doc).same_frame(*old(doc)),
    {
        if self.is_document(doc) {
            return Err(Error::RootNode);
        }
        assert(crate::dom::wf_links(doc.nodes()));
        doc.tree.unwrap_node(self.idx);
        Ok(())
    }

    /// Merge adjacent text nodes among this node's descendants: for each
    /// node of the subtree, in pre-order, the first node of each run of
    /// adjacent text children takes the data of the whole run and the
    /// other nodes of the run are removed.
    pub fn merge_text_nodes(&self, doc: &mut HtmlDocument)
        requires
            old(doc).wf(),
            old(doc).has(*self),
        ensures
            final(doc).wf(),
            final(doc).same_frame(*old(doc)),
            final(doc).nodes().len() == old(doc).nodes().len(),
            final(doc).nodes() == merged_all(
                old(doc).nodes(),
                preorder(old(doc).nodes(), self.index()),
            ),
    {
        let ghost d0 = doc.nodes();
        let mut order: Vec<usize> = Vec::new();
        doc.tree.collect_preorder(self.idx, &mut order);
        let ghost all = order@;
        assert(all =~= preorder(d0, self.index()));
        assert forall|k: int| 0 <= k < all.len() implies #[trigger] all[k] < d0.len() by {
            assert(all.contains(all[k]));
            crate::properties::lemma_preorder_members(d0, self.index(), all[k]);
        }
        let mut i: usize = 0;
        assert(all.skip(0) =~= all);
        while i < order.len()
            invariant
                doc.wf(),
                doc.same_frame(*old(doc)),
                doc.nodes().len() == d0.len(),
                all == order@,
                i <= order.len(),
                forall|k: int| 0 <= k < all.len() ==> #[trigger] all[k] < d0.len(),
                merged_all(d0, all) == merged_all(doc.nodes(), all.skip(i as int)),
            decreases order.len() - i,
        {
            let q = order[i];
            assert(all[i as int] == q);
            assert(all.skip(i as int).drop_first() =~= all.skip(i + 1));
            let ghost before = *doc;
            doc.tree.merge_children(q);
            assert(doc.same_frame(before));
            i = i + 1;
        }
        assert(all.skip(i as int) =~= Seq::<usize>::empty());
    }

    /// Append a text node holding `text` as the last child of this node.
    pub fn append_text(&self, doc: &mut HtmlDocument, text: &str) -> (r: Result<(), Error>)
        requires
            old(doc).wf(),
            old(doc).has(*self),
            old(doc).nodes().len() < usize::MAX,
        ensures
            final(doc).wf(),
            r == Ok::<(), Error>(()),
            final(doc).nodes() == appended(
                old(doc).nodes(),
                self.index(),
                NodeView {
                    kind: NodeKind::Text,
                    name: Seq::empty(),
                    attrs: Seq::empty(),
                    data: text@,
                    parent: None,
                    children: Seq::empty(),
                },
            ),
            final(doc).same_frame(*old(doc)),
    {
        let data = str_to_vec(text);
        let attrs: Vec<crate::dom::Attribute> = Vec::new();
        let name: Vec<char> = Vec::new();
        assert(attrs@.map_values(|a: crate::dom::Attribute| a@) =~= Seq::<crate::dom::AttrView>::empty());
        doc.tree.append_node(self.idx, NodeKind::Text, name, attrs, data);
        Ok(())
    }

    /// Set an attribute value. If `value` is `None`, the attribute is set
    /// to the empty value (boolean attribute style). Fails on nodes that are
    /// not elements and on names holding a NUL character.
    pub fn set_attr(&self, doc: &mut HtmlDocument, name: &str, value: Option<&str>) -> (r: Result<
        (),
        Error,
    >)
        requires
            old(doc).wf(),
            old(doc).has(*self),
        ensures
            final(doc).wf(),
            old(doc).nodes()[self.index()].kind != NodeKind::Element ==> *final(doc) == *old(doc)
                && (r matches Err(Error::SetAttribute(m)) && m@ == "not an element node"@),
            old(doc).nodes()[self.index()].kind == NodeKind::Element && name@.contains('\0')
                ==> *final(doc) == *old(doc) && (r matches Err(Error::SetAttribute(m)) && m@
                == "invalid name: "@ + name@),
            old(doc).nodes()[self.index()].kind == NodeKind::Element && !name@.contains('\0')
                ==> r == Ok::<(), Error>(()) && final(doc).same_frame(*old(doc))
                && final(doc).nodes() == old(doc).nodes().update(
                self.index(),
                with_attrs(
                    old(doc).nodes()[self.index()],
                    attrs_set(
                        old(doc).nodes()[self.index()].attrs,
                        lower_seq(name@),
                        Some(
                            match value {
                                Some(v) => v@,
                                None => Seq::empty(),
                            },
                        ),
                    ),
                ),
            ),
    {
        if !self.is_element(doc) {
            return Err(Error::SetAttribute(String::from_str("not an element node")));
        }
        let raw = str_to_vec(name);
        if contains_nul(&raw) {
            let mut m = String::from_str("invalid name: ");
            m.append(name);
            return Err(Error::SetAttribute(m));
        }
        let key = to_lower_vec(&raw);
        proof {
            crate::dom::lemma_lower_idempotent(raw@);
        }
        let v = match value {
            Some(v) => str_to_vec(v),
            None => Vec::new(),
        };
        assert(crate::dom::opt_chars(Some(v)) == Some(
            match value {
                Some(v) => v@,
                None => Seq::<char>::empty(),
            },
        ));
        doc.tree.set_attribute(self.idx, key, Some(v));
        Ok(())
    }

    /// Remove an attribute by name. Fails on nodes that are not elements and
    /// on names holding a NUL character.
    pub fn remove_attr(&self, doc: &mut HtmlDocument, name: &str) -> (r: Result<(), Error>)
        requires
            old(doc).wf(),
            old(doc).has(*self),
        ensures
            final(doc).wf(),
            old(doc).nodes()[self.index()].kind != NodeKind::Element ==> *final(doc) == *old(doc)
                && (r matches Err(Error::RemoveAttribute(m)) && m@ == "not an element node"@),
            old(doc).nodes()[self.index()].kind == NodeKind::Element && name@.contains('\0')
                ==> *final(doc) == *old(doc) && (r matches Err(Error::RemoveAttribute(m)) && m@
                == "invalid name: "@ + name@),
            old(doc).nodes()[self.index()].kind == NodeKind::Element && !name@.contains('\0')
                ==> r == Ok::<(), Error>(()) && final(doc).same_frame(*old(doc))
                && final(doc).nodes() == old(doc).nodes().update(
                self.index(),
                with_attrs(
                    old(doc).nodes()[self.index()],
                    attrs_removed(old(doc).nodes()[self.index()].attrs, lower_seq(name@)),
                ),
            ),
    {
        if !self.is_element(doc) {
            return Err(Error::RemoveAttribute(String::from_str("not an element node")));
        }
        let raw = str_to_vec(name);
        if contains_nul(&raw) {
            let mut m = String::from_str("invalid name: ");
            m.append(name);
            return Err(Error::RemoveAttribute(m));
        }
        let key = to_lower_vec(&raw);
        doc.tree.remove_attribute(self.idx, &key);
        Ok(())
    }
}

/// A child kept by `iter_children`.
pub open spec fn kept_child(d: Seq<NodeView>, c: int, include_text: bool, skip_empty: bool) -> bool {
    d[c].kind == NodeKind::Element || (include_text && d[c].kind == NodeKind::Text && !(skip_empty
        && all_ascii_ws(d[c].data)))
}

/// Iterator over the direct children of a node.
pub struct ChildrenIter {
    current: Option<Node>,
}

impl ChildrenIter {
    /// The node the next call yields.
    pub closed spec fn current(&self) -> Option<Node> {
        self.current
    }

    /// Yields the current child and moves to its next sibling.
    pub fn next(&mut self, doc: &HtmlDocument) -> (r: Option<Node>)
        requires
            doc.wf(),
            old(self).current() matches Some(c) ==> doc.has(c),
        ensures
            r matches Some(m) ==> doc.has(m),
            final(self).current() matches Some(c) ==> doc.has(c),
            r == old(self).current(),
            final(self).current() == match r {
                Some(c) => match next_sibling(doc.nodes(), c.index()) {
                    Some(s) => Some(Node { idx: s }),
                    None => None::<Node>,
                },
                None => None::<Node>,
            },
    {
        match self.current {
            Some(node) => {
                self.current = node.next_sibling(doc);
                Some(node)
            },
            None => None,
        }
    }
}

/// Iterator walking up from a node to the root (parent chain).
pub struct AncestorsIter {
    current: Option<Node>,
}

impl AncestorsIter {
    /// The node the next call yields.
    pub closed spec fn current(&self) -> Option<Node> {
        self.current
    }

    /// Yields the current node and moves to its parent.
    pub fn next(&mut self, doc: &HtmlDocument) -> (r: Option<Node>)
        requires
            doc.wf(),
            old(self).current() matches Some(c) ==> doc.has(c),
        ensures
            r matches Some(m) ==> doc.has(m),
            final(self).current() matches Some(c) ==> doc.has(c),
            r == old(self).current(),
            final(self).current() == match r {
                Some(c) => match doc.nodes()[c.index()].parent {
                    Some(p) => Some(Node { idx: p }),
                    None => None::<Node>,
                },
                None => None::<Node>,
            },
    {
        match self.current {
            Some(node) => {
                self.current = node.parent(doc);
                Some(node)
            },
            None => None,
        }
    }
}

/// Where the depth-first walk goes after `node` has no child to descend
/// into: the next sibling of the nearest node on the way up that has one,
/// stopping at `root`. The second component is `false` when the way up left
/// the tree without meeting `root`.
pub open spec fn climb(d: Seq<NodeView>, root: int, node: int) -> (Option<usize>, bool)
    decreases node,
{
    if node == root {
        (None, true)
    } else {
        match next_sibling(d, node) {
            Some(s) => (Some(s), true),
            None => match d[node].parent {
                Some(p) => if 0 <= p < node {
                    climb(d, root, p as int)
                } else {
                    (None, false)
                },
                None => (None, false),
            },
        }
    }
}

/// The step of a depth-first walk below `root` from `cur`: the yielded node
/// and the walk's next position.
pub open spec fn walk_step(d: Seq<NodeView>, root: int, cur: Option<Node>) -> (Option<Node>, Option<
    Node,
>) {
    match cur {
        None => (None, None),
        Some(c) => if d[c.index()].children.len() > 0 {
            let f = Node { idx: d[c.index()].children[0] };
            (Some(f), Some(f))
        } else {
            match climb(d, root, c.index()) {
                (Some(s), _) => (Some(Node { idx: s }), Some(Node { idx: s })),
                (None, true) => (None, None),
                (None, false) => (None, cur),
            }
        },
    }
}

/// One depth-first step below `root` from `cur`, as the traversal
/// iterators take it.
fn walk(doc: &HtmlDocument, root: Node, cur: Option<Node>) -> (r: (Option<Node>, Option<Node>))
    requires
        doc.wf(),
        doc.has(root),
        cur matches Some(c) ==> doc.has(c),
    ensures
        r == walk_step(doc.nodes(), root.index(), cur),
        r.0 matches Some(n) ==> doc.has(n),
        r.1 matches Some(n) ==> doc.has(n),
{
    let ghost d = doc.nodes();
    let current = match cur {
        Some(c) => c,
        None => {
            return (None, None);
        },
    };
    if let Some(child) = current.first_child(doc) {
        return (Some(child), Some(child));
    }
    let mut node = current;
    loop
        invariant
            doc.wf(),
            d == doc.nodes(),
            doc.has(node),
            doc.has(current),
            cur == Some(current),
            d[current.index()].children.len() == 0,
            climb(d, root.index(), current.index()) == climb(d, root.index(), node.index()),
        decreases node.idx,
    {
        if node.idx == root.idx {
            return (None, None);
        }
        if let Some(sib) = node.next_sibling(doc) {
            return (Some(sib), Some(sib));
        }
        match node.parent(doc) {
            Some(p) => {
                node = p;
            },
            None => {
                return (None, cur);
            },
        }
    }
}

/// Depth-first iterator over all descendants of a node.
pub struct DescendantsIter {
    root: Node,
    current: Option<Node>,
}

impl DescendantsIter {
    /// The node the walk started from.
    pub closed spec fn root(&self) -> Node {
        self.root
    }

    /// The walk's position.
    pub closed spec fn current(&self) -> Option<Node> {
        self.current
    }

    /// Yields the next node of the depth-first walk below the root.
    pub fn next(&mut self, doc: &HtmlDocument) -> (r: Option<Node>)
        requires
            doc.wf(),
            doc.has(old(self).root()),
            old(self).current() matches Some(c) ==> doc.has(c),
        ensures
            r matches Some(m) ==> doc.has(m),
            final(self).current() matches Some(c) ==> doc.has(c),
            (r, final(self).current()) == walk_step(doc.nodes(), old(self).root().index(), old(self).current()),
            final(self).root() == old(self).root(),
    {
        let (r, c) = walk(doc, self.root, self.current);
        self.current = c;
        r
    }
}

/// Depth-first traverse starting from and including the root node.
pub struct TraverseIter {
    root: Node,
    current: Option<Node>,
    started: bool,
}

impl TraverseIter {
    /// The node the walk started from.
    pub closed spec fn root(&self) -> Node {
        self.root
    }

    /// The walk's position.
    pub closed spec fn current(&self) -> Option<Node> {
        self.current
    }

    /// Whether the root has been yielded.
    pub closed spec fn started(&self) -> bool {
        self.started
    }

    /// Yields the root first, then the nodes of the depth-first walk below it.
    pub fn next(&mut self, doc: &HtmlDocument) -> (r: Option<Node>)
        requires
            doc.wf(),
            doc.has(old(self).root()),
            old(self).current() matches Some(c) ==> doc.has(c),
        ensures
            r matches Some(m) ==> doc.has(m),
            final(self).current() matches Some(c) ==> doc.has(c),
            final(self).root() == old(self).root(),
            final(self).started(),
            !old(self).started() ==> r == Some(old(self).root()) && final(self).current()
                == old(self).current(),
            old(self).started() ==> (r, final(self).current()) == walk_step(
                doc.nodes(),
                old(self).root().index(),
                old(self).current(),
            ),
    {
        if !self.started {
            self.started = true;
            return Some(self.root);
        }
        let (r, c) = walk(doc, self.root, self.current);
        self.current = c;
        r
    }
}

} // verus!
