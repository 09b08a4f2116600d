//! What the HTML and CSS standards ask of the parser, the selector matcher,
//! text extraction and the serializers, stated over the names and
//! structures the standards use and proved against the library's
//! specifications.

use vstd::prelude::*;
use crate::dom::{NodeKind, NodeView, AttrView, attr_text, wf_links, child_index};
use crate::html_build::{is_void, is_head_content, BuildView, bwf, make_head, apply_start, room};
use crate::serialize::{
    SerializeOpts, outer_html_of, children_html, attrs_html, attr_html, attrs_pretty, pretty_html, pad,
    escape, is_raw_text,
};
use crate::node::{text_part, all_ascii_ws};
use crate::text::{trim, trim_start_from, is_ascii_ws, lower_seq};
use crate::selector::{
    BasicV, PseudoKind, SimpleV, ComplexV, Combinator, basic_holds, count_range, counted, compound_holds,
    complex_holds, match_at, ancestor_match, sibling_match, prev_element, is_el, AttrOp, attr_op_holds,
};
use crate::node::join;
use crate::html_token::{normalize_newlines, decode, TokenV, start_tag, end_tag_at, find_end_tag};
use crate::dom::{in_subtree, preorder, preorder_from, subtree_text, subtree_text_from};

verus! {

/// The void elements of the HTML standard (with the obsolete `keygen`,
/// `basefont`, `bgsound` and `frame`): elements that never have content.
pub open spec fn void_element_name(n: Seq<char>) -> bool {
    n == "area"@ || n == "base"@ || n == "br"@ || n == "col"@ || n == "embed"@ || n == "hr"@ || n
        == "img"@ || n == "input"@ || n == "link"@ || n == "meta"@ || n == "param"@ || n == "source"@
        || n == "track"@ || n == "wbr"@ || n == "keygen"@ || n == "basefont"@ || n == "bgsound"@
        || n == "frame"@
}

/// Every void element name is one the parser and the serializers treat as
/// void.
pub proof fn lemma_void_names_are_void(n: Seq<char>)
    requires
        void_element_name(n),
    ensures
        is_void(n),
{
}


/// Elements whose text the HTML fragment serialization algorithm writes as
/// it is, without escaping.
pub open spec fn raw_text_element_name(n: Seq<char>) -> bool {
    n == "style"@ || n == "script"@ || n == "xmp"@ || n == "iframe"@ || n == "noembed"@ || n
        == "noframes"@ || n == "plaintext"@
}

/// Text node `n` is a child of an element whose text is written raw.
pub open spec fn in_raw_text_element(d: Seq<NodeView>, n: int) -> bool {
    d[n].parent matches Some(p) && 0 <= p < d.len() && d[p as int].kind == NodeKind::Element
        && raw_text_element_name(d[p as int].name)
}

/// Serializing an element: a void element is its start tag alone, with
/// nothing after it; any other element is its start tag, its children and
/// its end tag.
pub proof fn law_element_serialization(d: Seq<NodeView>, n: int)
    requires
        0 <= n < d.len(),
        d[n].kind == NodeKind::Element,
    ensures
        void_element_name(d[n].name) ==> outer_html_of(d, n) == "<"@ + d[n].name + attrs_html(d[n].attrs)
            + ">"@,
        !void_element_name(d[n].name) ==> outer_html_of(d, n) == "<"@ + d[n].name + attrs_html(
            d[n].attrs,
        ) + ">"@ + children_html(d, n, 0) + "</"@ + d[n].name + ">"@,
{
    assert(is_void(d[n].name) == void_element_name(d[n].name));
    if void_element_name(d[n].name) {
        assert(outer_html_of(d, n) =~= "<"@ + d[n].name + attrs_html(d[n].attrs) + ">"@);
    }
}

/// Serializing text: the text of `style`, `script`, `xmp`, `iframe`,
/// `noembed`, `noframes` and `plaintext` elements is written unchanged;
/// any other text is escaped.
pub proof fn law_text_serialization(d: Seq<NodeView>, n: int)
    requires
        0 <= n < d.len(),
        d[n].kind == NodeKind::Text,
    ensures
        in_raw_text_element(d, n) ==> outer_html_of(d, n) == d[n].data,
        !in_raw_text_element(d, n) ==> outer_html_of(d, n) == escape(d[n].data, false),
{
    if let Some(p) = d[n].parent {
        assert(is_raw_text(d[p as int].name) == raw_text_element_name(d[p as int].name));
    }
}

/// The pretty printer writes text as the plain serializer does when
/// neither raw output, white-space skipping nor text indentation is asked
/// for.
pub proof fn law_pretty_text_as_plain(d: Seq<NodeView>, n: int, o: SerializeOpts, level: nat)
    requires
        0 <= n < d.len(),
        d[n].kind == NodeKind::Text,
        !o.raw,
        !o.skip_ws_nodes,
        o.without_text_indent,
    ensures
        pretty_html(d, n, o, level) == outer_html_of(d, n),
{
    if let Some(p) = d[n].parent {
        assert(is_raw_text(d[p as int].name) == raw_text_element_name(d[p as int].name));
    }
}

/// An attribute is written as a space, its name, `=` and its value in
/// double quotes, escaped for an attribute value (a value-less attribute
/// has the empty value).
pub proof fn law_attribute_serialization(x: AttrView)
    ensures
        attr_html(x, false) == " "@ + x.name + "=\""@ + escape(attr_text(x), true) + "\""@,
        attr_html(x, true) == " "@ + x.name + "=\""@ + attr_text(x) + "\""@,
{
    reveal_strlit("=\"");
    reveal_strlit("\"");
    reveal_strlit("=\"\"");
    if x.value is None {
        assert(escape(Seq::empty(), true) =~= Seq::<char>::empty());
        assert(" "@ + x.name + "=\"\""@ =~= " "@ + x.name + "=\""@ + Seq::<char>::empty() + "\""@);
    }
}

/// Unless raw output is asked for, the pretty printer writes attributes
/// exactly as the plain serializer does, values escaped.
pub proof fn law_pretty_attributes_as_plain(a: Seq<AttrView>)
    ensures
        attrs_pretty(a, false) == attrs_html(a),
    decreases a.len(),
{
    if a.len() > 0 {
        law_pretty_attributes_as_plain(a.drop_last());
    }
}

/// The pretty printer starts an element with its indentation and a start
/// tag whose attributes are written as the plain serializer writes them.
pub proof fn law_pretty_start_tag(d: Seq<NodeView>, n: int, o: SerializeOpts, level: nat)
    requires
        0 <= n < d.len(),
        d[n].kind == NodeKind::Element,
        !o.raw,
    ensures
        ({
            let tag = pad(level) + "<"@ + d[n].name + attrs_html(d[n].attrs) + ">\n"@;
            &&& tag.len() <= pretty_html(d, n, o, level).len()
            &&& pretty_html(d, n, o, level).subrange(0, tag.len() as int) == tag
        }),
{
    law_pretty_attributes_as_plain(d[n].attrs);
    let tag = pad(level) + "<"@ + d[n].name + attrs_html(d[n].attrs) + ">\n"@;
    let rest = if is_void(d[n].name) {
        Seq::<char>::empty()
    } else {
        crate::serialize::pretty_children(d, n, 0, o, level + 1) + if o.without_closing {
            Seq::<char>::empty()
        } else {
            pad(level) + "</"@ + d[n].name + ">\n"@
        }
    };
    assert(pretty_html(d, n, o, level) == tag + rest);
    assert((tag + rest).subrange(0, tag.len() as int) =~= tag);
}

/// Leading white space runs to the end of a text of ASCII white space.
proof fn lemma_ascii_ws_trims_away(t: Seq<char>, i: int)
    requires
        0 <= i <= t.len(),
        forall|k: int| 0 <= k < t.len() ==> is_ascii_ws(#[trigger] t[k]),
    ensures
        trim_start_from(t, i) == t.len(),
    decreases t.len() - i,
{
    if i < t.len() {
        assert(is_ascii_ws(t[i]));
        lemma_ascii_ws_trims_away(t, i + 1);
    }
}

/// The fragment one text node gives to text extraction: without `strip`,
/// the whole text, unchanged; with `strip`, the text trimmed. With
/// `skip_empty`, a text of ASCII white space only gives nothing, and with
/// both, neither does a text that trims to nothing.
pub proof fn law_text_fragment(t: Seq<char>)
    ensures
        text_part(t, false, false) == seq![t],
        text_part(t, false, true) == if forall|k: int| 0 <= k < t.len() ==> is_ascii_ws(#[trigger] t[k]) {
            Seq::<Seq<char>>::empty()
        } else {
            seq![t]
        },
        text_part(t, true, false) == seq![trim(t)],
        text_part(t, true, true) == if trim(t).len() == 0 {
            Seq::<Seq<char>>::empty()
        } else {
            seq![trim(t)]
        },
{
    if all_ascii_ws(t) {
        lemma_ascii_ws_trims_away(t, 0);
        crate::text::lemma_trim_end_bounds(t, t.len() as int);
        assert(trim(t) =~= Seq::<char>::empty());
    }
}


/// Counting siblings as the structural pseudo-classes do is taking the
/// length of the filtered child list.
proof fn lemma_count_is_filter_len(
    d: Seq<NodeView>,
    p: int,
    lo: int,
    hi: int,
    ty: Option<Seq<char>>,
    pred: spec_fn(usize) -> bool,
)
    requires
        wf_links(d),
        0 <= p < d.len(),
        0 <= lo <= hi <= d[p].children.len(),
        forall|c: usize| d[p].children.contains(c) ==> pred(c) == counted(d, c as int, ty),
    ensures
        count_range(d, p, lo, hi, ty) == d[p].children.subrange(lo, hi).filter(pred).len(),
    decreases hi - lo,
{
    reveal(Seq::filter);
    let sub = d[p].children.subrange(lo, hi);
    if lo < hi {
        lemma_count_is_filter_len(d, p, lo, hi - 1, ty, pred);
        assert(sub.drop_last() =~= d[p].children.subrange(lo, hi - 1));
        let c = d[p].children[hi - 1];
        assert(sub.last() == c);
        assert(d[p].children.contains(c));
    } else {
        assert(sub =~= Seq::<usize>::empty());
    }
}

/// The element siblings before `n`, counted by `pred`: its position from
/// the start, less one.
pub open spec fn siblings_before(d: Seq<NodeView>, n: int) -> Seq<usize> {
    match d[n].parent {
        Some(p) => d[p as int].children.subrange(0, child_index(d, n)),
        None => Seq::empty(),
    }
}

/// The siblings after `n`.
pub open spec fn siblings_after(d: Seq<NodeView>, n: int) -> Seq<usize> {
    match d[n].parent {
        Some(p) => d[p as int].children.subrange(child_index(d, n) + 1, d[p as int].children.len() as int),
        None => Seq::empty(),
    }
}

/// The structural pseudo-classes, as Selectors level 3 defines them over
/// the element's siblings: `:first-child` has no element sibling before it,
/// `:last-child` none after it, the `-of-type` forms count only siblings
/// with the same (ASCII lower-cased) name, and `:nth-child(an+b)` and its
/// kin hold when the element's 1-based position, from the start or the
/// end, is `a*k + b` for some `k >= 0`.
pub proof fn law_structural_pseudo_classes(d: Seq<NodeView>, n: int, a: int, b: int)
    requires
        wf_links(d),
        0 <= n < d.len(),
        d[n].kind == NodeKind::Element,
    ensures
        ({
            let el = |c: usize| d[c as int].kind == NodeKind::Element;
            let same = |c: usize|
                d[c as int].kind == NodeKind::Element && lower_seq(d[c as int].name) == lower_seq(d[n].name);
            let first = siblings_before(d, n).filter(el).len() + 1;
            let last = siblings_after(d, n).filter(el).len() + 1;
            let tfirst = siblings_before(d, n).filter(same).len() + 1;
            let tlast = siblings_after(d, n).filter(same).len() + 1;
            &&& basic_holds(d, n, BasicV::Pseudo(PseudoKind::FirstChild, a, b)) <==> first == 1
            &&& basic_holds(d, n, BasicV::Pseudo(PseudoKind::LastChild, a, b)) <==> last == 1
            &&& basic_holds(d, n, BasicV::Pseudo(PseudoKind::OnlyChild, a, b)) <==> first == 1 && last == 1
            &&& basic_holds(d, n, BasicV::Pseudo(PseudoKind::FirstOfType, a, b)) <==> tfirst == 1
            &&& basic_holds(d, n, BasicV::Pseudo(PseudoKind::LastOfType, a, b)) <==> tlast == 1
            &&& basic_holds(d, n, BasicV::Pseudo(PseudoKind::OnlyOfType, a, b)) <==> tfirst == 1 && tlast
                == 1
            &&& basic_holds(d, n, BasicV::Pseudo(PseudoKind::NthChild, a, b)) <==> exists|k: int|
                k >= 0 && #[trigger] (a * k) + b == first
            &&& basic_holds(d, n, BasicV::Pseudo(PseudoKind::NthLastChild, a, b)) <==> exists|k: int|
                k >= 0 && #[trigger] (a * k) + b == last
            &&& basic_holds(d, n, BasicV::Pseudo(PseudoKind::NthOfType, a, b)) <==> exists|k: int|
                k >= 0 && #[trigger] (a * k) + b == tfirst
            &&& basic_holds(d, n, BasicV::Pseudo(PseudoKind::NthLastOfType, a, b)) <==> exists|k: int|
                k >= 0 && #[trigger] (a * k) + b == tlast
            &&& basic_holds(d, n, BasicV::Pseudo(PseudoKind::Root, a, b)) <==> (d[n].parent matches Some(p)
                && d[p as int].kind == NodeKind::Document)
            &&& basic_holds(d, n, BasicV::Pseudo(PseudoKind::Empty, a, b)) <==> forall|i: int|
                0 <= i < d[n].children.len() ==> d[#[trigger] d[n].children[i] as int].kind != NodeKind::Element
                    && (d[d[n].children[i] as int].kind == NodeKind::Text ==> d[d[n].children[i] as int].data.len()
                    == 0)
        }),
{
    let el = |c: usize| d[c as int].kind == NodeKind::Element;
    let t = lower_seq(d[n].name);
    let same = |c: usize| d[c as int].kind == NodeKind::Element && lower_seq(d[c as int].name) == t;
    assert forall|i: int| 0 <= i < d[n].children.len() implies 0 <= #[trigger] d[n].children[i] < d.len() by {}
    match d[n].parent {
        Some(p) => {
            let p = p as int;
            assert(d[p].children.contains(n as usize));
            let i = child_index(d, n);
            let len = d[p].children.len() as int;
            d[p].children.index_of_first_ensures(n as usize);
            assert(0 <= i < len);
            assert forall|c: usize| d[p].children.contains(c) implies el(c) == counted(d, c as int, None) by {
                let j = choose|j: int| 0 <= j < len && d[p].children[j] == c;
                assert(c < d.len());
            }
            assert forall|c: usize| d[p].children.contains(c) implies same(c) == counted(d, c as int, Some(t)) by {
                let j = choose|j: int| 0 <= j < len && d[p].children[j] == c;
                assert(c < d.len());
            }
            lemma_count_is_filter_len(d, p, 0, i, None, el);
            lemma_count_is_filter_len(d, p, i + 1, len, None, el);
            lemma_count_is_filter_len(d, p, 0, i, Some(t), same);
            lemma_count_is_filter_len(d, p, i + 1, len, Some(t), same);
        },
        None => {
            reveal(Seq::filter);
            assert(Seq::<usize>::empty().filter(el) =~= Seq::<usize>::empty());
            assert(Seq::<usize>::empty().filter(same) =~= Seq::<usize>::empty());
        },
    }
}


/// Walking up from `m`, some node matches the first compound exactly when
/// `m` or one of its ancestors does.
proof fn lemma_ancestor_match(d: Seq<NodeView>, m: int, cx: ComplexV)
    requires
        wf_links(d),
        0 <= m < d.len(),
        cx.compounds.len() > 0,
    ensures
        ancestor_match(d, m, cx, 0) <==> exists|a: int|
            0 <= a < d.len() && #[trigger] in_subtree(d, a, m) && compound_holds(d, a, cx.compounds[0]),
    decreases m,
{
    if match_at(d, m, cx, 0) {
        assert(in_subtree(d, m, m));
    }
    match d[m].parent {
        Some(q) => {
            assert(0 <= q < m);
            lemma_ancestor_match(d, q as int, cx);
            assert forall|a: int| 0 <= a < d.len() && #[trigger] in_subtree(d, a, m) && a != m
                implies in_subtree(d, a, q as int) by {}
            assert forall|a: int| 0 <= a < d.len() && #[trigger] in_subtree(d, a, q as int)
                implies in_subtree(d, a, m) by {
            }
        },
        None => {
            assert forall|a: int| 0 <= a < d.len() && #[trigger] in_subtree(d, a, m) implies a == m by {}
        },
    }
}

/// Some child of `p` before position `i` matches the first compound.
proof fn lemma_sibling_match(d: Seq<NodeView>, p: int, i: int, cx: ComplexV)
    requires
        wf_links(d),
        0 <= p < d.len(),
        0 <= i <= d[p].children.len(),
        cx.compounds.len() > 0,
    ensures
        sibling_match(d, p, i, cx, 0) <==> exists|j: int|
            0 <= j < i && compound_holds(d, #[trigger] d[p].children[j] as int, cx.compounds[0]),
    decreases i,
{
    if i > 0 {
        lemma_sibling_match(d, p, i - 1, cx);
        let c = d[p].children[i - 1] as int;
        assert(0 <= c < d.len());
        assert(match_at(d, c, cx, 0) == compound_holds(d, c, cx.compounds[0]));
        if compound_holds(d, c, cx.compounds[0]) {
            assert(compound_holds(d, d[p].children[i - 1] as int, cx.compounds[0]));
        }
        if exists|j: int| 0 <= j < i && compound_holds(d, #[trigger] d[p].children[j] as int, cx.compounds[0]) {
            let j = choose|j: int|
                0 <= j < i && compound_holds(d, #[trigger] d[p].children[j] as int, cx.compounds[0]);
            if j < i - 1 {
                assert(exists|j2: int|
                    0 <= j2 < i - 1 && compound_holds(d, #[trigger] d[p].children[j2] as int, cx.compounds[0]));
            }
        }
    }
}

/// No element among the children of `p` before position `i`.
proof fn lemma_prev_element_none(d: Seq<NodeView>, p: int, i: int)
    requires
        wf_links(d),
        0 <= p < d.len(),
        0 <= i <= d[p].children.len(),
        forall|k: int| 0 <= k < i ==> d[#[trigger] d[p].children[k] as int].kind != NodeKind::Element,
    ensures
        prev_element(d, p, i) is None,
    decreases i,
{
    if i > 0 {
        lemma_prev_element_none(d, p, i - 1);
    }
}

/// The nearest element before position `i`, with its position.
proof fn lemma_prev_element_some(d: Seq<NodeView>, p: int, i: int) -> (j: int)
    requires
        wf_links(d),
        0 <= p < d.len(),
        0 <= i <= d[p].children.len(),
        prev_element(d, p, i) is Some,
    ensures
        0 <= j < i,
        prev_element(d, p, i) == Some(d[p].children[j]),
        d[d[p].children[j] as int].kind == NodeKind::Element,
        forall|k: int| j < k < i ==> d[#[trigger] d[p].children[k] as int].kind != NodeKind::Element,
    decreases i,
{
    let c = d[p].children[i - 1] as int;
    assert(0 <= c < d.len());
    if is_el(d, c) {
        i - 1
    } else {
        lemma_prev_element_some(d, p, i - 1)
    }
}

/// An element at `j` with no element after it before `i` is the nearest.
proof fn lemma_prev_element_at(d: Seq<NodeView>, p: int, i: int, j: int)
    requires
        wf_links(d),
        0 <= p < d.len(),
        0 <= j < i <= d[p].children.len(),
        d[d[p].children[j] as int].kind == NodeKind::Element,
        forall|k: int| j < k < i ==> d[#[trigger] d[p].children[k] as int].kind != NodeKind::Element,
    ensures
        prev_element(d, p, i) == Some(d[p].children[j]),
    decreases i,
{
    let c = d[p].children[i - 1] as int;
    assert(0 <= c < d.len());
    if i - 1 > j {
        lemma_prev_element_at(d, p, i - 1, j);
    }
}

/// The combinators of Selectors level 3, for a selector of two compounds
/// `c0 comb c1`: the element matches `c1`, and `c0` is matched by its
/// parent (`>`), by one of its proper ancestors (white space), by the
/// nearest element sibling before it (`+`), or by some sibling before it
/// (`~`).
#[verifier::rlimit(40)]
pub proof fn law_combinators(d: Seq<NodeView>, n: int, c0: Seq<SimpleV>, c1: Seq<SimpleV>, comb: Combinator)
    requires
        wf_links(d),
        0 <= n < d.len(),
    ensures
        ({
            let cx = ComplexV { compounds: seq![c0, c1], combinators: seq![comb] };
            complex_holds(d, n, cx) <==> compound_holds(d, n, c1) && match comb {
                Combinator::Child => d[n].parent matches Some(p) && compound_holds(d, p as int, c0),
                Combinator::Descendant => exists|a: int|
                    0 <= a < d.len() && a != n && #[trigger] in_subtree(d, a, n) && compound_holds(d, a, c0),
                Combinator::NextSibling => d[n].parent matches Some(p) && exists|j: int|
                    0 <= j < child_index(d, n) && compound_holds(
                        d,
                        #[trigger] d[p as int].children[j] as int,
                        c0,
                    ) && forall|k: int|
                        j < k < child_index(d, n) ==> d[#[trigger] d[p as int].children[k] as int].kind
                            != NodeKind::Element,
                Combinator::SubsequentSibling => d[n].parent matches Some(p) && exists|j: int|
                    0 <= j < child_index(d, n) && compound_holds(d, #[trigger] d[p as int].children[j] as int, c0),
            }
        }),
{
    let cx = ComplexV { compounds: seq![c0, c1], combinators: seq![comb] };
    assert(cx.compounds[0] == c0 && cx.compounds[1] == c1 && cx.combinators[0] == comb);
    reveal_with_fuel(match_at, 2);
    assert(complex_holds(d, n, cx) == (compound_holds(d, n, c1) && crate::selector::related_match(d, n, cx, 0)));
    match d[n].parent {
        Some(p) => {
            let p = p as int;
            assert(0 <= p < n);
            assert(d[p].children.contains(n as usize));
            d[p].children.index_of_first_ensures(n as usize);
            let i = child_index(d, n);
            match comb {
                Combinator::Child => {},
                Combinator::Descendant => {
                    lemma_ancestor_match(d, p, cx);
                    assert forall|a: int| 0 <= a < d.len() && a != n && #[trigger] in_subtree(d, a, n)
                        implies in_subtree(d, a, p) by {}
                    assert forall|a: int| 0 <= a < d.len() && #[trigger] in_subtree(d, a, p)
                        implies in_subtree(d, a, n) && a != n by {
                        crate::dom::lemma_subtree_ge(d, a, p);
                    }
                },
                Combinator::NextSibling => {
                    if prev_element(d, p, i) is Some {
                        let j = lemma_prev_element_some(d, p, i);
                        let s0 = d[p].children[j] as int;
                        assert(match_at(d, s0, cx, 0) == compound_holds(d, s0, c0));
                        if compound_holds(d, s0, c0) {
                            assert(compound_holds(d, d[p].children[j] as int, c0));
                        }
                    }
                    assert forall|j2: int|
                        0 <= j2 < i && compound_holds(d, #[trigger] d[p].children[j2] as int, c0) && (forall|
                            k: int,
                        |
                            j2 < k < i ==> d[#[trigger] d[p].children[k] as int].kind != NodeKind::Element)
                            implies crate::selector::related_match(d, n, cx, 0) by {
                        lemma_prev_element_at(d, p, i, j2);
                        let s0 = d[p].children[j2] as int;
                        assert(match_at(d, s0, cx, 0) == compound_holds(d, s0, c0));
                    }
                },
                Combinator::SubsequentSibling => {
                    lemma_sibling_match(d, p, i, cx);
                },
            }
        },
        None => {
            if comb == Combinator::Descendant {
                assert forall|a: int| 0 <= a < d.len() && a != n implies !#[trigger] in_subtree(d, a, n) by {}
            }
        },
    }
}


/// The attribute selector operators of Selectors level 3: `=` equal
/// values, `^=` a non-empty prefix, `$=` a non-empty suffix, `*=` a
/// non-empty substring, `|=` the value itself or the value followed by
/// `-`, and a bare `[name]` any value.
pub proof fn law_attribute_operators(val: Seq<char>, v: Seq<char>)
    ensures
        attr_op_holds(AttrOp::Exists, val, v),
        attr_op_holds(AttrOp::Equals, val, v) <==> val == v,
        attr_op_holds(AttrOp::Prefix, val, v) <==> v.len() > 0 && v.len() <= val.len() && forall|i: int|
            0 <= i < v.len() ==> val[i] == v[i],
        attr_op_holds(AttrOp::Suffix, val, v) <==> v.len() > 0 && v.len() <= val.len() && forall|i: int|
            0 <= i < v.len() ==> val[val.len() - v.len() + i] == v[i],
        attr_op_holds(AttrOp::Substring, val, v) <==> v.len() > 0 && exists|s: int|
            0 <= s && s + v.len() <= val.len() && #[trigger] val.subrange(s, s + v.len()) == v,
        attr_op_holds(AttrOp::DashMatch, val, v) <==> val == v || (v.len() < val.len() && val[v.len() as int]
            == '-' && forall|i: int| 0 <= i < v.len() ==> val[i] == v[i]),
{
    if attr_op_holds(AttrOp::Prefix, val, v) {
        assert forall|i: int| 0 <= i < v.len() implies val[i] == v[i] by {
            assert(val.subrange(0, v.len() as int)[i] == val[i]);
        }
    }
    if v.len() > 0 && v.len() <= val.len() && forall|i: int| 0 <= i < v.len() ==> val[i] == v[i] {
        assert(val.subrange(0, v.len() as int) =~= v);
    }
    if attr_op_holds(AttrOp::Suffix, val, v) {
        assert forall|i: int| 0 <= i < v.len() implies val[val.len() - v.len() + i] == v[i] by {
            assert(val.subrange(val.len() - v.len(), val.len() as int)[i] == val[val.len() - v.len() + i]);
        }
    }
    if v.len() > 0 && v.len() <= val.len() && forall|i: int| 0 <= i < v.len() ==> val[val.len() - v.len() + i] == v[i] {
        assert(val.subrange(val.len() - v.len(), val.len() as int) =~= v);
    }
    if v.len() > 0 && exists|s: int|
        0 <= s && s + v.len() <= val.len() && #[trigger] val.subrange(s, s + v.len()) == v {
        let s0 = choose|s: int| 0 <= s && s + v.len() <= val.len() && #[trigger] val.subrange(s, s + v.len()) == v;
        assert(crate::text::occurs_at(val, v, s0));
    }
    let w = v.push('-');
    if val != v && crate::text::has_prefix(val, w) {
        assert(val.subrange(0, w.len() as int)[v.len() as int] == val[v.len() as int]);
        assert forall|i: int| 0 <= i < v.len() implies val[i] == v[i] by {
            assert(val.subrange(0, w.len() as int)[i] == val[i]);
        }
    }
    if v.len() < val.len() && val[v.len() as int] == '-' && forall|i: int| 0 <= i < v.len() ==> val[i] == v[i] {
        assert(val.subrange(0, w.len() as int) =~= w);
    }
}

/// Escaping changes nothing in a text without the characters it replaces
/// (`&`, no-break space, and `<` and `>` in text or `"` in an attribute
/// value), and escapes a text piece by piece.
pub proof fn law_escape_plain_and_piecewise(t: Seq<char>, u: Seq<char>, attr: bool)
    ensures
        (forall|i: int|
            0 <= i < t.len() ==> #[trigger] t[i] != '&' && t[i] != '\u{A0}' && (attr ==> t[i] != '"') && (
            !attr ==> t[i] != '<' && t[i] != '>')) ==> escape(t, attr) == t,
        escape(t + u, attr) == escape(t, attr) + escape(u, attr),
    decreases t.len() + u.len(),
{
    if u.len() > 0 {
        law_escape_plain_and_piecewise(t, u.drop_last(), attr);
        assert((t + u).drop_last() =~= t + u.drop_last());
        assert((t + u).last() == u.last());
    } else {
        assert(t + u =~= t);
        assert(escape(u, attr) =~= Seq::<char>::empty());
    }
    if t.len() > 0 {
        law_escape_plain_and_piecewise(t.drop_last(), Seq::empty(), attr);
        if forall|i: int|
            0 <= i < t.len() ==> #[trigger] t[i] != '&' && t[i] != '\u{A0}' && (attr ==> t[i] != '"') && (
            !attr ==> t[i] != '<' && t[i] != '>') {
            assert(t[t.len() - 1] == t.last());
            assert(t.drop_last() + seq![t.last()] =~= t);
        }
    }
}

/// Joining fragments: no fragment gives nothing, one fragment is itself,
/// and each further fragment comes after the separator; with an empty
/// separator the fragments are concatenated.
pub proof fn law_join(parts: Seq<Seq<char>>, x: Seq<char>, sep: Seq<char>)
    ensures
        join(Seq::empty(), sep) == Seq::<char>::empty(),
        join(seq![x], sep) == x,
        parts.len() > 0 ==> join(parts.push(x), sep) == join(parts, sep) + sep + x,
        join(parts, Seq::empty()) == parts.flatten(),
{
    assert(parts.push(x).drop_last() =~= parts);
    crate::node::lemma_join_empty(parts);
}


/// The text a node gives to the text content: a text node's data.
pub open spec fn own_text(d: Seq<NodeView>, m: usize) -> Seq<char> {
    if d[m as int].kind == NodeKind::Text {
        d[m as int].data
    } else {
        Seq::empty()
    }
}

/// The text of the nodes of `ms`, one after another.
pub open spec fn texts_in_order(d: Seq<NodeView>, ms: Seq<usize>) -> Seq<char> {
    ms.map_values(|m: usize| own_text(d, m)).flatten()
}

proof fn lemma_texts_concat(d: Seq<NodeView>, a: Seq<usize>, b: Seq<usize>)
    ensures
        texts_in_order(d, a + b) == texts_in_order(d, a) + texts_in_order(d, b),
{
    assert((a + b).map_values(|m: usize| own_text(d, m)) =~= a.map_values(|m: usize| own_text(d, m))
        + b.map_values(|m: usize| own_text(d, m)));
    vstd::seq_lib::lemma_flatten_concat(
        a.map_values(|m: usize| own_text(d, m)),
        b.map_values(|m: usize| own_text(d, m)),
    );
}

proof fn lemma_subtree_text_order(d: Seq<NodeView>, n: int)
    requires
        d.len() <= usize::MAX,
    ensures
        subtree_text(d, n) == texts_in_order(d, preorder(d, n)),
    decreases d.len() - n, 1nat, 0nat,
{
    if 0 <= n < d.len() {
        lemma_subtree_text_from_order(d, n, 0);
        lemma_texts_concat(d, seq![n as usize], preorder_from(d, n, 0));
        assert(seq![n as usize].map_values(|m: usize| own_text(d, m)) =~= seq![own_text(d, n as usize)]);
        seq![own_text(d, n as usize)].lemma_flatten_one_element();
        assert(texts_in_order(d, seq![n as usize]) == own_text(d, n as usize));
        assert(preorder(d, n) == seq![n as usize] + preorder_from(d, n, 0));
        assert(subtree_text(d, n) == own_text(d, n as usize) + subtree_text_from(d, n, 0));
    } else {
        assert(texts_in_order(d, Seq::<usize>::empty()) =~= Seq::<char>::empty());
    }
}

proof fn lemma_subtree_text_from_order(d: Seq<NodeView>, n: int, i: int)
    requires
        d.len() <= usize::MAX,
    ensures
        subtree_text_from(d, n, i) == texts_in_order(d, preorder_from(d, n, i)),
    decreases d.len() - n, 0nat, d[n].children.len() - i,
{
    if 0 <= n < d.len() && 0 <= i < d[n].children.len() && n < d[n].children[i] < d.len() {
        let c = d[n].children[i] as int;
        lemma_subtree_text_order(d, c);
        lemma_subtree_text_from_order(d, n, i + 1);
        lemma_texts_concat(d, preorder(d, c), preorder_from(d, n, i + 1));
    } else {
        assert(texts_in_order(d, Seq::<usize>::empty()) =~= Seq::<char>::empty());
    }
}

/// The text content of a node is the data of the text nodes of its subtree,
/// in document (pre-)order, one after another: what `text()` returns for
/// an element.
pub proof fn law_text_content_in_document_order(d: Seq<NodeView>, n: int)
    requires
        wf_links(d),
    ensures
        subtree_text(d, n) == texts_in_order(d, preorder(d, n)),
{
    lemma_subtree_text_order(d, n);
}

/// Escaping replaces `&` with `&amp;`, a no-break space with `&nbsp;`, and
/// in text `<` and `>` with `&lt;` and `&gt;`, in an attribute value `"`
/// with `&quot;`, and keeps every other character.
pub proof fn law_escape_characters(t: Seq<char>, attr: bool)
    ensures
        escape(t, attr) == t.map_values(
            |c: char|
                if c == '&' {
                    seq!['&', 'a', 'm', 'p', ';']
                } else if c == '\u{A0}' {
                    seq!['&', 'n', 'b', 's', 'p', ';']
                } else if attr && c == '"' {
                    seq!['&', 'q', 'u', 'o', 't', ';']
                } else if !attr && c == '<' {
                    seq!['&', 'l', 't', ';']
                } else if !attr && c == '>' {
                    seq!['&', 'g', 't', ';']
                } else {
                    seq![c]
                },
        ).flatten(),
    decreases t.len(),
{
    let f = |c: char|
        if c == '&' {
            seq!['&', 'a', 'm', 'p', ';']
        } else if c == '\u{A0}' {
            seq!['&', 'n', 'b', 's', 'p', ';']
        } else if attr && c == '"' {
            seq!['&', 'q', 'u', 'o', 't', ';']
        } else if !attr && c == '<' {
            seq!['&', 'l', 't', ';']
        } else if !attr && c == '>' {
            seq!['&', 'g', 't', ';']
        } else {
            seq![c]
        };
    if t.len() == 0 {
        assert(t.map_values(f) =~= Seq::<Seq<char>>::empty());
    } else {
        law_escape_characters(t.drop_last(), attr);
        assert(t.map_values(f) =~= t.drop_last().map_values(f).push(f(t.last())));
        t.drop_last().map_values(f).lemma_flatten_push(f(t.last()));
        reveal_strlit("&amp;");
        reveal_strlit("&nbsp;");
        reveal_strlit("&quot;");
        reveal_strlit("&lt;");
        reveal_strlit("&gt;");
        assert(crate::serialize::escape_char(t.last(), attr) =~= f(t.last()));
    }
}


/// Newline normalization leaves no carriage return, changes nothing in a
/// text without one, and works piece by piece where a piece does not end
/// in a carriage return.
pub proof fn law_newline_normalization(s: Seq<char>, u: Seq<char>)
    ensures
        forall|i: int| 0 <= i < normalize_newlines(s).len() ==> normalize_newlines(s)[i] != '\r',
        (forall|i: int| 0 <= i < s.len() ==> s[i] != '\r') ==> normalize_newlines(s) == s,
        (s.len() == 0 || s.last() != '\r') ==> normalize_newlines(s + u) == normalize_newlines(s)
            + normalize_newlines(u),
    decreases s.len(),
{
    if s.len() > 0 {
        let k: int = if s[0] == '\r' && s.len() > 1 && s[1] == '\n' {
            2
        } else {
            1
        };
        let rest = s.subrange(k, s.len() as int);
        law_newline_normalization(rest, u);
        let head = if s[0] == '\r' {
            seq!['\n']
        } else {
            seq![s[0]]
        };
        assert(normalize_newlines(s) == head + normalize_newlines(rest));
        assert forall|i: int| 0 <= i < normalize_newlines(s).len() implies normalize_newlines(s)[i]
            != '\r' by {
            if i > 0 {
                assert(normalize_newlines(s)[i] == normalize_newlines(rest)[i - 1]);
            }
        }
        if forall|i: int| 0 <= i < s.len() ==> s[i] != '\r' {
            assert forall|i: int| 0 <= i < rest.len() implies rest[i] != '\r' by {
                assert(rest[i] == s[i + k]);
            }
            assert(head + rest =~= s);
        }
        if s.last() != '\r' {
            assert((s + u)[0] == s[0]);
            if s[0] == '\r' {
                assert(s.len() > 1);
                assert((s + u)[1] == s[1]);
            }
            assert((s + u).subrange(k, (s + u).len() as int) =~= rest + u);
            if rest.len() > 0 {
                assert(rest.last() == s.last());
            }
        }
    } else {
        assert(s + u =~= u);
    }
}

/// Decoding character references changes nothing in a text without `&`.
pub proof fn law_decode_plain(s: Seq<char>, i: int, e: int, attr: bool)
    requires
        0 <= i <= e <= s.len(),
        forall|k: int| i <= k < e ==> s[k] != '&',
    ensures
        decode(s, i, e, attr) == s.subrange(i, e),
    decreases e - i,
{
    if i < e {
        law_decode_plain(s, i + 1, e, attr);
        assert(seq![s[i]] + s.subrange(i + 1, e) =~= s.subrange(i, e));
    } else {
        assert(s.subrange(i, e) =~= Seq::<char>::empty());
    }
}


/// Elements that the HTML standard puts in `head` when they come before
/// the body.
pub open spec fn head_element_name(n: Seq<char>) -> bool {
    n == "base"@ || n == "basefont"@ || n == "bgsound"@ || n == "link"@ || n == "meta"@ || n
        == "noframes"@ || n == "script"@ || n == "style"@ || n == "template"@ || n == "title"@ || n
        == "noscript"@
}

proof fn lemma_head_names_not_frame(n: Seq<char>)
    requires
        head_element_name(n),
    ensures
        n != "html"@ && n != "head"@ && n != "body"@,
{
    reveal_strlit("html");
    reveal_strlit("head");
    reveal_strlit("body");
    reveal_strlit("base");
    reveal_strlit("basefont");
    reveal_strlit("bgsound");
    reveal_strlit("link");
    reveal_strlit("meta");
    reveal_strlit("noframes");
    reveal_strlit("script");
    reveal_strlit("style");
    reveal_strlit("template");
    reveal_strlit("title");
    reveal_strlit("noscript");
    assert("html"@[0] != "base"@[0]);
    assert("html"@.len() != "basefont"@.len());
    assert("html"@.len() != "bgsound"@.len());
    assert("html"@[0] != "link"@[0]);
    assert("html"@[0] != "meta"@[0]);
    assert("html"@.len() != "noframes"@.len());
    assert("html"@.len() != "script"@.len());
    assert("html"@.len() != "style"@.len());
    assert("html"@.len() != "template"@.len());
    assert("html"@.len() != "title"@.len());
    assert("html"@.len() != "noscript"@.len());
    assert("head"@[0] != "base"@[0]);
    assert("head"@.len() != "basefont"@.len());
    assert("head"@.len() != "bgsound"@.len());
    assert("head"@[0] != "link"@[0]);
    assert("head"@[0] != "meta"@[0]);
    assert("head"@.len() != "noframes"@.len());
    assert("head"@.len() != "script"@.len());
    assert("head"@.len() != "style"@.len());
    assert("head"@.len() != "template"@.len());
    assert("head"@.len() != "title"@.len());
    assert("head"@.len() != "noscript"@.len());
    assert("body"@[1] != "base"@[1]);
    assert("body"@.len() != "basefont"@.len());
    assert("body"@.len() != "bgsound"@.len());
    assert("body"@[0] != "link"@[0]);
    assert("body"@[0] != "meta"@[0]);
    assert("body"@.len() != "noframes"@.len());
    assert("body"@.len() != "script"@.len());
    assert("body"@.len() != "style"@.len());
    assert("body"@.len() != "template"@.len());
    assert("body"@.len() != "title"@.len());
    assert("body"@.len() != "noscript"@.len());
}

/// Before the body exists, a start tag of head content makes an element
/// that becomes the last child of the head (made first if missing), and
/// the element stays open unless it is void.
pub proof fn law_head_content_goes_in_head(b: BuildView, name: Seq<char>, attrs: Seq<AttrView>, sc: bool)
    requires
        bwf(b),
        b.body is None,
        head_element_name(name),
        make_head(b, Seq::empty()).head is Some,
        room(make_head(b, Seq::empty())),
    ensures
        ({
            let h = make_head(b, Seq::empty());
            let id = h.tree.nodes.len();
            let r = apply_start(b, name, attrs, sc);
            &&& r.tree.nodes.len() == id + 1
            &&& r.tree.nodes[id as int].kind == NodeKind::Element
            &&& r.tree.nodes[id as int].name == name
            &&& r.tree.nodes[id as int].attrs == attrs
            &&& r.tree.nodes[id as int].parent == h.head
            &&& r.tree.nodes[h.head->0 as int].children == h.tree.nodes[h.head->0 as int].children.push(
                id as usize,
            )
            &&& r.stack == if void_element_name(name) {
                h.stack
            } else {
                h.stack.push(id as usize)
            }
        }),
{
    lemma_head_names_not_frame(name);
    assert(is_head_content(name));
    assert(is_void(name) == void_element_name(name));
}


/// Elements whose content is raw text: markup and character references
/// inside are not recognized.
pub open spec fn raw_content_name(n: Seq<char>) -> bool {
    n == "script"@ || n == "style"@ || n == "xmp"@ || n == "iframe"@ || n == "noembed"@ || n
        == "noframes"@
}

/// Elements whose content is text with character references (escapable
/// raw text).
pub open spec fn escapable_raw_content_name(n: Seq<char>) -> bool {
    n == "title"@ || n == "textarea"@
}

/// The names of the elements with special content are distinct.
proof fn lemma_content_names_distinct()
    ensures
        "script"@ != "style"@,
        "script"@ != "xmp"@,
        "script"@ != "iframe"@,
        "script"@ != "noembed"@,
        "script"@ != "noframes"@,
        "script"@ != "title"@,
        "script"@ != "textarea"@,
        "script"@ != "plaintext"@,
        "script"@ != "pre"@,
        "script"@ != "listing"@,
        "style"@ != "xmp"@,
        "style"@ != "iframe"@,
        "style"@ != "noembed"@,
        "style"@ != "noframes"@,
        "style"@ != "title"@,
        "style"@ != "textarea"@,
        "style"@ != "plaintext"@,
        "style"@ != "pre"@,
        "style"@ != "listing"@,
        "xmp"@ != "iframe"@,
        "xmp"@ != "noembed"@,
        "xmp"@ != "noframes"@,
        "xmp"@ != "title"@,
        "xmp"@ != "textarea"@,
        "xmp"@ != "plaintext"@,
        "xmp"@ != "pre"@,
        "xmp"@ != "listing"@,
        "iframe"@ != "noembed"@,
        "iframe"@ != "noframes"@,
        "iframe"@ != "title"@,
        "iframe"@ != "textarea"@,
        "iframe"@ != "plaintext"@,
        "iframe"@ != "pre"@,
        "iframe"@ != "listing"@,
        "noembed"@ != "noframes"@,
        "noembed"@ != "title"@,
        "noembed"@ != "textarea"@,
        "noembed"@ != "plaintext"@,
        "noembed"@ != "pre"@,
        "noembed"@ != "listing"@,
        "noframes"@ != "title"@,
        "noframes"@ != "textarea"@,
        "noframes"@ != "plaintext"@,
        "noframes"@ != "pre"@,
        "noframes"@ != "listing"@,
        "title"@ != "textarea"@,
        "title"@ != "plaintext"@,
        "title"@ != "pre"@,
        "title"@ != "listing"@,
        "textarea"@ != "plaintext"@,
        "textarea"@ != "pre"@,
        "textarea"@ != "listing"@,
        "plaintext"@ != "pre"@,
        "plaintext"@ != "listing"@,
        "pre"@ != "listing"@,
{
    reveal_strlit("script");
    reveal_strlit("style");
    reveal_strlit("xmp");
    reveal_strlit("iframe");
    reveal_strlit("noembed");
    reveal_strlit("noframes");
    reveal_strlit("title");
    reveal_strlit("textarea");
    reveal_strlit("plaintext");
    reveal_strlit("pre");
    reveal_strlit("listing");
    assert("script"@.len() != "style"@.len());
    assert("script"@.len() != "xmp"@.len());
    assert("script"@[0] != "iframe"@[0]);
    assert("script"@.len() != "noembed"@.len());
    assert("script"@.len() != "noframes"@.len());
    assert("script"@.len() != "title"@.len());
    assert("script"@.len() != "textarea"@.len());
    assert("script"@.len() != "plaintext"@.len());
    assert("script"@.len() != "pre"@.len());
    assert("script"@.len() != "listing"@.len());
    assert("style"@.len() != "xmp"@.len());
    assert("style"@.len() != "iframe"@.len());
    assert("style"@.len() != "noembed"@.len());
    assert("style"@.len() != "noframes"@.len());
    assert("style"@[0] != "title"@[0]);
    assert("style"@.len() != "textarea"@.len());
    assert("style"@.len() != "plaintext"@.len());
    assert("style"@.len() != "pre"@.len());
    assert("style"@.len() != "listing"@.len());
    assert("xmp"@.len() != "iframe"@.len());
    assert("xmp"@.len() != "noembed"@.len());
    assert("xmp"@.len() != "noframes"@.len());
    assert("xmp"@.len() != "title"@.len());
    assert("xmp"@.len() != "textarea"@.len());
    assert("xmp"@.len() != "plaintext"@.len());
    assert("xmp"@[0] != "pre"@[0]);
    assert("xmp"@.len() != "listing"@.len());
    assert("iframe"@.len() != "noembed"@.len());
    assert("iframe"@.len() != "noframes"@.len());
    assert("iframe"@.len() != "title"@.len());
    assert("iframe"@.len() != "textarea"@.len());
    assert("iframe"@.len() != "plaintext"@.len());
    assert("iframe"@.len() != "pre"@.len());
    assert("iframe"@.len() != "listing"@.len());
    assert("noembed"@.len() != "noframes"@.len());
    assert("noembed"@.len() != "title"@.len());
    assert("noembed"@.len() != "textarea"@.len());
    assert("noembed"@.len() != "plaintext"@.len());
    assert("noembed"@.len() != "pre"@.len());
    assert("noembed"@[0] != "listing"@[0]);
    assert("noframes"@.len() != "title"@.len());
    assert("noframes"@[0] != "textarea"@[0]);
    assert("noframes"@.len() != "plaintext"@.len());
    assert("noframes"@.len() != "pre"@.len());
    assert("noframes"@.len() != "listing"@.len());
    assert("title"@.len() != "textarea"@.len());
    assert("title"@.len() != "plaintext"@.len());
    assert("title"@.len() != "pre"@.len());
    assert("title"@.len() != "listing"@.len());
    assert("textarea"@.len() != "plaintext"@.len());
    assert("textarea"@.len() != "pre"@.len());
    assert("textarea"@.len() != "listing"@.len());
    assert("plaintext"@.len() != "pre"@.len());
    assert("plaintext"@.len() != "listing"@.len());
    assert("pre"@.len() != "listing"@.len());
}

/// The search for an end tag stops at one, or at the end of the input.
proof fn lemma_find_end_tag(s: Seq<char>, i: int, name: Seq<char>)
    requires
        0 <= i <= s.len(),
    ensures
        i <= find_end_tag(s, i, name) <= s.len(),
        find_end_tag(s, i, name) == s.len() || end_tag_at(s, find_end_tag(s, i, name), name),
    decreases s.len() - i,
{
    if i < s.len() && !end_tag_at(s, i, name) {
        lemma_find_end_tag(s, i + 1, name);
    }
}

/// A start tag of an ordinary element is one token, and markup after it is
/// read as markup. After the start tag of a raw text element (`script`,
/// `style`, `xmp`, `iframe`, `noembed`, `noframes`) or an escapable raw
/// text element (`title`, `textarea`), everything up to its end tag (or
/// the end of the input) is at most one text token, and the tokenizer
/// goes on at that end tag; after `plaintext` everything to the end is
/// text.
pub proof fn law_raw_text_content(s: Seq<char>, i: int)
    requires
        0 <= i,
        i + 1 < s.len(),
    ensures
        ({
            let (toks, e) = start_tag(s, i);
            toks.len() > 0 ==> (toks[0] matches TokenV::StartTag(name, _, _) && {
                &&& !raw_content_name(name) && !escapable_raw_content_name(name) && name != "plaintext"@
                    ==> toks.len() == 1
                &&& raw_content_name(name) || escapable_raw_content_name(name) || name == "plaintext"@
                    ==> {
                    &&& toks.len() <= 2
                    &&& toks.len() == 2 ==> toks[1] is Text
                    &&& e == s.len() || end_tag_at(s, e, name)
                    &&& name == "plaintext"@ ==> e == s.len()
                }
                &&& raw_content_name(name) && toks.len() == 2 ==> exists|a: int|
                    0 <= a <= e && toks[1] == TokenV::Text(#[trigger] s.subrange(a, e))
            })
        }),
{
    let len = s.len() as int;
    let ne = crate::html_token::tag_name_end(s, i + 1);
    let name = crate::text::name_seq(s.subrange(i + 1, ne));
    match crate::html_token::attrs_from(s, ne, Seq::empty()) {
        None => {},
        Some((attrs, sc, e)) => {
            let e2 = if (name == "pre"@ || name == "listing"@ || name == "textarea"@) && e < len && s[e]
                == '\n' {
                e + 1
            } else {
                e
            };
            crate::html_token::lemma_attrs_from_end(s, ne, Seq::empty());
            lemma_content_names_distinct();
            lemma_find_end_tag(s, e2, name);
            let kind = crate::html_token::raw_kind(name);
            assert(raw_content_name(name) <==> kind == 1);
            assert(escapable_raw_content_name(name) <==> kind == 2);
            assert(name == "plaintext"@ <==> kind == 3);
            let tag = TokenV::StartTag(name, attrs, sc);
            if kind == 0 {
                assert(start_tag(s, i) == (seq![tag], e2));
            } else {
                let k = if kind == 3 {
                    len
                } else {
                    find_end_tag(s, e2, name)
                };
                let content = if kind == 2 {
                    decode(s, e2, k, false)
                } else {
                    s.subrange(e2, k)
                };
                assert(start_tag(s, i) == (seq![tag] + if content.len() > 0 {
                    seq![TokenV::Text(content)]
                } else {
                    Seq::<TokenV>::empty()
                }, k));
                if content.len() > 0 {
                    assert((seq![tag] + seq![TokenV::Text(content)])[1] == TokenV::Text(content));
                }
            }
        },
    }
}

} // verus!
