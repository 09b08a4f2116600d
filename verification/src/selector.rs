//! CSS selectors: the syntax tree, what it means for an element to match
//! one, and the executable matcher proved against that meaning.

use vstd::prelude::*;
use crate::dom::{NodeKind, NodeView, Tree, attr_value, child_index, preorder, preorder_from, opt_chars, wf_links, in_subtree};
use crate::text::{
    lower_seq, split_ascii_ws, has_prefix, has_suffix, has_infix, is_ascii_ws, vec_eq,
    to_lower_vec, starts_with, ends_with, contains_seq, split_ascii_ws_vec, ascii_ws,
};

verus! {

/// Attribute selector operators.
#[derive(Clone, Copy, PartialEq, Eq, Debug, Structural)]
pub enum AttrOp {
    /// `[a]`
    Exists,
    /// `[a=v]`
    Equals,
    /// `[a~=v]`
    Includes,
    /// `[a|=v]`
    DashMatch,
    /// `[a^=v]`
    Prefix,
    /// `[a$=v]`
    Suffix,
    /// `[a*=v]`
    Substring,
}

/// Combinators between compound selectors.
#[derive(Clone, Copy, PartialEq, Eq, Debug, Structural)]
pub enum Combinator {
    /// whitespace
    Descendant,
    /// `>`
    Child,
    /// `+`
    NextSibling,
    /// `~`
    SubsequentSibling,
}

/// Pseudo-classes: structural ones, and those that read an element's
/// name and attributes.
#[derive(Clone, Copy, PartialEq, Eq, Debug, Structural)]
pub enum PseudoKind {
    /// `:link`: an `a` or `area` element with an `href` attribute (no link
    /// counts as visited).
    Link,
    /// `:any-link`: as `:link`.
    AnyLink,
    /// `:checked`: a checkbox or radio `input` with a `checked` attribute,
    /// or an `option` with a `selected` attribute.
    Checked,
    /// `:disabled`: a form control with a `disabled` attribute.
    Disabled,
    /// `:enabled`: a form control without a `disabled` attribute.
    Enabled,
    /// A pseudo-class of user interaction or of time (`:hover`, `:focus`,
    /// `:active`, `:visited`, `:target` and the like): a parsed document has
    /// no such state, so nothing matches it.
    Dynamic,
    /// `:required`: an `input`, `select` or `textarea` with a `required`
    /// attribute.
    Required,
    /// `:optional`: an `input`, `select` or `textarea` without one.
    Optional,
    /// A pseudo-element such as `::before`: it stands for no element of
    /// the tree, so nothing matches it.
    PseudoElement,
    FirstChild,
    LastChild,
    OnlyChild,
    FirstOfType,
    LastOfType,
    OnlyOfType,
    Empty,
    Root,
    /// `:nth-child(an+b)`
    NthChild,
    /// `:nth-last-child(an+b)`
    NthLastChild,
    /// `:nth-of-type(an+b)`
    NthOfType,
    /// `:nth-last-of-type(an+b)`
    NthLastOfType,
}

/// A simple selector other than `:not(..)`.
pub enum Basic {
    Universal,
    /// Element name, in lower case.
    Type(Vec<char>),
    Id(Vec<char>),
    Class(Vec<char>),
    /// Attribute name (lower case), operator, value, ASCII case-insensitive
    /// value comparison.
    Attr(Vec<char>, AttrOp, Vec<char>, bool),
    /// Pseudo-class with its `a` and `b` for the `nth` forms.
    Pseudo(PseudoKind, i64, i64),
    /// `:lang(range)`.
    Lang(Vec<char>),
}

/// A simple selector.
pub enum Simple {
    Basic(Basic),
    /// `:not(..)` over a list of compound selectors.
    Not(Vec<Vec<Basic>>),
    /// `:is(..)` or `:where(..)` over a list of compound selectors.
    Is(Vec<Vec<Basic>>),
    /// `:has(..)` over a list of compound selectors, matched against the
    /// descendants.
    Has(Vec<Vec<Basic>>),
}

/// A complex selector: compound selectors joined by combinators;
/// `combinators[i]` stands between `compounds[i]` and `compounds[i + 1]`.
pub struct Complex {
    pub compounds: Vec<Vec<Simple>>,
    pub combinators: Vec<Combinator>,
}

/// Mathematical form of a [`Basic`].
pub enum BasicV {
    Universal,
    Type(Seq<char>),
    Id(Seq<char>),
    Class(Seq<char>),
    Attr(Seq<char>, AttrOp, Seq<char>, bool),
    Pseudo(PseudoKind, int, int),
    Lang(Seq<char>),
}

/// Mathematical form of a [`Simple`].
pub enum SimpleV {
    Basic(BasicV),
    Not(Seq<Seq<BasicV>>),
    Is(Seq<Seq<BasicV>>),
    Has(Seq<Seq<BasicV>>),
}

/// Mathematical form of a [`Complex`].
pub struct ComplexV {
    pub compounds: Seq<Seq<SimpleV>>,
    pub combinators: Seq<Combinator>,
}

impl View for Basic {
    type V = BasicV;

    open spec fn view(&self) -> BasicV {
        match self {
            Basic::Universal => BasicV::Universal,
            Basic::Type(t) => BasicV::Type(t@),
            Basic::Id(t) => BasicV::Id(t@),
            Basic::Class(t) => BasicV::Class(t@),
            Basic::Attr(n, o, v, ci) => BasicV::Attr(n@, *o, v@, *ci),
            Basic::Pseudo(k, a, b) => BasicV::Pseudo(*k, *a as int, *b as int),
            Basic::Lang(r) => BasicV::Lang(r@),
        }
    }
}

/// View of a list of compound selectors made of basic selectors.
pub open spec fn lists_view(list: Vec<Vec<Basic>>) -> Seq<Seq<BasicV>> {
    list@.map_values(|c: Vec<Basic>| basics_view(c))
}

/// View of a compound selector made of basic selectors.
pub open spec fn basics_view(c: Vec<Basic>) -> Seq<BasicV> {
    c@.map_values(|b: Basic| b@)
}

impl View for Simple {
    type V = SimpleV;

    open spec fn view(&self) -> SimpleV {
        match self {
            Simple::Basic(b) => SimpleV::Basic(b@),
            Simple::Not(list) => SimpleV::Not(lists_view(*list)),
            Simple::Is(list) => SimpleV::Is(lists_view(*list)),
            Simple::Has(list) => SimpleV::Has(lists_view(*list)),
        }
    }
}

/// View of a compound selector.
pub open spec fn compound_view(c: Vec<Simple>) -> Seq<SimpleV> {
    c@.map_values(|s: Simple| s@)
}

impl View for Complex {
    type V = ComplexV;

    open spec fn view(&self) -> ComplexV {
        ComplexV {
            compounds: self.compounds@.map_values(|c: Vec<Simple>| compound_view(c)),
            combinators: self.combinators@,
        }
    }
}

/// View of a selector list.
pub open spec fn list_view(l: Vec<Complex>) -> Seq<ComplexV> {
    l@.map_values(|c: Complex| c@)
}

/// A complex selector is well shaped: one combinator between each two
/// compounds.
pub open spec fn complex_shape(c: ComplexV) -> bool {
    c.compounds.len() >= 1 && c.combinators.len() + 1 == c.compounds.len()
}

// ---------------------------------------------------------------------------
// Meaning of selectors
// ---------------------------------------------------------------------------

/// `n` is an element of `d`.
pub open spec fn is_el(d: Seq<NodeView>, n: int) -> bool {
    0 <= n < d.len() && d[n].kind == NodeKind::Element
}

/// The ID attribute `id`.
pub open spec fn id_name() -> Seq<char> {
    seq!['i', 'd']
}

/// The attribute `class`.
pub open spec fn class_name() -> Seq<char> {
    seq!['c', 'l', 'a', 's', 's']
}

/// Value comparison of an attribute selector.
pub open spec fn attr_op_holds(op: AttrOp, val: Seq<char>, v: Seq<char>) -> bool {
    match op {
        AttrOp::Exists => true,
        AttrOp::Equals => val == v,
        AttrOp::Includes => v.len() > 0 && !(exists|i: int| 0 <= i < v.len() && is_ascii_ws(v[i]))
            && split_ascii_ws(val).contains(v),
        AttrOp::DashMatch => val == v || has_prefix(val, v.push('-')),
        AttrOp::Prefix => v.len() > 0 && has_prefix(val, v),
        AttrOp::Suffix => v.len() > 0 && has_suffix(val, v),
        AttrOp::Substring => v.len() > 0 && has_infix(val, v),
    }
}

/// Element `c` is counted when positions are taken among siblings: any
/// element, or only elements named `ty`.
pub open spec fn counted(d: Seq<NodeView>, c: int, ty: Option<Seq<char>>) -> bool {
    is_el(d, c) && (ty matches Some(t) ==> lower_seq(d[c].name) == t)
}

/// Number of counted children of `p` at positions `lo..hi`.
pub open spec fn count_range(d: Seq<NodeView>, p: int, lo: int, hi: int, ty: Option<Seq<char>>) -> int
    decreases hi - lo,
{
    if lo < hi {
        count_range(d, p, lo, hi - 1, ty) + if counted(d, d[p].children[hi - 1] as int, ty) {
            1int
        } else {
            0int
        }
    } else {
        0
    }
}

/// 1-based position of `n` among the counted siblings, from the start.
pub open spec fn pos_from_start(d: Seq<NodeView>, n: int, ty: Option<Seq<char>>) -> int {
    match d[n].parent {
        Some(p) => count_range(d, p as int, 0, child_index(d, n), ty) + 1,
        None => 1,
    }
}

/// 1-based position of `n` among the counted siblings, from the end.
pub open spec fn pos_from_end(d: Seq<NodeView>, n: int, ty: Option<Seq<char>>) -> int {
    match d[n].parent {
        Some(p) => count_range(
            d,
            p as int,
            child_index(d, n) + 1,
            d[p as int].children.len() as int,
            ty,
        ) + 1,
        None => 1,
    }
}

/// `pos` is `a*k + b` for some `k >= 0`.
pub open spec fn nth_holds(a: int, b: int, pos: int) -> bool {
    exists|k: int| k >= 0 && #[trigger] (a * k) + b == pos
}

/// The type filter of the of-type pseudo-classes: the element's own name.
pub open spec fn own_type(d: Seq<NodeView>, n: int) -> Option<Seq<char>> {
    Some(lower_seq(d[n].name))
}

pub open spec fn pseudo_holds(d: Seq<NodeView>, n: int, k: PseudoKind, a: int, b: int) -> bool {
    match k {
        PseudoKind::Link | PseudoKind::AnyLink => (lower_seq(d[n].name) == "a"@ || lower_seq(d[n].name)
            == "area"@) && attr_value(d, n, "href"@) is Some,
        PseudoKind::Checked => (lower_seq(d[n].name) == "input"@ && (attr_value(d, n, "type"@) matches Some(
            ty,
        ) && (lower_seq(ty) == "checkbox"@ || lower_seq(ty) == "radio"@)) && attr_value(d, n, "checked"@)
            is Some) || (lower_seq(d[n].name) == "option"@ && attr_value(d, n, "selected"@) is Some),
        PseudoKind::Disabled => is_form_control(lower_seq(d[n].name)) && attr_value(d, n, "disabled"@)
            is Some,
        PseudoKind::Enabled => is_form_control(lower_seq(d[n].name)) && attr_value(d, n, "disabled"@)
            is None,
        PseudoKind::PseudoElement | PseudoKind::Dynamic => false,
        PseudoKind::Required => is_input_control(lower_seq(d[n].name)) && attr_value(d, n, "required"@)
            is Some,
        PseudoKind::Optional => is_input_control(lower_seq(d[n].name)) && attr_value(d, n, "required"@)
            is None,
        PseudoKind::FirstChild => pos_from_start(d, n, None) == 1,
        PseudoKind::LastChild => pos_from_end(d, n, None) == 1,
        PseudoKind::OnlyChild => pos_from_start(d, n, None) == 1 && pos_from_end(d, n, None) == 1,
        PseudoKind::FirstOfType => pos_from_start(d, n, own_type(d, n)) == 1,
        PseudoKind::LastOfType => pos_from_end(d, n, own_type(d, n)) == 1,
        PseudoKind::OnlyOfType => pos_from_start(d, n, own_type(d, n)) == 1 && pos_from_end(
            d,
            n,
            own_type(d, n),
        ) == 1,
        PseudoKind::Empty => forall|i: int|
            0 <= i < d[n].children.len() ==> !is_el(d, #[trigger] d[n].children[i] as int) && !(
            d[d[n].children[i] as int].kind == NodeKind::Text && d[d[n].children[i] as int].data.len()
                > 0),
        PseudoKind::Root => d[n].parent matches Some(p) && d[p as int].kind == NodeKind::Document,
        PseudoKind::NthChild => nth_holds(a, b, pos_from_start(d, n, None)),
        PseudoKind::NthLastChild => nth_holds(a, b, pos_from_end(d, n, None)),
        PseudoKind::NthOfType => nth_holds(a, b, pos_from_start(d, n, own_type(d, n))),
        PseudoKind::NthLastOfType => nth_holds(a, b, pos_from_end(d, n, own_type(d, n))),
    }
}

/// The language of node `n`: the `lang` attribute of the nearest element,
/// from `n` up, that has one; none when no element there has one.
pub open spec fn lang_of(d: Seq<NodeView>, n: int) -> Option<Seq<char>>
    decreases n,
{
    if 0 <= n < d.len() {
        if d[n].kind == NodeKind::Element && attr_value(d, n, "lang"@) is Some {
            attr_value(d, n, "lang"@)
        } else {
            match d[n].parent {
                Some(p) => if p < n {
                    lang_of(d, p as int)
                } else {
                    None
                },
                None => None,
            }
        }
    } else {
        None
    }
}

/// Language `v` is in range `r`: equal to it, or a subtag of it (`r`
/// followed by `-`), ASCII case-insensitively.
pub open spec fn lang_matches(v: Seq<char>, r: Seq<char>) -> bool {
    let lv = lower_seq(v);
    let lr = lower_seq(r);
    lv == lr || (lv.len() > lr.len() && lv.subrange(0, lr.len() as int) == lr && lv[lr.len() as int] == '-')
}

/// Elements that a `required` attribute makes required.
pub open spec fn is_input_control(name: Seq<char>) -> bool {
    name == "input"@ || name == "select"@ || name == "textarea"@
}

/// Elements that a `disabled` attribute disables.
pub open spec fn is_form_control(name: Seq<char>) -> bool {
    name == "button"@ || name == "input"@ || name == "select"@ || name == "textarea"@ || name
        == "optgroup"@ || name == "option"@ || name == "fieldset"@
}

/// Element `n` matches a basic selector.
pub open spec fn basic_holds(d: Seq<NodeView>, n: int, s: BasicV) -> bool {
    match s {
        BasicV::Universal => true,
        BasicV::Type(t) => lower_seq(d[n].name) == t,
        BasicV::Id(v) => attr_value(d, n, id_name()) == Some(v),
        BasicV::Class(v) => attr_value(d, n, class_name()) matches Some(c) && split_ascii_ws(
            c,
        ).contains(v),
        BasicV::Attr(name, op, v, ci) => attr_value(d, n, name) matches Some(val) && if ci {
            attr_op_holds(op, lower_seq(val), lower_seq(v))
        } else {
            attr_op_holds(op, val, v)
        },
        BasicV::Pseudo(k, a, b) => pseudo_holds(d, n, k, a, b),
        BasicV::Lang(r) => lang_of(d, n) matches Some(v) && lang_matches(v, r),
    }
}

/// Element `n` matches every selector of a compound of basic selectors.
pub open spec fn basics_hold(d: Seq<NodeView>, n: int, c: Seq<BasicV>) -> bool {
    is_el(d, n) && forall|i: int| 0 <= i < c.len() ==> basic_holds(d, n, #[trigger] c[i])
}

pub open spec fn simple_holds(d: Seq<NodeView>, n: int, s: SimpleV) -> bool {
    match s {
        SimpleV::Basic(b) => basic_holds(d, n, b),
        SimpleV::Not(list) => none_hold(d, n, list),
        SimpleV::Is(list) => !none_hold(d, n, list),
        SimpleV::Has(list) => exists|m: int|
            #![trigger in_subtree(d, n, m)]
            0 <= m < d.len() && m != n && in_subtree(d, n, m) && !none_hold(d, m, list),
    }
}

/// No compound of `list` matches node `n`.
pub open spec fn none_hold(d: Seq<NodeView>, n: int, list: Seq<Seq<BasicV>>) -> bool {
    forall|i: int| 0 <= i < list.len() ==> !basics_hold(d, n, #[trigger] list[i])
}

/// Node `n` is an element matching every simple selector of compound `c`.
pub open spec fn compound_holds(d: Seq<NodeView>, n: int, c: Seq<SimpleV>) -> bool {
    is_el(d, n) && forall|i: int| 0 <= i < c.len() ==> simple_holds(d, n, #[trigger] c[i])
}

/// The nearest element before child position `i` of `p`.
pub open spec fn prev_element(d: Seq<NodeView>, p: int, i: int) -> Option<usize>
    decreases i,
{
    if 0 < i <= d[p].children.len() {
        if is_el(d, d[p].children[i - 1] as int) {
            Some(d[p].children[i - 1])
        } else {
            prev_element(d, p, i - 1)
        }
    } else {
        None
    }
}

/// Node `n` matches compounds `0..=k` of `cx`, compound `k` at `n` itself.
pub open spec fn match_at(d: Seq<NodeView>, n: int, cx: ComplexV, k: int) -> bool
    decreases k, 0int, n,
{
    if 0 <= k < cx.compounds.len() && 0 <= n < d.len() {
        compound_holds(d, n, cx.compounds[k]) && (k == 0 || (k - 1 < cx.combinators.len()
            && related_match(d, n, cx, k - 1)))
    } else {
        false
    }
}

/// The nodes related to `n` by combinator `j` of `cx` include one matching
/// compounds `0..=j`.
pub open spec fn related_match(d: Seq<NodeView>, n: int, cx: ComplexV, j: int) -> bool
    decreases j, 2int, 0int,
{
    if 0 <= j && 0 <= n < d.len() {
        match d[n].parent {
            Some(p) => if 0 <= p < n {
                match cx.combinators[j] {
                    Combinator::Child => match_at(d, p as int, cx, j),
                    Combinator::Descendant => ancestor_match(d, p as int, cx, j),
                    Combinator::NextSibling => match prev_element(d, p as int, child_index(d, n)) {
                        Some(s) => match_at(d, s as int, cx, j),
                        None => false,
                    },
                    Combinator::SubsequentSibling => sibling_match(
                        d,
                        p as int,
                        child_index(d, n),
                        cx,
                        j,
                    ),
                }
            } else {
                false
            },
            None => false,
        }
    } else {
        false
    }
}

/// `m` or one of its ancestors matches compounds `0..=j`.
pub open spec fn ancestor_match(d: Seq<NodeView>, m: int, cx: ComplexV, j: int) -> bool
    decreases j, 1int, m,
{
    if 0 <= m < d.len() && 0 <= j {
        match_at(d, m, cx, j) || match d[m].parent {
            Some(q) => 0 <= q < m && ancestor_match(d, q as int, cx, j),
            None => false,
        }
    } else {
        false
    }
}

/// One of the children of `p` before position `i` matches compounds `0..=j`.
pub open spec fn sibling_match(d: Seq<NodeView>, p: int, i: int, cx: ComplexV, j: int) -> bool
    decreases j, 1int, i,
{
    if 0 <= j && 0 <= p < d.len() && 0 < i <= d[p].children.len() {
        match_at(d, d[p].children[i - 1] as int, cx, j) || sibling_match(d, p, i - 1, cx, j)
    } else {
        false
    }
}

/// Node `n` matches the complex selector `cx`.
pub open spec fn complex_holds(d: Seq<NodeView>, n: int, cx: ComplexV) -> bool {
    match_at(d, n, cx, cx.compounds.len() - 1)
}

/// Node `n` matches one of the complex selectors of `list`.
pub open spec fn list_holds(d: Seq<NodeView>, n: int, list: Seq<ComplexV>) -> bool {
    exists|i: int| 0 <= i < list.len() && complex_holds(d, n, #[trigger] list[i])
}

// ---------------------------------------------------------------------------
// Executable matching
// ---------------------------------------------------------------------------

/// The value attribute `name` of node `n` reads as.
pub fn attr_of(t: &Tree, n: usize, name: &Vec<char>) -> (r: Option<Vec<char>>)
    requires
        t.wf(),
        n < t.nodes().len(),
    ensures
        r matches Some(v) ==> attr_value(t.nodes(), n as int, name@) == Some(v@),
        r is None ==> attr_value(t.nodes(), n as int, name@) is None,
{
    match t.find_attr(n, name) {
        Some(i) => {
            let a = &t.nodes[n].attrs[i];
            assert(a@ == t.nodes()[n as int].attrs[i as int]);
            match &a.value {
                Some(v) => Some(v.clone()),
                None => Some(Vec::new()),
            }
        },
        None => None,
    }
}

fn has_ascii_ws(v: &Vec<char>) -> (r: bool)
    ensures
        r == exists|i: int| 0 <= i < v@.len() && is_ascii_ws(v@[i]),
{
    let mut i: usize = 0;
    while i < v.len()
        invariant
            i <= v.len(),
            forall|j: int| 0 <= j < i ==> !is_ascii_ws(v@[j]),
        decreases v.len() - i,
    {
        if ascii_ws(v[i]) {
            return true;
        }
        i = i + 1;
    }
    false
}

fn word_in(words: &Vec<Vec<char>>, w: &Vec<char>) -> (r: bool)
    ensures
        r == words@.map_values(|x: Vec<char>| x@).contains(w@),
{
    let ghost ws = words@.map_values(|x: Vec<char>| x@);
    let mut i: usize = 0;
    while i < words.len()
        invariant
            i <= words.len(),
            ws == words@.map_values(|x: Vec<char>| x@),
            forall|j: int| 0 <= j < i ==> ws[j] != w@,
        decreases words.len() - i,
    {
        assert(ws[i as int] == words@[i as int]@);
        if vec_eq(&words[i], w) {
            assert(ws[i as int] == w@);
            return true;
        }
        i = i + 1;
    }
    false
}

fn attr_op_exec(op: AttrOp, val: &Vec<char>, v: &Vec<char>) -> (r: bool)
    ensures
        r == attr_op_holds(op, val@, v@),
{
    match op {
        AttrOp::Exists => true,
        AttrOp::Equals => vec_eq(val, v),
        AttrOp::Includes => {
            if v.len() == 0 || has_ascii_ws(v) {
                false
            } else {
                let words = split_ascii_ws_vec(val);
                word_in(&words, v)
            }
        },
        AttrOp::DashMatch => {
            if vec_eq(val, v) {
                true
            } else {
                let mut dashed = v.clone();
                assert(dashed@ =~= v@);
                dashed.push('-');
                starts_with(val, &dashed)
            }
        },
        AttrOp::Prefix => v.len() > 0 && starts_with(val, v),
        AttrOp::Suffix => v.len() > 0 && ends_with(val, v),
        AttrOp::Substring => v.len() > 0 && contains_seq(val, v),
    }
}

fn counted_exec(t: &Tree, c: usize, ty: &Option<Vec<char>>) -> (r: bool)
    requires
        t.wf(),
        c < t.nodes().len(),
    ensures
        r == counted(t.nodes(), c as int, crate::dom::opt_chars(*ty)),
{
    if t.kind(c) != NodeKind::Element {
        return false;
    }
    match ty {
        Some(name) => {
            let lowered = to_lower_vec(&t.nodes[c].name);
            vec_eq(&lowered, name)
        },
        None => true,
    }
}

fn count_range_exec(t: &Tree, p: usize, lo: usize, hi: usize, ty: &Option<Vec<char>>) -> (r: usize)
    requires
        t.wf(),
        p < t.nodes().len(),
        lo <= hi <= t.nodes()[p as int].children.len(),
    ensures
        r == count_range(t.nodes(), p as int, lo as int, hi as int, crate::dom::opt_chars(*ty)),
        r <= hi - lo,
{
    let ghost d = t.nodes();
    let ghost tv = crate::dom::opt_chars(*ty);
    let mut count: usize = 0;
    let mut i: usize = lo;
    while i < hi
        invariant
            t.wf(),
            d == t.nodes(),
            p < d.len(),
            lo <= i <= hi <= d[p as int].children.len(),
            tv == crate::dom::opt_chars(*ty),
            count == count_range(d, p as int, lo as int, i as int, tv),
            count <= i - lo,
        decreases hi - i,
    {
        let c = t.child(p, i);
        assert(d[p as int].children[i as int] == c);
        assert(count_range(d, p as int, lo as int, i + 1, tv) == count_range(
            d,
            p as int,
            lo as int,
            i as int,
            tv,
        ) + if counted(d, c as int, tv) {
            1int
        } else {
            0int
        });
        if counted_exec(t, c, ty) {
            count = count + 1;
        }
        i = i + 1;
    }
    count
}

fn pos_start_exec(t: &Tree, n: usize, ty: &Option<Vec<char>>) -> (r: usize)
    requires
        t.wf(),
        n < t.nodes().len(),
    ensures
        r == pos_from_start(t.nodes(), n as int, crate::dom::opt_chars(*ty)),
{
    match t.parent(n) {
        Some(p) => {
            let i = t.index_in_parent(n);
            let len = t.child_count(p);
            assert(i < len);
            count_range_exec(t, p, 0, i, ty) + 1
        },
        None => 1,
    }
}

fn pos_end_exec(t: &Tree, n: usize, ty: &Option<Vec<char>>) -> (r: usize)
    requires
        t.wf(),
        n < t.nodes().len(),
    ensures
        r == pos_from_end(t.nodes(), n as int, crate::dom::opt_chars(*ty)),
{
    match t.parent(n) {
        Some(p) => {
            let i = t.index_in_parent(n);
            let len = t.child_count(p);
            let c = count_range_exec(t, p, i + 1, len, ty);
            assert(c <= len - (i + 1));
            c + 1
        },
        None => 1,
    }
}

proof fn lemma_nth_pos(a: int, b: int, pos: int)
    requires
        a > 0,
    ensures
        nth_holds(a, b, pos) == (pos >= b && (pos - b) % a == 0),
{
    if pos >= b && (pos - b) % a == 0 {
        vstd::arithmetic::div_mod::lemma_fundamental_div_mod(pos - b, a);
        let k = (pos - b) / a;
        assert(a * k + b == pos);
        assert(k >= 0) by (nonlinear_arith)
            requires
                a > 0,
                a * k == pos - b,
                pos - b >= 0,
        ;
    }
    if nth_holds(a, b, pos) {
        let k = choose|k: int| k >= 0 && #[trigger] (a * k) + b == pos;
        assert(a * k >= 0) by (nonlinear_arith)
            requires
                a > 0,
                k >= 0,
        ;
        vstd::arithmetic::div_mod::lemma_mod_multiples_basic(k, a);
        assert(k * a == a * k) by (nonlinear_arith);
    }
}

fn nth_exec(a: i64, b: i64, pos: usize) -> (r: bool)
    ensures
        r == nth_holds(a as int, b as int, pos as int),
{
    let p: i128 = pos as i128;
    let bb: i128 = b as i128;
    if a == 0 {
        proof {
            if nth_holds(a as int, b as int, pos as int) {
                let k = choose|k: int| k >= 0 && #[trigger] ((a as int) * k) + b == pos;
                assert((a as int) * k == 0);
            }
            if p == bb {
                assert((a as int) * 0 + b == pos);
            }
        }
        p == bb
    } else if a > 0 {
        let aa: i128 = a as i128;
        proof {
            lemma_nth_pos(a as int, b as int, pos as int);
        }
        p >= bb && (p - bb) % aa == 0
    } else {
        let aa: i128 = -(a as i128);
        proof {
            lemma_nth_pos(-(a as int), -(b as int), -(pos as int));
            if nth_holds(a as int, b as int, pos as int) {
                let k = choose|k: int| k >= 0 && #[trigger] ((a as int) * k) + b == pos;
                assert((-(a as int)) * k == -((a as int) * k)) by (nonlinear_arith);
                assert(nth_holds(-(a as int), -(b as int), -(pos as int)));
            }
            if nth_holds(-(a as int), -(b as int), -(pos as int)) {
                let k = choose|k: int| k >= 0 && #[trigger] ((-(a as int)) * k) + (-(b as int))
                    == -(pos as int);
                assert((-(a as int)) * k == -((a as int) * k)) by (nonlinear_arith);
                assert(nth_holds(a as int, b as int, pos as int));
            }
        }
        bb - p >= 0 && (bb - p) % aa == 0
    }
}

/// The lower-cased name of element `n` is `kw`.
fn name_is(t: &Tree, n: usize, kw: &str) -> (r: bool)
    requires
        n < t.nodes().len(),
    ensures
        r == (lower_seq(t.nodes()[n as int].name) == kw@),
{
    assert(t.nodes[n as int]@ == t.nodes()[n as int]);
    let lowered = to_lower_vec(&t.nodes[n].name);
    let k = crate::text::str_to_vec(kw);
    vec_eq(&lowered, &k)
}

/// Element `n` has attribute `key`.
fn attr_present(t: &Tree, n: usize, key: &str) -> (r: bool)
    requires
        t.wf(),
        n < t.nodes().len(),
    ensures
        r == (attr_value(t.nodes(), n as int, key@) is Some),
{
    let k = crate::text::str_to_vec(key);
    attr_of(t, n, &k).is_some()
}

fn form_control_exec(t: &Tree, n: usize) -> (r: bool)
    requires
        n < t.nodes().len(),
    ensures
        r == is_form_control(lower_seq(t.nodes()[n as int].name)),
{
    name_is(t, n, "button") || name_is(t, n, "input") || name_is(t, n, "select") || name_is(
        t,
        n,
        "textarea",
    ) || name_is(t, n, "optgroup") || name_is(t, n, "option") || name_is(t, n, "fieldset")
}

fn checked_exec(t: &Tree, n: usize) -> (r: bool)
    requires
        t.wf(),
        n < t.nodes().len(),
    ensures
        r == pseudo_holds(t.nodes(), n as int, PseudoKind::Checked, 0, 0),
{
    if name_is(t, n, "input") {
        let key = crate::text::str_to_vec("type");
        let box_or_radio = match attr_of(t, n, &key) {
            Some(ty) => {
                let low = to_lower_vec(&ty);
                let c = crate::text::str_to_vec("checkbox");
                let r = crate::text::str_to_vec("radio");
                vec_eq(&low, &c) || vec_eq(&low, &r)
            },
            None => false,
        };
        if box_or_radio && attr_present(t, n, "checked") {
            return true;
        }
    }
    name_is(t, n, "option") && attr_present(t, n, "selected")
}

#[verifier::loop_isolation(false)]
fn pseudo_exec(t: &Tree, n: usize, k: PseudoKind, a: i64, b: i64) -> (r: bool)
    requires
        t.wf(),
        n < t.nodes().len(),
        t.nodes()[n as int].kind == NodeKind::Element,
    ensures
        r == pseudo_holds(t.nodes(), n as int, k, a as int, b as int),
{
    let ghost d = t.nodes();
    let none: Option<Vec<char>> = None;
    match k {
        PseudoKind::Link | PseudoKind::AnyLink => (name_is(t, n, "a") || name_is(t, n, "area"))
            && attr_present(t, n, "href"),
        PseudoKind::Checked => checked_exec(t, n),
        PseudoKind::Disabled => form_control_exec(t, n) && attr_present(t, n, "disabled"),
        PseudoKind::Enabled => form_control_exec(t, n) && !attr_present(t, n, "disabled"),
        PseudoKind::PseudoElement | PseudoKind::Dynamic => false,
        PseudoKind::Required => (name_is(t, n, "input") || name_is(t, n, "select") || name_is(
            t,
            n,
            "textarea",
        )) && attr_present(t, n, "required"),
        PseudoKind::Optional => (name_is(t, n, "input") || name_is(t, n, "select") || name_is(
            t,
            n,
            "textarea",
        )) && !attr_present(t, n, "required"),
        PseudoKind::FirstChild => pos_start_exec(t, n, &none) == 1,
        PseudoKind::LastChild => pos_end_exec(t, n, &none) == 1,
        PseudoKind::OnlyChild => pos_start_exec(t, n, &none) == 1 && pos_end_exec(t, n, &none) == 1,
        PseudoKind::Root => match t.parent(n) {
            Some(p) => t.kind(p) == NodeKind::Document,
            None => false,
        },
        PseudoKind::Empty => {
            let len = t.child_count(n);
            let mut i: usize = 0;
            while i < len
                invariant
                    t.wf(),
                    d == t.nodes(),
                    n < d.len(),
                    len == d[n as int].children.len(),
                    i <= len,
                    forall|j: int|
                        0 <= j < i ==> !is_el(d, #[trigger] d[n as int].children[j] as int) && !(
                        d[d[n as int].children[j] as int].kind == NodeKind::Text
                            && d[d[n as int].children[j] as int].data.len() > 0),
                decreases len - i,
            {
                let c = t.child(n, i);
                assert(d[n as int].children[i as int] == c);
                if t.kind(c) == NodeKind::Element {
                    assert(is_el(d, d[n as int].children[i as int] as int));
                    return false;
                }
                if t.kind(c) == NodeKind::Text && t.nodes[c].data.len() > 0 {
                    assert(t.nodes@[c as int]@ == d[c as int]);
                    return false;
                }
                assert(t.nodes@[c as int]@ == d[c as int]);
                i = i + 1;
            }
            true
        },
        PseudoKind::NthChild => nth_exec(a, b, pos_start_exec(t, n, &none)),
        PseudoKind::NthLastChild => nth_exec(a, b, pos_end_exec(t, n, &none)),
        _ => {
            let ty = Some(to_lower_vec(&t.nodes[n].name));
            assert(crate::dom::opt_chars(ty) == own_type(d, n as int));
            match k {
                PseudoKind::FirstOfType => pos_start_exec(t, n, &ty) == 1,
                PseudoKind::LastOfType => pos_end_exec(t, n, &ty) == 1,
                PseudoKind::OnlyOfType => pos_start_exec(t, n, &ty) == 1 && pos_end_exec(t, n, &ty)
                    == 1,
                PseudoKind::NthOfType => nth_exec(a, b, pos_start_exec(t, n, &ty)),
                _ => nth_exec(a, b, pos_end_exec(t, n, &ty)),
            }
        },
    }
}

/// The language of node `n`.
fn lang_exec(t: &Tree, n: usize) -> (r: Option<Vec<char>>)
    requires
        t.wf(),
        n < t.nodes().len(),
    ensures
        opt_chars(r) == lang_of(t.nodes(), n as int),
    decreases n,
{
    let ghost d = t.nodes();
    if t.kind(n) == NodeKind::Element {
        let key = crate::text::str_to_vec("lang");
        match attr_of(t, n, &key) {
            Some(v) => {
                return Some(v);
            },
            None => {},
        }
    }
    match t.parent(n) {
        Some(p) => {
            assert(wf_links(d));
            assert(p < n);
            lang_exec(t, p)
        },
        None => None,
    }
}

fn lang_matches_exec(v: &Vec<char>, r: &Vec<char>) -> (b: bool)
    ensures
        b == lang_matches(v@, r@),
{
    let lv = to_lower_vec(v);
    let lr = to_lower_vec(r);
    if vec_eq(&lv, &lr) {
        return true;
    }
    if lv.len() > lr.len() && lv[lr.len()] == '-' {
        let mut i: usize = 0;
        while i < lr.len()
            invariant
                i <= lr.len(),
                lr.len() < lv.len(),
                lv@ == lower_seq(v@),
                lr@ == lower_seq(r@),
                lv@ != lr@,
                forall|j: int| 0 <= j < i ==> lv@[j] == lr@[j],
            decreases lr.len() - i,
        {
            if lv[i] != lr[i] {
                assert(lv@.subrange(0, lr.len() as int)[i as int] != lr@[i as int]);
                assert(lv@.subrange(0, lr.len() as int) != lr@);
                assert(lv@ != lr@);
                return false;
            }
            i = i + 1;
        }
        assert(lv@.subrange(0, lr.len() as int) =~= lr@);
        return true;
    }
    false
}

/// Element `n` matches basic selector `s`.
pub fn basic_exec(t: &Tree, n: usize, s: &Basic) -> (r: bool)
    requires
        t.wf(),
        n < t.nodes().len(),
        t.nodes()[n as int].kind == NodeKind::Element,
    ensures
        r == basic_holds(t.nodes(), n as int, s@),
{
    match s {
        Basic::Universal => true,
        Basic::Type(name) => {
            let lowered = to_lower_vec(&t.nodes[n].name);
            vec_eq(&lowered, name)
        },
        Basic::Id(v) => {
            let key = vec!['i', 'd'];
            assert(key@ =~= id_name());
            match attr_of(t, n, &key) {
                Some(val) => vec_eq(&val, v),
                None => false,
            }
        },
        Basic::Class(v) => {
            let key = vec!['c', 'l', 'a', 's', 's'];
            assert(key@ =~= class_name());
            match attr_of(t, n, &key) {
                Some(val) => {
                    let words = split_ascii_ws_vec(&val);
                    word_in(&words, v)
                },
                None => false,
            }
        },
        Basic::Attr(name, op, v, ci) => {
            match attr_of(t, n, name) {
                Some(val) => {
                    if *ci {
                        let lv = to_lower_vec(&val);
                        let lw = to_lower_vec(v);
                        attr_op_exec(*op, &lv, &lw)
                    } else {
                        attr_op_exec(*op, &val, v)
                    }
                },
                None => false,
            }
        },
        Basic::Pseudo(k, a, b) => pseudo_exec(t, n, *k, *a, *b),
        Basic::Lang(r) => match lang_exec(t, n) {
            Some(v) => lang_matches_exec(&v, r),
            None => false,
        },
    }
}

/// Node `n` is an element matching every selector of `c`.
pub fn basics_exec(t: &Tree, n: usize, c: &Vec<Basic>) -> (r: bool)
    requires
        t.wf(),
        n < t.nodes().len(),
    ensures
        r == basics_hold(t.nodes(), n as int, basics_view(*c)),
{
    if t.kind(n) != NodeKind::Element {
        return false;
    }
    let ghost cv = basics_view(*c);
    let mut i: usize = 0;
    while i < c.len()
        invariant
            t.wf(),
            n < t.nodes().len(),
            t.nodes()[n as int].kind == NodeKind::Element,
            cv == basics_view(*c),
            i <= c.len(),
            forall|j: int| 0 <= j < i ==> basic_holds(t.nodes(), n as int, #[trigger] cv[j]),
        decreases c.len() - i,
    {
        assert(cv[i as int] == c@[i as int]@);
        if !basic_exec(t, n, &c[i]) {
            return false;
        }
        i = i + 1;
    }
    true
}

fn simple_exec(t: &Tree, n: usize, s: &Simple) -> (r: bool)
    requires
        t.wf(),
        n < t.nodes().len(),
        t.nodes()[n as int].kind == NodeKind::Element,
    ensures
        r == simple_holds(t.nodes(), n as int, s@),
{
    match s {
        Simple::Basic(b) => basic_exec(t, n, b),
        Simple::Not(list) => !any_exec(t, n, list),
        Simple::Is(list) => any_exec(t, n, list),
        Simple::Has(list) => has_simple_exec(t, n, list),
    }
}

fn has_simple_exec(t: &Tree, n: usize, list: &Vec<Vec<Basic>>) -> (r: bool)
    requires
        t.wf(),
        n < t.nodes().len(),
    ensures
        r == simple_holds(t.nodes(), n as int, SimpleV::Has(lists_view(*list))),
{
    let ghost lv = lists_view(*list);
    let r = has_exec(t, n, list);
    proof {
        let d = t.nodes();
        if r {
            let m = choose|m: int|
                0 <= m < d.len() && m != n && #[trigger] in_subtree(d, n as int, m) && !none_hold(d, m, lv);
            assert(!none_hold(d, m, lv));
            assert(0 <= m < d.len() && m != n && in_subtree(d, n as int, m));
            assert(simple_holds(d, n as int, SimpleV::Has(lv)));
        } else {
            assert(!simple_holds(d, n as int, SimpleV::Has(lv)));
        }
    }
    r
}

/// Some compound of `list` matches node `n`.
fn any_exec(t: &Tree, n: usize, list: &Vec<Vec<Basic>>) -> (r: bool)
    requires
        t.wf(),
        n < t.nodes().len(),
    ensures
        r == !none_hold(t.nodes(), n as int, lists_view(*list)),
{
    let ghost lv = lists_view(*list);
    let mut i: usize = 0;
    while i < list.len()
        invariant
            t.wf(),
            n < t.nodes().len(),
            lv == lists_view(*list),
            i <= list.len(),
            forall|j: int| 0 <= j < i ==> !basics_hold(t.nodes(), n as int, #[trigger] lv[j]),
        decreases list.len() - i,
    {
        assert(lv[i as int] == basics_view(list@[i as int]));
        if basics_exec(t, n, &list[i]) {
            assert(basics_hold(t.nodes(), n as int, lv[i as int]));
            return true;
        }
        i = i + 1;
    }
    false
}

/// Some node strictly below `n` matches a compound of `list`.
fn has_exec(t: &Tree, n: usize, list: &Vec<Vec<Basic>>) -> (r: bool)
    requires
        t.wf(),
        n < t.nodes().len(),
    ensures
        r == exists|m: int|
            0 <= m < t.nodes().len() && m != n && #[trigger] in_subtree(t.nodes(), n as int, m)
                && !none_hold(t.nodes(), m, lists_view(*list)),
{
    let ghost d = t.nodes();
    let ghost lv = lists_view(*list);
    let mut pre: Vec<usize> = Vec::new();
    t.collect_preorder(n, &mut pre);
    assert(pre@ =~= preorder(d, n as int));
    proof {
        crate::properties::lemma_preorder_no_dup(d, n as int);
        assert forall|k: int| 0 <= k < pre@.len() implies #[trigger] pre@[k] < d.len() && in_subtree(
            d,
            n as int,
            pre@[k] as int,
        ) by {
            assert(pre@.contains(pre@[k]));
            crate::properties::lemma_preorder_members(d, n as int, pre@[k]);
        }
    }
    assert(pre@[0] == n);
    let mut k: usize = 1;
    while k < pre.len()
        invariant
            t.wf(),
            d == t.nodes(),
            n < d.len(),
            lv == lists_view(*list),
            pre@ == preorder(d, n as int),
            pre@.no_duplicates(),
            pre@.len() >= 1,
            pre@[0] == n,
            1 <= k <= pre@.len(),
            forall|j: int| 0 <= j < pre@.len() ==> #[trigger] pre@[j] < d.len() && in_subtree(d, n as int, pre@[j] as int),
            forall|j: int| 1 <= j < k ==> none_hold(d, #[trigger] pre@[j] as int, lv),
        decreases pre.len() - k,
    {
        let m = pre[k];
        assert(pre@[k as int] == m);
        assert(m != n) by {
            assert(pre@[0] != pre@[k as int]);
        }
        if any_exec(t, m, list) {
            assert(in_subtree(d, n as int, m as int));
            assert(!none_hold(d, m as int, lv));
            return true;
        }
        k = k + 1;
    }
    proof {
        assert forall|m: int|
            0 <= m < d.len() && m != n && in_subtree(d, n as int, m) implies #[trigger] none_hold(d, m, lv) by {
            crate::properties::lemma_subtree_in_preorder(d, n as int, m);
            let j = choose|j: int| 0 <= j < pre@.len() && pre@[j] == m as usize;
            assert(j != 0);
        }
    }
    false
}

/// Node `n` is an element matching every simple selector of `c`.
pub fn compound_exec(t: &Tree, n: usize, c: &Vec<Simple>) -> (r: bool)
    requires
        t.wf(),
        n < t.nodes().len(),
    ensures
        r == compound_holds(t.nodes(), n as int, compound_view(*c)),
{
    if t.kind(n) != NodeKind::Element {
        return false;
    }
    let ghost cv = compound_view(*c);
    let mut i: usize = 0;
    while i < c.len()
        invariant
            t.wf(),
            n < t.nodes().len(),
            t.nodes()[n as int].kind == NodeKind::Element,
            cv == compound_view(*c),
            i <= c.len(),
            forall|j: int| 0 <= j < i ==> simple_holds(t.nodes(), n as int, #[trigger] cv[j]),
        decreases c.len() - i,
    {
        assert(cv[i as int] == c@[i as int]@);
        if !simple_exec(t, n, &c[i]) {
            return false;
        }
        i = i + 1;
    }
    true
}

/// Every complex selector of the list is well shaped.
pub open spec fn list_shape(l: Seq<ComplexV>) -> bool {
    forall|i: int| 0 <= i < l.len() ==> complex_shape(#[trigger] l[i])
}

/// Node `n` matches compounds `0..=k` of `cx`, compound `k` at `n`.
#[verifier::loop_isolation(false)]
pub fn match_at_exec(t: &Tree, n: usize, cx: &Complex, k: usize) -> (r: bool)
    requires
        t.wf(),
        n < t.nodes().len(),
        complex_shape(cx@),
        k < cx@.compounds.len(),
    ensures
        r == match_at(t.nodes(), n as int, cx@, k as int),
    decreases k,
{
    let ghost d = t.nodes();
    let ghost c = cx@;
    assert(c.compounds[k as int] == compound_view(cx.compounds@[k as int]));
    if !compound_exec(t, n, &cx.compounds[k]) {
        return false;
    }
    if k == 0 {
        return true;
    }
    let j = k - 1;
    let p = match t.parent(n) {
        Some(p) => p,
        None => {
            return false;
        },
    };
    assert(d[n as int].parent == Some(p));
    assert(p < n);
    match cx.combinators[j] {
        Combinator::Child => match_at_exec(t, p, cx, j),
        Combinator::Descendant => {
            let mut m = p;
            loop
                invariant
                    m < d.len(),
                    ancestor_match(d, p as int, c, j as int) == ancestor_match(
                        d,
                        m as int,
                        c,
                        j as int,
                    ),
                decreases m,
            {
                if match_at_exec(t, m, cx, j) {
                    return true;
                }
                match t.parent(m) {
                    Some(q) => {
                        m = q;
                    },
                    None => {
                        return false;
                    },
                }
            }
        },
        Combinator::NextSibling => {
            let i = t.index_in_parent(n);
            let mut q = i;
            while q > 0
                invariant
                    q <= i < d[p as int].children.len(),
                    prev_element(d, p as int, i as int) == prev_element(d, p as int, q as int),
                decreases q,
            {
                let ch = t.child(p, q - 1);
                if t.kind(ch) == NodeKind::Element {
                    return match_at_exec(t, ch, cx, j);
                }
                q = q - 1;
            }
            false
        },
        Combinator::SubsequentSibling => {
            let i = t.index_in_parent(n);
            let mut q = i;
            while q > 0
                invariant
                    q <= i < d[p as int].children.len(),
                    sibling_match(d, p as int, i as int, c, j as int) == sibling_match(
                        d,
                        p as int,
                        q as int,
                        c,
                        j as int,
                    ),
                decreases q,
            {
                let ch = t.child(p, q - 1);
                if match_at_exec(t, ch, cx, j) {
                    return true;
                }
                q = q - 1;
            }
            false
        },
    }
}

/// Node `n` matches the complex selector `cx`.
pub fn complex_exec(t: &Tree, n: usize, cx: &Complex) -> (r: bool)
    requires
        t.wf(),
        n < t.nodes().len(),
        complex_shape(cx@),
    ensures
        r == complex_holds(t.nodes(), n as int, cx@),
{
    match_at_exec(t, n, cx, cx.compounds.len() - 1)
}

/// Node `n` matches one of the complex selectors of `list`.
pub fn list_exec(t: &Tree, n: usize, list: &Vec<Complex>) -> (r: bool)
    requires
        t.wf(),
        n < t.nodes().len(),
        list_shape(list_view(*list)),
    ensures
        r == list_holds(t.nodes(), n as int, list_view(*list)),
{
    let ghost lv = list_view(*list);
    let mut i: usize = 0;
    while i < list.len()
        invariant
            t.wf(),
            n < t.nodes().len(),
            lv == list_view(*list),
            list_shape(lv),
            i <= list.len(),
            forall|j: int| 0 <= j < i ==> !complex_holds(t.nodes(), n as int, #[trigger] lv[j]),
        decreases list.len() - i,
    {
        assert(lv[i as int] == list@[i as int]@);
        assert(complex_shape(lv[i as int]));
        if complex_exec(t, n, &list[i]) {
            assert(complex_holds(t.nodes(), n as int, lv[i as int]));
            return true;
        }
        i = i + 1;
    }
    false
}

/// The nodes of `s` matching `list`, in order.
pub open spec fn matching(d: Seq<NodeView>, s: Seq<usize>, list: Seq<ComplexV>) -> Seq<usize> {
    s.filter(|m: usize| list_holds(d, m as int, list))
}

/// The nodes below `root` (not `root` itself) that match `list`, in
/// document order.
pub open spec fn select_below(d: Seq<NodeView>, root: int, list: Seq<ComplexV>) -> Seq<usize> {
    matching(d, preorder_from(d, root, 0), list)
}

/// Appends the nodes of the subtree of `n` matching `list`, in document
/// order.
fn collect_matches(t: &Tree, n: usize, list: &Vec<Complex>, out: &mut Vec<usize>)
    requires
        t.wf(),
        n < t.nodes().len(),
        list_shape(list_view(*list)),
    ensures
        final(out)@ == old(out)@ + matching(t.nodes(), preorder(t.nodes(), n as int), list_view(*list)),
    decreases t.nodes().len() - n,
{
    let ghost d = t.nodes();
    let ghost lv = list_view(*list);
    let ghost pred = |m: usize| list_holds(d, m as int, lv);
    let ghost start = out@;
    proof {
        Seq::filter_distributes_over_add(seq![n], preorder_from(d, n as int, 0), pred);
        reveal_with_fuel(Seq::<_>::filter, 2);
    }
    if list_exec(t, n, list) {
        out.push(n);
    }
    assert(out@ == start + seq![n].filter(pred));
    let len = t.child_count(n);
    let mut i: usize = 0;
    while i < len
        invariant
            t.wf(),
            d == t.nodes(),
            lv == list_view(*list),
            list_shape(lv),
            pred == (|m: usize| list_holds(d, m as int, lv)),
            n < d.len(),
            len == d[n as int].children.len(),
            i <= len,
            start + seq![n].filter(pred) + preorder_from(d, n as int, 0).filter(pred) == out@
                + preorder_from(d, n as int, i as int).filter(pred),
        decreases len - i,
    {
        let c = t.child(n, i);
        assert(n < c < d.len());
        assert(preorder_from(d, n as int, i as int) == preorder(d, c as int) + preorder_from(
            d,
            n as int,
            i + 1,
        ));
        proof {
            Seq::filter_distributes_over_add(
                preorder(d, c as int),
                preorder_from(d, n as int, i + 1),
                pred,
            );
        }
        collect_matches(t, c, list, out);
        i = i + 1;
    }
    assert(preorder_from(d, n as int, i as int) =~= Seq::<usize>::empty());
    assert(preorder_from(d, n as int, i as int).filter(pred) =~= Seq::<usize>::empty()) by {
        reveal_with_fuel(Seq::<_>::filter, 1);
    }
    assert(preorder(d, n as int) == seq![n] + preorder_from(d, n as int, 0));
}

/// The nodes strictly below `root` that match `list`, in document order.
pub fn select_below_exec(t: &Tree, root: usize, list: &Vec<Complex>) -> (r: Vec<usize>)
    requires
        t.wf(),
        root < t.nodes().len(),
        list_shape(list_view(*list)),
    ensures
        r@ == select_below(t.nodes(), root as int, list_view(*list)),
{
    let ghost d = t.nodes();
    let ghost lv = list_view(*list);
    let ghost pred = |m: usize| list_holds(d, m as int, lv);
    let mut out: Vec<usize> = Vec::new();
    let len = t.child_count(root);
    let mut i: usize = 0;
    while i < len
        invariant
            t.wf(),
            d == t.nodes(),
            lv == list_view(*list),
            list_shape(lv),
            pred == (|m: usize| list_holds(d, m as int, lv)),
            root < d.len(),
            len == d[root as int].children.len(),
            i <= len,
            preorder_from(d, root as int, 0).filter(pred) == out@ + preorder_from(
                d,
                root as int,
                i as int,
            ).filter(pred),
        decreases len - i,
    {
        let c = t.child(root, i);
        assert(root < c < d.len());
        assert(preorder_from(d, root as int, i as int) == preorder(d, c as int) + preorder_from(
            d,
            root as int,
            i + 1,
        ));
        proof {
            Seq::filter_distributes_over_add(
                preorder(d, c as int),
                preorder_from(d, root as int, i + 1),
                pred,
            );
        }
        collect_matches(t, c, list, &mut out);
        i = i + 1;
    }
    assert(preorder_from(d, root as int, i as int) =~= Seq::<usize>::empty());
    assert(preorder_from(d, root as int, i as int).filter(pred) =~= Seq::<usize>::empty()) by {
        reveal_with_fuel(Seq::<_>::filter, 1);
    }
    assert(out@ =~= out@ + Seq::<usize>::empty());
    out
}

} // verus!
