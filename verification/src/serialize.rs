//! HTML serialization of nodes, after the HTML standard's fragment
//! serialization: start tags with their attributes quoted, escaped text,
//! raw text inside script-like elements, no end tag for void elements.

use vstd::prelude::*;
use crate::document::HtmlDocument;
use crate::dom::{AttrView, Attribute, NodeKind, NodeView, Tree};
use crate::html_build::{is_void, is_void_exec};
use crate::node::{Node, all_ascii_ws};
use crate::text::{str_to_vec, vec_eq, vec_to_string};
use crate::html_token::{public_key, system_key};
use crate::dom::attr_text;

verus! {

broadcast use crate::document::group_doc_reveal;

/// Elements whose text children are written as they are, unescaped.
pub open spec fn is_raw_text(n: Seq<char>) -> bool {
    n == "style"@ || n == "script"@ || n == "xmp"@ || n == "iframe"@ || n == "noembed"@
        || n == "noframes"@ || n == "plaintext"@
}

/// How one character is written in text (`attr` false) or in a quoted
/// attribute value (`attr` true).
pub open spec fn escape_char(c: char, attr: bool) -> Seq<char> {
    if c == '&' {
        "&amp;"@
    } else if c == '\u{a0}' {
        "&nbsp;"@
    } else if attr && c == '"' {
        "&quot;"@
    } else if !attr && c == '<' {
        "&lt;"@
    } else if !attr && c == '>' {
        "&gt;"@
    } else {
        seq![c]
    }
}

/// `t` with every character escaped.
pub open spec fn escape(t: Seq<char>, attr: bool) -> Seq<char>
    decreases t.len(),
{
    if t.len() == 0 {
        Seq::empty()
    } else {
        escape(t.drop_last(), attr) + escape_char(t.last(), attr)
    }
}

/// One attribute of a start tag: ` name="value"`, with an empty value for
/// an attribute written without one.
pub open spec fn attr_html(x: AttrView, raw: bool) -> Seq<char> {
    match x.value {
        Some(v) => " "@ + x.name + "=\""@ + (if raw {
            v
        } else {
            escape(v, true)
        }) + "\""@,
        None => " "@ + x.name + "=\"\""@,
    }
}

/// The public and system identifiers of a document type, as a full
/// document type declaration writes them after the name.
pub open spec fn doctype_ids_html(a: Seq<AttrView>) -> Seq<char> {
    if a.len() > 0 && a[0].name == public_key() {
        " PUBLIC \""@ + attr_text(a[0]) + "\""@ + (if a.len() > 1 {
            " \""@ + attr_text(a[1]) + "\""@
        } else {
            Seq::empty()
        })
    } else if a.len() > 0 && a[0].name == system_key() {
        " SYSTEM \""@ + attr_text(a[0]) + "\""@
    } else {
        Seq::empty()
    }
}

fn attr_value_chars(x: &Attribute) -> (r: Vec<char>)
    ensures
        r@ == attr_text(x@),
{
    match &x.value {
        Some(v) => v.clone(),
        None => Vec::new(),
    }
}

fn push_doctype_ids(out: &mut Vec<char>, a: &Vec<Attribute>)
    ensures
        final(out)@ == old(out)@ + doctype_ids_html(a@.map_values(|x: Attribute| x@)),
{
    let ghost start = out@;
    let ghost av = a@.map_values(|x: Attribute| x@);
    proof {
        reveal_strlit("public");
        reveal_strlit("system");
        assert("public"@ =~= public_key());
        assert("system"@ =~= system_key());
    }
    if a.len() > 0 {
        assert(av[0] == a@[0]@);
        let pk = str_to_vec("public");
        let sk = str_to_vec("system");
        if vec_eq(&a[0].name, &pk) {
            push_str(out, " PUBLIC \"");
            push_chars(out, &attr_value_chars(&a[0]));
            push_str(out, "\"");
            if a.len() > 1 {
                assert(av[1] == a@[1]@);
                push_str(out, " \"");
                push_chars(out, &attr_value_chars(&a[1]));
                push_str(out, "\"");
            }
        } else if vec_eq(&a[0].name, &sk) {
            push_str(out, " SYSTEM \"");
            push_chars(out, &attr_value_chars(&a[0]));
            push_str(out, "\"");
        }
    }
    assert(out@ =~= start + doctype_ids_html(av));
}

/// The attributes of a start tag.
pub open spec fn attrs_html(a: Seq<AttrView>) -> Seq<char>
    decreases a.len(),
{
    if a.len() == 0 {
        Seq::empty()
    } else {
        attrs_html(a.drop_last()) + attr_html(a.last(), false)
    }
}

/// The node `n` and its subtree as HTML.
pub open spec fn outer_html_of(d: Seq<NodeView>, n: int) -> Seq<char>
    decreases d.len() - n, 1nat, 0nat,
{
    if 0 <= n < d.len() {
        let v = d[n];
        match v.kind {
            NodeKind::Element => "<"@ + v.name + attrs_html(v.attrs) + ">"@ + if is_void(v.name) {
                Seq::empty()
            } else {
                children_html(d, n, 0) + "</"@ + v.name + ">"@
            },
            NodeKind::Text => {
                let raw = match v.parent {
                    Some(p) => 0 <= p < d.len() && d[p as int].kind == NodeKind::Element
                        && is_raw_text(d[p as int].name),
                    None => false,
                };
                if raw {
                    v.data
                } else {
                    escape(v.data, false)
                }
            },
            NodeKind::Comment => "<!--"@ + v.data + "-->"@,
            NodeKind::DocumentType => "<!DOCTYPE "@ + v.name + ">"@,
            NodeKind::Document => children_html(d, n, 0),
        }
    } else {
        Seq::empty()
    }
}

/// The children of `n` from child `i` on, as HTML.
pub open spec fn children_html(d: Seq<NodeView>, n: int, i: int) -> Seq<char>
    decreases d.len() - n, 0nat, d[n].children.len() - i,
{
    if 0 <= n < d.len() && 0 <= i < d[n].children.len() && n < d[n].children[i] < d.len() {
        outer_html_of(d, d[n].children[i] as int) + children_html(d, n, i + 1)
    } else {
        Seq::empty()
    }
}

fn is_raw_text_exec(n: &Vec<char>) -> (r: bool)
    ensures
        r == is_raw_text(n@),
{
    vec_eq(n, &str_to_vec("style")) || vec_eq(n, &str_to_vec("script")) || vec_eq(
        n,
        &str_to_vec("xmp"),
    ) || vec_eq(n, &str_to_vec("iframe")) || vec_eq(n, &str_to_vec("noembed")) || vec_eq(
        n,
        &str_to_vec("noframes"),
    ) || vec_eq(n, &str_to_vec("plaintext"))
}

fn push_str(out: &mut Vec<char>, s: &str)
    ensures
        final(out)@ == old(out)@ + s@,
{
    let mut v = str_to_vec(s);
    out.append(&mut v);
}

fn push_chars(out: &mut Vec<char>, s: &Vec<char>)
    ensures
        final(out)@ == old(out)@ + s@,
{
    let mut v = s.clone();
    assert(v@ =~= s@);
    out.append(&mut v);
}

fn push_escaped(out: &mut Vec<char>, t: &Vec<char>, attr: bool)
    ensures
        final(out)@ == old(out)@ + escape(t@, attr),
{
    let ghost start = out@;
    let mut i: usize = 0;
    while i < t.len()
        invariant
            i <= t.len(),
            out@ == start + escape(t@.subrange(0, i as int), attr),
        decreases t.len() - i,
    {
        let c = t[i];
        if c == '&' {
            push_str(out, "&amp;");
        } else if c == '\u{a0}' {
            push_str(out, "&nbsp;");
        } else if attr && c == '"' {
            push_str(out, "&quot;");
        } else if !attr && c == '<' {
            push_str(out, "&lt;");
        } else if !attr && c == '>' {
            push_str(out, "&gt;");
        } else {
            out.push(c);
        }
        assert(t@.subrange(0, i + 1).drop_last() =~= t@.subrange(0, i as int));
        i = i + 1;
        assert(out@ =~= start + escape(t@.subrange(0, i as int), attr));
    }
    assert(t@.subrange(0, i as int) =~= t@);
}

fn push_attr(out: &mut Vec<char>, x: &Attribute, raw: bool)
    ensures
        final(out)@ == old(out)@ + attr_html(x@, raw),
{
    let ghost start = out@;
    push_str(out, " ");
    push_chars(out, &x.name);
    match &x.value {
        Some(v) => {
            push_str(out, "=\"");
            if raw {
                push_chars(out, v);
            } else {
                push_escaped(out, v, true);
            }
            push_str(out, "\"");
        },
        None => {
            push_str(out, "=\"\"");
        },
    }
    assert(out@ =~= start + attr_html(x@, raw));
}

fn push_attrs(out: &mut Vec<char>, a: &Vec<Attribute>)
    ensures
        final(out)@ == old(out)@ + attrs_html(a@.map_values(|x: Attribute| x@)),
{
    let ghost start = out@;
    let ghost av = a@.map_values(|x: Attribute| x@);
    let mut i: usize = 0;
    while i < a.len()
        invariant
            i <= a.len(),
            av == a@.map_values(|x: Attribute| x@),
            out@ == start + attrs_html(av.subrange(0, i as int)),
        decreases a.len() - i,
    {
        let x = &a[i];
        assert(av[i as int] == x@);
        push_attr(out, x, false);
        assert(av.subrange(0, i + 1).drop_last() =~= av.subrange(0, i as int));
        assert(av.subrange(0, i + 1).last() == x@);
        i = i + 1;
        assert(out@ =~= start + attrs_html(av.subrange(0, i as int)));
    }
    assert(av.subrange(0, i as int) =~= av);
}

/// Appends the HTML of `n` and its subtree.
fn push_outer(t: &Tree, n: usize, out: &mut Vec<char>)
    requires
        t.wf(),
        n < t.nodes().len(),
    ensures
        final(out)@ == old(out)@ + outer_html_of(t.nodes(), n as int),
    decreases t.nodes().len() - n, 1nat,
{
    let ghost d = t.nodes();
    let ghost start = out@;
    let v = &t.nodes[n];
    assert(v@ == d[n as int]);
    match v.kind {
        NodeKind::Element => {
            push_str(out, "<");
            push_chars(out, &v.name);
            push_attrs(out, &v.attrs);
            push_str(out, ">");
            if !is_void_exec(&v.name) {
                push_children(t, n, out);
                push_str(out, "</");
                push_chars(out, &v.name);
                push_str(out, ">");
            }
            assert(out@ =~= start + outer_html_of(d, n as int));
        },
        NodeKind::Text => {
            let raw = match v.parent {
                Some(p) => {
                    assert(p < n);
                    t.nodes[p].kind == NodeKind::Element && is_raw_text_exec(&t.nodes[p].name)
                },
                None => false,
            };
            if raw {
                push_chars(out, &v.data);
            } else {
                push_escaped(out, &v.data, false);
            }
        },
        NodeKind::Comment => {
            push_str(out, "<!--");
            push_chars(out, &v.data);
            push_str(out, "-->");
            assert(out@ =~= start + outer_html_of(d, n as int));
        },
        NodeKind::DocumentType => {
            push_str(out, "<!DOCTYPE ");
            push_chars(out, &v.name);
            push_str(out, ">");
            assert(out@ =~= start + outer_html_of(d, n as int));
        },
        NodeKind::Document => {
            push_children(t, n, out);
        },
    }
}

/// Appends the HTML of the children of `n`.
fn push_children(t: &Tree, n: usize, out: &mut Vec<char>)
    requires
        t.wf(),
        n < t.nodes().len(),
    ensures
        final(out)@ == old(out)@ + children_html(t.nodes(), n as int, 0),
    decreases t.nodes().len() - n, 0nat,
{
    let ghost d = t.nodes();
    let ghost start = out@;
    let len = t.nodes[n].children.len();
    let mut i: usize = 0;
    while i < len
        invariant
            t.wf(),
            d == t.nodes(),
            n < d.len(),
            len == d[n as int].children.len(),
            i <= len,
            start + children_html(d, n as int, 0) == out@ + children_html(d, n as int, i as int),
        decreases len - i,
    {
        let c = t.nodes[n].children[i];
        assert(d[n as int].children[i as int] == c);
        assert(n < c < d.len());
        assert(children_html(d, n as int, i as int) == outer_html_of(d, c as int) + children_html(
            d,
            n as int,
            i + 1,
        ));
        push_outer(t, c, out);
        i = i + 1;
    }
    assert(children_html(d, n as int, i as int) =~= Seq::<char>::empty());
    assert(out@ =~= start + children_html(d, n as int, 0));
}

impl Node {
    /// Returns the outer HTML of this node: the node itself and its
    /// descendants.
    pub fn outer_html(&self, doc: &HtmlDocument) -> (r: String)
        requires
            doc.wf(),
            doc.has(*self),
        ensures
            r@ == outer_html_of(doc.nodes(), self.index()),
    {
        let mut out: Vec<char> = Vec::new();
        push_outer(&doc.tree, self.idx, &mut out);
        assert(out@ =~= outer_html_of(doc.nodes(), self.index()));
        vec_to_string(&out)
    }

    /// Returns the inner HTML of this node: its children, serialized one
    /// after the other.
    pub fn inner_html(&self, doc: &HtmlDocument) -> (r: String)
        requires
            doc.wf(),
            doc.has(*self),
        ensures
            r@ == children_html(doc.nodes(), self.index(), 0),
    {
        let mut out: Vec<char> = Vec::new();
        push_children(&doc.tree, self.idx, &mut out);
        assert(out@ =~= children_html(doc.nodes(), self.index(), 0));
        vec_to_string(&out)
    }
}

/// Options controlling pretty-printed serialization.
#[derive(Debug, Clone, Copy, Default)]
pub struct SerializeOpts {
    /// Initial indentation level (two spaces per level). Default 0.
    pub indent: usize,
    /// Skip text nodes containing only whitespace.
    pub skip_ws_nodes: bool,
    /// Exclude comment nodes from output.
    pub skip_comment: bool,
    /// Serialize text/attribute values without HTML escaping.
    pub raw: bool,
    /// Omit closing tags for non-void elements.
    pub without_closing: bool,
    /// Include namespace prefixes in serialized tag names; the document
    /// model holds HTML elements only, which carry no prefix.
    pub tag_with_ns: bool,
    /// Write text and comments as they are: no indentation, quotes or line
    /// break around them.
    pub without_text_indent: bool,
    /// Serialize the full document type declaration, with its public and
    /// system identifiers.
    pub full_doctype: bool,
    /// Ask for the html5lib test-suite tree format; this serializer has no
    /// such format, and the option leaves the output unchanged.
    pub html5test: bool,
}

/// Bit of each option in the serializer's flag word.
pub open spec fn flag(on: bool, bit: u32) -> u32 {
    if on {
        bit
    } else {
        0
    }
}

impl SerializeOpts {
    /// The options as the serializer's flag word: skip white-space nodes
    /// 0x01, skip comments 0x02, raw 0x04, without closing tags 0x08, tag
    /// with namespace 0x10, without text indentation 0x20, full doctype
    /// 0x40, test format 0x80.
    pub fn to_c_flags(&self) -> (r: u32)
        ensures
            r == flag(self.skip_ws_nodes, 0x01) + flag(self.skip_comment, 0x02) + flag(self.raw, 0x04)
                + flag(self.without_closing, 0x08) + flag(self.tag_with_ns, 0x10) + flag(
                self.without_text_indent,
                0x20,
            ) + flag(self.full_doctype, 0x40) + flag(self.html5test, 0x80),
    {
        let mut flags: u32 = 0;
        if self.skip_ws_nodes {
            flags = flags + 0x01;
        }
        if self.skip_comment {
            flags = flags + 0x02;
        }
        if self.raw {
            flags = flags + 0x04;
        }
        if self.without_closing {
            flags = flags + 0x08;
        }
        if self.tag_with_ns {
            flags = flags + 0x10;
        }
        if self.without_text_indent {
            flags = flags + 0x20;
        }
        if self.full_doctype {
            flags = flags + 0x40;
        }
        if self.html5test {
            flags = flags + 0x80;
        }
        flags
    }
}

/// Indentation of `level`: two spaces per level.
pub open spec fn pad(level: nat) -> Seq<char>
    decreases level,
{
    if level == 0 {
        Seq::empty()
    } else {
        pad((level - 1) as nat) + "  "@
    }
}

/// The attributes of a start tag, values escaped unless `raw`.
pub open spec fn attrs_pretty(a: Seq<AttrView>, raw: bool) -> Seq<char>
    decreases a.len(),
{
    if a.len() == 0 {
        Seq::empty()
    } else {
        attrs_pretty(a.drop_last(), raw) + attr_html(a.last(), raw)
    }
}

/// Text node `n` sits in an element whose text is written unescaped.
pub open spec fn in_raw_text(d: Seq<NodeView>, n: int) -> bool {
    match d[n].parent {
        Some(p) => 0 <= p < d.len() && d[p as int].kind == NodeKind::Element && is_raw_text(
            d[p as int].name,
        ),
        None => false,
    }
}

/// The node `n` and its subtree pretty-printed at indentation `level`: one
/// line per tag, text in double quotes on its own line, children one level
/// deeper than their parent.
pub open spec fn pretty_html(d: Seq<NodeView>, n: int, o: SerializeOpts, level: nat) -> Seq<char>
    decreases d.len() - n, 1nat, 0nat,
{
    if 0 <= n < d.len() {
        let v = d[n];
        match v.kind {
            NodeKind::Element => pad(level) + "<"@ + v.name + attrs_pretty(v.attrs, o.raw) + ">\n"@
                + if is_void(v.name) {
                Seq::empty()
            } else {
                pretty_children(d, n, 0, o, level + 1) + if o.without_closing {
                    Seq::empty()
                } else {
                    pad(level) + "</"@ + v.name + ">\n"@
                }
            },
            NodeKind::Text => {
                let body = if o.raw || in_raw_text(d, n) {
                    v.data
                } else {
                    escape(v.data, false)
                };
                if o.skip_ws_nodes && all_ascii_ws(v.data) {
                    Seq::empty()
                } else if o.without_text_indent {
                    body
                } else {
                    pad(level) + "\""@ + body + "\"\n"@
                }
            },
            NodeKind::Comment => if o.skip_comment {
                Seq::empty()
            } else if o.without_text_indent {
                "<!--"@ + v.data + "-->"@
            } else {
                pad(level) + "<!--"@ + v.data + "-->\n"@
            },
            NodeKind::DocumentType => pad(level) + "<!DOCTYPE "@ + v.name + (if o.full_doctype {
                doctype_ids_html(v.attrs)
            } else {
                Seq::empty()
            }) + ">\n"@,
            NodeKind::Document => pretty_children(d, n, 0, o, level),
        }
    } else {
        Seq::empty()
    }
}

/// The children of `n` from child `i` on, pretty-printed at `level`.
pub open spec fn pretty_children(d: Seq<NodeView>, n: int, i: int, o: SerializeOpts, level: nat) -> Seq<
    char,
>
    decreases d.len() - n, 0nat, d[n].children.len() - i,
{
    if 0 <= n < d.len() && 0 <= i < d[n].children.len() && n < d[n].children[i] < d.len() {
        pretty_html(d, d[n].children[i] as int, o, level) + pretty_children(d, n, i + 1, o, level)
    } else {
        Seq::empty()
    }
}

fn push_pad(out: &mut Vec<char>, level: usize)
    ensures
        final(out)@ == old(out)@ + pad(level as nat),
{
    let ghost start = out@;
    let mut k: usize = 0;
    while k < level
        invariant
            k <= level,
            out@ == start + pad(k as nat),
        decreases level - k,
    {
        push_str(out, "  ");
        k = k + 1;
        assert(out@ =~= start + pad(k as nat));
    }
}

fn push_attrs_pretty(out: &mut Vec<char>, a: &Vec<Attribute>, raw: bool)
    ensures
        final(out)@ == old(out)@ + attrs_pretty(a@.map_values(|x: Attribute| x@), raw),
{
    let ghost start = out@;
    let ghost av = a@.map_values(|x: Attribute| x@);
    let mut i: usize = 0;
    while i < a.len()
        invariant
            i <= a.len(),
            av == a@.map_values(|x: Attribute| x@),
            out@ == start + attrs_pretty(av.subrange(0, i as int), raw),
        decreases a.len() - i,
    {
        let x = &a[i];
        assert(av[i as int] == x@);
        push_attr(out, x, raw);
        assert(av.subrange(0, i + 1).drop_last() =~= av.subrange(0, i as int));
        assert(av.subrange(0, i + 1).last() == x@);
        i = i + 1;
        assert(out@ =~= start + attrs_pretty(av.subrange(0, i as int), raw));
    }
    assert(av.subrange(0, i as int) =~= av);
}

fn all_ws_chars(s: &Vec<char>) -> (r: bool)
    ensures
        r == all_ascii_ws(s@),
{
    crate::node::all_ws_vec(s)
}

/// Appends the pretty-printed HTML of `n` and its subtree.
fn push_pretty(t: &Tree, n: usize, o: &SerializeOpts, level: usize, out: &mut Vec<char>)
    requires
        t.wf(),
        n < t.nodes().len(),
        level + t.nodes().len() - n < usize::MAX,
    ensures
        final(out)@ == old(out)@ + pretty_html(t.nodes(), n as int, *o, level as nat),
    decreases t.nodes().len() - n, 2nat,
{
    match t.nodes[n].kind {
        NodeKind::Element => push_pretty_element(t, n, o, level, out),
        NodeKind::Text => push_pretty_text(t, n, o, level, out),
        NodeKind::Comment => push_pretty_comment(t, n, o, level, out),
        NodeKind::DocumentType => {
            let ghost start = out@;
            push_pad(out, level);
            push_str(out, "<!DOCTYPE ");
            push_chars(out, &t.nodes[n].name);
            assert(t.nodes@[n as int]@ == t.nodes()[n as int]);
            if o.full_doctype {
                push_doctype_ids(out, &t.nodes[n].attrs);
            }
            push_str(out, ">\n");
            assert(out@ =~= start + pretty_html(t.nodes(), n as int, *o, level as nat));
        },
        NodeKind::Document => {
            push_pretty_children(t, n, o, level, out);
        },
    }
}

fn push_pretty_element(t: &Tree, n: usize, o: &SerializeOpts, level: usize, out: &mut Vec<char>)
    requires
        t.wf(),
        n < t.nodes().len(),
        t.nodes()[n as int].kind == NodeKind::Element,
        level + t.nodes().len() - n < usize::MAX,
    ensures
        final(out)@ == old(out)@ + pretty_html(t.nodes(), n as int, *o, level as nat),
    decreases t.nodes().len() - n, 1nat,
{
    let ghost d = t.nodes();
    let ghost start = out@;
    let v = &t.nodes[n];
    assert(v@ == d[n as int]);
    let ghost name = d[n as int].name;
    let ghost head = pad(level as nat) + "<"@ + name + attrs_pretty(d[n as int].attrs, o.raw)
        + ">\n"@;
    let ghost close = if o.without_closing {
        Seq::empty()
    } else {
        pad(level as nat) + "</"@ + name + ">\n"@
    };
    let ghost tail = if is_void(name) {
        Seq::empty()
    } else {
        pretty_children(d, n as int, 0, *o, (level + 1) as nat) + close
    };
    assert(pretty_html(d, n as int, *o, level as nat) == head + tail);
    push_pad(out, level);
    push_str(out, "<");
    push_chars(out, &v.name);
    push_attrs_pretty(out, &v.attrs, o.raw);
    push_str(out, ">\n");
    assert(out@ =~= start + head);
    if !is_void_exec(&v.name) {
        push_pretty_children(t, n, o, level + 1, out);
        let ghost mid = out@;
        if !o.without_closing {
            push_pad(out, level);
            push_str(out, "</");
            push_chars(out, &v.name);
            push_str(out, ">\n");
        }
        assert(out@ =~= mid + close);
    }
    assert(out@ =~= start + (head + tail));
}

fn push_pretty_text(t: &Tree, n: usize, o: &SerializeOpts, level: usize, out: &mut Vec<char>)
    requires
        t.wf(),
        n < t.nodes().len(),
        t.nodes()[n as int].kind == NodeKind::Text,
    ensures
        final(out)@ == old(out)@ + pretty_html(t.nodes(), n as int, *o, level as nat),
{
    let ghost d = t.nodes();
    let ghost start = out@;
    let v = &t.nodes[n];
    assert(v@ == d[n as int]);
    assert(crate::dom::wf_links(d));
    assert(d[n as int].parent == v.parent);
    let raw = o.raw || match v.parent {
        Some(p) => {
            assert(p < n);
            t.nodes[p].kind == NodeKind::Element && is_raw_text_exec(&t.nodes[p].name)
        },
        None => false,
    };
    assert(raw == (o.raw || in_raw_text(d, n as int)));
    if o.skip_ws_nodes && all_ws_chars(&v.data) {
    } else {
        if !o.without_text_indent {
            push_pad(out, level);
            push_str(out, "\"");
        }
        if raw {
            push_chars(out, &v.data);
        } else {
            push_escaped(out, &v.data, false);
        }
        if !o.without_text_indent {
            push_str(out, "\"\n");
        }
    }
    assert(out@ =~= start + pretty_html(d, n as int, *o, level as nat));
}

fn push_pretty_comment(t: &Tree, n: usize, o: &SerializeOpts, level: usize, out: &mut Vec<char>)
    requires
        t.wf(),
        n < t.nodes().len(),
        t.nodes()[n as int].kind == NodeKind::Comment,
    ensures
        final(out)@ == old(out)@ + pretty_html(t.nodes(), n as int, *o, level as nat),
{
    let ghost d = t.nodes();
    let ghost start = out@;
    let v = &t.nodes[n];
    assert(v@ == d[n as int]);
    if !o.skip_comment {
        if !o.without_text_indent {
            push_pad(out, level);
        }
        push_str(out, "<!--");
        push_chars(out, &v.data);
        if o.without_text_indent {
            push_str(out, "-->");
        } else {
            push_str(out, "-->\n");
        }
    }
    assert(out@ =~= start + pretty_html(d, n as int, *o, level as nat));
}

/// Appends the pretty-printed HTML of the children of `n`.
#[verifier::spinoff_prover]
#[verifier::rlimit(40)]
fn push_pretty_children(t: &Tree, n: usize, o: &SerializeOpts, level: usize, out: &mut Vec<char>)
    requires
        t.wf(),
        n < t.nodes().len(),
        level + t.nodes().len() - n <= usize::MAX,
    ensures
        final(out)@ == old(out)@ + pretty_children(t.nodes(), n as int, 0, *o, level as nat),
    decreases t.nodes().len() - n, 0nat,
{
    let ghost d = t.nodes();
    let ghost start = out@;
    let len = t.nodes[n].children.len();
    let mut i: usize = 0;
    while i < len
        invariant
            t.wf(),
            d == t.nodes(),
            n < d.len(),
            level + d.len() - n <= usize::MAX,
            len == d[n as int].children.len(),
            i <= len,
            start + pretty_children(d, n as int, 0, *o, level as nat) == out@ + pretty_children(
                d,
                n as int,
                i as int,
                *o,
                level as nat,
            ),
        decreases len - i,
    {
        let c = t.nodes[n].children[i];
        assert(d[n as int].children[i as int] == c);
        assert(n < c < d.len());
        assert(pretty_children(d, n as int, i as int, *o, level as nat) == pretty_html(
            d,
            c as int,
            *o,
            level as nat,
        ) + pretty_children(d, n as int, i + 1, *o, level as nat));
        push_pretty(t, c, o, level, out);
        i = i + 1;
    }
    assert(pretty_children(d, n as int, i as int, *o, level as nat) =~= Seq::<char>::empty());
    assert(out@ =~= start + pretty_children(d, n as int, 0, *o, level as nat));
}

impl Node {
    /// Pretty-printed outer HTML with serialization options.
    pub fn outer_html_pretty(&self, doc: &HtmlDocument, opts: SerializeOpts) -> (r: String)
        requires
            doc.wf(),
            doc.has(*self),
            opts.indent + doc.nodes().len() < usize::MAX,
        ensures
            r@ == pretty_html(doc.nodes(), self.index(), opts, opts.indent as nat),
    {
        let mut out: Vec<char> = Vec::new();
        push_pretty(&doc.tree, self.idx, &opts, opts.indent, &mut out);
        assert(out@ =~= pretty_html(doc.nodes(), self.index(), opts, opts.indent as nat));
        vec_to_string(&out)
    }

    /// Pretty-printed inner HTML with serialization options: the children,
    /// at the given indentation.
    pub fn inner_html_pretty(&self, doc: &HtmlDocument, opts: SerializeOpts) -> (r: String)
        requires
            doc.wf(),
            doc.has(*self),
            opts.indent + doc.nodes().len() < usize::MAX,
        ensures
            r@ == pretty_children(doc.nodes(), self.index(), 0, opts, opts.indent as nat),
    {
        let mut out: Vec<char> = Vec::new();
        push_pretty_children(&doc.tree, self.idx, &opts, opts.indent, &mut out);
        assert(out@ =~= pretty_children(doc.nodes(), self.index(), 0, opts, opts.indent as nat));
        vec_to_string(&out)
    }
}

} // verus!
