//! Tree construction: turning tokens into a document tree, after the HTML
//! standard's tree construction in simplified form: implied `html`, `head`
//! and `body`; head content kept in the head; void elements; implied ends of
//! `p`, `li`, `dd`, `dt`, headings, `option`, `a` and `button`; implied
//! table sections and rows, and cells and rows closing their predecessors;
//! content that a table cannot hold moved in front of the table (foster
//! parenting); self-closing tags honored inside `svg` and `math`; end tags
//! closing the nearest open element of their name. The list of active
//! formatting elements, and with it the adoption agency algorithm, is not
//! modelled: a misnested formatting element is closed where its end tag
//! stands.

use vstd::prelude::*;
use crate::dom::{
    AttrView, Attribute, NodeData, NodeKind, NodeView, Tree, TreeView, appended, inserted, child_index,
    with_data, wf_links,
    wf_tree, wf_attrs, attrs_ok, text_nodes_are_leaves,
};
use crate::html_token::{
    Token, TokenV, tokens_view, tokenize, tokenize_exec, normalize_newlines, normalize_newlines_exec,
    token_ok,
};
use crate::node::{all_ascii_ws, all_ws_vec};
use crate::selector_parse::{skip_ws, skip_ws_exec, slice_vec};
use crate::text::{vec_eq, str_to_vec};

verus! {

fn keyword(name: &Vec<char>, kw: &str) -> (b: bool)
    ensures
        b == (name@ == kw@),
{
    let k = str_to_vec(kw);
    vec_eq(name, &k)
}

/// Elements that never have content and are never left open.
pub open spec fn is_void(n: Seq<char>) -> bool {
    n == "area"@
        || n == "base"@
        || n == "br"@
        || n == "col"@
        || n == "embed"@
        || n == "hr"@
        || n == "img"@
        || n == "input"@
        || n == "link"@
        || n == "meta"@
        || n == "param"@
        || n == "source"@
        || n == "track"@
        || n == "wbr"@
        || n == "keygen"@
        || n == "basefont"@
        || n == "bgsound"@
        || n == "frame"@
}

pub(crate) fn is_void_exec(n: &Vec<char>) -> (r: bool)
    ensures
        r == is_void(n@),
{
    keyword(n, "area")
        || keyword(n, "base")
        || keyword(n, "br")
        || keyword(n, "col")
        || keyword(n, "embed")
        || keyword(n, "hr")
        || keyword(n, "img")
        || keyword(n, "input")
        || keyword(n, "link")
        || keyword(n, "meta")
        || keyword(n, "param")
        || keyword(n, "source")
        || keyword(n, "track")
        || keyword(n, "wbr")
        || keyword(n, "keygen")
        || keyword(n, "basefont")
        || keyword(n, "bgsound")
        || keyword(n, "frame")
}

/// Start tags that close an open `p` element first.
pub open spec fn closes_p(n: Seq<char>) -> bool {
    n == "address"@
        || n == "article"@
        || n == "aside"@
        || n == "blockquote"@
        || n == "center"@
        || n == "details"@
        || n == "dialog"@
        || n == "dir"@
        || n == "div"@
        || n == "dl"@
        || n == "fieldset"@
        || n == "figcaption"@
        || n == "figure"@
        || n == "footer"@
        || n == "header"@
        || n == "hgroup"@
        || n == "main"@
        || n == "menu"@
        || n == "nav"@
        || n == "ol"@
        || n == "p"@
        || n == "search"@
        || n == "section"@
        || n == "summary"@
        || n == "ul"@
        || n == "h1"@
        || n == "h2"@
        || n == "h3"@
        || n == "h4"@
        || n == "h5"@
        || n == "h6"@
        || n == "pre"@
        || n == "listing"@
        || n == "form"@
        || n == "hr"@
        || n == "table"@
        || n == "xmp"@
        || n == "plaintext"@
        || n == "li"@
        || n == "dd"@
        || n == "dt"@
}

fn closes_p_exec(n: &Vec<char>) -> (r: bool)
    ensures
        r == closes_p(n@),
{
    keyword(n, "address")
        || keyword(n, "article")
        || keyword(n, "aside")
        || keyword(n, "blockquote")
        || keyword(n, "center")
        || keyword(n, "details")
        || keyword(n, "dialog")
        || keyword(n, "dir")
        || keyword(n, "div")
        || keyword(n, "dl")
        || keyword(n, "fieldset")
        || keyword(n, "figcaption")
        || keyword(n, "figure")
        || keyword(n, "footer")
        || keyword(n, "header")
        || keyword(n, "hgroup")
        || keyword(n, "main")
        || keyword(n, "menu")
        || keyword(n, "nav")
        || keyword(n, "ol")
        || keyword(n, "p")
        || keyword(n, "search")
        || keyword(n, "section")
        || keyword(n, "summary")
        || keyword(n, "ul")
        || keyword(n, "h1")
        || keyword(n, "h2")
        || keyword(n, "h3")
        || keyword(n, "h4")
        || keyword(n, "h5")
        || keyword(n, "h6")
        || keyword(n, "pre")
        || keyword(n, "listing")
        || keyword(n, "form")
        || keyword(n, "hr")
        || keyword(n, "table")
        || keyword(n, "xmp")
        || keyword(n, "plaintext")
        || keyword(n, "li")
        || keyword(n, "dd")
        || keyword(n, "dt")
}

/// Heading elements.
pub open spec fn is_heading(n: Seq<char>) -> bool {
    n == "h1"@
        || n == "h2"@
        || n == "h3"@
        || n == "h4"@
        || n == "h5"@
        || n == "h6"@
}

fn is_heading_exec(n: &Vec<char>) -> (r: bool)
    ensures
        r == is_heading(n@),
{
    keyword(n, "h1")
        || keyword(n, "h2")
        || keyword(n, "h3")
        || keyword(n, "h4")
        || keyword(n, "h5")
        || keyword(n, "h6")
}

/// Elements that belong in the head while there is no body yet.
pub open spec fn is_head_content(n: Seq<char>) -> bool {
    n == "base"@
        || n == "basefont"@
        || n == "bgsound"@
        || n == "link"@
        || n == "meta"@
        || n == "noframes"@
        || n == "script"@
        || n == "style"@
        || n == "template"@
        || n == "title"@
        || n == "noscript"@
}

fn is_head_content_exec(n: &Vec<char>) -> (r: bool)
    ensures
        r == is_head_content(n@),
{
    keyword(n, "base")
        || keyword(n, "basefont")
        || keyword(n, "bgsound")
        || keyword(n, "link")
        || keyword(n, "meta")
        || keyword(n, "noframes")
        || keyword(n, "script")
        || keyword(n, "style")
        || keyword(n, "template")
        || keyword(n, "title")
        || keyword(n, "noscript")
}

/// Elements that bound the search for an open `p`.
pub open spec fn button_scope_stop(n: Seq<char>) -> bool {
    n == "html"@
        || n == "body"@
        || n == "table"@
        || n == "td"@
        || n == "th"@
        || n == "caption"@
        || n == "marquee"@
        || n == "object"@
        || n == "applet"@
        || n == "template"@
        || n == "button"@
}

fn button_scope_stop_exec(n: &Vec<char>) -> (r: bool)
    ensures
        r == button_scope_stop(n@),
{
    keyword(n, "html")
        || keyword(n, "body")
        || keyword(n, "table")
        || keyword(n, "td")
        || keyword(n, "th")
        || keyword(n, "caption")
        || keyword(n, "marquee")
        || keyword(n, "object")
        || keyword(n, "applet")
        || keyword(n, "template")
        || keyword(n, "button")
}

/// Elements that bound the search for an open `li`.
pub open spec fn list_scope_stop(n: Seq<char>) -> bool {
    n == "html"@
        || n == "body"@
        || n == "table"@
        || n == "td"@
        || n == "th"@
        || n == "caption"@
        || n == "marquee"@
        || n == "object"@
        || n == "applet"@
        || n == "template"@
        || n == "ul"@
        || n == "ol"@
}

fn list_scope_stop_exec(n: &Vec<char>) -> (r: bool)
    ensures
        r == list_scope_stop(n@),
{
    keyword(n, "html")
        || keyword(n, "body")
        || keyword(n, "table")
        || keyword(n, "td")
        || keyword(n, "th")
        || keyword(n, "caption")
        || keyword(n, "marquee")
        || keyword(n, "object")
        || keyword(n, "applet")
        || keyword(n, "template")
        || keyword(n, "ul")
        || keyword(n, "ol")
}

/// Elements that bound the search for an open `dd` or `dt`.
pub open spec fn dl_scope_stop(n: Seq<char>) -> bool {
    n == "html"@
        || n == "body"@
        || n == "table"@
        || n == "td"@
        || n == "th"@
        || n == "caption"@
        || n == "marquee"@
        || n == "object"@
        || n == "applet"@
        || n == "template"@
        || n == "dl"@
}

fn dl_scope_stop_exec(n: &Vec<char>) -> (r: bool)
    ensures
        r == dl_scope_stop(n@),
{
    keyword(n, "html")
        || keyword(n, "body")
        || keyword(n, "table")
        || keyword(n, "td")
        || keyword(n, "th")
        || keyword(n, "caption")
        || keyword(n, "marquee")
        || keyword(n, "object")
        || keyword(n, "applet")
        || keyword(n, "template")
        || keyword(n, "dl")
}

/// Elements that an unmatched end tag does not close past.
pub open spec fn is_special(n: Seq<char>) -> bool {
    n == "address"@
        || n == "applet"@
        || n == "area"@
        || n == "article"@
        || n == "aside"@
        || n == "base"@
        || n == "basefont"@
        || n == "bgsound"@
        || n == "blockquote"@
        || n == "body"@
        || n == "br"@
        || n == "button"@
        || n == "caption"@
        || n == "center"@
        || n == "col"@
        || n == "colgroup"@
        || n == "dd"@
        || n == "details"@
        || n == "dir"@
        || n == "div"@
        || n == "dl"@
        || n == "dt"@
        || n == "embed"@
        || n == "fieldset"@
        || n == "figcaption"@
        || n == "figure"@
        || n == "footer"@
        || n == "form"@
        || n == "frame"@
        || n == "frameset"@
        || n == "h1"@
        || n == "h2"@
        || n == "h3"@
        || n == "h4"@
        || n == "h5"@
        || n == "h6"@
        || n == "head"@
        || n == "header"@
        || n == "hgroup"@
        || n == "hr"@
        || n == "html"@
        || n == "iframe"@
        || n == "img"@
        || n == "input"@
        || n == "keygen"@
        || n == "li"@
        || n == "link"@
        || n == "listing"@
        || n == "main"@
        || n == "marquee"@
        || n == "menu"@
        || n == "meta"@
        || n == "nav"@
        || n == "noembed"@
        || n == "noframes"@
        || n == "noscript"@
        || n == "object"@
        || n == "ol"@
        || n == "p"@
        || n == "param"@
        || n == "plaintext"@
        || n == "pre"@
        || n == "script"@
        || n == "search"@
        || n == "section"@
        || n == "select"@
        || n == "source"@
        || n == "style"@
        || n == "summary"@
        || n == "table"@
        || n == "tbody"@
        || n == "td"@
        || n == "template"@
        || n == "textarea"@
        || n == "tfoot"@
        || n == "th"@
        || n == "thead"@
        || n == "title"@
        || n == "tr"@
        || n == "track"@
        || n == "ul"@
        || n == "wbr"@
        || n == "xmp"@
}

fn is_special_exec(n: &Vec<char>) -> (r: bool)
    ensures
        r == is_special(n@),
{
    keyword(n, "address")
        || keyword(n, "applet")
        || keyword(n, "area")
        || keyword(n, "article")
        || keyword(n, "aside")
        || keyword(n, "base")
        || keyword(n, "basefont")
        || keyword(n, "bgsound")
        || keyword(n, "blockquote")
        || keyword(n, "body")
        || keyword(n, "br")
        || keyword(n, "button")
        || keyword(n, "caption")
        || keyword(n, "center")
        || keyword(n, "col")
        || keyword(n, "colgroup")
        || keyword(n, "dd")
        || keyword(n, "details")
        || keyword(n, "dir")
        || keyword(n, "div")
        || keyword(n, "dl")
        || keyword(n, "dt")
        || keyword(n, "embed")
        || keyword(n, "fieldset")
        || keyword(n, "figcaption")
        || keyword(n, "figure")
        || keyword(n, "footer")
        || keyword(n, "form")
        || keyword(n, "frame")
        || keyword(n, "frameset")
        || keyword(n, "h1")
        || keyword(n, "h2")
        || keyword(n, "h3")
        || keyword(n, "h4")
        || keyword(n, "h5")
        || keyword(n, "h6")
        || keyword(n, "head")
        || keyword(n, "header")
        || keyword(n, "hgroup")
        || keyword(n, "hr")
        || keyword(n, "html")
        || keyword(n, "iframe")
        || keyword(n, "img")
        || keyword(n, "input")
        || keyword(n, "keygen")
        || keyword(n, "li")
        || keyword(n, "link")
        || keyword(n, "listing")
        || keyword(n, "main")
        || keyword(n, "marquee")
        || keyword(n, "menu")
        || keyword(n, "meta")
        || keyword(n, "nav")
        || keyword(n, "noembed")
        || keyword(n, "noframes")
        || keyword(n, "noscript")
        || keyword(n, "object")
        || keyword(n, "ol")
        || keyword(n, "p")
        || keyword(n, "param")
        || keyword(n, "plaintext")
        || keyword(n, "pre")
        || keyword(n, "script")
        || keyword(n, "search")
        || keyword(n, "section")
        || keyword(n, "select")
        || keyword(n, "source")
        || keyword(n, "style")
        || keyword(n, "summary")
        || keyword(n, "table")
        || keyword(n, "tbody")
        || keyword(n, "td")
        || keyword(n, "template")
        || keyword(n, "textarea")
        || keyword(n, "tfoot")
        || keyword(n, "th")
        || keyword(n, "thead")
        || keyword(n, "title")
        || keyword(n, "tr")
        || keyword(n, "track")
        || keyword(n, "ul")
        || keyword(n, "wbr")
        || keyword(n, "xmp")
}


/// Elements that bound the search for an open part of a table.
pub open spec fn table_scope_stop(n: Seq<char>) -> bool {
    n == "html"@ || n == "table"@ || n == "template"@
}

fn table_scope_stop_exec(n: &Vec<char>) -> (r: bool)
    ensures
        r == table_scope_stop(n@),
{
    keyword(n, "html") || keyword(n, "table") || keyword(n, "template")
}

/// Table sections.
pub open spec fn is_table_section(n: Seq<char>) -> bool {
    n == "tbody"@ || n == "thead"@ || n == "tfoot"@
}

fn is_table_section_exec(n: &Vec<char>) -> (r: bool)
    ensures
        r == is_table_section(n@),
{
    keyword(n, "tbody") || keyword(n, "thead") || keyword(n, "tfoot")
}

/// Table cells.
pub open spec fn is_cell(n: Seq<char>) -> bool {
    n == "td"@ || n == "th"@
}

fn is_cell_exec(n: &Vec<char>) -> (r: bool)
    ensures
        r == is_cell(n@),
{
    keyword(n, "td") || keyword(n, "th")
}

/// Elements whose end tag closes the open element of that name within the
/// innermost table.
pub open spec fn is_table_part(n: Seq<char>) -> bool {
    n == "table"@ || n == "caption"@ || is_table_section(n) || n == "tr"@ || is_cell(n)
}

fn is_table_part_exec(n: &Vec<char>) -> (r: bool)
    ensures
        r == is_table_part(n@),
{
    keyword(n, "table") || keyword(n, "caption") || is_table_section_exec(n) || keyword(n, "tr")
        || is_cell_exec(n)
}

/// The state of tree construction: the tree so far, the stack of open
/// elements, and the document's `html`, `head` and `body` once made.
pub struct BuildView {
    pub tree: TreeView,
    pub stack: Seq<usize>,
    pub html: Option<usize>,
    pub head: Option<usize>,
    pub body: Option<usize>,
}

/// Node `h`, when there is one, is an element named `name`.
pub open spec fn is_named(d: Seq<NodeView>, h: Option<usize>, name: Seq<char>) -> bool {
    h matches Some(i) ==> i < d.len() && d[i as int].kind == NodeKind::Element && d[i as int].name
        == name
}

/// No void element has children.
pub open spec fn void_leaves(d: Seq<NodeView>) -> bool {
    forall|n: int|
        0 <= n < d.len() && #[trigger] d[n].kind == NodeKind::Element && is_void(d[n].name)
            ==> d[n].children.len() == 0
}

/// The elements the builder makes itself are not void.
proof fn lemma_frame_not_void()
    ensures
        !is_void("html"@),
        !is_void("head"@),
        !is_void("body"@),
        !is_void("tbody"@),
        !is_void("tr"@),
        !is_void("p"@),
{
    reveal_strlit("html");
    reveal_strlit("head");
    reveal_strlit("body");
    reveal_strlit("tbody");
    reveal_strlit("tr");
    reveal_strlit("p");
    reveal_strlit("area");
    reveal_strlit("base");
    reveal_strlit("br");
    reveal_strlit("col");
    reveal_strlit("embed");
    reveal_strlit("hr");
    reveal_strlit("img");
    reveal_strlit("input");
    reveal_strlit("link");
    reveal_strlit("meta");
    reveal_strlit("param");
    reveal_strlit("source");
    reveal_strlit("track");
    reveal_strlit("wbr");
    reveal_strlit("keygen");
    reveal_strlit("basefont");
    reveal_strlit("bgsound");
    reveal_strlit("frame");
    assert("html"@[0] != "area"@[0]);
    assert("html"@[0] != "base"@[0]);
    assert("html"@[0] != "link"@[0]);
    assert("html"@[0] != "meta"@[0]);
    assert("head"@[0] != "area"@[0]);
    assert("head"@[0] != "base"@[0]);
    assert("head"@[0] != "link"@[0]);
    assert("head"@[0] != "meta"@[0]);
    assert("body"@[0] != "area"@[0]);
    assert("body"@[1] != "base"@[1]);
    assert("body"@[0] != "link"@[0]);
    assert("body"@[0] != "meta"@[0]);
    assert("tbody"@[0] != "embed"@[0]);
    assert("tbody"@[0] != "input"@[0]);
    assert("tbody"@[0] != "param"@[0]);
    assert("tbody"@[1] != "track"@[1]);
    assert("tbody"@[0] != "frame"@[0]);
    assert("tr"@[0] != "br"@[0]);
    assert("tr"@[0] != "hr"@[0]);
    assert("html"@[0] != "br"@[0]);
    assert("html"@[0] != "col"@[0]);
    assert("html"@[0] != "embed"@[0]);
    assert("html"@[1] != "hr"@[1]);
    assert("html"@[0] != "img"@[0]);
    assert("html"@[0] != "input"@[0]);
    assert("html"@[0] != "param"@[0]);
    assert("html"@[0] != "source"@[0]);
    assert("html"@[0] != "track"@[0]);
    assert("html"@[0] != "wbr"@[0]);
    assert("html"@[0] != "keygen"@[0]);
    assert("html"@[0] != "basefont"@[0]);
    assert("html"@[0] != "bgsound"@[0]);
    assert("html"@[0] != "frame"@[0]);
    assert("head"@[0] != "br"@[0]);
    assert("head"@[0] != "col"@[0]);
    assert("head"@[0] != "embed"@[0]);
    assert("head"@[1] != "hr"@[1]);
    assert("head"@[0] != "img"@[0]);
    assert("head"@[0] != "input"@[0]);
    assert("head"@[0] != "param"@[0]);
    assert("head"@[0] != "source"@[0]);
    assert("head"@[0] != "track"@[0]);
    assert("head"@[0] != "wbr"@[0]);
    assert("head"@[0] != "keygen"@[0]);
    assert("head"@[0] != "basefont"@[0]);
    assert("head"@[0] != "bgsound"@[0]);
    assert("head"@[0] != "frame"@[0]);
    assert("body"@[1] != "br"@[1]);
    assert("body"@[0] != "col"@[0]);
    assert("body"@[0] != "embed"@[0]);
    assert("body"@[0] != "hr"@[0]);
    assert("body"@[0] != "img"@[0]);
    assert("body"@[0] != "input"@[0]);
    assert("body"@[0] != "param"@[0]);
    assert("body"@[0] != "source"@[0]);
    assert("body"@[0] != "track"@[0]);
    assert("body"@[0] != "wbr"@[0]);
    assert("body"@[0] != "keygen"@[0]);
    assert("body"@[1] != "basefont"@[1]);
    assert("body"@[1] != "bgsound"@[1]);
    assert("body"@[0] != "frame"@[0]);
    assert("tbody"@[0] != "area"@[0]);
    assert("tbody"@[0] != "base"@[0]);
    assert("tbody"@[0] != "br"@[0]);
    assert("tbody"@[0] != "col"@[0]);
    assert("tbody"@[0] != "hr"@[0]);
    assert("tbody"@[0] != "img"@[0]);
    assert("tbody"@[0] != "link"@[0]);
    assert("tbody"@[0] != "meta"@[0]);
    assert("tbody"@[0] != "source"@[0]);
    assert("tbody"@[0] != "wbr"@[0]);
    assert("tbody"@[0] != "keygen"@[0]);
    assert("tbody"@[0] != "basefont"@[0]);
    assert("tbody"@[0] != "bgsound"@[0]);
    assert("tr"@[0] != "area"@[0]);
    assert("tr"@[0] != "base"@[0]);
    assert("tr"@[0] != "col"@[0]);
    assert("tr"@[0] != "embed"@[0]);
    assert("tr"@[0] != "img"@[0]);
    assert("tr"@[0] != "input"@[0]);
    assert("tr"@[0] != "link"@[0]);
    assert("tr"@[0] != "meta"@[0]);
    assert("tr"@[0] != "param"@[0]);
    assert("tr"@[0] != "source"@[0]);
    assert("tr"@[0] != "wbr"@[0]);
    assert("tr"@[0] != "keygen"@[0]);
    assert("tr"@[0] != "basefont"@[0]);
    assert("tr"@[0] != "bgsound"@[0]);
    assert("tr"@[0] != "frame"@[0]);
    assert("p"@[0] != "area"@[0]);
    assert("p"@[0] != "base"@[0]);
    assert("p"@[0] != "br"@[0]);
    assert("p"@[0] != "col"@[0]);
    assert("p"@[0] != "embed"@[0]);
    assert("p"@[0] != "hr"@[0]);
    assert("p"@[0] != "img"@[0]);
    assert("p"@[0] != "input"@[0]);
    assert("p"@[0] != "link"@[0]);
    assert("p"@[0] != "meta"@[0]);
    assert("p"@[0] != "source"@[0]);
    assert("p"@[0] != "track"@[0]);
    assert("p"@[0] != "wbr"@[0]);
    assert("p"@[0] != "keygen"@[0]);
    assert("p"@[0] != "basefont"@[0]);
    assert("p"@[0] != "bgsound"@[0]);
    assert("p"@[0] != "frame"@[0]);
    assert("html"@.len() != "br"@.len());
    assert("html"@.len() != "col"@.len());
    assert("html"@.len() != "embed"@.len());
    assert("html"@.len() != "hr"@.len());
    assert("html"@.len() != "img"@.len());
    assert("html"@.len() != "input"@.len());
    assert("html"@.len() != "param"@.len());
    assert("html"@.len() != "source"@.len());
    assert("html"@.len() != "track"@.len());
    assert("html"@.len() != "wbr"@.len());
    assert("html"@.len() != "keygen"@.len());
    assert("html"@.len() != "basefont"@.len());
    assert("html"@.len() != "bgsound"@.len());
    assert("html"@.len() != "frame"@.len());
    assert("head"@.len() != "br"@.len());
    assert("head"@.len() != "col"@.len());
    assert("head"@.len() != "embed"@.len());
    assert("head"@.len() != "hr"@.len());
    assert("head"@.len() != "img"@.len());
    assert("head"@.len() != "input"@.len());
    assert("head"@.len() != "param"@.len());
    assert("head"@.len() != "source"@.len());
    assert("head"@.len() != "track"@.len());
    assert("head"@.len() != "wbr"@.len());
    assert("head"@.len() != "keygen"@.len());
    assert("head"@.len() != "basefont"@.len());
    assert("head"@.len() != "bgsound"@.len());
    assert("head"@.len() != "frame"@.len());
    assert("body"@.len() != "br"@.len());
    assert("body"@.len() != "col"@.len());
    assert("body"@.len() != "embed"@.len());
    assert("body"@.len() != "hr"@.len());
    assert("body"@.len() != "img"@.len());
    assert("body"@.len() != "input"@.len());
    assert("body"@.len() != "param"@.len());
    assert("body"@.len() != "source"@.len());
    assert("body"@.len() != "track"@.len());
    assert("body"@.len() != "wbr"@.len());
    assert("body"@.len() != "keygen"@.len());
    assert("body"@.len() != "basefont"@.len());
    assert("body"@.len() != "bgsound"@.len());
    assert("body"@.len() != "frame"@.len());
    assert("tbody"@.len() != "area"@.len());
    assert("tbody"@.len() != "base"@.len());
    assert("tbody"@.len() != "br"@.len());
    assert("tbody"@.len() != "col"@.len());
    assert("tbody"@.len() != "hr"@.len());
    assert("tbody"@.len() != "img"@.len());
    assert("tbody"@.len() != "link"@.len());
    assert("tbody"@.len() != "meta"@.len());
    assert("tbody"@.len() != "source"@.len());
    assert("tbody"@.len() != "wbr"@.len());
    assert("tbody"@.len() != "keygen"@.len());
    assert("tbody"@.len() != "basefont"@.len());
    assert("tbody"@.len() != "bgsound"@.len());
    assert("tr"@.len() != "area"@.len());
    assert("tr"@.len() != "base"@.len());
    assert("tr"@.len() != "col"@.len());
    assert("tr"@.len() != "embed"@.len());
    assert("tr"@.len() != "img"@.len());
    assert("tr"@.len() != "input"@.len());
    assert("tr"@.len() != "link"@.len());
    assert("tr"@.len() != "meta"@.len());
    assert("tr"@.len() != "param"@.len());
    assert("tr"@.len() != "source"@.len());
    assert("tr"@.len() != "track"@.len());
    assert("tr"@.len() != "wbr"@.len());
    assert("tr"@.len() != "keygen"@.len());
    assert("tr"@.len() != "basefont"@.len());
    assert("tr"@.len() != "bgsound"@.len());
    assert("tr"@.len() != "frame"@.len());
    assert("p"@.len() != "area"@.len());
    assert("p"@.len() != "base"@.len());
    assert("p"@.len() != "br"@.len());
    assert("p"@.len() != "col"@.len());
    assert("p"@.len() != "embed"@.len());
    assert("p"@.len() != "hr"@.len());
    assert("p"@.len() != "img"@.len());
    assert("p"@.len() != "input"@.len());
    assert("p"@.len() != "link"@.len());
    assert("p"@.len() != "meta"@.len());
    assert("p"@.len() != "param"@.len());
    assert("p"@.len() != "source"@.len());
    assert("p"@.len() != "track"@.len());
    assert("p"@.len() != "wbr"@.len());
    assert("p"@.len() != "keygen"@.len());
    assert("p"@.len() != "basefont"@.len());
    assert("p"@.len() != "bgsound"@.len());
    assert("p"@.len() != "frame"@.len());
}

/// The construction state is well formed: the tree is, the stack holds
/// nodes of it, and the `html`, `head` and `body` elements are what their
/// names say.
pub open spec fn bwf(b: BuildView) -> bool {
    &&& wf_tree(b.tree)
    &&& wf_attrs(b.tree.nodes)
    &&& text_nodes_are_leaves(b.tree.nodes)
    &&& forall|i: int| 0 <= i < b.stack.len() ==> #[trigger] b.stack[i] < b.tree.nodes.len()
        && b.tree.nodes[b.stack[i] as int].kind == NodeKind::Element && !is_void(
        b.tree.nodes[b.stack[i] as int].name,
    )
    &&& void_leaves(b.tree.nodes)
    &&& is_named(b.tree.nodes, b.html, "html"@)
    &&& is_named(b.tree.nodes, b.head, "head"@)
    &&& is_named(b.tree.nodes, b.body, "body"@)
}

/// The node new content goes into: the innermost open element, or the
/// document when none is open.
pub open spec fn current(b: BuildView) -> usize {
    if b.stack.len() > 0 {
        b.stack.last()
    } else {
        0
    }
}

/// The tree has room for another node.
pub open spec fn room(b: BuildView) -> bool {
    b.tree.nodes.len() < usize::MAX
}

/// The registry after `n` is registered.
pub open spec fn reg(names: Seq<Seq<char>>, n: Seq<char>) -> Seq<Seq<char>> {
    if names.contains(n) {
        names
    } else {
        names.push(n)
    }
}

/// A fresh node of kind `k`.
pub open spec fn fresh(k: NodeKind, name: Seq<char>, attrs: Seq<AttrView>, data: Seq<char>) -> NodeView {
    NodeView {
        kind: k,
        name: name,
        attrs: attrs,
        data: data,
        parent: None,
        children: Seq::empty(),
    }
}

/// The state after a node is added as the last child of `parent`.
pub open spec fn add_node(
    b: BuildView,
    parent: usize,
    k: NodeKind,
    name: Seq<char>,
    attrs: Seq<AttrView>,
    data: Seq<char>,
) -> BuildView {
    if room(b) {
        BuildView {
            tree: TreeView {
                nodes: appended(b.tree.nodes, parent as int, fresh(k, name, attrs, data)),
                names: if k == NodeKind::Element {
                    reg(b.tree.names, name)
                } else {
                    b.tree.names
                },
            },
            ..b
        }
    } else {
        b
    }
}

/// The state after an element is inserted into the current node, and
/// pushed onto the stack when `push` is set.
pub open spec fn insert_element(b: BuildView, name: Seq<char>, attrs: Seq<AttrView>, push: bool) -> BuildView {
    if room(b) {
        let id = b.tree.nodes.len() as usize;
        let b1 = add_node(b, current(b), NodeKind::Element, name, attrs, Seq::empty());
        if push {
            BuildView { stack: b1.stack.push(id), ..b1 }
        } else {
            b1
        }
    } else {
        b
    }
}

/// The state after text is added to `parent`, joining a text node that is
/// already its last child.
pub open spec fn insert_text(b: BuildView, parent: usize, data: Seq<char>) -> BuildView {
    let d = b.tree.nodes;
    let ch = d[parent as int].children;
    if data.len() == 0 {
        b
    } else if ch.len() > 0 && d[ch.last() as int].kind == NodeKind::Text {
        BuildView {
            tree: TreeView {
                nodes: d.update(ch.last() as int, with_data(d[ch.last() as int], d[ch.last() as int].data + data)),
                names: b.tree.names,
            },
            ..b
        }
    } else {
        add_node(b, parent, NodeKind::Text, Seq::empty(), Seq::empty(), data)
    }
}

/// The state with the `html` element made, with attributes `attrs`.
pub open spec fn make_html(b: BuildView, attrs: Seq<AttrView>) -> BuildView {
    if b.html is None && room(b) {
        let id = b.tree.nodes.len() as usize;
        let b1 = add_node(b, 0, NodeKind::Element, "html"@, attrs, Seq::empty());
        BuildView { html: Some(id), stack: seq![id], ..b1 }
    } else {
        b
    }
}

/// The state with `html` and `head` made; a new head is left open.
pub open spec fn make_head(b: BuildView, attrs: Seq<AttrView>) -> BuildView {
    let b1 = make_html(b, Seq::empty());
    if b1.head is None && b1.html is Some && room(b1) {
        let id = b1.tree.nodes.len() as usize;
        let b2 = add_node(b1, b1.html->0, NodeKind::Element, "head"@, attrs, Seq::empty());
        BuildView { head: Some(id), stack: b1.stack.push(id), ..b2 }
    } else {
        b1
    }
}

/// The state with `html`, `head` and `body` made; a new body is the only
/// open element besides `html`.
pub open spec fn make_body(b: BuildView, attrs: Seq<AttrView>) -> BuildView {
    let b1 = make_head(b, Seq::empty());
    if b1.body is None && b1.html is Some && room(b1) {
        let id = b1.tree.nodes.len() as usize;
        let b2 = add_node(b1, b1.html->0, NodeKind::Element, "body"@, attrs, Seq::empty());
        BuildView { body: Some(id), stack: seq![b1.html->0, id], ..b2 }
    } else {
        b1
    }
}

/// Which boundary set a stack search stops at.
pub open spec fn stops(which: int, n: Seq<char>) -> bool {
    if which == 0 {
        button_scope_stop(n)
    } else if which == 1 {
        list_scope_stop(n)
    } else if which == 2 {
        dl_scope_stop(n)
    } else if which == 4 {
        table_scope_stop(n)
    } else if which == 5 {
        false
    } else {
        is_special(n)
    }
}

/// Position on the stack (below `k`) of the innermost open element named
/// `t1` or `t2`, unless a boundary element comes first.
pub open spec fn scope_find(
    d: Seq<NodeView>,
    st: Seq<usize>,
    k: int,
    t1: Seq<char>,
    t2: Seq<char>,
    which: int,
) -> Option<int>
    decreases k,
{
    if 0 < k <= st.len() {
        let n = d[st[k - 1] as int].name;
        if n == t1 || n == t2 {
            Some(k - 1)
        } else if stops(which, n) {
            None
        } else {
            scope_find(d, st, k - 1, t1, t2, which)
        }
    } else {
        None
    }
}

/// The state after the element found by `scope_find` and everything above
/// it leave the stack.
pub open spec fn pop_through(b: BuildView, t1: Seq<char>, t2: Seq<char>, which: int) -> BuildView {
    match scope_find(b.tree.nodes, b.stack, b.stack.len() as int, t1, t2, which) {
        Some(k) => BuildView { stack: b.stack.subrange(0, k), ..b },
        None => b,
    }
}

/// The current node is an element named `n`.
pub open spec fn current_is(b: BuildView, n: Seq<char>) -> bool {
    b.stack.len() > 0 && b.tree.nodes[current(b) as int].name == n
}

/// Before a row: an open row is closed, and a section is made for a row
/// that would go straight into a table.
pub open spec fn row_prep(b: BuildView) -> BuildView {
    let b1 = pop_through(b, "tr"@, "tr"@, 4);
    if current_is(b1, "table"@) {
        insert_element(b1, "tbody"@, Seq::empty(), true)
    } else {
        b1
    }
}

/// Before a cell: an open cell is closed, and the section and row that the
/// cell needs are made.
pub open spec fn cell_prep(b: BuildView) -> BuildView {
    let b1 = pop_through(b, "td"@, "th"@, 4);
    let b2 = if current_is(b1, "table"@) {
        insert_element(b1, "tbody"@, Seq::empty(), true)
    } else {
        b1
    };
    if b2.stack.len() > 0 && is_table_section(b2.tree.nodes[current(b2) as int].name) {
        insert_element(b2, "tr"@, Seq::empty(), true)
    } else {
        b2
    }
}

/// Before a table section: an open section is closed.
pub open spec fn section_prep(b: BuildView) -> BuildView {
    pop_through(pop_through(b, "tbody"@, "thead"@, 4), "tfoot"@, "tfoot"@, 4)
}

/// Before an option an open option is closed; before an option group, an
/// open option and then an open option group.
pub open spec fn option_prep(b: BuildView, name: Seq<char>) -> BuildView {
    let b1 = if current_is(b, "option"@) {
        BuildView { stack: b.stack.drop_last(), ..b }
    } else {
        b
    };
    if name == "optgroup"@ && current_is(b1, "optgroup"@) {
        BuildView { stack: b1.stack.drop_last(), ..b1 }
    } else {
        b1
    }
}

/// An `svg` or `math` element is open: content is foreign, and a
/// self-closing start tag there makes an element that is not left open.
pub open spec fn in_foreign(b: BuildView) -> bool {
    scope_find(b.tree.nodes, b.stack, b.stack.len() as int, "svg"@, "math"@, 5) is Some
}

/// Elements whose content is the table's own: while one of them is the
/// current node, other content is moved out in front of the table.
pub open spec fn is_table_ctx(n: Seq<char>) -> bool {
    n == "table"@ || is_table_section(n) || n == "tr"@
}

/// Start tags that stay inside a table.
pub open spec fn stays_in_table(n: Seq<char>) -> bool {
    is_table_part(n) || n == "col"@ || n == "colgroup"@ || n == "script"@ || n == "style"@ || n
        == "template"@ || n == "form"@
}

/// Where content that a table cannot hold goes: the parent of the
/// innermost open table, and the table's position there. Only while the
/// current node is a table, a table section or a row.
pub open spec fn foster_spot(b: BuildView) -> Option<(usize, int)> {
    let d = b.tree.nodes;
    if b.stack.len() > 0 && is_table_ctx(d[current(b) as int].name) {
        match scope_find(d, b.stack, b.stack.len() as int, "table"@, "table"@, 5) {
            Some(t) => match d[b.stack[t] as int].parent {
                Some(p) => Some((p, child_index(d, b.stack[t] as int))),
                None => None,
            },
            None => None,
        }
    } else {
        None
    }
}

/// The state after an element is made child `k` of `p` (in front of the
/// table), pushed when `push`.
pub open spec fn foster_element(
    b: BuildView,
    p: usize,
    k: int,
    name: Seq<char>,
    attrs: Seq<AttrView>,
    push: bool,
) -> BuildView {
    if room(b) {
        let id = b.tree.nodes.len() as usize;
        let b1 = BuildView {
            tree: TreeView {
                nodes: inserted(b.tree.nodes, p as int, k, fresh(NodeKind::Element, name, attrs, Seq::empty())),
                names: reg(b.tree.names, name),
            },
            ..b
        };
        if push {
            BuildView { stack: b1.stack.push(id), ..b1 }
        } else {
            b1
        }
    } else {
        b
    }
}

/// The state after text is put in front of child `k` of `p`, joining a
/// text node just before it.
pub open spec fn foster_text(b: BuildView, p: usize, k: int, data: Seq<char>) -> BuildView {
    let d = b.tree.nodes;
    let ch = d[p as int].children;
    if k > 0 && d[ch[k - 1] as int].kind == NodeKind::Text {
        BuildView {
            tree: TreeView {
                nodes: d.update(ch[k - 1] as int, with_data(d[ch[k - 1] as int], d[ch[k - 1] as int].data + data)),
                names: b.tree.names,
            },
            ..b
        }
    } else if room(b) {
        BuildView {
            tree: TreeView {
                nodes: inserted(d, p as int, k, fresh(NodeKind::Text, Seq::empty(), Seq::empty(), data)),
                names: b.tree.names,
            },
            ..b
        }
    } else {
        b
    }
}

/// The state after a start tag (self-closing when `sc`) is handled in the
/// body.
pub open spec fn body_start(b: BuildView, name: Seq<char>, attrs: Seq<AttrView>, sc: bool) -> BuildView {
    let b1 = if closes_p(name) {
        pop_through(b, "p"@, "p"@, 0)
    } else {
        b
    };
    let b2 = if is_heading(name) && b1.stack.len() > 0 && is_heading(
        b1.tree.nodes[current(b1) as int].name,
    ) {
        BuildView { stack: b1.stack.drop_last(), ..b1 }
    } else {
        b1
    };
    let b3 = if name == "li"@ {
        pop_through(b2, "li"@, "li"@, 1)
    } else if name == "dd"@ || name == "dt"@ {
        pop_through(b2, "dd"@, "dt"@, 2)
    } else if is_cell(name) {
        cell_prep(b2)
    } else if name == "tr"@ {
        row_prep(b2)
    } else if is_table_section(name) {
        section_prep(b2)
    } else if name == "option"@ || name == "optgroup"@ {
        option_prep(b2, name)
    } else if name == "a"@ || name == "button"@ {
        pop_through(b2, name, name, 3)
    } else {
        b2
    };
    let push = !is_void(name) && !(sc && (name == "svg"@ || name == "math"@ || in_foreign(b3)));
    if !stays_in_table(name) && foster_spot(b3) is Some {
        let spot = foster_spot(b3)->0;
        foster_element(b3, spot.0, spot.1, name, attrs, push)
    } else {
        insert_element(b3, name, attrs, push)
    }
}

/// Text in the body loses its NUL characters.
pub open spec fn without_nul(t: Seq<char>) -> Seq<char> {
    t.filter(|c: char| c != '\0')
}

fn without_nul_exec(t: &Vec<char>) -> (r: Vec<char>)
    ensures
        r@ == without_nul(t@),
{
    let ghost pred = |c: char| c != '\0';
    let mut r: Vec<char> = Vec::new();
    let mut i: usize = 0;
    while i < t.len()
        invariant
            i <= t.len(),
            pred == (|c: char| c != '\0'),
            r@ == t@.take(i as int).filter(pred),
        decreases t.len() - i,
    {
        reveal_with_fuel(Seq::<_>::filter, 1);
        assert(t@.take(i + 1).drop_last() =~= t@.take(i as int));
        if t[i] != '\0' {
            r.push(t[i]);
        }
        i = i + 1;
    }
    assert(t@.take(i as int) =~= t@);
    r
}

/// Text before the body is made loses its leading white space.
pub open spec fn drop_leading_ws(t: Seq<char>) -> Seq<char> {
    t.subrange(skip_ws(t, 0), t.len() as int)
}

/// The state after a text token: text goes into the current node once
/// the body exists, and before that into an open element of the head (such
/// as `title` or `script`); white space between head elements stays in the
/// head, and other text starts the body. Text other than white space that
/// arrives in table context goes in front of the table.
pub open spec fn apply_text(b: BuildView, data: Seq<char>) -> BuildView {
    if b.body is Some {
        let t = without_nul(data);
        if !all_ascii_ws(t) && foster_spot(b) is Some {
            let spot = foster_spot(b)->0;
            foster_text(b, spot.0, spot.1, t)
        } else {
            insert_text(b, current(b), t)
        }
    } else if b.stack.len() > 0 && b.html != Some(current(b)) && b.head != Some(current(b)) {
        insert_text(b, current(b), data)
    } else if all_ascii_ws(data) {
        if b.head is Some && b.stack.len() > 0 && current(b) == b.head->0 {
            insert_text(b, current(b), data)
        } else {
            b
        }
    } else {
        let b1 = make_body(b, Seq::empty());
        insert_text(b1, current(b1), without_nul(drop_leading_ws(data)))
    }
}

/// The state after a start tag, self-closing when `sc`.
pub open spec fn apply_start(b: BuildView, name: Seq<char>, attrs: Seq<AttrView>, sc: bool) -> BuildView {
    if name == "html"@ {
        make_html(b, attrs)
    } else if name == "head"@ {
        if b.head is None && b.body is None {
            make_head(b, attrs)
        } else {
            b
        }
    } else if name == "body"@ {
        make_body(b, attrs)
    } else if b.body is None && is_head_content(name) {
        let b1 = make_head(b, Seq::empty());
        if b1.head is Some && room(b1) {
            let id = b1.tree.nodes.len() as usize;
            let b2 = add_node(b1, b1.head->0, NodeKind::Element, name, attrs, Seq::empty());
            if !is_void(name) {
                BuildView { stack: b2.stack.push(id), ..b2 }
            } else {
                b2
            }
        } else {
            b1
        }
    } else {
        body_start(make_body(b, Seq::empty()), name, attrs, sc)
    }
}

/// The state after an end tag.
pub open spec fn apply_end(b: BuildView, name: Seq<char>) -> BuildView {
    if name == "head"@ {
        if b.head is Some && b.stack.len() > 0 && current(b) == b.head->0 {
            BuildView { stack: b.stack.drop_last(), ..b }
        } else {
            b
        }
    } else if name == "body"@ || name == "html"@ {
        b
    } else if name == "br"@ {
        body_start(make_body(b, Seq::empty()), "br"@, Seq::empty(), false)
    } else if name == "p"@ {
        if scope_find(b.tree.nodes, b.stack, b.stack.len() as int, "p"@, "p"@, 0) is Some {
            pop_through(b, "p"@, "p"@, 0)
        } else {
            insert_element(make_body(b, Seq::empty()), "p"@, Seq::empty(), false)
        }
    } else if is_table_part(name) {
        pop_through(b, name, name, 4)
    } else {
        pop_through(b, name, name, 3)
    }
}

/// The state after one token.
#[verifier::opaque]
pub open spec fn apply(b: BuildView, t: TokenV) -> BuildView {
    match t {
        TokenV::Doctype(name, ids) => if b.html is None {
            add_node(b, 0, NodeKind::DocumentType, name, ids, Seq::empty())
        } else {
            b
        },
        TokenV::Comment(data) => add_node(
            b,
            current(b),
            NodeKind::Comment,
            Seq::empty(),
            Seq::empty(),
            data,
        ),
        TokenV::Text(data) => apply_text(b, data),
        TokenV::StartTag(name, attrs, sc) => apply_start(b, name, attrs, sc),
        TokenV::EndTag(name) => apply_end(b, name),
    }
}

/// The state after the tokens from `i` on.
pub open spec fn build_from(b: BuildView, toks: Seq<TokenV>, i: int) -> BuildView
    decreases toks.len() - i,
{
    if 0 <= i < toks.len() {
        build_from(apply(b, toks[i]), toks, i + 1)
    } else {
        b
    }
}

/// The registry a document starts with: the names of the kinds of node
/// that are not elements.
pub open spec fn initial_names() -> Seq<Seq<char>> {
    seq!["#undef"@, "#end-of-file"@, "#text"@, "#document"@, "!--"@, "!doctype"@]
}

/// The state before any token: a lone document node.
pub open spec fn initial() -> BuildView {
    BuildView {
        tree: TreeView {
            nodes: seq![fresh(NodeKind::Document, Seq::empty(), Seq::empty(), Seq::empty())],
            names: initial_names(),
        },
        stack: Seq::empty(),
        html: None,
        head: None,
        body: None,
    }
}

/// The construction state after all of HTML text `s`: its tokens applied
/// in order, then `html`, `head` and `body` made if still missing.
pub open spec fn built(s: Seq<char>) -> BuildView {
    make_body(build_from(initial(), tokenize(normalize_newlines(s)), 0), Seq::empty())
}


/// Which boundary set a stack search stops at.
fn stops_exec(which: u8, n: &Vec<char>) -> (r: bool)
    ensures
        r == stops(which as int, n@),
{
    if which == 0 {
        button_scope_stop_exec(n)
    } else if which == 1 {
        list_scope_stop_exec(n)
    } else if which == 2 {
        dl_scope_stop_exec(n)
    } else if which == 4 {
        table_scope_stop_exec(n)
    } else if which == 5 {
        false
    } else {
        is_special_exec(n)
    }
}

proof fn lemma_scope_find_bound(d: Seq<NodeView>, st: Seq<usize>, k: int, t1: Seq<char>, t2: Seq<char>, which: int)
    ensures
        scope_find(d, st, k, t1, t2, which) matches Some(j) ==> 0 <= j < k && j < st.len(),
    decreases k,
{
    if 0 < k <= st.len() {
        lemma_scope_find_bound(d, st, k - 1, t1, t2, which);
    }
}

/// Tree construction in progress.
pub(crate) struct Builder {
    pub(crate) tree: Tree,
    pub(crate) stack: Vec<usize>,
    pub(crate) html: Option<usize>,
    pub(crate) head: Option<usize>,
    pub(crate) body: Option<usize>,
}

impl View for Builder {
    type V = BuildView;

    closed spec fn view(&self) -> BuildView {
        BuildView {
            tree: self.tree@,
            stack: self.stack@,
            html: self.html,
            head: self.head,
            body: self.body,
        }
    }
}

pub open spec fn attrs_view(a: Vec<Attribute>) -> Seq<AttrView> {
    a@.map_values(|x: Attribute| x@)
}

impl Builder {
    /// A lone document node and the names of the non-element kinds.
    fn new() -> (b: Builder)
        ensures
            b@ == initial(),
            bwf(b@),
    {
        let mut nodes: Vec<NodeData> = Vec::new();
        nodes.push(
            NodeData {
                kind: NodeKind::Document,
                name: Vec::new(),
                attrs: Vec::new(),
                data: Vec::new(),
                parent: None,
                children: Vec::new(),
            },
        );
        let mut names: Vec<Vec<char>> = Vec::new();
        names.push(str_to_vec("#undef"));
        names.push(str_to_vec("#end-of-file"));
        names.push(str_to_vec("#text"));
        names.push(str_to_vec("#document"));
        names.push(str_to_vec("!--"));
        names.push(str_to_vec("!doctype"));
        let b = Builder { tree: Tree { nodes, names }, stack: Vec::new(), html: None, head: None, body: None };
        proof {
            reveal_strlit("#undef");
            reveal_strlit("#end-of-file");
            reveal_strlit("#text");
            reveal_strlit("#document");
            reveal_strlit("!--");
            reveal_strlit("!doctype");
            assert(b@.tree.names =~= initial_names());
            assert(b@.tree.nodes[0].attrs =~= Seq::<AttrView>::empty());
            assert(b@.tree.nodes[0].children =~= Seq::<usize>::empty());
            assert(b@.tree.nodes[0].name =~= Seq::<char>::empty());
            assert(b@.tree.nodes[0].data =~= Seq::<char>::empty());
            assert(b@.tree.nodes =~= initial().tree.nodes);
            assert(b@ == initial());
            assert(initial_names().no_duplicates()) by {
                assert forall|i: int, j: int|
                    0 <= i < 6 && 0 <= j < 6 && i != j implies initial_names()[i].len()
                    != initial_names()[j].len() by {}
            }
        }
        b
    }

    /// The node new content goes into.
    fn current_node(&self) -> (c: usize)
        requires
            bwf(self@),
        ensures
            c == current(self@),
            c < self@.tree.nodes.len(),
    {
        let n = self.stack.len();
        if n > 0 {
            assert(self@.stack[n - 1] < self@.tree.nodes.len());
            self.stack[n - 1]
        } else {
            assert(wf_links(self@.tree.nodes));
            0
        }
    }

    /// Adds a node as the last child of `parent`, when there is room.
    fn add(&mut self, parent: usize, k: NodeKind, name: Vec<char>, attrs: Vec<Attribute>, data: Vec<char>) -> (id: usize)
        requires
            bwf(old(self)@),
            attrs_ok(attrs_view(attrs)),
            parent < old(self)@.tree.nodes.len(),
            old(self)@.tree.nodes[parent as int].kind != NodeKind::Text,
            old(self)@.tree.nodes[parent as int].kind == NodeKind::Element ==> !is_void(
                old(self)@.tree.nodes[parent as int].name,
            ),
            k != NodeKind::Document,
        ensures
            bwf(final(self)@),
            final(self)@ == add_node(old(self)@, parent, k, name@, attrs_view(attrs), data@),
            id == old(self)@.tree.nodes.len(),
    {
        let ghost b = self@;
        let id = self.tree.len();
        if id < usize::MAX {
            if k == NodeKind::Element {
                self.tree.register_name(&name);
            }
            let ghost nm = name@;
            let ghost av = attrs_view(attrs);
            let ghost dv = data@;
            self.tree.append_node(parent, k, name, attrs, data);
            assert(self@.tree.names == (if k == NodeKind::Element { reg(b.tree.names, nm) } else { b.tree.names }));
            assert(self@ == add_node(b, parent, k, nm, av, dv));
        }
        id
    }

    /// Inserts an element into the current node, pushing it when `push`.
    fn insert_element(&mut self, name: Vec<char>, attrs: Vec<Attribute>, push: bool)
        requires
            bwf(old(self)@),
            attrs_ok(attrs_view(attrs)),
            push ==> !is_void(name@),
        ensures
            bwf(final(self)@),
            final(self)@ == insert_element(old(self)@, name@, attrs_view(attrs), push),
    {
        proof {
            lemma_frame_not_void();
        }
        if self.tree.len() < usize::MAX {
            let c = self.current_node();
            let id = self.add(c, NodeKind::Element, name, attrs, Vec::new());
            if push {
                self.stack.push(id);
            }
        }
    }

    /// Adds text to `parent`, joining a text node that is its last child.
    fn insert_text(&mut self, parent: usize, data: Vec<char>)
        requires
            bwf(old(self)@),
            parent < old(self)@.tree.nodes.len(),
            old(self)@.tree.nodes[parent as int].kind != NodeKind::Text,
            old(self)@.tree.nodes[parent as int].kind == NodeKind::Element ==> !is_void(
                old(self)@.tree.nodes[parent as int].name,
            ),
        ensures
            bwf(final(self)@),
            final(self)@ == insert_text(old(self)@, parent, data@),
    {
        let ghost b = self@;
        if data.len() == 0 {
            return;
        }
        let cc = self.tree.child_count(parent);
        if cc > 0 {
            let last = self.tree.child(parent, cc - 1);
            assert(wf_links(b.tree.nodes));
            assert(last < b.tree.nodes.len());
            if self.tree.kind(last) == NodeKind::Text {
                let mut joined = self.tree.nodes[last].data.clone();
                let mut more = data;
                let ghost dv = more@;
                joined.append(&mut more);
                self.tree.set_data(last, joined);
                assert(self@ == insert_text(b, parent, dv));
                return;
            }
        }
        let none: Vec<Attribute> = Vec::new();
        assert(attrs_view(none) =~= Seq::<AttrView>::empty());
        self.add(parent, NodeKind::Text, Vec::new(), none, data);
    }

    /// Makes the `html` element if it is missing.
    fn make_html(&mut self, attrs: Vec<Attribute>)
        requires
            bwf(old(self)@),
            attrs_ok(attrs_view(attrs)),
        ensures
            bwf(final(self)@),
            final(self)@ == make_html(old(self)@, attrs_view(attrs)),
    {
        proof {
            lemma_frame_not_void();
        }
        if self.html.is_none() && self.tree.len() < usize::MAX {
            let id = self.add(0, NodeKind::Element, str_to_vec("html"), attrs, Vec::new());
            self.html = Some(id);
            let mut st: Vec<usize> = Vec::new();
            st.push(id);
            self.stack = st;
            assert(self@.stack =~= seq![id]);
        }
    }

    /// Makes `html` and `head` if they are missing.
    fn make_head(&mut self, attrs: Vec<Attribute>)
        requires
            bwf(old(self)@),
            attrs_ok(attrs_view(attrs)),
        ensures
            bwf(final(self)@),
            final(self)@ == make_head(old(self)@, attrs_view(attrs)),
    {
        proof {
            lemma_frame_not_void();
        }
        let ghost b = self@;
        let ghost av = attrs_view(attrs);
        let none: Vec<Attribute> = Vec::new();
        assert(attrs_view(none) =~= Seq::<AttrView>::empty());
        self.make_html(none);
        if self.head.is_none() && self.tree.len() < usize::MAX {
            match self.html {
                Some(h) => {
                    let id = self.add(h, NodeKind::Element, str_to_vec("head"), attrs, Vec::new());
                    self.head = Some(id);
                    self.stack.push(id);
                },
                None => {},
            }
        }
        assert(self@ == make_head(b, av));
    }

    /// Makes `html`, `head` and `body` if they are missing.
    fn make_body(&mut self, attrs: Vec<Attribute>)
        requires
            bwf(old(self)@),
            attrs_ok(attrs_view(attrs)),
        ensures
            bwf(final(self)@),
            final(self)@ == make_body(old(self)@, attrs_view(attrs)),
            final(self)@.tree.nodes.len() < usize::MAX ==> final(self)@.html is Some
                && final(self)@.head is Some && final(self)@.body is Some,
    {
        proof {
            lemma_frame_not_void();
        }
        let ghost b = self@;
        let ghost av = attrs_view(attrs);
        let none: Vec<Attribute> = Vec::new();
        assert(attrs_view(none) =~= Seq::<AttrView>::empty());
        self.make_head(none);
        if self.body.is_none() && self.tree.len() < usize::MAX {
            match self.html {
                Some(h) => {
                    let id = self.add(h, NodeKind::Element, str_to_vec("body"), attrs, Vec::new());
                    self.body = Some(id);
                    let mut st: Vec<usize> = Vec::new();
                    st.push(h);
                    st.push(id);
                    self.stack = st;
                    assert(self@.stack =~= seq![h, id]);
                },
                None => {},
            }
        }
        assert(self@ == make_body(b, av));
    }

    /// Position on the stack of the innermost open `t1` or `t2`, unless a
    /// boundary of kind `which` comes first.
    fn scope_find(&self, t1: &Vec<char>, t2: &Vec<char>, which: u8) -> (r: Option<usize>)
        requires
            bwf(self@),
        ensures
            match r {
                Some(k) => scope_find(
                    self@.tree.nodes,
                    self@.stack,
                    self@.stack.len() as int,
                    t1@,
                    t2@,
                    which as int,
                ) == Some(k as int),
                None => scope_find(
                    self@.tree.nodes,
                    self@.stack,
                    self@.stack.len() as int,
                    t1@,
                    t2@,
                    which as int,
                ) is None,
            },
    {
        let ghost d = self@.tree.nodes;
        let ghost st = self@.stack;
        let ghost goal = scope_find(d, st, st.len() as int, t1@, t2@, which as int);
        let mut k = self.stack.len();
        while k > 0
            invariant
                bwf(self@),
                d == self@.tree.nodes,
                st == self@.stack,
                k <= st.len(),
                goal == scope_find(d, st, st.len() as int, t1@, t2@, which as int),
                goal == scope_find(d, st, k as int, t1@, t2@, which as int),
            decreases k,
        {
            let n = self.stack[k - 1];
            assert(n < d.len());
            let nm = &self.tree.nodes[n].name;
            assert(nm@ == d[n as int].name);
            if vec_eq(nm, t1) || vec_eq(nm, t2) {
                return Some(k - 1);
            }
            if stops_exec(which, nm) {
                return None;
            }
            k = k - 1;
        }
        None
    }

    /// Pops the element found by `scope_find` and everything above it.
    fn pop_through(&mut self, t1: &Vec<char>, t2: &Vec<char>, which: u8)
        requires
            bwf(old(self)@),
        ensures
            bwf(final(self)@),
            final(self)@ == pop_through(old(self)@, t1@, t2@, which as int),
    {
        let ghost b = self@;
        match self.scope_find(t1, t2, which) {
            Some(k) => {
                proof {
                    lemma_scope_find_bound(b.tree.nodes, b.stack, b.stack.len() as int, t1@, t2@, which as int);
                }
                self.stack.truncate(k);
            },
            None => {},
        }
    }

    /// An `svg` or `math` element is open.
    fn in_foreign(&self) -> (r: bool)
        requires
            bwf(self@),
        ensures
            r == in_foreign(self@),
    {
        let svg = str_to_vec("svg");
        let math = str_to_vec("math");
        self.scope_find(&svg, &math, 5).is_some()
    }

    /// The current node is an element named `n`.
    fn current_is(&self, n: &str) -> (r: bool)
        requires
            bwf(self@),
        ensures
            r == current_is(self@, n@),
    {
        if self.stack.len() == 0 {
            return false;
        }
        let c = self.current_node();
        vec_eq(&self.tree.nodes[c].name, &str_to_vec(n))
    }

    /// Pops the current node.
    fn pop_current(&mut self)
        requires
            bwf(old(self)@),
            old(self)@.stack.len() > 0,
        ensures
            bwf(final(self)@),
            final(self)@ == (BuildView { stack: old(self)@.stack.drop_last(), ..old(self)@ }),
    {
        let ghost b = self@;
        self.stack.pop();
        assert(self@.stack =~= b.stack.drop_last());
    }

    fn row_prep(&mut self)
        requires
            bwf(old(self)@),
        ensures
            bwf(final(self)@),
            final(self)@ == row_prep(old(self)@),
    {
        proof {
            lemma_frame_not_void();
        }
        let tr = str_to_vec("tr");
        self.pop_through(&tr, &tr, 4);
        if self.current_is("table") {
            let none: Vec<Attribute> = Vec::new();
            assert(attrs_view(none) =~= Seq::<AttrView>::empty());
            self.insert_element(str_to_vec("tbody"), none, true);
        }
    }

    fn cell_prep(&mut self)
        requires
            bwf(old(self)@),
        ensures
            bwf(final(self)@),
            final(self)@ == cell_prep(old(self)@),
    {
        proof {
            lemma_frame_not_void();
        }
        let td = str_to_vec("td");
        let th = str_to_vec("th");
        self.pop_through(&td, &th, 4);
        if self.current_is("table") {
            let none: Vec<Attribute> = Vec::new();
            assert(attrs_view(none) =~= Seq::<AttrView>::empty());
            self.insert_element(str_to_vec("tbody"), none, true);
        }
        if self.stack.len() > 0 {
            let c = self.current_node();
            if is_table_section_exec(&self.tree.nodes[c].name) {
                let none: Vec<Attribute> = Vec::new();
                assert(attrs_view(none) =~= Seq::<AttrView>::empty());
                self.insert_element(str_to_vec("tr"), none, true);
            }
        }
    }

    fn section_prep(&mut self)
        requires
            bwf(old(self)@),
        ensures
            bwf(final(self)@),
            final(self)@ == section_prep(old(self)@),
    {
        proof {
            lemma_frame_not_void();
        }
        let tbody = str_to_vec("tbody");
        let thead = str_to_vec("thead");
        let tfoot = str_to_vec("tfoot");
        self.pop_through(&tbody, &thead, 4);
        self.pop_through(&tfoot, &tfoot, 4);
    }

    fn option_prep(&mut self, name: &Vec<char>)
        requires
            bwf(old(self)@),
        ensures
            bwf(final(self)@),
            final(self)@ == option_prep(old(self)@, name@),
    {
        if self.current_is("option") {
            self.pop_current();
        }
        if keyword(name, "optgroup") && self.current_is("optgroup") {
            self.pop_current();
        }
    }

    /// Where content that the table cannot hold goes, if anywhere.
    fn foster_spot(&self) -> (r: Option<(usize, usize)>)
        requires
            bwf(self@),
        ensures
            match r {
                Some((p, k)) => foster_spot(self@) == Some((p, k as int)) && p < self@.tree.nodes.len()
                    && k < self@.tree.nodes[p as int].children.len(),
                None => foster_spot(self@) is None,
            },
    {
        let ghost d = self@.tree.nodes;
        if self.stack.len() == 0 {
            return None;
        }
        let c = self.current_node();
        let nm = &self.tree.nodes[c].name;
        assert(nm@ == d[c as int].name);
        if !(keyword(nm, "table") || is_table_section_exec(nm) || keyword(nm, "tr")) {
            return None;
        }
        let table = str_to_vec("table");
        match self.scope_find(&table, &table, 5) {
            Some(t) => {
                proof {
                    lemma_scope_find_bound(d, self@.stack, self@.stack.len() as int, table@, table@, 5);
                }
                let node = self.stack[t];
                assert(node < d.len());
                match self.tree.parent(node) {
                    Some(p) => {
                        let k = self.tree.index_in_parent(node);
                        Some((p, k))
                    },
                    None => None,
                }
            },
            None => None,
        }
    }

    /// Makes an element child `k` of `p`, pushing it when `push`.
    fn foster_element(&mut self, p: usize, k: usize, name: Vec<char>, attrs: Vec<Attribute>, push: bool)
        requires
            bwf(old(self)@),
            attrs_ok(attrs_view(attrs)),
            p < old(self)@.tree.nodes.len(),
            k < old(self)@.tree.nodes[p as int].children.len(),
            push ==> !is_void(name@),
        ensures
            bwf(final(self)@),
            final(self)@ == foster_element(old(self)@, p, k as int, name@, attrs_view(attrs), push),
    {
        proof {
            lemma_frame_not_void();
        }
        let ghost b = self@;
        let id = self.tree.len();
        if id < usize::MAX {
            assert(b.tree.nodes[p as int].kind != NodeKind::Text);
            self.tree.register_name(&name);
            let ghost nm = name@;
            let ghost av = attrs_view(attrs);
            let none: Vec<char> = Vec::new();
            self.tree.insert_node(p, k, NodeKind::Element, name, attrs, none);
            if push {
                self.stack.push(id);
            }
            assert(self@ == foster_element(b, p, k as int, nm, av, push));
        }
    }

    /// Puts text in front of child `k` of `p`, joining a text node just
    /// before it.
    fn foster_text(&mut self, p: usize, k: usize, data: Vec<char>)
        requires
            bwf(old(self)@),
            p < old(self)@.tree.nodes.len(),
            k < old(self)@.tree.nodes[p as int].children.len(),
        ensures
            bwf(final(self)@),
            final(self)@ == foster_text(old(self)@, p, k as int, data@),
    {
        let ghost b = self@;
        let ghost d = b.tree.nodes;
        assert(d[p as int].kind != NodeKind::Text);
        if k > 0 {
            let prev = self.tree.child(p, k - 1);
            if self.tree.kind(prev) == NodeKind::Text {
                let mut joined = self.tree.nodes[prev].data.clone();
                let mut more = data;
                let ghost dv = more@;
                joined.append(&mut more);
                self.tree.set_data(prev, joined);
                assert(self@ == foster_text(b, p, k as int, dv));
                return;
            }
        }
        if self.tree.len() < usize::MAX {
            let none: Vec<Attribute> = Vec::new();
            assert(attrs_view(none) =~= Seq::<AttrView>::empty());
            let ghost dv = data@;
            self.tree.insert_node(p, k, NodeKind::Text, Vec::new(), none, data);
            assert(self@ == foster_text(b, p, k as int, dv));
        }
    }

    /// Handles a start tag in the body.
    fn body_start(&mut self, name: Vec<char>, attrs: Vec<Attribute>, sc: bool)
        requires
            bwf(old(self)@),
            attrs_ok(attrs_view(attrs)),
        ensures
            bwf(final(self)@),
            final(self)@ == body_start(old(self)@, name@, attrs_view(attrs), sc),
    {
        let ghost b = self@;
        let ghost av = attrs_view(attrs);
        if closes_p_exec(&name) {
            let p = str_to_vec("p");
            self.pop_through(&p, &p, 0);
        }
        let ghost b1 = self@;
        if is_heading_exec(&name) && self.stack.len() > 0 {
            let c = self.current_node();
            if is_heading_exec(&self.tree.nodes[c].name) {
                self.stack.pop();
                assert(self@.stack =~= b1.stack.drop_last());
            }
        }
        let ghost b2 = self@;
        if keyword(&name, "li") {
            let li = str_to_vec("li");
            self.pop_through(&li, &li, 1);
        } else if keyword(&name, "dd") || keyword(&name, "dt") {
            let dd = str_to_vec("dd");
            let dt = str_to_vec("dt");
            self.pop_through(&dd, &dt, 2);
        } else if is_cell_exec(&name) {
            self.cell_prep();
        } else if keyword(&name, "tr") {
            self.row_prep();
        } else if is_table_section_exec(&name) {
            self.section_prep();
        } else if keyword(&name, "option") || keyword(&name, "optgroup") {
            self.option_prep(&name);
        } else if keyword(&name, "a") || keyword(&name, "button") {
            self.pop_through(&name, &name, 3);
        }
        let void = is_void_exec(&name);
        let closed = sc && (keyword(&name, "svg") || keyword(&name, "math") || self.in_foreign());
        let ghost nm = name@;
        let stays = is_table_part_exec(&name) || keyword(&name, "col") || keyword(&name, "colgroup")
            || keyword(&name, "script") || keyword(&name, "style") || keyword(&name, "template")
            || keyword(&name, "form");
        let spot = if stays {
            None
        } else {
            self.foster_spot()
        };
        match spot {
            Some((p, k)) => self.foster_element(p, k, name, attrs, !void && !closed),
            None => self.insert_element(name, attrs, !void && !closed),
        }
        assert(self@ == body_start(b, nm, av, sc));
    }

    /// Handles a text token.
    fn apply_text(&mut self, data: Vec<char>)
        requires
            bwf(old(self)@),
        ensures
            bwf(final(self)@),
            final(self)@ == apply_text(old(self)@, data@),
    {
        if self.body.is_some() {
            let data = without_nul_exec(&data);
            let spot = if all_ws_vec(&data) {
                None
            } else {
                self.foster_spot()
            };
            match spot {
                Some((p, k)) => self.foster_text(p, k, data),
                None => {
                    let c = self.current_node();
                    self.insert_text(c, data);
                },
            }
        } else if self.stack.len() > 0 && self.html != Some(self.current_node()) && self.head != Some(
            self.current_node(),
        ) {
            let c = self.current_node();
            self.insert_text(c, data);
        } else if all_ws_vec(&data) {
            if self.stack.len() > 0 {
                let c = self.current_node();
                if self.head == Some(c) {
                    self.insert_text(c, data);
                }
            }
        } else {
            let none: Vec<Attribute> = Vec::new();
            assert(attrs_view(none) =~= Seq::<AttrView>::empty());
            self.make_body(none);
            let c = self.current_node();
            let start = skip_ws_exec(&data, 0);
            let rest = slice_vec(&data, start, data.len());
            let rest = without_nul_exec(&rest);
            self.insert_text(c, rest);
        }
    }

    /// Handles a start tag.
    fn apply_start(&mut self, name: Vec<char>, attrs: Vec<Attribute>, sc: bool)
        requires
            bwf(old(self)@),
            attrs_ok(attrs_view(attrs)),
        ensures
            bwf(final(self)@),
            final(self)@ == apply_start(old(self)@, name@, attrs_view(attrs), sc),
    {
        proof {
            lemma_frame_not_void();
        }
        let ghost b = self@;
        let ghost av = attrs_view(attrs);
        let none: Vec<Attribute> = Vec::new();
        assert(attrs_view(none) =~= Seq::<AttrView>::empty());
        if keyword(&name, "html") {
            self.make_html(attrs);
        } else if keyword(&name, "head") {
            if self.head.is_none() && self.body.is_none() {
                self.make_head(attrs);
            }
        } else if keyword(&name, "body") {
            self.make_body(attrs);
        } else if self.body.is_none() && is_head_content_exec(&name) {
            self.make_head(none);
            let ghost b1 = self@;
            if self.tree.len() < usize::MAX {
                match self.head {
                    Some(h) => {
                        let void = is_void_exec(&name);
                        let id = self.add(h, NodeKind::Element, name, attrs, Vec::new());
                        if !void {
                            self.stack.push(id);
                        }
                    },
                    None => {},
                }
            }
        } else {
            self.make_body(none);
            self.body_start(name, attrs, sc);
        }
        assert(self@ == apply_start(b, name@, av, sc));
    }

    /// Handles an end tag.
    fn apply_end(&mut self, name: Vec<char>)
        requires
            bwf(old(self)@),
        ensures
            bwf(final(self)@),
            final(self)@ == apply_end(old(self)@, name@),
    {
        proof {
            lemma_frame_not_void();
        }
        let ghost b = self@;
        let none: Vec<Attribute> = Vec::new();
        assert(attrs_view(none) =~= Seq::<AttrView>::empty());
        if keyword(&name, "head") {
            if self.stack.len() > 0 {
                let c = self.current_node();
                if self.head == Some(c) {
                    self.stack.pop();
                    assert(self@.stack =~= b.stack.drop_last());
                }
            }
        } else if keyword(&name, "body") || keyword(&name, "html") {
        } else if keyword(&name, "br") {
            self.make_body(none);
            let none2: Vec<Attribute> = Vec::new();
            assert(attrs_view(none2) =~= Seq::<AttrView>::empty());
            self.body_start(str_to_vec("br"), none2, false);
        } else if keyword(&name, "p") {
            let p = str_to_vec("p");
            if self.scope_find(&p, &p, 0).is_some() {
                self.pop_through(&p, &p, 0);
            } else {
                self.make_body(none);
                let none2: Vec<Attribute> = Vec::new();
                assert(attrs_view(none2) =~= Seq::<AttrView>::empty());
                self.insert_element(p, none2, false);
            }
        } else if is_table_part_exec(&name) {
            self.pop_through(&name, &name, 4);
        } else {
            self.pop_through(&name, &name, 3);
        }
        assert(self@ == apply_end(b, name@));
    }

    /// Handles one token.
    fn apply(&mut self, t: Token)
        requires
            bwf(old(self)@),
            token_ok(t@),
        ensures
            bwf(final(self)@),
            final(self)@ == apply(old(self)@, t@),
    {
        reveal(apply);
        let none: Vec<Attribute> = Vec::new();
        assert(attrs_view(none) =~= Seq::<AttrView>::empty());
        match t {
            Token::Doctype(name, ids) => {
                if self.html.is_none() {
                    self.add(0, NodeKind::DocumentType, name, ids, Vec::new());
                }
            },
            Token::Comment(data) => {
                let c = self.current_node();
                self.add(c, NodeKind::Comment, Vec::new(), none, data);
            },
            Token::Text(data) => self.apply_text(data),
            Token::StartTag(name, attrs, sc) => self.apply_start(name, attrs, sc),
            Token::EndTag(name) => self.apply_end(name),
        }
    }
}

/// Builds the document tree of HTML text `s`: the tree, and the `html`,
/// `head` and `body` elements.
pub(crate) fn build(s: &Vec<char>) -> (r: (Tree, Option<usize>, Option<usize>, Option<usize>))
    ensures
        r.0.wf(),
        r.0@ == built(s@).tree,
        r.1 == built(s@).html,
        r.2 == built(s@).head,
        r.3 == built(s@).body,
        bwf(built(s@)),
        built(s@).tree.nodes.len() < usize::MAX ==> built(s@).html is Some && built(s@).head is Some
            && built(s@).body is Some,
{
    let norm = normalize_newlines_exec(s);
    let mut toks = tokenize_exec(&norm);
    let ghost all = tokens_view(toks);
    let mut rev: Vec<Token> = Vec::new();
    while toks.len() > 0
        invariant
            toks.len() + rev.len() == all.len(),
            tokens_view(toks) == all.subrange(0, toks.len() as int),
            forall|j: int| 0 <= j < rev.len() ==> (#[trigger] rev@[j])@ == all[all.len() - 1 - j],
        decreases toks.len(),
    {
        let ghost before = tokens_view(toks);
        let t = toks.pop().unwrap();
        assert(t@ == before[before.len() - 1]);
        assert(tokens_view(toks) =~= all.subrange(0, toks.len() as int));
        rev.push(t);
    }
    proof {
        crate::html_token::lemma_tokenize_from_ok(norm@, 0);
    }
    let mut b = Builder::new();
    while rev.len() > 0
        invariant
            bwf(b@),
            forall|k: int| 0 <= k < all.len() ==> token_ok(#[trigger] all[k]),
            rev.len() <= all.len(),
            forall|j: int| 0 <= j < rev.len() ==> (#[trigger] rev@[j])@ == all[all.len() - 1 - j],
            build_from(b@, all, all.len() - rev.len()) == build_from(initial(), all, 0),
        decreases rev.len(),
    {
        let ghost i = all.len() - rev.len();
        let ghost old_rev = rev@;
        let t = rev.pop().unwrap();
        assert(t@ == all[i]) by {
            assert(t == old_rev[old_rev.len() - 1]);
        }
        assert(forall|j: int| 0 <= j < rev.len() ==> rev@[j] == old_rev[j]);
        b.apply(t);
    }
    let none: Vec<Attribute> = Vec::new();
    assert(attrs_view(none) =~= Seq::<AttrView>::empty());
    b.make_body(none);
    (b.tree, b.html, b.head, b.body)
}

} // verus!
