use lexbor_css::node::TextOpts;
use lexbor_css::{Collection, Error, HtmlDocument, Node, SerializeOpts, StyleSheet};

fn walk_descendants(doc: &HtmlDocument, n: &Node) -> Vec<String> {
    let mut out = Vec::new();
    let mut it = n.descendants(doc);
    while let Some(c) = it.next(doc) {
        if c.is_element(doc) {
            out.push(c.tag_name(doc));
        } else {
            out.push(c.text(doc));
        }
    }
    out
}

fn document_node(doc: &HtmlDocument) -> Node {
    doc.root().parent(doc).unwrap()
}

// ---------------------------------------------------------------------------
// Parsing
// ---------------------------------------------------------------------------

#[test]
fn parse_builds_html_head_body() {
    let doc = HtmlDocument::parse("<div>a</div>").unwrap();
    assert_eq!(doc.root().tag_name(&doc), "html");
    assert_eq!(doc.head().unwrap().tag_name(&doc), "head");
    assert_eq!(doc.body().unwrap().tag_name(&doc), "body");
    assert_eq!(doc.body().unwrap().inner_html(&doc), "<div>a</div>");
    assert!(document_node(&doc).is_document(&doc));
}

#[test]
fn parse_empty_input_still_has_frame() {
    let doc = HtmlDocument::parse("").unwrap();
    assert_eq!(doc.root().outer_html(&doc), "<html><head></head><body></body></html>");
}

#[test]
fn parse_puts_head_content_in_head() {
    let doc = HtmlDocument::parse("<title>T</title><p>x</p>").unwrap();
    let head = doc.head().unwrap();
    assert_eq!(head.inner_html(&doc), "<title>T</title>");
    assert_eq!(doc.body().unwrap().inner_html(&doc), "<p>x</p>");
}

#[test]
fn parse_decodes_character_references() {
    let doc = HtmlDocument::parse("<p>a &amp; b &lt; c &#65;&#x42;</p>").unwrap();
    let p = doc.select_first("p").unwrap();
    assert_eq!(p.text(&doc), "a & b < c AB");
    assert_eq!(p.outer_html(&doc), "<p>a &amp; b &lt; c AB</p>");
}

#[test]
fn parse_normalizes_newlines() {
    let doc = HtmlDocument::parse("<p>a\r\nb\rc</p>").unwrap();
    assert_eq!(doc.select_first("p").unwrap().text(&doc), "a\nb\nc");
}

#[test]
fn parse_lowercases_names() {
    let doc = HtmlDocument::parse("<DIV CLASS=X>y</DIV>").unwrap();
    let div = doc.select_first("div").unwrap();
    assert_eq!(div.tag_name(&doc), "div");
    assert_eq!(div.attr(&doc, "class").as_deref(), Some("X"));
    assert_eq!(div.attr(&doc, "CLASS").as_deref(), Some("X"));
}

#[test]
fn parse_closes_paragraphs_and_list_items() {
    let doc = HtmlDocument::parse("<p>a<p>b<ul><li>1<li>2</ul>").unwrap();
    assert_eq!(doc.select("p").len(), 2);
    assert_eq!(doc.select("li").len(), 2);
    assert_eq!(doc.select("ul > li").len(), 2);
}

#[test]
fn parse_keeps_first_of_repeated_attributes() {
    let doc = HtmlDocument::parse("<a x=1 x=2>t</a>").unwrap();
    let a = doc.select_first("a").unwrap();
    assert_eq!(a.attributes(&doc).len(), 1);
    assert_eq!(a.attr(&doc, "x").as_deref(), Some("1"));
}

#[test]
fn parse_script_is_raw_text() {
    let doc = HtmlDocument::parse("<script>if (a<b) {}</script>").unwrap();
    let head = doc.head().unwrap();
    let scripts = doc.select_from(&head, "script");
    assert_eq!(scripts.len(), 1);
    assert_eq!(scripts[0].text(&doc), "if (a<b) {}");
    assert_eq!(scripts[0].inner_html(&doc), "if (a<b) {}");
}

// ---------------------------------------------------------------------------
// Serialization
// ---------------------------------------------------------------------------

#[test]
fn serialize_escapes_text_and_attributes() {
    let doc = HtmlDocument::parse("<a title='x\"y&z'>1 &lt; 2 &gt; 0</a>").unwrap();
    let a = doc.select_first("a").unwrap();
    assert_eq!(a.outer_html(&doc), "<a title=\"x&quot;y&amp;z\">1 &lt; 2 &gt; 0</a>");
}

#[test]
fn serialize_void_boolean_comment_doctype() {
    let doc = HtmlDocument::parse("<!DOCTYPE html><p>a<br>b<input disabled><!--c--></p>").unwrap();
    let p = doc.select_first("p").unwrap();
    assert_eq!(p.inner_html(&doc), "a<br>b<input disabled=\"\"><!--c-->");
    let html = document_node(&doc).outer_html(&doc);
    assert!(html.starts_with("<!DOCTYPE html><html>"));
}

#[test]
fn serialize_nbsp_in_text() {
    let doc = HtmlDocument::parse("<p>a&nbsp;b</p>").unwrap();
    let p = doc.select_first("p").unwrap();
    assert_eq!(p.text(&doc), "a\u{a0}b");
    assert_eq!(p.inner_html(&doc), "a&nbsp;b");
}

// ---------------------------------------------------------------------------
// Selection
// ---------------------------------------------------------------------------

#[test]
fn select_attribute_operators() {
    let html = r#"<div><a href="x.png" class="a b" lang="en-US">1</a><a href="y.gif" lang="fr">2</a></div>"#;
    let doc = HtmlDocument::parse(html).unwrap();
    assert_eq!(doc.select(r#"a[href$=".png"]"#).len(), 1);
    assert_eq!(doc.select(r#"a[href*="y."]"#).len(), 1);
    assert_eq!(doc.select("a[class~=b]").len(), 1);
    assert_eq!(doc.select("a[lang|=en]").len(), 1);
}

#[test]
fn select_structural_pseudo_classes() {
    let doc = HtmlDocument::parse("<ul><li>A</li><li>B</li><li>C</li></ul><p></p>").unwrap();
    assert_eq!(doc.select("li:first-child")[0].text(&doc), "A");
    assert_eq!(doc.select("li:last-child")[0].text(&doc), "C");
    assert_eq!(doc.select("li:nth-child(odd)").len(), 2);
    assert_eq!(doc.select("li:nth-last-child(1)")[0].text(&doc), "C");
    assert_eq!(doc.select("p:empty").len(), 1);
    assert_eq!(doc.select("li ~ li").len(), 2);
}

#[test]
fn select_is_scoped_below_root() {
    let doc = HtmlDocument::parse("<div id='a'><div id='b'></div></div>").unwrap();
    let a = doc.select_first("#a").unwrap();
    let found = doc.select_from(&a, "div");
    assert_eq!(found.len(), 1);
    assert_eq!(found[0].id(&doc).as_deref(), Some("b"));
}

#[test]
fn select_first_is_first_of_select() {
    let doc = HtmlDocument::parse("<p>1</p><div><p>2</p></div><p>3</p>").unwrap();
    let all = doc.select("p");
    assert_eq!(all.len(), 3);
    assert_eq!(doc.select_first("p"), Some(all[0]));
    assert_eq!(all[1].text(&doc), "2");
}

#[test]
fn compiled_selector_agrees_with_text() {
    let doc = HtmlDocument::parse("<div><p class='x'>1</p><p>2</p></div>").unwrap();
    let sel = doc.compile_selector("p.x").unwrap();
    assert_eq!(sel.find(&doc), doc.select("p.x"));
    let ps = doc.select("p");
    assert!(sel.matches(&doc, &ps[0]));
    assert!(!sel.matches(&doc, &ps[1]));
    assert_eq!(ps[0].css_matches(&doc, "p.x"), sel.matches(&doc, &ps[0]));
    assert_eq!(sel.find_first(&doc), Some(ps[0]));
}

#[test]
fn compile_error_carries_selector_text() {
    let doc = HtmlDocument::parse("<p></p>").unwrap();
    match doc.compile_selector("p[") {
        Err(Error::SelectorParse(s)) => assert_eq!(s, "p["),
        _ => panic!("expected a selector error"),
    }
}

// ---------------------------------------------------------------------------
// Traversal
// ---------------------------------------------------------------------------

#[test]
fn descendants_walk_in_preorder() {
    let doc = HtmlDocument::parse("<div><p><b>x</b>y</p><i>z</i></div>").unwrap();
    let div = doc.select_first("div").unwrap();
    assert_eq!(walk_descendants(&doc, &div), vec!["p", "b", "x", "y", "i", "z"]);
}

#[test]
fn traverse_starts_with_the_node() {
    let doc = HtmlDocument::parse("<div><p>x</p></div>").unwrap();
    let p = doc.select_first("p").unwrap();
    let mut it = p.traverse(&doc);
    assert_eq!(it.next(&doc), Some(p));
    assert_eq!(it.next(&doc), p.first_child(&doc));
    assert_eq!(it.next(&doc), None);
    assert_eq!(it.next(&doc), None);
}

#[test]
fn ancestors_follow_parents_to_the_document() {
    let doc = HtmlDocument::parse("<div><p>x</p></div>").unwrap();
    let p = doc.select_first("p").unwrap();
    let mut it = p.ancestors(&doc);
    let mut names = Vec::new();
    while let Some(n) = it.next(&doc) {
        names.push(n.tag_name(&doc));
    }
    assert_eq!(names, vec!["p", "div", "body", "html", ""]);
}

#[test]
fn iter_children_filters_text() {
    let doc = HtmlDocument::parse("<div> <b>x</b>t <i>y</i></div>").unwrap();
    let div = doc.select_first("div").unwrap();
    assert_eq!(div.iter_children(&doc, false, false).len(), 2);
    assert_eq!(div.iter_children(&doc, true, false).len(), 4);
    assert_eq!(div.iter_children(&doc, true, true).len(), 3);
}

#[test]
fn tag_ids_compare_names() {
    let doc = HtmlDocument::parse("<p>a</p><div></div><p>b</p>").unwrap();
    let ps = doc.select("p");
    let div = doc.select_first("div").unwrap();
    assert_eq!(ps[0].tag_id(&doc), ps[1].tag_id(&doc));
    assert_ne!(ps[0].tag_id(&doc), div.tag_id(&doc));
    assert_ne!(ps[0].first_child(&doc).unwrap().tag_id(&doc), div.tag_id(&doc));
}

// ---------------------------------------------------------------------------
// Text
// ---------------------------------------------------------------------------

#[test]
fn text_with_shallow_options() {
    let doc = HtmlDocument::parse("<div> a <b>b</b>  <i>c</i> d </div>").unwrap();
    let div = doc.select_first("div").unwrap();
    let opts = TextOpts { deep: false, separator: "|", strip: true, skip_empty: true };
    assert_eq!(div.text_with(&doc, opts), "a|d");
    let opts = TextOpts { deep: false, separator: "|", strip: false, skip_empty: false };
    assert_eq!(div.text_with(&doc, opts), " a |  | d ");
    let opts = TextOpts { deep: true, separator: "", strip: true, skip_empty: false };
    assert_eq!(div.text_with(&doc, opts), "abcd");
    let opts = TextOpts { deep: true, separator: "|", strip: true, skip_empty: true };
    assert_eq!(div.text_with(&doc, opts), "a|b|c|d");
}

#[test]
fn text_with_deep_joins_fragments() {
    let doc = HtmlDocument::parse("<div><p>Hello</p><p>World</p></div>").unwrap();
    let div = doc.select_first("div").unwrap();
    let opts = TextOpts { separator: " ", ..TextOpts::default() };
    assert_eq!(div.text_with(&doc, opts), "Hello World");
    assert_eq!(div.text(&doc), "HelloWorld");
}

#[test]
fn matches_sees_the_head() {
    let doc = HtmlDocument::parse("<title>T</title><p>x</p>").unwrap();
    assert!(doc.matches("title"));
    assert!(doc.matches("head > title"));
    assert!(doc.matches("p"));
    assert!(!doc.matches("span"));
    assert!(!doc.matches("p["));
}

#[test]
fn strip_tags_reaches_the_head() {
    let mut doc = HtmlDocument::parse("<style>b{}</style><title>T</title><p>x<style>i{}</style></p>").unwrap();
    doc.strip_tags(&["style", "title"]);
    assert!(!doc.matches("style"));
    assert!(!doc.matches("title"));
    assert_eq!(doc.head().unwrap().inner_html(&doc), "");
    assert_eq!(doc.body().unwrap().inner_html(&doc), "<p>x</p>");
}

#[test]
fn text_content_of_comment() {
    let doc = HtmlDocument::parse("<div><!-- note --></div>").unwrap();
    let c = doc.select_first("div").unwrap().first_child(&doc).unwrap();
    assert!(c.is_comment(&doc));
    assert_eq!(c.comment_content(&doc).as_deref(), Some(" note "));
    assert_eq!(c.text(&doc), " note ");
    assert_eq!(c.node_type(&doc), 8);
}

// ---------------------------------------------------------------------------
// Mutation
// ---------------------------------------------------------------------------

#[test]
fn set_attr_boolean_reads_empty() {
    let mut doc = HtmlDocument::parse("<div id='a'></div>").unwrap();
    let div = doc.select_first("div").unwrap();
    assert!(div.set_attr(&mut doc, "Hidden", None).is_ok());
    assert_eq!(div.attr(&doc, "hidden").as_deref(), Some(""));
    assert_eq!(div.attr(&doc, "id").as_deref(), Some("a"));
    assert_eq!(div.outer_html(&doc), "<div id=\"a\" hidden=\"\"></div>");
    assert!(div.set_attr(&mut doc, "id", Some("b")).is_ok());
    assert_eq!(div.outer_html(&doc), "<div id=\"b\" hidden=\"\"></div>");
}

#[test]
fn attribute_errors() {
    let mut doc = HtmlDocument::parse("<p>t</p>").unwrap();
    let p = doc.select_first("p").unwrap();
    let t = p.first_child(&doc).unwrap();
    assert_eq!(
        t.set_attr(&mut doc, "x", Some("y")),
        Err(Error::SetAttribute("not an element node".to_string()))
    );
    assert_eq!(
        t.remove_attr(&mut doc, "x"),
        Err(Error::RemoveAttribute("not an element node".to_string()))
    );
    assert_eq!(
        p.set_attr(&mut doc, "a\0b", Some("y")),
        Err(Error::SetAttribute("invalid name: a\0b".to_string()))
    );
    assert_eq!(
        p.remove_attr(&mut doc, "a\0b"),
        Err(Error::RemoveAttribute("invalid name: a\0b".to_string()))
    );
    assert_eq!(p.attr(&doc, "a\0b"), None);
}

#[test]
fn remove_attr_keeps_others() {
    let mut doc = HtmlDocument::parse("<div id='x' class='y z'>t</div>").unwrap();
    let div = doc.select_first("div").unwrap();
    assert!(div.remove_attr(&mut doc, "ID").is_ok());
    assert_eq!(div.attr(&doc, "id"), None);
    assert_eq!(div.classes(&doc), vec!["y", "z"]);
    assert!(div.remove_attr(&mut doc, "missing").is_ok());
    assert_eq!(div.attributes(&doc).len(), 1);
}

#[test]
fn document_node_cannot_be_removed() {
    let mut doc = HtmlDocument::parse("<p>x</p>").unwrap();
    let d = document_node(&doc);
    assert_eq!(d.decompose(&mut doc), Err(Error::RootNode));
    assert_eq!(d.decompose_shallow(&mut doc), Err(Error::RootNode));
    assert_eq!(d.remove(&mut doc), Err(Error::RootNode));
    assert_eq!(d.unwrap(&mut doc), Err(Error::RootNode));
    assert_eq!(doc.select("p").len(), 1);
}

#[test]
fn decompose_unlinks_the_whole_subtree() {
    let mut doc = HtmlDocument::parse("<div><p><b>x</b></p><span>y</span></div>").unwrap();
    let p = doc.select_first("p").unwrap();
    let b = doc.select_first("b").unwrap();
    assert!(p.decompose(&mut doc).is_ok());
    assert!(b.parent(&doc).is_none());
    assert!(p.first_child(&doc).is_none());
    assert_eq!(doc.select_first("div").unwrap().inner_html(&doc), "<span>y</span>");
}

#[test]
fn decompose_shallow_keeps_children_with_node() {
    let mut doc = HtmlDocument::parse("<div><p><b>x</b></p></div>").unwrap();
    let p = doc.select_first("p").unwrap();
    assert!(p.decompose_shallow(&mut doc).is_ok());
    assert!(p.parent(&doc).is_none());
    assert_eq!(doc.select_from(&p, "b").len(), 1);
    assert_eq!(doc.select("b").len(), 0);
}

#[test]
fn unwrap_moves_children_into_place() {
    let mut doc = HtmlDocument::parse("<div>1<p><b>A</b>B</p>2</div>").unwrap();
    let div = doc.select_first("div").unwrap();
    let p = doc.select_first("p").unwrap();
    let before = div.text(&doc);
    assert!(p.unwrap(&mut doc).is_ok());
    assert_eq!(div.inner_html(&doc), "1<b>A</b>B2");
    assert_eq!(div.text(&doc), before);
    assert_eq!(doc.select("p").len(), 0);
    assert!(p.parent(&doc).is_none());
    assert_eq!(doc.select_first("b").unwrap().parent(&doc), Some(div));
}

#[test]
fn append_and_merge_text_nodes() {
    let mut doc = HtmlDocument::parse("<div>a<b>x</b></div>").unwrap();
    let div = doc.select_first("div").unwrap();
    let b = doc.select_first("b").unwrap();
    assert!(div.append_text(&mut doc, "c").is_ok());
    assert!(div.append_text(&mut doc, "d").is_ok());
    assert!(b.append_text(&mut doc, "y").is_ok());
    assert_eq!(div.text(&doc), "axycd");
    assert_eq!(div.iter_children(&doc, true, false).len(), 4);
    div.merge_text_nodes(&mut doc);
    assert_eq!(div.text(&doc), "axycd");
    assert_eq!(div.iter_children(&doc, true, false).len(), 3);
    assert_eq!(b.iter_children(&doc, true, false).len(), 1);
    assert_eq!(b.first_child(&doc).unwrap().text_content(&doc).as_deref(), Some("xy"));
    assert_eq!(div.last_child(&doc).unwrap().text_content(&doc).as_deref(), Some("cd"));
}

#[test]
fn strip_tags_removes_every_listed_tag() {
    let mut doc = HtmlDocument::parse("<div><i>1</i><p>a<i>2</i></p><b>3</b></div>").unwrap();
    doc.strip_tags(&["i", "b"]);
    assert_eq!(doc.select("i").len(), 0);
    assert_eq!(doc.select("b").len(), 0);
    assert_eq!(doc.select_first("div").unwrap().inner_html(&doc), "<p>a</p>");
}

// ---------------------------------------------------------------------------
// Collections and errors
// ---------------------------------------------------------------------------

#[test]
fn collection_holds_nodes_in_order() {
    let doc = HtmlDocument::parse("<p>1</p><p>2</p>").unwrap();
    let empty = Collection::new(&doc);
    assert!(empty.is_empty());
    assert_eq!(empty.len(), 0);
    assert_eq!(empty.get(0), None);
    let ps = doc.select("p");
    let c = Collection::from_nodes(&doc, &ps);
    assert!(!c.is_empty());
    assert_eq!(c.len(), 2);
    assert_eq!(c.get(1), Some(ps[1]));
    assert_eq!(c.get(2), None);
}

#[test]
fn error_messages() {
    assert_eq!(Error::RootNode.to_string(), "operation not valid on document root node");
    assert_eq!(Error::SelectorParse("p[".to_string()).to_string(), "failed to parse selector: p[");
    assert_eq!(
        Error::ParseFragment("td".to_string()).to_string(),
        "failed to parse HTML fragment (context: td)"
    );
    assert_eq!(Error::Utf8.to_string(), "HTML contains invalid UTF-8");
}

// ---------------------------------------------------------------------------
// Pretty printing
// ---------------------------------------------------------------------------

#[test]
fn pretty_outer_html_layout() {
    let doc = HtmlDocument::parse("<div id=a><p>x &amp; y</p><br><!--c--></div>").unwrap();
    let div = doc.select_first("div").unwrap();
    let out = div.outer_html_pretty(&doc, SerializeOpts::default());
    assert_eq!(
        out,
        "<div id=\"a\">\n  <p>\n    \"x &amp; y\"\n  </p>\n  <br>\n  <!--c-->\n</div>\n"
    );
    let opts = SerializeOpts { indent: 1, skip_comment: true, without_closing: true, ..SerializeOpts::default() };
    assert_eq!(div.inner_html_pretty(&doc, opts), "  <p>\n    \"x &amp; y\"\n  <br>\n");
}

#[test]
fn pretty_text_options() {
    let doc = HtmlDocument::parse("<div> <b>a&lt;b</b> </div>").unwrap();
    let div = doc.select_first("div").unwrap();
    let opts = SerializeOpts { skip_ws_nodes: true, raw: true, ..SerializeOpts::default() };
    assert_eq!(div.inner_html_pretty(&doc, opts), "<b>\n  \"a<b\"\n</b>\n");
    let opts = SerializeOpts { without_text_indent: true, ..SerializeOpts::default() };
    assert_eq!(div.inner_html_pretty(&doc, opts), " <b>\na&lt;b</b>\n ");
}

#[test]
fn serialize_flags() {
    assert_eq!(SerializeOpts::default().to_c_flags(), 0);
    let opts = SerializeOpts { skip_ws_nodes: true, raw: true, html5test: true, ..SerializeOpts::default() };
    assert_eq!(opts.to_c_flags(), 0x01 | 0x04 | 0x80);
    let all = SerializeOpts {
        indent: 3,
        skip_ws_nodes: true,
        skip_comment: true,
        raw: true,
        without_closing: true,
        tag_with_ns: true,
        without_text_indent: true,
        full_doctype: true,
        html5test: true,
    };
    assert_eq!(all.to_c_flags(), 0xff);
}

// ---------------------------------------------------------------------------
// Style sheets
// ---------------------------------------------------------------------------

fn rule_pairs(sheet: &StyleSheet) -> Vec<(String, Option<String>)> {
    sheet.rules().iter().map(|r| (r.prelude.clone(), r.block.clone())).collect()
}

#[test]
fn stylesheet_splits_rules() {
    let doc = HtmlDocument::parse("").unwrap();
    let css = "p { color: red } @media screen { a { x: y } } div > span{}";
    let sheet = StyleSheet::parse(&doc, css).unwrap();
    assert_eq!(
        rule_pairs(&sheet),
        vec![
            ("p".to_string(), Some(" color: red ".to_string())),
            ("@media screen".to_string(), Some(" a { x: y } ".to_string())),
            ("div > span".to_string(), Some(String::new())),
        ]
    );
}

#[test]
fn stylesheet_respects_comments_and_strings() {
    let doc = HtmlDocument::parse("").unwrap();
    let sheet = StyleSheet::parse(&doc, "<!-- /* a { } */ a { b: '}' } -->").unwrap();
    assert_eq!(rule_pairs(&sheet), vec![("a".to_string(), Some(" b: '}' ".to_string()))]);
}

#[test]
fn stylesheet_drops_invalid_style_rules() {
    let doc = HtmlDocument::parse("").unwrap();
    let sheet = StyleSheet::parse(&doc, "@import \"x.css\"; !!bad { x: y } p {} q").unwrap();
    assert_eq!(
        rule_pairs(&sheet),
        vec![("@import \"x.css\"".to_string(), None), ("p".to_string(), Some(String::new()))]
    );
    assert!(StyleSheet::parse(&doc, "").unwrap().rules().is_empty());
}

#[test]
fn parse_tables_get_sections_and_rows() {
    let doc = HtmlDocument::parse("<table><tr><td>a<td>b</tr><tr><td>c</table><p>y</p>").unwrap();
    let table = doc.select_first("table").unwrap();
    assert_eq!(
        table.outer_html(&doc),
        "<table><tbody><tr><td>a</td><td>b</td></tr><tr><td>c</td></tr></tbody></table>"
    );
    assert_eq!(doc.select("table > tbody > tr").len(), 2);
    assert_eq!(doc.select("body > p").len(), 1);
}

#[test]
fn parse_cells_without_rows() {
    let doc = HtmlDocument::parse("<table><thead><th>h<tbody><td>1</table>").unwrap();
    let table = doc.select_first("table").unwrap();
    assert_eq!(
        table.outer_html(&doc),
        "<table><thead><tr><th>h</th></tr></thead><tbody><tr><td>1</td></tr></tbody></table>"
    );
}

#[test]
fn parse_options_close_each_other() {
    let doc = HtmlDocument::parse("<select><option>a<option>b<optgroup><option>c</select>").unwrap();
    assert_eq!(doc.select("select > option").len(), 2);
    assert_eq!(doc.select("select > optgroup > option").len(), 1);
}

#[test]
fn parse_pre_drops_first_newline() {
    let doc = HtmlDocument::parse("<pre>\nx\n</pre><pre>\n\ny</pre>").unwrap();
    let pres = doc.select("pre");
    assert_eq!(pres[0].text(&doc), "x\n");
    assert_eq!(pres[1].text(&doc), "\ny");
}

#[test]
fn parse_decodes_common_named_references() {
    let doc = HtmlDocument::parse("<p>a&mdash;b &euro;5&hellip; &laquo;x&raquo; &unknown; &amp</p>").unwrap();
    let p = doc.select_first("p").unwrap();
    assert_eq!(p.text(&doc), "a\u{2014}b \u{20ac}5\u{2026} \u{ab}x\u{bb} &unknown; &");
}

#[test]
fn parse_links_and_buttons_do_not_nest() {
    let doc = HtmlDocument::parse("<p><a href=1>x<a href=2>y</a></p><button>a<button>b</button>").unwrap();
    assert_eq!(doc.select("a").len(), 2);
    assert_eq!(doc.select("a a").len(), 0);
    assert_eq!(doc.select("button button").len(), 0);
}

#[test]
fn parse_self_closing_in_svg() {
    let doc = HtmlDocument::parse("<svg><path d=1 /><circle/></svg><div/>x").unwrap();
    assert_eq!(doc.select("svg > path").len(), 1);
    assert_eq!(doc.select("svg > circle").len(), 1);
    assert_eq!(doc.select("path > circle").len(), 0);
    assert_eq!(doc.select_first("div").unwrap().text(&doc), "x");
}

#[test]
fn select_returns_each_node_once() {
    let doc = HtmlDocument::parse("<p class='x'>1</p><p>2</p><div class='x'>3</div>").unwrap();
    let found = doc.select("p, .x, p.x");
    assert_eq!(found.len(), 3);
    assert_eq!(found[0].text(&doc), "1");
    assert_eq!(found[1].text(&doc), "2");
    assert_eq!(found[2].text(&doc), "3");
}

#[test]
fn outer_html_wraps_inner_html() {
    let doc = HtmlDocument::parse("<div class='c'><i>x</i>y</div><br>").unwrap();
    let div = doc.select_first("div").unwrap();
    assert_eq!(div.outer_html(&doc), format!("<div class=\"c\">{}</div>", div.inner_html(&doc)));
    let br = doc.select_first("br").unwrap();
    assert_eq!(br.outer_html(&doc), "<br>");
}

#[test]
fn plain_text_parses_to_body_text() {
    let doc = HtmlDocument::parse("  Fish &amp; chips").unwrap();
    let body = doc.body().unwrap();
    assert_eq!(body.text(&doc), "Fish & chips");
    assert_eq!(body.inner_html(&doc), "Fish &amp; chips");
    let blank = HtmlDocument::parse(" \n\t ").unwrap();
    assert_eq!(blank.body().unwrap().text(&blank), "");
}

#[test]
fn select_state_pseudo_classes() {
    let doc = HtmlDocument::parse(
        "<a href='/x' id='l1'>x</a><a id='l2'>y</a>\
         <input type='checkbox' checked id='c1'><input type='RADIO' checked id='c2'>\
         <input type='text' checked id='c3'><select><option selected id='o1'>1</option><option id='o2'>2</option></select>\
         <button disabled id='b1'>b</button><textarea id='t1'></textarea><p disabled id='p1'>p</p>",
    )
    .unwrap();
    let ids = |sel: &str| -> Vec<String> {
        doc.select(sel).iter().map(|n| n.id(&doc).unwrap_or_default()).collect()
    };
    assert_eq!(ids(":link"), vec!["l1"]);
    assert_eq!(ids("a:any-link"), vec!["l1"]);
    assert_eq!(ids(":checked"), vec!["c1", "c2", "o1"]);
    assert_eq!(ids(":disabled"), vec!["b1"]);
    assert_eq!(ids("textarea:enabled, button:enabled"), vec!["t1"]);
    assert_eq!(ids("input:not(:checked)"), vec!["c3"]);
}

#[test]
fn attributes_have_unique_lower_case_names() {
    let doc = HtmlDocument::parse("<div ID='a' Class='b' id='c' data-X='d'></div>").unwrap();
    let div = doc.select_first("div").unwrap();
    let attrs = div.attributes(&doc);
    assert_eq!(
        attrs,
        vec![
            ("id".to_string(), "a".to_string()),
            ("class".to_string(), "b".to_string()),
            ("data-x".to_string(), "d".to_string()),
        ]
    );
    for (k, v) in &attrs {
        assert_eq!(div.attr(&doc, k).as_deref(), Some(v.as_str()));
    }
}

#[test]
fn traverse_is_self_then_descendants() {
    let doc = HtmlDocument::parse("<div><p>a<b>b</b></p><i>c</i></div>").unwrap();
    let div = doc.select_first("div").unwrap();
    let mut t = div.traverse(&doc);
    let mut d = div.descendants(&doc);
    assert_eq!(t.next(&doc), Some(div));
    loop {
        let x = t.next(&doc);
        let y = d.next(&doc);
        assert_eq!(x, y);
        if x.is_none() {
            break;
        }
    }
    assert_eq!(t.next(&doc), None);
    assert_eq!(d.next(&doc), None);
}

#[test]
fn table_fosters_misplaced_content() {
    let doc = HtmlDocument::parse("<table><div>x</div><tr><td>1</td></tr></table>").unwrap();
    assert_eq!(
        doc.body().unwrap().inner_html(&doc),
        "<div>x</div><table><tbody><tr><td>1</td></tr></tbody></table>"
    );
    let doc = HtmlDocument::parse("<p>a<table>b<tr>c<td>d</td></tr></table>").unwrap();
    assert_eq!(
        doc.body().unwrap().inner_html(&doc),
        "<p>a</p>bc<table><tbody><tr><td>d</td></tr></tbody></table>"
    );
    let doc = HtmlDocument::parse("<table> <tr><td>1</td></tr></table>").unwrap();
    assert_eq!(
        doc.body().unwrap().inner_html(&doc),
        "<table> <tbody><tr><td>1</td></tr></tbody></table>"
    );
}

#[test]
fn select_lang_pseudo_class() {
    let doc = HtmlDocument::parse(
        "<div lang='en-US'><p id='a'>x</p><p lang='fr' id='b'>y</p></div><p id='c'>z</p>",
    )
    .unwrap();
    let ids = |sel: &str| -> Vec<String> {
        doc.select(sel).iter().map(|n| n.id(&doc).unwrap_or_default()).collect()
    };
    assert_eq!(ids("p:lang(en)"), vec!["a"]);
    assert_eq!(ids("p:lang(EN-us)"), vec!["a"]);
    assert_eq!(ids("p:lang(\"fr\")"), vec!["b"]);
    assert_eq!(ids("p:lang(e)"), Vec::<String>::new());
    assert!(!doc.matches("p:lang(en"));
}

#[test]
fn pseudo_elements_parse_and_match_nothing() {
    let doc = HtmlDocument::parse("<p>a</p>").unwrap();
    assert!(doc.compile_selector("p::before").is_ok());
    assert!(doc.compile_selector("p:after").is_ok());
    assert!(doc.compile_selector("p::nonsense").is_err());
    assert_eq!(doc.select("p::first-line").len(), 0);
    assert_eq!(doc.select("p::before, p").len(), 1);
}

#[test]
fn nul_in_names_becomes_replacement_character() {
    let doc = HtmlDocument::parse("<p a\0=1 id=x>t\0u</p>").unwrap();
    let p = doc.select_first("p").unwrap();
    let attrs = p.attributes(&doc);
    assert_eq!(attrs[0].0, "a\u{FFFD}");
    for (k, v) in &attrs {
        assert!(!k.contains('\0'));
        assert_eq!(p.attr(&doc, k).as_deref(), Some(v.as_str()));
    }
    assert_eq!(p.text(&doc), "tu");
    let doc = HtmlDocument::parse("<x\0y>z</x\0y>").unwrap();
    assert_eq!(doc.body().unwrap().first_child(&doc).unwrap().tag_name(&doc), "x\u{FFFD}y");
}

#[test]
fn select_dynamic_and_logical_pseudo_classes() {
    let doc = HtmlDocument::parse(
        "<div id='d1'><p id='p1'>a</p></div><div id='d2'><span id='s1'>b</span></div>\
         <input id='i1' required><input id='i2'><textarea id='t1'></textarea>",
    )
    .unwrap();
    let ids = |sel: &str| -> Vec<String> {
        doc.select(sel).iter().map(|n| n.id(&doc).unwrap_or_default()).collect()
    };
    assert!(doc.compile_selector("a:hover").is_ok());
    assert!(doc.compile_selector(":focus, :active, :visited, :target").is_ok());
    assert_eq!(ids("p:hover"), Vec::<String>::new());
    assert_eq!(ids(":is(p, span)"), vec!["p1", "s1"]);
    assert_eq!(ids("div :where(#p1)"), vec!["p1"]);
    assert_eq!(ids("div:has(span)"), vec!["d2"]);
    assert_eq!(ids("div:has(p)"), vec!["d1"]);
    assert_eq!(ids(":required"), vec!["i1"]);
    assert_eq!(ids(":optional"), vec!["i2", "t1"]);
    assert!(doc.compile_selector(":is(p").is_err());
}

#[test]
fn named_references_with_and_without_semicolon() {
    let doc = HtmlDocument::parse(
        "<p id='t'>&hearts; &amp &lt3 &notit; &Omega;&alpha; &hearts &copy2</p>\
         <a href='?x=1&copy=2&amp;y=&copy;&reg'>l</a>",
    )
    .unwrap();
    let p = doc.select_first("#t").unwrap();
    assert_eq!(p.text(&doc), "\u{2665} & <3 \u{AC}it; \u{3A9}\u{3B1} &hearts \u{A9}2");
    let a = doc.select_first("a").unwrap();
    assert_eq!(a.attr(&doc, "href").as_deref(), Some("?x=1&copy=2&y=\u{A9}\u{AE}"));
}

#[test]
fn full_doctype_writes_identifiers() {
    let doc = HtmlDocument::parse(
        "<!DOCTYPE html PUBLIC \"-//W3C//DTD HTML 4.01//EN\" 'http://www.w3.org/TR/html4/strict.dtd'><p>x</p>",
    )
    .unwrap();
    let dt = document_node(&doc).first_child(&doc).unwrap();
    assert_eq!(dt.outer_html(&doc), "<!DOCTYPE html>");
    assert_eq!(dt.outer_html_pretty(&doc, SerializeOpts::default()), "<!DOCTYPE html>\n");
    let full = SerializeOpts { full_doctype: true, ..SerializeOpts::default() };
    assert_eq!(
        dt.outer_html_pretty(&doc, full),
        "<!DOCTYPE html PUBLIC \"-//W3C//DTD HTML 4.01//EN\" \"http://www.w3.org/TR/html4/strict.dtd\">\n"
    );
    assert!(dt.attributes(&doc).is_empty());
    let doc = HtmlDocument::parse("<!doctype html system 'about:legacy-compat'>").unwrap();
    let dt = document_node(&doc).first_child(&doc).unwrap();
    assert_eq!(dt.outer_html_pretty(&doc, full), "<!DOCTYPE html SYSTEM \"about:legacy-compat\">\n");
}
