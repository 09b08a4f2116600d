# lexbor_css

HTML parsing, CSS selection, DOM traversal and mutation, and HTML
serialization. Every operation carries a contract, and the library's
properties (pre-order traversal, what a selection returns, what a
mutation leaves behind) are stated and proved.

## Layout

- `src/text.rs` — character helpers: whitespace classes, case folding,
  trimming, splitting.
- `src/dom.rs` — the node arena, its well-formedness invariant, and the
  tree operations (append, detach, take apart, unwrap, merge text, attributes).
- `src/html_token.rs`, `src/html_build.rs` — the HTML tokenizer and tree
  construction; `src/document.rs` — `HtmlDocument`.
- `src/node.rs` — `Node` handles: traversal, properties, text, mutation,
  iterators.
- `src/selector.rs`, `src/selector_parse.rs`, `src/query.rs` — the CSS
  selector grammar, its matching semantics, and selection.
- `src/serialize.rs` — plain and pretty HTML serialization.
- `src/collection.rs`, `src/css.rs` — node collections and style sheets.
- `src/properties.rs` — the library's laws, proved.
- `app/` — `Display` and `std::error::Error` for the error type.

Nodes are handles into their document, so each node operation takes the
document: `node.text(&doc)`, `node.decompose(&mut doc)`.
