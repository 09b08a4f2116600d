//! Errors of parsing, selection and mutation.

use vstd::prelude::*;

verus! {

/// Errors that can occur during HTML parsing, CSS selection, or DOM mutation.
#[derive(Debug, Clone, PartialEq, Eq)]
pub enum Error {
    /// Failed to create the HTML document.
    DocumentCreate,
    /// Failed to parse the HTML string.
    ParseHtml,
    /// Failed to parse an HTML fragment.
    ParseFragment(String),
    /// Failed to create or initialize the CSS parser.
    CssParserCreate,
    /// Failed to create or initialize the selector engine.
    SelectorsCreate,
    /// Failed to parse a CSS selector string.
    SelectorParse(String),
    /// Failed to set an attribute.
    SetAttribute(String),
    /// Failed to remove an attribute.
    RemoveAttribute(String),
    /// Failed to parse a fragment for insertion.
    InsertFragment(String),
    /// The operation is not valid on the document root.
    RootNode,
    /// The HTML contained invalid UTF-8.
    Utf8,
    /// Unknown fragment context tag.
    UnknownTag(String),
    /// Unknown fragment context namespace.
    UnknownNamespace(String),
}

/// The message of an error: a fixed text, followed by the error's own text
/// where it carries one.
pub open spec fn message(e: Error) -> Seq<char> {
    match e {
        Error::DocumentCreate => "failed to create HTML document"@,
        Error::ParseHtml => "failed to parse HTML"@,
        Error::ParseFragment(t) => "failed to parse HTML fragment (context: "@ + t@ + ")"@,
        Error::CssParserCreate => "failed to create CSS parser"@,
        Error::SelectorsCreate => "failed to create selector engine"@,
        Error::SelectorParse(s) => "failed to parse selector: "@ + s@,
        Error::SetAttribute(a) => "failed to set attribute: "@ + a@,
        Error::RemoveAttribute(a) => "failed to remove attribute: "@ + a@,
        Error::InsertFragment(s) => "failed to parse insert fragment: "@ + s@,
        Error::RootNode => "operation not valid on document root node"@,
        Error::Utf8 => "HTML contains invalid UTF-8"@,
        Error::UnknownTag(t) => "unknown tag: "@ + t@,
        Error::UnknownNamespace(n) => "unknown namespace: "@ + n@,
    }
}

fn prefixed(head: &str, tail: &String) -> (r: String)
    ensures
        r@ == head@ + tail@,
{
    let mut s = String::from_str(head);
    s.append(tail.as_str());
    s
}

impl Error {
    /// The human-readable message of this error.
    pub fn to_string(&self) -> (r: String)
        ensures
            r@ == message(*self),
    {
        match self {
            Error::DocumentCreate => String::from_str("failed to create HTML document"),
            Error::ParseHtml => String::from_str("failed to parse HTML"),
            Error::ParseFragment(t) => {
                let mut s = prefixed("failed to parse HTML fragment (context: ", t);
                s.append(")");
                s
            },
            Error::CssParserCreate => String::from_str("failed to create CSS parser"),
            Error::SelectorsCreate => String::from_str("failed to create selector engine"),
            Error::SelectorParse(s) => prefixed("failed to parse selector: ", s),
            Error::SetAttribute(a) => prefixed("failed to set attribute: ", a),
            Error::RemoveAttribute(a) => prefixed("failed to remove attribute: ", a),
            Error::InsertFragment(s) => prefixed("failed to parse insert fragment: ", s),
            Error::RootNode => String::from_str("operation not valid on document root node"),
            Error::Utf8 => String::from_str("HTML contains invalid UTF-8"),
            Error::UnknownTag(t) => prefixed("unknown tag: ", t),
            Error::UnknownNamespace(n) => prefixed("unknown namespace: ", n),
        }
    }
}

} // verus!
