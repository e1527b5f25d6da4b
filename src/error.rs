//! What can go wrong while resolving a directive.
use vstd::prelude::*;

verus! {

/// The kinds of failure of a directive.
#[derive(Clone, Copy, Debug, PartialEq, Eq, Structural)]
pub enum ErrorKind {
    /// The referenced file does not exist.
    FileNotFound,
    /// The referenced file is not valid UTF-8 text.
    InvalidEncoding,
    /// No line of the file holds the start marker of the tag.
    MissingStartTag,
    /// No line of the file holds the end marker of the tag.
    MissingEndTag,
    /// The first end marker of the tag comes on or before its first start marker.
    InvertedTagOrder,
}

/// A failed directive, with where it stood: the node, the directive's text,
/// the path of the file it refers to and the tag.
#[derive(Debug)]
pub struct ImportError {
    pub kind: ErrorKind,
    pub node: String,
    pub directive: String,
    pub file: String,
    pub tag: String,
}

/// An [`ImportError`] as plain values.
pub struct ImportErrorView {
    pub kind: ErrorKind,
    pub node: Seq<char>,
    pub directive: Seq<char>,
    pub file: Seq<char>,
    pub tag: Seq<char>,
}

impl View for ImportError {
    type V = ImportErrorView;

    open spec fn view(&self) -> ImportErrorView {
        ImportErrorView {
            kind: self.kind,
            node: self.node@,
            directive: self.directive@,
            file: self.file@,
            tag: self.tag@,
        }
    }
}

} // verus!
