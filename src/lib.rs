//! Resolves import directives in the chapters of a book: a directive names a
//! file and a tagged region inside it, and is replaced by that region's text.
use vstd::prelude::*;

pub mod text;
pub mod scan;
pub mod error;
pub mod extract;
pub mod splice;
pub mod book;

use crate::book::{DocumentNode, SourceFile, book_error, book_files, rewritten_node};
use crate::error::ImportError;
use crate::scan::{Syntax, SyntaxView};
use crate::splice::texts_of;

verus! {

/// The preprocessor that resolves `{{#bookimport file@tag}}` directives in a book.
pub struct Bookimport;

/// The syntax that [`Bookimport`] reads.
pub open spec fn bookimport_syntax() -> SyntaxView {
    SyntaxView { keyword: "bookimport"@, marker: "book"@, escape: '/' }
}

impl Bookimport {
    /// The name under which the preprocessor is registered.
    pub fn name(&self) -> (r: &'static str)
        ensures
            r@ == "mdbook-bookimport"@,
    {
        "mdbook-bookimport"
    }

    /// The paths of the files that the live directives of `sections` refer
    /// to, with `src_dir` the directory of the book's sources.
    pub fn required_files(&self, sections: &Vec<DocumentNode>, src_dir: &str) -> (r: Vec<String>)
        ensures
            texts_of(r@) == book_files(bookimport_syntax(), src_dir@, sections@, 0),
    {
        crate::book::required_files(&Syntax::bookimport(), src_dir, sections)
    }

    /// Rewrites every chapter of `sections`, and every chapter under them,
    /// replacing each live directive by the region of the file it names;
    /// `files` holds what reading each of those files gave.
    pub fn run(&self, sections: &Vec<DocumentNode>, src_dir: &str, files: &Vec<SourceFile>) -> (r:
        Result<Vec<DocumentNode>, ImportError>)
        ensures
            match r {
                Ok(ms) => book_error(bookimport_syntax(), files@, src_dir@, sections@, 0) is None
                    && ms@.len() == sections@.len() && forall|j: int|
                    0 <= j < ms@.len() ==> rewritten_node(
                        bookimport_syntax(),
                        files@,
                        src_dir@,
                        #[trigger] sections@[j],
                        ms@[j],
                    ),
                Err(e) => book_error(bookimport_syntax(), files@, src_dir@, sections@, 0) == Some(
                    e@,
                ),
            },
    {
        crate::book::process_book(&Syntax::bookimport(), files, src_dir, sections)
    }
}

} // verus!
