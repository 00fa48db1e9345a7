//! An indexing and search engine for compressed manual-page documents:
//! scanning a directory's file names for documents, parsing each
//! document's one-line description out of its markup, building an index
//! with stable sequential identifiers, persisting it as a single binary
//! blob, and answering exact and substring queries over it.
use vstd::prelude::*;

pub mod args;
pub mod codec;
pub mod extract;
pub mod index;
pub mod parser;
pub mod scan;
pub mod search;
pub mod text;

verus! {

/// Whether a failure while extracting a document aborts the operation or is
/// merely reported and tolerated.
#[derive(PartialEq, Eq, Structural)]
pub enum ErrorAction {
    Fail,
    Log,
}

} // verus!
