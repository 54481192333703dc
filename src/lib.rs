//! Indexing and name resolution for Hare source files: declarations and
//! imports found by scanning lines, module resolution over a store of
//! documents, and the definition, hover and completion queries of a language
//! server.
use vstd::prelude::*;

pub mod doc;
pub mod ident;
pub mod module;
pub mod path;
pub mod query;
pub mod store;
pub mod text;

verus! {

} // verus!
