//! An encrypted local journal store with a tag-and-relationship graph view.
//!
//! Entry bodies are sealed in an authenticated-encryption envelope before they
//! reach the row store; titles and tag names stay plain. The relational rules
//! (tag reconciliation, cascading deletes, the graph projection) are verified
//! against a mathematical model of the table contents.

pub mod crypto;
pub mod envelope;
pub mod laws;
pub mod model;
pub mod store;

use vstd::prelude::*;

verus! {

} // verus!
