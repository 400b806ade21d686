//! Export of hierarchical requirement documents into a single interchange
//! container.
//!
//! A flat, order-preserving sequence of requirement items — each carrying only
//! an identifier, a level string and an integer nesting depth — is rebuilt
//! into a nested specification hierarchy, one node per item, each node
//! attached under the most recently inserted node one level up. Several
//! documents, indexed by prefix, can be assembled into independent
//! specifications that share one flat requirement pool.

use vstd::prelude::*;

pub mod assembly;
pub mod document;
pub mod export;
pub mod hierarchy;
pub mod laws;

verus! {

/// Errors surfaced by assembly and lookup.
///
/// `MissingAncestor` is the structural error: an item's depth implies an
/// ancestor that was never inserted. `NotFound` reports a prefix with no
/// matching document.
#[derive(Debug)]
pub enum ExportError {
    MissingAncestor { item_id: String, level: String },
    NotFound { prefix: String },
}

} // verus!
