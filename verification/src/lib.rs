//! A batch mutation engine for a hierarchical key-value store.
//!
//! A batch describes, as an immutable tree, the nodes to create or open and
//! the values to write under them.  Applying a batch walks the tree top-down
//! and stops at the first failure; rolling a batch back walks a structurally
//! identical tree bottom-up in reverse order, deleting what apply wrote, and
//! never fails outward.  The store offers no transactions of its own, so the
//! rollback engine is written to be safe over a batch that was applied only
//! partially, or not at all.

pub mod laws;
pub mod registry;
pub mod store;
pub mod winstr;
