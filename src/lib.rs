//! A verified index of a markdown document tree.
//!
//! The documents under a root directory are held as a flat map from encoded path to node
//! ([`docmap::NormalizedDocMap`]); the tree form ([`model::Doc`]) is built from it on demand,
//! so the two never disagree. [`service::DocService`] creates, deletes and renames nodes,
//! cascading to every node below, keeps each sibling list in order, and keeps the map
//! consistent ([`laws::linked`]) across every change. [`codec`] turns a path into its key and
//! back. The filesystem is left to the caller: it walks the root and hands over
//! [`scan::ScanItem`]s, and changes the disk before it patches the index.
use vstd::prelude::*;

pub mod codec;
pub mod docmap;
pub mod laws;
pub mod media;
pub mod model;
pub mod order;
pub mod records;
pub mod scan;
pub mod search;
pub mod service;
pub mod settings;

verus! {

} // verus!
