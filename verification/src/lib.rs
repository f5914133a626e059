//! Merging of PDF object graphs.
//!
//! A PDF document is a directed graph of indirectly referenced objects
//! rooted at a Catalog. This library owns the logic that merges several
//! such graphs — or selected pages of each — into one structurally valid
//! document: renumbering ids into disjoint ranges, folding the structural
//! singletons (one Catalog, one Pages root), re-parenting the extracted
//! pages, compacting all ids to a dense range, and building a fresh
//! outline. Loading and saving the surrounding file format is left to
//! the caller.

pub mod merge;
pub mod object;
pub mod outline;
pub mod pages;
pub mod renumber;
pub mod store;

pub use merge::merge_documents;
pub use object::Object;
pub use object::ObjectId;
pub use store::Document;
