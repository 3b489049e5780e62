//! Core of a tagged-media catalog: tag-set matching, relation reconciliation,
//! hierarchical collection paths, similarity ranking and pagination.

pub mod error;
pub mod text;
pub mod collections;
pub mod reconcile;
pub mod paging;
pub mod similarity;
pub mod tagset;
pub mod catalog;
pub mod search;
pub mod models;
pub mod relations;
pub mod rows;
pub mod lookup;
pub mod complete;
