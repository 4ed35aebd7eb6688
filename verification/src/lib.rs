//! A BK-tree over strings: an index that answers "which indexed word is
//! closest to this one" and "which indexed words lie within a given distance
//! of this one" under a string metric, with the contracts of its operations
//! proved.
//!
//! A tree is bound to its metric when it is made. Insertion needs the tree
//! alone; a search needs it unchanged while it runs.

pub mod bktree;
pub mod edits;
pub mod fold;
pub mod laws;
pub mod metric;
pub mod model;
pub mod pattern;
pub mod search;

pub use bktree::{BKNode, BKTree};
pub use fold::Folded;
pub use metric::{hamming, lev, Hamming, Levenshtein, Metric, MetricError};
pub use pattern::PatternError;
