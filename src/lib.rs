//! Incremental fuzzy matching of a search term against a fixed list of texts.

pub mod model;
pub mod order;
pub mod laws;
pub mod search;

pub use search::{BeingSearchedState, FuzzySearcher};
