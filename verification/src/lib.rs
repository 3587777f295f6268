//! A small in-memory similarity-search index with exact-match metadata filters.
//!
//! Vectors and scores are carried as IEEE-754 single-precision bit patterns. The arithmetic of
//! the similarity measure is handed in by the caller; everything around it is done here: the
//! store, the filter, the judgement on each comparison, the ranking and the policy on failure.

pub mod engine;
pub mod error;
pub mod guarantees;
pub mod ident;
pub mod index;
pub mod metadata;
pub mod models;
pub mod ranking;
pub mod score;

pub use crate::engine::{fail_open, Engine};
pub use crate::error::SearchError;
pub use crate::index::{InMemoryIndex, ScoredVector, VectorEntry};
pub use crate::metadata::Metadata;
pub use crate::models::{default_k, IngestRequest, QueryRequest};
