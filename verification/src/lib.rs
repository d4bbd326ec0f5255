//! An embedded bi-temporal fact store.
//!
//! The core primitive is a [`Fact`]: a subject-predicate-object triple tagged
//! with valid time (when it held in the world) and transaction time (when the
//! store believed it). A [`TemporalGraph`] keeps facts in key order, answers
//! current and point-in-time queries, keeps history under invalidation and
//! correction, deduplicates assertions by idempotency key, and retrieves
//! facts by prefix scan, by full-text search, by vector similarity and by a
//! hybrid of both with a deterministic ranking.
//!
//! Numbers that are not integers (confidences, embeddings, weights, scores)
//! are carried as IEEE 754 bit patterns. The store never computes with them:
//! the arithmetic of scores comes from the caller through
//! [`ScoreMath`](retrieval::ScoreMath).

pub mod codec;
pub mod error;
pub mod extract;
pub mod fact;
pub mod graph;
pub mod history;
pub mod hybrid;
pub mod instant;
pub mod keys;
pub mod last_error;
pub mod lexical;
pub mod rank;
pub mod retrieval;
pub mod search;
pub mod table;
pub mod vector;

pub use error::KronroeError;
pub use fact::{Fact, FactId, Value};
pub use graph::TemporalGraph;
pub use hybrid::{HybridFusionStrategy, HybridParams, HybridScoreBreakdown, TemporalAdjustment};
pub use instant::Instant;
pub use vector::VectorIndex;
