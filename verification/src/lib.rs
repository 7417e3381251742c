//! An embedding store with an approximate-nearest-neighbor index.
//!
//! Embeddings are fixed-point vectors grouped into fixed-size blocks; a
//! directory maps each embedding id and source file to its block.  A
//! multi-layer proximity graph (HNSW) provides filtered top-k similarity
//! search, reading vectors through a bounded block-granular cache.  All
//! persisted structures go through a length-prefixed little-endian codec.
//!
//! Vector components are fixed-point numbers: the real value `x` is stored
//! as the integer `x * SCALE`, so a unit vector has components in
//! `[-SCALE, SCALE]` and the cosine distance `1 - dot(a, b)` is represented
//! as `SCALE * SCALE - dot(a, b)`.
//!
//! The store itself is an in-memory value: block contents, directory and id
//! counter.  Callers that persist it read and write the encoded forms
//! produced by the codec; every operation on the value is verified here.

#![verifier::loop_isolation(false)]

use vstd::prelude::*;

pub mod cache;
pub mod chat;
pub mod codec;
pub mod directory;
pub mod embedding;
pub mod error;
pub mod hnsw;
pub mod outside;
pub mod reblock;
pub mod store;
pub mod text;
pub mod types;

verus! {

/// Maximum number of embeddings in one block file.
pub const BLOCK_SIZE: usize = 1024;

/// Dimension of the vectors produced by the embedding service.
pub const EMBED_DIM: usize = 1536;

/// Largest vector dimension the fixed-point arithmetic is proved safe for.
pub const MAX_DIM: usize = 8192;

/// Fixed-point one: the real value `x` is stored as `x * SCALE`.
pub const SCALE: i64 = 16777216;

/// Fixed-point one squared; the scale of dot products and distances.
pub const SCALE_SQ: i64 = 16777216 * 16777216;

/// Bound on the magnitude of raw (un-normalized) vector components.
pub const RAW_BOUND: i64 = 9007199254740992;

/// Fixed-point one for sampled probabilities and layer thresholds.
pub const UNIT: u64 = 1073741824;

/// Default candidate-pool width for index insertion.
pub const DEFAULT_EF: usize = 200;

} // verus!
