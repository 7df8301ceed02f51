//! An in-process approximate nearest-neighbour index over fixed-dimensional
//! vectors: product quantization, an inverted-file coarse partition, and the
//! query executor that composes them.
//!
//! Every scalar is held as the 32 bits of its IEEE-754 single-precision
//! encoding. The library never does arithmetic on scalars; it orders them
//! (see [`scalar`]), moves them, and stores them. Callers supply the distance
//! values that a step needs and receive the decisions taken on them.

pub mod config;
pub mod distance;
pub mod error;
pub mod indexing;
pub mod quantization;
pub mod ranking;
pub mod scalar;
pub mod storage;
pub mod table;
pub mod types;
pub mod vector_db;

pub use config::{Config, DistanceMetric};
pub use error::KhadyotaError;
pub use types::{SearchResult, VectorEntry};
pub use vector_db::VectorDB;
