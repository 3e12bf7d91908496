//! A local-first vector database library.
//!
//! `light_vector_db` intentionally does not generate embeddings. Your
//! application supplies a vector from any embedding model; this crate validates,
//! stores, indexes, persists, and searches those vectors.
//!
//! The code is organised in layers:
//!
//! - [`float`] — single-precision arithmetic on bit patterns.
//! - [`record`] / [`records`] / [`error`] — the data types and error type.
//! - [`distance`] / [`ranking`] / [`query`] — similarity, order, exact search.
//! - [`index`] — the `VectorIndex` trait with `BruteForce` and HNSW impls.
//! - [`storage`] — the `.lvdb` binary file format.
//! - [`db`] — [`VectorDb`], which ties the layers together.
//! - [`mmap`] — [`MmapDb`], read-only search over the bytes of a `.lvdb` file.
//! - [`consistency`] / [`exactness`] / [`selection`] / [`persistence`] — what holds of
//!   the whole.
//! - [`cosine`] — how close scores are to the cosines of angles.
//! - [`cli`] / [`text`] / [`arguments`] — the arguments of the command-line tool.

pub mod arguments;
pub mod cli;
pub mod consistency;
pub mod cosine;
pub mod db;
pub mod distance;
pub mod error;
pub mod exactness;
pub mod float;
pub mod index;
pub mod mmap;
pub mod persistence;
pub mod query;
pub mod ranking;
pub mod record;
pub mod records;
pub mod selection;
pub mod storage;
pub mod text;

pub use db::{Encoding, IndexKind, VectorDb};
pub use distance::cosine_similarity;
pub use error::VectorDbError;
pub use float::F32;
pub use index::brute_force::BruteForce;
pub use index::hnsw::{AnnIndex, AnnParams};
pub use index::{IndexData, VectorIndex};
pub use mmap::MmapDb;
pub use record::{Metadata, Record, SearchResult};
pub use records::Records;
