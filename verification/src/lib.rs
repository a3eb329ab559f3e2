//! Fraud scoring by k nearest neighbours over an inverted-file (IVF) index.
//!
//! The library holds the binary formats of the reference data and of the
//! index, the cluster bookkeeping that builds the index, and the integer
//! side of a nearest-neighbour query: which clusters are probed, which
//! vectors are candidates, which of them are kept as neighbours and how the
//! neighbours vote. Distances themselves are floating-point values; callers
//! hand them in as order-preserving integer keys.

pub mod wire;
pub mod vectors;
pub mod gz;
pub mod index_file;
pub mod select;
pub mod index;
pub mod clustering;
pub mod features;
