//! Batch index scan: turns key ranges over an ordered key-value snapshot into
//! columnar row batches, decoding index keys and values into column data and
//! row handles.

pub mod codec;
pub mod column;
pub mod error;
pub mod executor;
pub mod index;
pub mod range;
