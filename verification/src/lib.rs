//! Storage core of an RDF quad store: a binary term codec, a string
//! dictionary keyed by a deterministic 128-bit hash, a set of permuted
//! quad indexes kept in sync, pattern-dispatched lookup, and a batching
//! bulk-load pipeline.

pub mod binary_encoder;
pub mod bulk_loader;
pub mod dictionary;
pub mod error;
pub mod io;
pub mod model;
pub mod numeric_encoder;
pub mod small_string;
pub mod storage;
