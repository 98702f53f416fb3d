//! A local, content-addressed key-value store for small secrets and snippets,
//! organized into named groups, with fuzzy name lookup and a model of the
//! version-control-backed synchronization protocol.

pub mod codec;
pub mod entities;
pub mod levenshtein;
pub mod result;
pub mod store;
pub mod strutil;
pub mod sync;
