//! A document store that keeps each collection as one JSON text file inside a
//! remote blob container. The library holds the verified core: the JSON
//! codec and its round-trip proof, the read-modify-write document operations,
//! substring search over snapshots, a sampled per-field index backed by a
//! probabilistic membership filter, and a search-result cache.

pub mod cache;
pub mod codec;
pub mod index;
pub mod json;
pub mod models;
pub mod roundtrip;
pub mod search;
pub mod store;
