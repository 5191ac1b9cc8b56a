//! A session-scoped cache of per-function analysis artifacts that works
//! across independently compiled units.
//!
//! Each compilation unit captures, while its own compilation is still in
//! flight, a sanitized program representation plus the borrow-check facts
//! that a later points-to analysis needs, and persists the whole unit's
//! collection ("bundle") to disk in a binary format. A later analysis
//! session serves artifacts from a two-tier in-memory cache: local items are
//! computed on demand and memoized, foreign units are loaded from disk once,
//! in full, and then served from memory.
//!
//! The library holds the data model, the sanitizer, the retrieval and
//! collection logic, the bundle codec, the path-resolution policy and the
//! cache itself. The host compiler's queries, the borrow-check engine run
//! and all file input/output stay outside; they hand this library plain
//! values and take plain values back.

pub mod body;
pub mod bundle;
pub mod cache;
pub mod codec;
pub mod paths;
