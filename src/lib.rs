//! A handle-indexed value store with reference-count-driven reclamation,
//! and a name index kept in step with a primary slot storage.

pub mod asset;
pub mod handle;
pub mod named;
pub mod storage;
