//! An in-memory hierarchical byte-blob store: a tiny virtual file tree with
//! path-based lookup and creation, handle-based removal and vectored
//! read/write, meant to sit beneath a host kernel's virtual-file-system
//! layer as one mountable in-memory backend.
//!
//! The tree itself lives in [`fs`], its mathematical model in [`model`], the
//! owning store with its well-formedness invariant in [`store`], and the
//! boundary layer that a host dispatches into in [`api`]. The laws the store
//! obeys are stated and proved in [`laws`].

pub mod api;
pub mod errors;
pub mod fs;
pub mod laws;
pub mod model;
pub mod store;
pub mod utf8;
