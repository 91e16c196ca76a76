//! An in-memory store of task and user records, keyed by id, together with
//! a JSON codec that renders the whole store to text and reads it back.
//!
//! The store holds two independent collections. Every operation on one
//! leaves the other untouched; insertion overwrites by id (upsert), deletion
//! of an absent id is a no-op. The codec's `save` and `load` round-trip:
//! loading a saved store reproduces it exactly.

pub mod codec;
pub mod handlers;
pub mod laws;
pub mod store;

pub use store::Database;
pub use store::Task;
pub use store::User;
