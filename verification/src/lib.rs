//! A per-caller to-do list store.
//!
//! Every caller owns one [`TodoTree`]: the items keyed by id, an index of the
//! live ids in ascending order, and an allocator that never hands out an id
//! twice. A [`TodoTreeStore`] maps caller identities to their trees, and the
//! functions of [`service`] are the operations of the to-do list service.
//!
//! Contracts are stated over [`model::TodoTreeView`], the mathematical model
//! of a tree; [`laws`] proves what holds of that model under every run of
//! changes.

pub mod cursor;
pub mod error;
pub mod ids;
pub mod laws;
pub mod model;
pub mod order;
pub mod service;
pub mod store;
pub mod todo;
pub mod tree;

pub use error::TodoError;
pub use order::OrderIndex;
pub use store::{Caller, TodoTreeStore};
pub use todo::Todo;
pub use tree::TodoTree;
