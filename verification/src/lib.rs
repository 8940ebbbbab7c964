//! visible: the home-inventory domain as a verified library.

pub mod error;
pub mod node;
pub mod text;
pub mod tree;
pub mod inventory;
pub mod order;
pub mod seq_sets;
pub mod task;
pub mod bridge;
pub mod library;
pub mod blob_plan;
pub mod sync;
pub mod share;
