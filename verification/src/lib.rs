//! A task list with its operations and the text format in which it is kept on disk.

pub mod manager;
pub mod number;
pub mod persist;
pub mod store;
pub mod task;
pub mod text;
