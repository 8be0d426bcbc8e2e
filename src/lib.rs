//! A task list whose tasks are keyed by a composite descriptor (priority, group,
//! id), kept in a total order with dense, rank-consistent ids.

pub mod codec;
pub mod descriptor;
pub mod error;
pub mod format;
pub mod input;
pub mod laws;
pub mod printer;
pub mod store;
pub mod text;
