//! The data that firmware protocols hand back, and the decisions taken on it.
pub mod fs;
pub mod gop;
pub mod path;
pub mod io;
