//! What is kept for each tracked file, and the collection of it.

pub mod anno;
pub mod manifest;
