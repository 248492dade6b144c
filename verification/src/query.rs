//! Searching the index: patterns, the statements they become, and what is
//! written into the index.

pub mod cut;
pub mod error;
pub mod index;
pub mod search;
pub mod tika;
pub mod types;
