//! Annotation lifecycle and content-addressed versioning for a personal archive.

pub mod conf;
pub mod error;
pub mod git;
pub mod json;
pub mod proj;
pub mod query;
pub mod store;
pub mod strmap;
pub mod text;
pub mod util;
pub mod value;
