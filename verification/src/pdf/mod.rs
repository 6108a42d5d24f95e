//! Reading and flattening PDF documents.
pub mod flatten;
pub mod outside;
pub mod filters;
pub mod types;
pub mod paths;
pub mod laws;
pub mod content_laws;
