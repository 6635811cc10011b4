//! An in-memory vector search index: a hierarchical navigable small-world
//! graph over integer embedding vectors, with exact cosine comparisons.

pub mod vector;
pub mod ranking;
pub mod graph;
pub mod level;
pub mod model;
pub mod index;
pub mod ingest;
pub mod api;
