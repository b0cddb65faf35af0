//! Spectral analysis of vector indexes, and the planning of document retrieval requests.

pub mod adjacency;
pub mod adjacency_laws;
pub mod cheeger;
pub mod clusters;
pub mod connectivity;
pub mod documents_retrieval;
pub mod drift;
pub mod eigen;
pub mod federation;
pub mod json;
pub mod kmeans;
pub mod labels;
pub mod laplacian_laws;
pub mod matrix;
pub mod ordering;
pub mod quality;
mod random;
pub mod synthetic;
pub mod text;
pub mod text_laws;
