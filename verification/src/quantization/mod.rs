//! Clustering, codebooks, and the product-quantization codec built on them.

pub mod codebook;
pub mod kmeans;
pub mod product_quantization;

pub use codebook::Codebook;
pub use kmeans::{kmeans, KMeans, KMeansResult};
pub use product_quantization::PQCodec;
