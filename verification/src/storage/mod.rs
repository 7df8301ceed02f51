//! What is stored: the file formats, and the quantized vector store.

pub mod encoding;
pub mod format;
pub mod frame;
pub mod mmap;
pub mod quantized;
pub mod serialization;

pub use format::{FileHeader, MAGIC, VERSION};
pub use mmap::MmapVectors;
pub use quantized::QuantizedVectors;
pub use serialization::Serializer;
