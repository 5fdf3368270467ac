//! Encoding and decoding of the block-compressed texture formats BC1 to BC7.
pub mod bits;
pub mod block_compressor;
pub mod decode;
pub mod encode;
pub mod partition;
pub mod settings;
pub mod variant;

pub use block_compressor::BlockCompressor;
pub use settings::{BC6HSettings, BC7Settings, Settings};
pub use variant::CompressionVariant;
