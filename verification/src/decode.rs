//! Decoding of blocks and of whole images.
pub mod bc15;
pub mod bc6h;
pub mod bc7;
pub mod bitstream;
pub mod image;
pub mod tile;

pub use bc15::{
    decode_block_bc1, decode_block_bc2, decode_block_bc3, decode_block_bc4, decode_block_bc5,
    decode_color_block, decode_sharp_alpha_block, decode_smooth_alpha_block,
};
pub use bc6h::decode_block_bc6h;
pub use bc7::decode_block_bc7;
pub use bitstream::BitStream;
pub use image::{decompress_blocks_as_rgba16f, decompress_blocks_as_rgba8};
