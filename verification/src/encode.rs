//! The parts of the encoders that work on whole numbers: the gathering of
//! pixels, the layout of the bits of a block, and the storing of blocks.
pub mod common;
pub mod bc6h;
pub mod bc7;
pub mod store;
pub mod bc1_to_5;
