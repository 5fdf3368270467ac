//! The block formats.
use crate::settings::{BC6HSettings, BC7Settings};
use vstd::prelude::*;

verus! {

/// The block formats, BC6H and BC7 with the settings of their encoders.
#[derive(Copy, Clone, Debug)]
pub enum CompressionVariant {
    /// BC1 compression (RGB)
    BC1,
    /// BC2 compression with sharp alpha (RGBA)
    BC2,
    /// BC3 compression with smooth alpha (RGBA)
    BC3,
    /// BC4 compression (R)
    BC4,
    /// BC5 compression (RG)
    BC5,
    /// BC6H compression (RGB HDR)
    BC6H(BC6HSettings),
    /// BC7 compression with smooth alpha (RGBA)
    BC7(BC7Settings),
}

/// The number of blocks that cover `extent` pixels: a quarter, rounded up.
pub open spec fn blocks_across(extent: int) -> int {
    (extent + 3) / 4
}

impl CompressionVariant {
    /// The number of the format, settings aside: 1 to 7.
    pub open spec fn tag(self) -> int {
        match self {
            CompressionVariant::BC1 => 1,
            CompressionVariant::BC2 => 2,
            CompressionVariant::BC3 => 3,
            CompressionVariant::BC4 => 4,
            CompressionVariant::BC5 => 5,
            CompressionVariant::BC6H(_) => 6,
            CompressionVariant::BC7(_) => 7,
        }
    }

    /// The number of bytes of one block: 8 for BC1 and BC4, else 16.
    pub open spec fn block_bytes(self) -> int {
        if self.tag() == 1 || self.tag() == 4 {
            8
        } else {
            16
        }
    }

    /// The number of bytes of the blocks of an image of `width` by `height`
    /// pixels.
    pub open spec fn image_bytes(self, width: int, height: int) -> int {
        blocks_across(width) * blocks_across(height) * self.block_bytes()
    }

    /// The number of the format, settings aside.
    pub fn tag_number(self) -> (tag: u8)
        ensures
            tag == self.tag(),
    {
        match self {
            CompressionVariant::BC1 => 1,
            CompressionVariant::BC2 => 2,
            CompressionVariant::BC3 => 3,
            CompressionVariant::BC4 => 4,
            CompressionVariant::BC5 => 5,
            CompressionVariant::BC6H(_) => 6,
            CompressionVariant::BC7(_) => 7,
        }
    }

    /// Returns the bytes per row for the given width.
    ///
    /// The width is rounded up to the nearest multiple of 4.
    pub fn bytes_per_row(self, width: u32) -> (bytes: u32)
        requires
            blocks_across(width as int) * self.block_bytes() <= u32::MAX,
        ensures
            bytes == blocks_across(width as int) * self.block_bytes(),
    {
        let blocks_per_row = width / 4 + (if width % 4 == 0 {
            0
        } else {
            1
        });
        blocks_per_row * self.block_byte_size()
    }

    /// Returns the byte size required for storing compressed blocks for the
    /// given dimensions.
    ///
    /// Width and height are rounded up to the nearest multiple of 4.
    pub fn blocks_byte_size(self, width: u32, height: u32) -> (bytes: usize)
        requires
            self.image_bytes(width as int, height as int) <= usize::MAX,
        ensures
            bytes == self.image_bytes(width as int, height as int),
    {
        let block_width = (width / 4) as usize + (if width % 4 == 0 {
            0
        } else {
            1
        });
        let block_height = (height / 4) as usize + (if height % 4 == 0 {
            0
        } else {
            1
        });
        let block_size = self.block_byte_size() as usize;
        proof {
            let bw = blocks_across(width as int);
            let bh = blocks_across(height as int);
            assert(bw * bh <= bw * bh * self.block_bytes()) by (nonlinear_arith)
                requires
                    bw >= 0,
                    bh >= 0,
                    self.block_bytes() >= 8,
            ;
        }
        let block_count = block_width * block_height;
        block_count * block_size
    }

    /// The number of bytes of one block.
    pub fn block_byte_size(self) -> (bytes: u32)
        ensures
            bytes == self.block_bytes(),
    {
        match self {
            CompressionVariant::BC1 | CompressionVariant::BC4 => 8,
            CompressionVariant::BC2
            | CompressionVariant::BC3
            | CompressionVariant::BC5
            | CompressionVariant::BC6H(..)
            | CompressionVariant::BC7(..) => 16,
        }
    }

    /// The name of the format, in lower case.
    pub fn name(self) -> (name: &'static str)
        ensures
            name@ == Self::name_of(self.tag()),
    {
        match self {
            CompressionVariant::BC1 => "bc1",
            CompressionVariant::BC2 => "bc2",
            CompressionVariant::BC3 => "bc3",
            CompressionVariant::BC4 => "bc4",
            CompressionVariant::BC5 => "bc5",
            CompressionVariant::BC6H(..) => "bc6h",
            CompressionVariant::BC7(..) => "bc7",
        }
    }

    /// The name of the format with number `tag`.
    pub open spec fn name_of(tag: int) -> Seq<char> {
        if tag == 1 {
            "bc1"@
        } else if tag == 2 {
            "bc2"@
        } else if tag == 3 {
            "bc3"@
        } else if tag == 4 {
            "bc4"@
        } else if tag == 5 {
            "bc5"@
        } else if tag == 6 {
            "bc6h"@
        } else {
            "bc7"@
        }
    }

    /// The name of the compute shader's entry point for the format.
    pub fn entry_point(self) -> (name: &'static str)
        ensures
            name@ == "compress_"@ + Self::name_of(self.tag()),
    {
        proof {
            reveal_strlit("compress_");
            reveal_strlit("bc1");
            reveal_strlit("bc2");
            reveal_strlit("bc3");
            reveal_strlit("bc4");
            reveal_strlit("bc5");
            reveal_strlit("bc6h");
            reveal_strlit("bc7");
            reveal_strlit("compress_bc1");
            reveal_strlit("compress_bc2");
            reveal_strlit("compress_bc3");
            reveal_strlit("compress_bc4");
            reveal_strlit("compress_bc5");
            reveal_strlit("compress_bc6h");
            reveal_strlit("compress_bc7");
        }
        let name = match self {
            CompressionVariant::BC1 => "compress_bc1",
            CompressionVariant::BC2 => "compress_bc2",
            CompressionVariant::BC3 => "compress_bc3",
            CompressionVariant::BC4 => "compress_bc4",
            CompressionVariant::BC5 => "compress_bc5",
            CompressionVariant::BC6H(..) => "compress_bc6h",
            CompressionVariant::BC7(..) => "compress_bc7",
        };
        assert(name@ =~= "compress_"@ + Self::name_of(self.tag()));
        name
    }
}

impl PartialEq for CompressionVariant {
    /// Two variants are equal where they name the same format, whatever their
    /// settings.
    fn eq(&self, other: &Self) -> (r: bool) {
        self.tag_number() == other.tag_number()
    }
}

impl Eq for CompressionVariant {

}

impl vstd::std_specs::cmp::PartialEqSpecImpl for CompressionVariant {
    open spec fn obeys_eq_spec() -> bool {
        true
    }

    open spec fn eq_spec(&self, other: &Self) -> bool {
        self.tag() == other.tag()
    }
}

/// `std::hash::Hasher::write_u8`: feeds one byte to the hasher. Nothing is
/// claimed of the hasher's state.
#[verifier::external_body]
fn feed_byte<H: std::hash::Hasher>(state: &mut H, byte: u8) {
    state.write_u8(byte);
}

impl std::hash::Hash for CompressionVariant {
    /// Only the format is hashed, not its settings.
    fn hash<H: std::hash::Hasher>(&self, state: &mut H) {
        feed_byte(state, self.tag_number());
    }
}

} // verus!
