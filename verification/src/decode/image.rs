//! Decoding of the blocks of a whole image.
use super::bc15::{
    color_tile, decode_color_tile, decode_sharp_alpha_tile, decode_smooth_alpha_tile,
    sharp_alpha_tile, smooth_alpha_tile,
};
use super::bc6h::{bc6h_tile, decode_tile_bc6h};
use super::bc7::{bc7_tile, decode_tile_bc7};
use super::tile::{
    lemma_scatter_elsewhere, lemma_scatter_len, lemma_scatter_separate, scatter, tile_position,
    write_tile,
};
use crate::bits::{le64, load_le64};
use crate::variant::{blocks_across, CompressionVariant};
use vstd::prelude::*;

verus! {

/// The number of the block that holds place `p` of an image of `width`
/// pixels to a row, four values to a pixel: the blocks are counted row by
/// row.
pub open spec fn block_of(p: int, width: int) -> int {
    ((p / (4 * width)) / 4) * (width / 4) + (p % (4 * width)) / 16
}

/// The place of `p` within the row of its block: 0 to 15.
pub open spec fn place_in_row(p: int, width: int) -> int {
    (p % (4 * width)) % 16
}

/// The row of `p` within its block: 0 to 3.
pub open spec fn row_in_block(p: int, width: int) -> int {
    (p / (4 * width)) % 4
}

/// The place in the image at which the block with number `n` starts.
pub open spec fn block_start(n: int, width: int) -> int {
    (n / (width / 4)) * 4 * (4 * width) + (n % (width / 4)) * 16
}

/// What place `p` of the image holds once every block has been decoded: each
/// block fills the sixteen places of each of its four rows from its tile,
/// row by row.
pub open spec fn image_value<T>(tiles: spec_fn(int) -> Seq<T>, width: int, p: int) -> T {
    tiles(block_of(p, width))[row_in_block(p, width) * 16 + place_in_row(p, width)]
}

/// The place in an image of `width` pixels to a row of value `c` of the
/// pixel in column `x` of row `y`.
pub open spec fn place_of(width: int, x: int, y: int, c: int) -> int {
    4 * (y * width + x) + c
}

/// Value `c` of the pixel in column `x` of row `y` of an image: that of the
/// pixel in the tile of its block.
pub open spec fn pixel_value<T>(
    tiles: spec_fn(int) -> Seq<T>,
    width: int,
    x: int,
    y: int,
    c: int,
) -> T {
    tiles((y / 4) * (width / 4) + x / 4)[16 * (y % 4) + 4 * (x % 4) + c]
}

/// Place `p` of an image after the first `n` blocks have been decoded.
pub open spec fn partial_value<T>(
    before: Seq<T>,
    tiles: spec_fn(int) -> Seq<T>,
    width: int,
    n: int,
    p: int,
) -> T {
    if block_of(p, width) < n {
        image_value(tiles, width, p)
    } else {
        before[p]
    }
}

/// The place of `p` by row and column, block and place in the block.
pub proof fn lemma_place(p: int, width: int, height: int)
    requires
        0 < width,
        0 < height,
        width % 4 == 0,
        height % 4 == 0,
        0 <= p < width * height * 4,
    ensures
        0 <= p / (4 * width) < height,
        0 <= p % (4 * width) < 4 * width,
        0 <= (p % (4 * width)) / 16 < width / 4,
        0 <= block_of(p, width) < (width / 4) * (height / 4),
        block_of(p, width) / (width / 4) == (p / (4 * width)) / 4,
        block_of(p, width) % (width / 4) == (p % (4 * width)) / 16,
        p == block_start(block_of(p, width), width) + row_in_block(p, width) * (4 * width)
            + place_in_row(p, width),
{
    let pitch = 4 * width;
    let bw = width / 4;
    let bh = height / 4;
    let y = p / pitch;
    let col = p % pitch;
    vstd::arithmetic::div_mod::lemma_fundamental_div_mod(p, pitch);
    vstd::arithmetic::div_mod::lemma_mod_bound(p, pitch);
    assert(0 <= y < height) by (nonlinear_arith)
        requires
            p == pitch * y + col,
            0 <= col < pitch,
            0 <= p < width * height * 4,
            pitch == 4 * width,
            width > 0,
    ;
    let bx = col / 16;
    let by = y / 4;
    assert(pitch == 16 * bw);
    assert(0 <= bx < bw);
    assert(0 <= by < bh);
    let n = by * bw + bx;
    assert(n == bw * by + bx) by (nonlinear_arith)
        requires
            n == by * bw + bx,
    ;
    vstd::arithmetic::div_mod::lemma_fundamental_div_mod_converse(n, bw, by, bx);
    assert(0 <= n < bw * bh) by (nonlinear_arith)
        requires
            n == by * bw + bx,
            0 <= bx < bw,
            0 <= by < bh,
    ;
    assert(by * 4 * pitch + (y % 4) * pitch == y * pitch) by (nonlinear_arith)
        requires
            y == 4 * by + y % 4,
    ;
    assert(y * pitch == pitch * y) by (nonlinear_arith);
}

/// A block is decoded into its own places and into no others.
pub proof fn lemma_block_written<T>(
    before: Seq<T>,
    tile: Seq<T>,
    width: int,
    height: int,
    w: int,
    n: int,
    p: int,
)
    requires
        0 < width,
        0 < height,
        width % 4 == 0,
        height % 4 == 0,
        before.len() == width * height * 4,
        1 <= w <= 4,
        tile.len() == 16 * w,
        0 <= n < (width / 4) * (height / 4),
        0 <= p < before.len(),
    ensures
        0 <= block_start(n, width),
        block_start(n, width) + 3 * (4 * width) + 3 * w + w <= before.len(),
        scatter(before, tile, block_start(n, width), 4 * width, w, w, (16 * w) as nat)[p] == (
        if block_of(p, width) == n && place_in_row(p, width) < 4 * w {
            tile[row_in_block(p, width) * (4 * w) + place_in_row(p, width)]
        } else {
            before[p]
        }),
{
    let pitch = 4 * width;
    let bw = width / 4;
    let bh = height / 4;
    let by_n = n / bw;
    let bx_n = n % bw;
    let base = block_start(n, width);
    vstd::arithmetic::div_mod::lemma_fundamental_div_mod(n, bw);
    vstd::arithmetic::div_mod::lemma_mod_bound(n, bw);
    assert(0 <= by_n < bh) by (nonlinear_arith)
        requires
            n == bw * by_n + bx_n,
            0 <= bx_n < bw,
            0 <= n < bw * bh,
    ;
    assert(0 <= by_n * 4 * pitch && by_n * 4 * pitch + 4 * pitch <= (height * pitch))
        by (nonlinear_arith)
        requires
            0 <= by_n < bh,
            height == 4 * bh,
            pitch > 0,
    ;
    assert(height * pitch == width * height * 4) by (nonlinear_arith)
        requires
            pitch == 4 * width,
    ;
    assert(base == by_n * 4 * pitch + bx_n * 16);
    lemma_place(p, width, height);
    let i = row_in_block(p, width);
    let m = place_in_row(p, width);
    if block_of(p, width) == n && m < 4 * w {
        let j = m / w;
        let c = m % w;
        let idx = i * (4 * w) + m;
        vstd::arithmetic::div_mod::lemma_fundamental_div_mod(m, w);
        vstd::arithmetic::div_mod::lemma_mod_bound(m, w);
        assert(0 <= j < 4) by (nonlinear_arith)
            requires
                m == w * j + c,
                0 <= c < w,
                0 <= m < 4 * w,
        ;
        let k = 4 * i + j;
        assert(idx == w * k + c) by (nonlinear_arith)
            requires
                idx == i * (4 * w) + m,
                m == w * j + c,
                k == 4 * i + j,
        ;
        vstd::arithmetic::div_mod::lemma_fundamental_div_mod_converse(idx, w, k, c);
        assert(0 <= idx < 16 * w) by (nonlinear_arith)
            requires
                idx == w * k + c,
                0 <= k < 16,
                0 <= c < w,
        ;
        assert(tile_position(idx, base, pitch, w, w) == base + i * pitch + j * w + c);
        assert(j * w == w * j) by (nonlinear_arith);
        lemma_scatter_separate(before, tile, base, pitch, w, w, (16 * w) as nat, idx);
    } else {
        assert forall|idx: int| 0 <= idx < 16 * w implies tile_position(idx, base, pitch, w, w)
            != p by {
            let k = idx / w;
            let c = idx % w;
            vstd::arithmetic::div_mod::lemma_fundamental_div_mod(idx, w);
            vstd::arithmetic::div_mod::lemma_mod_bound(idx, w);
            assert(0 <= k < 16) by (nonlinear_arith)
                requires
                    idx == w * k + c,
                    0 <= c < w,
                    0 <= idx < 16 * w,
            ;
            let i2 = k / 4;
            let j2 = k % 4;
            let m2 = j2 * w + c;
            assert(0 <= m2 < 4 * w) by (nonlinear_arith)
                requires
                    m2 == j2 * w + c,
                    0 <= j2 < 4,
                    0 <= c < w,
            ;
            let q = tile_position(idx, base, pitch, w, w);
            if q == p {
                let y2 = by_n * 4 + i2;
                let col2 = bx_n * 16 + m2;
                assert(0 <= col2 < pitch);
                assert(p == pitch * y2 + col2) by (nonlinear_arith)
                    requires
                        p == by_n * 4 * pitch + bx_n * 16 + i2 * pitch + j2 * w + c,
                        y2 == by_n * 4 + i2,
                        col2 == bx_n * 16 + j2 * w + c,
                ;
                vstd::arithmetic::div_mod::lemma_fundamental_div_mod_converse(
                    p,
                    pitch,
                    y2,
                    col2,
                );
                assert(col2 / 16 == bx_n && col2 % 16 == m2);
                assert(y2 / 4 == by_n);
                assert(block_of(p, width) == by_n * bw + bx_n);
                assert(by_n * bw == bw * by_n) by (nonlinear_arith);
                assert(false);
            }
        }
        lemma_scatter_elsewhere(before, tile, base, pitch, w, w, (16 * w) as nat, p);
    }
}

/// The pixels of the block of `variant` at byte `at` of `blocks`, four bytes
/// each (red, green, blue, alpha), row by row. BC4 fills red and BC5 red and
/// green; the channels that they do not hold, alpha among them, are 0.
pub open spec fn rgba8_tile(variant: CompressionVariant, blocks: Seq<u8>, at: int) -> Seq<u8> {
    let tag = variant.tag();
    if tag == 1 {
        color_tile(le64(blocks, at), false)
    } else if tag == 2 {
        Seq::new(
            64,
            |m: int|
                if m % 4 == 3 {
                    sharp_alpha_tile(le64(blocks, at))[m / 4]
                } else {
                    color_tile(le64(blocks, at + 8), true)[m]
                },
        )
    } else if tag == 3 {
        Seq::new(
            64,
            |m: int|
                if m % 4 == 3 {
                    smooth_alpha_tile(le64(blocks, at))[m / 4]
                } else {
                    color_tile(le64(blocks, at + 8), true)[m]
                },
        )
    } else if tag == 4 {
        Seq::new(
            64,
            |m: int|
                if m % 4 == 0 {
                    smooth_alpha_tile(le64(blocks, at))[m / 4]
                } else {
                    0u8
                },
        )
    } else if tag == 5 {
        Seq::new(
            64,
            |m: int|
                if m % 4 == 0 {
                    smooth_alpha_tile(le64(blocks, at))[m / 4]
                } else if m % 4 == 1 {
                    smooth_alpha_tile(le64(blocks, at + 8))[m / 4]
                } else {
                    0u8
                },
        )
    } else {
        bc7_tile(blocks.subrange(at, at + 16))
    }
}

/// Decodes the block of `variant` at byte `at` of `blocks` into its pixels.
fn decode_rgba8_tile(variant: CompressionVariant, blocks: &[u8], at: usize) -> (tile: [u8; 64])
    requires
        variant.tag() != 6,
        at + variant.block_bytes() <= blocks@.len(),
    ensures
        tile@ == rgba8_tile(variant, blocks@, at as int),
{
    let tag = variant.tag_number();
    let limit = blocks.len();
    if tag == 1 {
        decode_color_tile(load_le64(blocks, at), false)
    } else if tag == 2 || tag == 3 {
        let mut tile = decode_color_tile(load_le64(blocks, at + 8), true);
        let alpha = if tag == 2 {
            decode_sharp_alpha_tile(load_le64(blocks, at))
        } else {
            decode_smooth_alpha_tile(load_le64(blocks, at))
        };
        let ghost colors = tile@;
        let mut k: usize = 0;
        while k < 16
            invariant
                k <= 16,
                forall|m: int|
                    0 <= m < 64 ==> #[trigger] tile@[m] == (if m % 4 == 3 && m / 4 < k {
                        alpha@[m / 4]
                    } else {
                        colors[m]
                    }),
            decreases 16 - k,
        {
            tile[4 * k + 3] = alpha[k];
            k = k + 1;
        }
        assert(tile@ =~= rgba8_tile(variant, blocks@, at as int));
        tile
    } else if tag == 4 || tag == 5 {
        let red = decode_smooth_alpha_tile(load_le64(blocks, at));
        let green = if tag == 5 {
            decode_smooth_alpha_tile(load_le64(blocks, at + 8))
        } else {
            [0u8; 16]
        };
        let mut tile = [0u8; 64];
        let mut k: usize = 0;
        while k < 16
            invariant
                k <= 16,
                forall|m: int|
                    0 <= m < 64 ==> #[trigger] tile@[m] == (if m % 4 == 0 && m / 4 < k {
                        red@[m / 4]
                    } else if m % 4 == 1 && m / 4 < k {
                        green@[m / 4]
                    } else {
                        0u8
                    }),
            decreases 16 - k,
        {
            tile[4 * k] = red[k];
            tile[4 * k + 1] = green[k];
            k = k + 1;
        }
        assert(tile@ =~= rgba8_tile(variant, blocks@, at as int));
        tile
    } else {
        let block = vstd::slice::slice_subrange(blocks, at, at + 16);
        decode_tile_bc7(block)
    }
}

/// Writes the tile of block `n` into the image.
fn write_block<T: Copy>(
    out: &mut [T],
    tile: &[T],
    n: usize,
    width: u32,
    height: u32,
    Ghost(before): Ghost<Seq<T>>,
    Ghost(tiles): Ghost<spec_fn(int) -> Seq<T>>,
)
    requires
        0 < width,
        0 < height,
        width % 4 == 0,
        height % 4 == 0,
        old(out)@.len() == width * height * 4,
        before.len() == width * height * 4,
        tile@.len() == 64,
        tile@ == tiles(n as int),
        n < (width / 4) * (height / 4),
        forall|p: int|
            0 <= p < old(out)@.len() ==> #[trigger] old(out)@[p] == partial_value(before, tiles, width as int, n as int,
                p,
            ),
    ensures
        final(out)@.len() == old(out)@.len(),
        forall|p: int|
            0 <= p < old(out)@.len() ==> #[trigger] final(out)@[p] == partial_value(before, tiles, width as int, n + 1,
                p,
            ),
{
    let limit = out.len();
    let blocks_x = (width / 4) as usize;
    let by = n / blocks_x;
    let bx = n % blocks_x;
    proof {
        assert(width * height * 4 >= 16) by (nonlinear_arith)
            requires
                width >= 4,
                height >= 4,
        ;
        lemma_block_written(out@, tile@, width as int, height as int, 4, n as int, 0);
        let pitch = 4 * width;
        assert(by * 4 * pitch >= 0 && by * 4 * pitch <= block_start(n as int, width as int))
            by (nonlinear_arith)
            requires
                block_start(n as int, width as int) == by * 4 * pitch + bx * 16,
                by >= 0,
                bx >= 0,
                pitch >= 0,
        ;
        assert(by * 4 >= 0 && by * 4 <= by * 4 * pitch) by (nonlinear_arith)
            requires
                by >= 0,
                pitch >= 1,
        ;
    }
    let pitch = width as usize * 4;
    let base = by * 4 * pitch + bx * 16;
    let ghost current = out@;
    write_tile(out, tile, base, pitch, 4, 4);
    proof {
        assert forall|p: int| 0 <= p < limit implies #[trigger] out@[p] == partial_value(before, tiles, width as int, n + 1,
            p,
        ) by {
            lemma_block_written(current, tile@, width as int, height as int, 4, n as int, p);
            lemma_place(p, width as int, height as int);
            assert(current[p] == partial_value(before, tiles, width as int, n as int,
                p,
            ));
        }
    }
}

/// The tile of block `n` of an image of `variant`.
pub open spec fn rgba8_tiles(variant: CompressionVariant, blocks: Seq<u8>) -> spec_fn(int) -> Seq<
    u8,
> {
    |n: int| rgba8_tile(variant, blocks, n * variant.block_bytes())
}

/// Decodes the blocks of an image of `width` by `height` pixels, both
/// multiples of four, into pixels of four bytes (red, green, blue, alpha),
/// row by row: every pixel gets the four bytes that it has in the tile of
/// its block. BC6H is not decoded to bytes here.
pub fn decompress_blocks_as_rgba8(
    variant: CompressionVariant,
    width: u32,
    height: u32,
    blocks_data: &[u8],
    rgba_data: &mut [u8],
)
    requires
        width % 4 == 0,
        height % 4 == 0,
        variant.tag() != 6,
        blocks_data@.len() == variant.image_bytes(width as int, height as int),
        old(rgba_data)@.len() == width * height * 4,
    ensures
        final(rgba_data)@.len() == old(rgba_data)@.len(),
        forall|p: int|
            0 <= p < old(rgba_data)@.len() ==> #[trigger] final(rgba_data)@[p] == image_value(rgba8_tiles(variant, blocks_data@), width as int, p),
        forall|x: int, y: int, c: int|
            0 <= x < width && 0 <= y < height && 0 <= c < 4 ==> final(rgba_data)@[place_of(
                width as int,
                x,
                y,
                c,
            )] == #[trigger] pixel_value(rgba8_tiles(variant, blocks_data@), width as int, x, y, c),
{
    if width == 0 || height == 0 {
        assert(width * height * 4 == 0) by (nonlinear_arith)
            requires
                width == 0 || height == 0,
        ;
        return ;
    }
    let limit = rgba_data.len();
    let inputs = blocks_data.len();
    let blocks_x = (width / 4) as usize;
    let blocks_y = (height / 4) as usize;
    let size = variant.block_byte_size() as usize;
    let ghost tiles = rgba8_tiles(variant, blocks_data@);
    let ghost before = rgba_data@;
    proof {
        assert(blocks_across(width as int) == width / 4);
        assert(blocks_across(height as int) == height / 4);
        assert(blocks_x * blocks_y <= blocks_x * blocks_y * size) by (nonlinear_arith)
            requires
                size >= 8,
                blocks_x >= 0,
                blocks_y >= 0,
        ;
        assert(4 * width <= width * height * 4) by (nonlinear_arith)
            requires
                height >= 1,
                width >= 0,
        ;
    }
    let count = blocks_x * blocks_y;
    let mut n: usize = 0;
    while n < count
        invariant
            0 < width,
            0 < height,
            width % 4 == 0,
            height % 4 == 0,
            variant.tag() != 6,
            blocks_x == width / 4,
            blocks_y == height / 4,
            size == variant.block_bytes(),
            count == blocks_x * blocks_y,
            inputs == blocks_data@.len(),
            inputs == count * size,
            limit == width * height * 4,
            rgba_data@.len() == limit,
            before.len() == limit,
            tiles == rgba8_tiles(variant, blocks_data@),
            n <= count,
            forall|p: int|
                0 <= p < limit ==> #[trigger] rgba_data@[p] == partial_value(before, tiles, width as int, n as int,
                    p,
                ),
        decreases count - n,
    {
        proof {
            assert(n * size + size <= count * size) by (nonlinear_arith)
                requires
                    n < count,
                    size >= 0,
            ;
            assert(n * size >= 0) by (nonlinear_arith)
                requires
                    n >= 0,
                    size >= 0,
            ;
        }
        let tile = decode_rgba8_tile(variant, blocks_data, n * size);
        write_block(rgba_data, &tile, n, width, height, Ghost(before), Ghost(tiles));
        n = n + 1;
    }
    proof {
        assert forall|p: int| 0 <= p < limit implies #[trigger] rgba_data@[p] == image_value(tiles, width as int, p) by {
            lemma_place(p, width as int, height as int);
            assert(rgba_data@[p] == partial_value(before, tiles, width as int, count as int, p));
        }
        assert forall|x: int, y: int, c: int|
            0 <= x < width && 0 <= y < height && 0 <= c < 4 implies rgba_data@[place_of(
            width as int,
            x,
            y,
            c,
        )] == #[trigger] pixel_value(tiles, width as int, x, y, c) by {
            lemma_place_of_pixel(width as int, height as int, x, y, c);
            let p = place_of(width as int, x, y, c);
            assert(rgba_data@[p] == image_value(tiles, width as int, p));
        }
    }
}

/// A tile of red, green and blue with a fourth value of 0 after the three
/// of every pixel.
pub open spec fn with_fourth(rgb: Seq<u16>) -> Seq<u16> {
    Seq::new(
        64,
        |m: int|
            if m % 4 < 3 {
                rgb[3 * (m / 4) + m % 4]
            } else {
                0u16
            },
    )
}

/// The tile of block `n` of an image of BC6H, four values to a pixel.
pub open spec fn rgba16f_tiles(blocks: Seq<u8>) -> spec_fn(int) -> Seq<u16> {
    |n: int| with_fourth(bc6h_tile(blocks.subrange(n * 16, n * 16 + 16), false))
}

/// Value `c` of the pixel in column `x` of row `y` of an image of BC6H, as a
/// half-float bit pattern: red, green or blue as the block of the pixel
/// decodes in the unsigned format, and 0 for the fourth value.
pub open spec fn half_float_value(blocks: Seq<u8>, width: int, x: int, y: int, c: int) -> u16 {
    let n = (y / 4) * (width / 4) + x / 4;
    if c < 3 {
        bc6h_tile(blocks.subrange(n * 16, n * 16 + 16), false)[3 * (4 * (y % 4) + x % 4) + c]
    } else {
        0u16
    }
}

/// The block of a pixel and the place of each of its values in the block.
pub proof fn lemma_place_of_pixel(width: int, height: int, x: int, y: int, c: int)
    requires
        0 < width,
        0 < height,
        width % 4 == 0,
        height % 4 == 0,
        0 <= x < width,
        0 <= y < height,
        0 <= c < 4,
    ensures
        0 <= place_of(width, x, y, c) < width * height * 4,
        block_of(place_of(width, x, y, c), width) == (y / 4) * (width / 4) + x / 4,
        row_in_block(place_of(width, x, y, c), width) == y % 4,
        place_in_row(place_of(width, x, y, c), width) == 4 * (x % 4) + c,
{
    let p = place_of(width, x, y, c);
    let pitch = 4 * width;
    let col = 4 * x + c;
    assert(p == pitch * y + col) by (nonlinear_arith)
        requires
            p == 4 * (y * width + x) + c,
            pitch == 4 * width,
            col == 4 * x + c,
    ;
    vstd::arithmetic::div_mod::lemma_fundamental_div_mod_converse(p, pitch, y, col);
    assert(p < width * height * 4) by (nonlinear_arith)
        requires
            p == pitch * y + col,
            pitch == 4 * width,
            0 <= col < pitch,
            0 <= y < height,
    ;
    assert(p >= 0) by (nonlinear_arith)
        requires
            p == pitch * y + col,
            pitch > 0,
            col >= 0,
            y >= 0,
    ;
}

/// Puts a fourth value of 0 after the red, green and blue of every pixel.
fn widen_tile(rgb: &[u16; 48]) -> (tile: [u16; 64])
    ensures
        tile@ == with_fourth(rgb@),
{
    let mut tile = [0u16; 64];
    let mut k: usize = 0;
    while k < 16
        invariant
            k <= 16,
            forall|m: int|
                0 <= m < 64 ==> #[trigger] tile@[m] == (if m < 4 * k {
                    with_fourth(rgb@)[m]
                } else {
                    0u16
                }),
        decreases 16 - k,
    {
        tile[4 * k] = rgb[3 * k];
        tile[4 * k + 1] = rgb[3 * k + 1];
        tile[4 * k + 2] = rgb[3 * k + 2];
        k = k + 1;
    }
    assert(tile@ =~= with_fourth(rgb@));
    tile
}

/// Decodes the blocks of an image of BC6H of `width` by `height` pixels, both
/// multiples of four, into pixels of four half-float bit patterns, row by
/// row: the red, green and blue of the pixel in the unsigned format, and 0.
pub fn decompress_blocks_as_rgba16f(
    variant: CompressionVariant,
    width: u32,
    height: u32,
    blocks_data: &[u8],
    rgba_data: &mut [u16],
)
    requires
        width % 4 == 0,
        height % 4 == 0,
        variant.tag() == 6,
        blocks_data@.len() == variant.image_bytes(width as int, height as int),
        old(rgba_data)@.len() == width * height * 4,
    ensures
        final(rgba_data)@.len() == old(rgba_data)@.len(),
        forall|x: int, y: int, c: int|
            0 <= x < width && 0 <= y < height && 0 <= c < 4 ==> final(rgba_data)@[place_of(
                width as int,
                x,
                y,
                c,
            )] == #[trigger] half_float_value(blocks_data@, width as int, x, y, c),
        forall|p: int|
            0 <= p < old(rgba_data)@.len() ==> #[trigger] final(rgba_data)@[p] == image_value(rgba16f_tiles(blocks_data@), width as int, p),
{
    if width == 0 || height == 0 {
        assert(width * height * 4 == 0) by (nonlinear_arith)
            requires
                width == 0 || height == 0,
        ;
        return ;
    }
    let limit = rgba_data.len();
    let inputs = blocks_data.len();
    let blocks_x = (width / 4) as usize;
    let blocks_y = (height / 4) as usize;
    let ghost tiles = rgba16f_tiles(blocks_data@);
    let ghost before = rgba_data@;
    proof {
        assert(blocks_across(width as int) == width / 4);
        assert(blocks_across(height as int) == height / 4);
        assert(blocks_x * blocks_y <= blocks_x * blocks_y * 16) by (nonlinear_arith)
            requires
                blocks_x >= 0,
                blocks_y >= 0,
        ;
        assert(4 * width <= width * height * 4) by (nonlinear_arith)
            requires
                height >= 1,
                width >= 0,
        ;
    }
    let count = blocks_x * blocks_y;
    let mut n: usize = 0;
    while n < count
        invariant
            0 < width,
            0 < height,
            width % 4 == 0,
            height % 4 == 0,
            blocks_x == width / 4,
            blocks_y == height / 4,
            count == blocks_x * blocks_y,
            inputs == blocks_data@.len(),
            inputs == count * 16,
            limit == width * height * 4,
            rgba_data@.len() == limit,
            before.len() == limit,
            tiles == rgba16f_tiles(blocks_data@),
            n <= count,
            forall|p: int|
                0 <= p < limit ==> #[trigger] rgba_data@[p] == partial_value(before, tiles, width as int, n as int,
                    p,
                ),
        decreases count - n,
    {
        proof {
            assert(n * 16 + 16 <= count * 16);
        }
        let block = vstd::slice::slice_subrange(blocks_data, n * 16, n * 16 + 16);
        let rgb = decode_tile_bc6h(block, false);
        let tile = widen_tile(&rgb);
        write_block(rgba_data, &tile, n, width, height, Ghost(before), Ghost(tiles));
        n = n + 1;
    }
    proof {
        assert forall|p: int| 0 <= p < limit implies #[trigger] rgba_data@[p] == image_value(tiles, width as int, p) by {
            lemma_place(p, width as int, height as int);
            assert(rgba_data@[p] == partial_value(before, tiles, width as int, count as int, p));
        }
        assert forall|x: int, y: int, c: int|
            0 <= x < width && 0 <= y < height && 0 <= c < 4 implies rgba_data@[place_of(
            width as int,
            x,
            y,
            c,
        )] == #[trigger] half_float_value(blocks_data@, width as int, x, y, c) by {
            lemma_place_of_pixel(width as int, height as int, x, y, c);
            let p = place_of(width as int, x, y, c);
            let m = (y % 4) * 16 + 4 * (x % 4) + c;
            assert(m / 4 == 4 * (y % 4) + x % 4 && m % 4 == c);
            assert(rgba_data@[p] == image_value(tiles, width as int, p));
        }
    }
}

} // verus!
