//! How a decoded 4x4 tile is laid into the caller's buffer.
use vstd::prelude::*;

verus! {

/// The place in the output of entry `m` of a tile that holds `width` values for
/// each pixel: pixel `k = m / width` of row `k / 4` and column `k % 4`, rows
/// `pitch` apart and pixels `step` apart, counted from `base`.
pub open spec fn tile_position(m: int, base: int, pitch: int, step: int, width: int) -> int {
    let k = m / width;
    base + (k / 4) * pitch + (k % 4) * step + m % width
}

/// `s` with `v` at place `p`, where `p` is a place of `s`; else `s`.
pub open spec fn put<T>(s: Seq<T>, p: int, v: T) -> Seq<T> {
    if 0 <= p < s.len() {
        s.update(p, v)
    } else {
        s
    }
}

/// The buffer `out` after the first `n` entries of `vals` have been written to
/// their places, one after the other: where two places coincide the later
/// entry stays.
pub open spec fn scatter<T>(
    out: Seq<T>,
    vals: Seq<T>,
    base: int,
    pitch: int,
    step: int,
    width: int,
    n: nat,
) -> Seq<T>
    decreases n,
{
    if n == 0 {
        out
    } else {
        put(
            scatter(out, vals, base, pitch, step, width, (n - 1) as nat),
            tile_position(n - 1, base, pitch, step, width),
            vals[n - 1],
        )
    }
}

/// Writing a tile keeps the length of the buffer.
pub proof fn lemma_scatter_len<T>(
    out: Seq<T>,
    vals: Seq<T>,
    base: int,
    pitch: int,
    step: int,
    width: int,
    n: nat,
)
    ensures
        scatter(out, vals, base, pitch, step, width, n).len() == out.len(),
    decreases n,
{
    if n > 0 {
        lemma_scatter_len(out, vals, base, pitch, step, width, (n - 1) as nat);
    }
}

/// A place that no entry is written to keeps what it held.
pub proof fn lemma_scatter_elsewhere<T>(
    out: Seq<T>,
    vals: Seq<T>,
    base: int,
    pitch: int,
    step: int,
    width: int,
    n: nat,
    p: int,
)
    requires
        0 <= p < out.len(),
        forall|m: int| 0 <= m < n ==> tile_position(m, base, pitch, step, width) != p,
    ensures
        scatter(out, vals, base, pitch, step, width, n)[p] == out[p],
    decreases n,
{
    if n > 0 {
        lemma_scatter_len(out, vals, base, pitch, step, width, (n - 1) as nat);
        lemma_scatter_elsewhere(out, vals, base, pitch, step, width, (n - 1) as nat, p);
    }
}

/// With rows at least four pixels apart and pixels at least `width` apart, no
/// two entries share a place.
pub proof fn lemma_tile_position_injective(
    m1: int,
    m2: int,
    base: int,
    pitch: int,
    step: int,
    width: int,
)
    requires
        1 <= width <= step,
        4 * step <= pitch,
        0 <= m1 < 16 * width,
        0 <= m2 < 16 * width,
        tile_position(m1, base, pitch, step, width) == tile_position(m2, base, pitch, step, width),
    ensures
        m1 == m2,
{
    let k1 = m1 / width;
    let k2 = m2 / width;
    let c1 = m1 % width;
    let c2 = m2 % width;
    vstd::arithmetic::div_mod::lemma_fundamental_div_mod(m1, width);
    vstd::arithmetic::div_mod::lemma_fundamental_div_mod(m2, width);
    assert(0 <= k1 < 16 && 0 <= k2 < 16) by (nonlinear_arith)
        requires
            0 <= m1 < 16 * width,
            0 <= m2 < 16 * width,
            1 <= width,
            k1 == m1 / width,
            k2 == m2 / width,
    ;
    let i1 = k1 / 4;
    let i2 = k2 / 4;
    let j1 = k1 % 4;
    let j2 = k2 % 4;
    let r1 = j1 * step + c1;
    let r2 = j2 * step + c2;
    assert(0 <= r1 < pitch && 0 <= r2 < pitch) by (nonlinear_arith)
        requires
            0 <= j1 < 4,
            0 <= j2 < 4,
            0 <= c1 < width,
            0 <= c2 < width,
            width <= step,
            4 * step <= pitch,
            r1 == j1 * step + c1,
            r2 == j2 * step + c2,
    ;
    assert(i1 == i2) by (nonlinear_arith)
        requires
            i1 * pitch + r1 == i2 * pitch + r2,
            0 <= r1 < pitch,
            0 <= r2 < pitch,
    ;
    assert(j1 == j2) by (nonlinear_arith)
        requires
            j1 * step + c1 == j2 * step + c2,
            0 <= c1 < step,
            0 <= c2 < step,
    ;
    assert(width * k1 == width * k2);
}

/// With rows at least four pixels apart and pixels at least `width` apart,
/// every entry of the tile is found at its place once all are written.
pub proof fn lemma_scatter_separate<T>(
    out: Seq<T>,
    vals: Seq<T>,
    base: int,
    pitch: int,
    step: int,
    width: int,
    n: nat,
    m: int,
)
    requires
        1 <= width <= step,
        4 * step <= pitch,
        n <= 16 * width,
        0 <= m < n,
        0 <= base,
        base + 3 * pitch + 3 * step + width <= out.len(),
    ensures
        scatter(out, vals, base, pitch, step, width, n)[tile_position(
            m,
            base,
            pitch,
            step,
            width,
        )] == vals[m],
    decreases n,
{
    lemma_scatter_len(out, vals, base, pitch, step, width, (n - 1) as nat);
    lemma_tile_position_bounds(m, base, pitch, step, width);
    lemma_tile_position_bounds(n - 1, base, pitch, step, width);
    if m < n - 1 {
        lemma_scatter_separate(out, vals, base, pitch, step, width, (n - 1) as nat, m);
        if tile_position(m, base, pitch, step, width) == tile_position(
            n - 1,
            base,
            pitch,
            step,
            width,
        ) {
            lemma_tile_position_injective(m, n - 1, base, pitch, step, width);
        }
    }
}

/// Every place of a tile lies between `base` and the end of the last pixel of
/// the last row.
pub proof fn lemma_tile_position_bounds(m: int, base: int, pitch: int, step: int, width: int)
    requires
        1 <= width,
        0 <= step,
        0 <= pitch,
        0 <= m < 16 * width,
    ensures
        base <= tile_position(m, base, pitch, step, width) < base + 3 * pitch + 3 * step + width,
        0 <= m / width < 16,
{
    let k = m / width;
    vstd::arithmetic::div_mod::lemma_fundamental_div_mod(m, width);
    assert(0 <= k < 16) by (nonlinear_arith)
        requires
            0 <= m < 16 * width,
            1 <= width,
            k == m / width,
    ;
    let i = k / 4;
    let j = k % 4;
    assert(0 <= i * pitch <= 3 * pitch) by (nonlinear_arith)
        requires
            0 <= i <= 3,
            0 <= pitch,
    ;
    assert(0 <= j * step <= 3 * step) by (nonlinear_arith)
        requires
            0 <= j <= 3,
            0 <= step,
    ;
}

/// Writes the tile `vals`, which holds `width` values for each of its sixteen
/// pixels, into `out`.
pub fn write_tile<T: Copy>(
    out: &mut [T],
    vals: &[T],
    base: usize,
    pitch: usize,
    step: usize,
    width: usize,
)
    requires
        1 <= width,
        vals@.len() == 16 * width,
        base + 3 * pitch + 3 * step + width <= old(out)@.len(),
    ensures
        final(out)@ == scatter(
            old(out)@,
            vals@,
            base as int,
            pitch as int,
            step as int,
            width as int,
            (16 * width) as nat,
        ),
        final(out)@.len() == old(out)@.len(),
{
    let total = vals.len();
    let limit = out.len();
    let mut m: usize = 0;
    while m < total
        invariant
            1 <= width,
            total == 16 * width,
            vals@.len() == total,
            m <= total,
            out@.len() == old(out)@.len(),
            out@.len() == limit,
            base + 3 * pitch + 3 * step + width <= out@.len(),
            out@ == scatter(
                old(out)@,
                vals@,
                base as int,
                pitch as int,
                step as int,
                width as int,
                m as nat,
            ),
        decreases total - m,
    {
        proof {
            lemma_tile_position_bounds(m as int, base as int, pitch as int, step as int, width as int);
        }
        let k = m / width;
        let i = k / 4;
        let j = k % 4;
        proof {
            assert(i * pitch <= 3 * pitch) by (nonlinear_arith)
                requires
                    0 <= i <= 3,
                    0 <= pitch,
            ;
            assert(j * step <= 3 * step) by (nonlinear_arith)
                requires
                    0 <= j <= 3,
                    0 <= step,
            ;
        }
        let at = base + i * pitch + j * step + m % width;
        out[at] = vals[m];
        m = m + 1;
    }
}

} // verus!
