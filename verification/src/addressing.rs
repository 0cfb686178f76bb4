//! Row-major addressing of flat pixel buffers.
//!
//! A buffer of rows of `width` pixels, each of `bpp` bytes, holds byte `c` of
//! pixel `(x, y)` at `(y * width + x) * bpp + c`.

use vstd::prelude::*;
use vstd::arithmetic::div_mod::lemma_fundamental_div_mod_converse;

verus! {

/// The index of the first byte of pixel `(x, y)` in a buffer of rows of
/// `width` pixels.
pub open spec fn pixel_offset(x: int, y: int, bpp: int, width: int) -> int {
    (y * width + x) * bpp
}

/// The index of the first byte of the pixel that lies at `(local_x, local_y)`
/// inside the cell `(cell_x, cell_y)` of a grid of `tile_w` × `tile_h` cells,
/// in a buffer of rows of `out_width` pixels.
pub open spec fn placed_offset(
    cell_x: int,
    cell_y: int,
    local_x: int,
    local_y: int,
    tile_w: int,
    tile_h: int,
    bpp: int,
    out_width: int,
) -> int {
    pixel_offset(cell_x * tile_w + local_x, cell_y * tile_h + local_y, bpp, out_width)
}

/// Byte `c` of pixel `(x, y)` of the buffer `bytes`.
pub open spec fn byte_at(bytes: Seq<u8>, width: int, bpp: int, x: int, y: int, c: int) -> u8 {
    bytes[pixel_offset(x, y, bpp, width) + c]
}

/// Every byte of a pixel inside a `width` × `height` image lies inside the
/// image's `width * height * bpp` bytes.
pub proof fn lemma_offset_in_bounds(x: int, y: int, c: int, bpp: int, width: int, height: int)
    requires
        0 <= x < width,
        0 <= y < height,
        0 <= c < bpp,
    ensures
        0 <= pixel_offset(x, y, bpp, width),
        pixel_offset(x, y, bpp, width) + c < width * height * bpp,
        0 <= y * width + x < width * height,
{
    assert(y * width + width <= height * width) by (nonlinear_arith)
        requires
            y + 1 <= height,
            0 <= width,
    ;
    let p = y * width + x;
    assert(p * bpp + bpp <= (width * height) * bpp) by (nonlinear_arith)
        requires
            p + 1 <= width * height,
            0 <= bpp,
    ;
}

/// Two bytes share an index only if they are the same byte of the same
/// pixel.
pub proof fn lemma_offset_injective(
    width: int,
    bpp: int,
    x1: int,
    y1: int,
    c1: int,
    x2: int,
    y2: int,
    c2: int,
)
    requires
        0 <= x1 < width,
        0 <= x2 < width,
        0 <= c1 < bpp,
        0 <= c2 < bpp,
        pixel_offset(x1, y1, bpp, width) + c1 == pixel_offset(x2, y2, bpp, width) + c2,
    ensures
        x1 == x2,
        y1 == y2,
        c1 == c2,
{
    let k = pixel_offset(x1, y1, bpp, width) + c1;
    lemma_fundamental_div_mod_converse(k, bpp, y1 * width + x1, c1);
    lemma_fundamental_div_mod_converse(k, bpp, y2 * width + x2, c2);
    let p = y1 * width + x1;
    lemma_fundamental_div_mod_converse(p, width, y1, x1);
    lemma_fundamental_div_mod_converse(p, width, y2, x2);
}

/// The bytes of two different pixels do not overlap.
pub proof fn lemma_pixels_disjoint(width: int, bpp: int, x1: int, y1: int, x2: int, y2: int)
    requires
        0 <= x1 < width,
        0 <= x2 < width,
        0 <= bpp,
        x1 != x2 || y1 != y2,
    ensures
        pixel_offset(x1, y1, bpp, width) + bpp <= pixel_offset(x2, y2, bpp, width) || pixel_offset(
            x2,
            y2,
            bpp,
            width,
        ) + bpp <= pixel_offset(x1, y1, bpp, width),
{
    let p1 = y1 * width + x1;
    let p2 = y2 * width + x2;
    if p1 == p2 {
        lemma_fundamental_div_mod_converse(p1, width, y1, x1);
        lemma_fundamental_div_mod_converse(p1, width, y2, x2);
    }
    if p1 < p2 {
        assert(p1 * bpp + bpp <= p2 * bpp) by (nonlinear_arith)
            requires
                p1 + 1 <= p2,
                0 <= bpp,
        ;
    } else {
        assert(p2 * bpp + bpp <= p1 * bpp) by (nonlinear_arith)
            requires
                p2 + 1 <= p1,
                0 <= bpp,
        ;
    }
}

/// A pixel column lies in the cell whose span of columns holds it, and in no
/// other.
pub proof fn lemma_cell_unique(tile: int, cell: int, local: int, other: int)
    requires
        0 <= local < tile,
        other * tile <= cell * tile + local < other * tile + tile,
    ensures
        cell == other,
{
    lemma_fundamental_div_mod_converse(cell * tile + local, tile, cell, local);
    let rest = cell * tile + local - other * tile;
    lemma_fundamental_div_mod_converse(cell * tile + local, tile, other, rest);
}

/// The index of the first byte of pixel `(x, y)` in a buffer of rows of
/// `width` pixels.
pub fn local_pixel_offset(x: usize, y: usize, bpp: usize, width: usize) -> (offset: usize)
    requires
        pixel_offset(x as int, y as int, bpp as int, width as int) <= usize::MAX,
    ensures
        offset == pixel_offset(x as int, y as int, bpp as int, width as int),
{
    if bpp == 0 {
        assert((y * width + x) * 0 == 0);
        return 0;
    }
    proof {
        let p = y * width + x;
        assert(p <= p * bpp) by (nonlinear_arith)
            requires
                0 <= p,
                1 <= bpp,
        ;
    }
    (y * width + x) * bpp
}

/// The index of the first byte of the pixel that lies at `(local_x, local_y)`
/// inside the cell `(cell_x, cell_y)` of a grid of `tile_w` × `tile_h` cells,
/// in a buffer of rows of `out_width` pixels.
pub fn placed_pixel_offset(
    cell_x: usize,
    cell_y: usize,
    local_x: usize,
    local_y: usize,
    tile_w: usize,
    tile_h: usize,
    bpp: usize,
    out_width: usize,
) -> (offset: usize)
    requires
        cell_x * tile_w + local_x < out_width,
        placed_offset(
            cell_x as int,
            cell_y as int,
            local_x as int,
            local_y as int,
            tile_w as int,
            tile_h as int,
            bpp as int,
            out_width as int,
        ) <= usize::MAX,
    ensures
        offset == placed_offset(
            cell_x as int,
            cell_y as int,
            local_x as int,
            local_y as int,
            tile_w as int,
            tile_h as int,
            bpp as int,
            out_width as int,
        ),
{
    if bpp == 0 {
        assert(((cell_y * tile_h + local_y) * out_width + (cell_x * tile_w + local_x)) * 0 == 0);
        return 0;
    }
    proof {
        let row = cell_y * tile_h + local_y;
        let col = cell_x * tile_w + local_x;
        let p = row * out_width + col;
        assert(row <= row * out_width) by (nonlinear_arith)
            requires
                0 <= row,
                1 <= out_width,
        ;
        assert(p <= p * bpp) by (nonlinear_arith)
            requires
                0 <= p,
                1 <= bpp,
        ;
    }
    let x: usize = cell_x * tile_w + local_x;
    let y: usize = cell_y * tile_h + local_y;
    local_pixel_offset(x, y, bpp, out_width)
}

} // verus!
