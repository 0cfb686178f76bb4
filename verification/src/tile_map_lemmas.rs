//! What holds of every tile map.

use vstd::prelude::*;
use crate::pixel_buffer::{lemma_raster_equal_by_bytes, Raster};
use crate::tile_map_texture::{
    cell_byte, greatest_x, greatest_y, is_greatest_x, is_greatest_y, is_least_x, is_least_y,
    is_tile_map, last_tile_at, least_x, least_y, placed_byte, span_x, span_y, TilePlacement,
    TileSpec,
};

verus! {

/// Wherever there is a tile there is a greatest and a least column and a
/// greatest and a least row that hold one.
pub proof fn lemma_bounds_exist(tiles: Seq<TilePlacement>)
    requires
        tiles.len() > 0,
    ensures
        is_greatest_x(tiles, greatest_x(tiles)),
        is_least_x(tiles, least_x(tiles)),
        is_greatest_y(tiles, greatest_y(tiles)),
        is_least_y(tiles, least_y(tiles)),
        least_x(tiles) <= greatest_x(tiles),
        least_y(tiles) <= greatest_y(tiles),
    decreases tiles.len(),
{
    let last = tiles.last();
    if tiles.len() == 1 {
        assert(tiles[0] == last);
        assert(is_greatest_x(tiles, last.0.x as int));
        assert(is_least_x(tiles, last.0.x as int));
        assert(is_greatest_y(tiles, last.0.y as int));
        assert(is_least_y(tiles, last.0.y as int));
    } else {
        let rest = tiles.drop_last();
        lemma_bounds_exist(rest);
        let n = rest.len() as int;
        assert(tiles[n] == last);
        assert forall|i: int| 0 <= i < n implies #[trigger] tiles[i] == rest[i] by {}
        let gx = if last.0.x > greatest_x(rest) {
            last.0.x as int
        } else {
            greatest_x(rest)
        };
        let lx = if last.0.x < least_x(rest) {
            last.0.x as int
        } else {
            least_x(rest)
        };
        let gy = if last.0.y > greatest_y(rest) {
            last.0.y as int
        } else {
            greatest_y(rest)
        };
        let ly = if last.0.y < least_y(rest) {
            last.0.y as int
        } else {
            least_y(rest)
        };
        let wgx = choose|i: int| 0 <= i < rest.len() && (#[trigger] rest[i]).0.x == greatest_x(rest);
        let wlx = choose|i: int| 0 <= i < rest.len() && (#[trigger] rest[i]).0.x == least_x(rest);
        let wgy = choose|i: int| 0 <= i < rest.len() && (#[trigger] rest[i]).0.y == greatest_y(rest);
        let wly = choose|i: int| 0 <= i < rest.len() && (#[trigger] rest[i]).0.y == least_y(rest);
        assert(tiles[wgx] == rest[wgx] && tiles[wlx] == rest[wlx] && tiles[wgy] == rest[wgy]
            && tiles[wly] == rest[wly]);
        assert forall|i: int| 0 <= i < tiles.len() implies (#[trigger] tiles[i]).0.x <= gx
            && tiles[i].0.x >= lx && tiles[i].0.y <= gy && tiles[i].0.y >= ly by {
            if i < n {
                assert(tiles[i] == rest[i]);
            }
        }
        assert(is_greatest_x(tiles, gx));
        assert(is_least_x(tiles, lx));
        assert(is_greatest_y(tiles, gy));
        assert(is_least_y(tiles, ly));
    }
    let w = choose|i: int| 0 <= i < tiles.len() && (#[trigger] tiles[i]).0.x == greatest_x(tiles);
    assert(tiles[w].0.x >= least_x(tiles));
    let v = choose|i: int| 0 <= i < tiles.len() && (#[trigger] tiles[i]).0.y == greatest_y(tiles);
    assert(tiles[v].0.y >= least_y(tiles));
}

/// The tile that shows on a cell is the last that was placed there: it lies
/// on the cell, and no later placement does. No tile shows only where none
/// was placed.
pub proof fn lemma_last_tile_at(tiles: Seq<TilePlacement>, n: int, x: int, y: int)
    requires
        0 <= n <= tiles.len(),
    ensures
        match last_tile_at(tiles, n, x, y) {
            Some(i) => {
                &&& 0 <= i < n
                &&& tiles[i].0.x == x
                &&& tiles[i].0.y == y
                &&& forall|j: int| i < j < n ==> !((#[trigger] tiles[j]).0.x == x && tiles[j].0.y == y)
            },
            None => forall|j: int| 0 <= j < n ==> !((#[trigger] tiles[j]).0.x == x && tiles[j].0.y == y),
        },
    decreases n,
{
    if n > 0 {
        lemma_last_tile_at(tiles, n - 1, x, y);
    }
}

/// The width and the height of a tile map are the numbers of columns and of
/// rows that the placements span, times the width and the height of a tile.
pub proof fn lemma_tile_map_dimensions(out: Raster, spec: TileSpec, tiles: Seq<TilePlacement>)
    requires
        is_tile_map(out, spec, tiles),
    ensures
        out.width == (greatest_x(tiles) - least_x(tiles) + 1) * spec.tile_width,
        out.height == (greatest_y(tiles) - least_y(tiles) + 1) * spec.tile_height,
{
}

/// A tile map shows the tile of placement `i`, unless a later placement
/// names the same cell, in that cell: as many cells from the left as the
/// cell's column is above the least, and as many cells from the top as its
/// row is below the greatest.
pub proof fn lemma_tile_is_shown(
    out: Raster,
    spec: TileSpec,
    tiles: Seq<TilePlacement>,
    i: int,
    lx: int,
    ly: int,
    c: int,
)
    requires
        is_tile_map(out, spec, tiles),
        0 <= i < tiles.len(),
        forall|j: int|
            i < j < tiles.len() ==> !((#[trigger] tiles[j]).0.x == tiles[i].0.x && tiles[j].0.y
                == tiles[i].0.y),
        0 <= lx < spec.tile_width,
        0 <= ly < spec.tile_height,
        0 <= c < spec.bpp(),
    ensures
        out.byte_at(
            (tiles[i].0.x - least_x(tiles)) * spec.tile_width + lx,
            (greatest_y(tiles) - tiles[i].0.y) * spec.tile_height + ly,
            c,
        ) == tiles[i].1.unwrap()@.byte_at(lx, ly, c),
{
    lemma_bounds_exist(tiles);
    let x = tiles[i].0.x as int;
    let y = tiles[i].0.y as int;
    lemma_last_tile_at(tiles, tiles.len() as int, x, y);
    let col = x - least_x(tiles);
    let row = greatest_y(tiles) - y;
    assert(0 <= col < span_x(tiles));
    assert(0 <= row < span_y(tiles));
    assert(placed_byte(out.bytes, spec, span_x(tiles), col, row, lx, ly, c) == cell_byte(
        tiles,
        tiles.len() as int,
        least_x(tiles) + col,
        greatest_y(tiles) - row,
        lx,
        ly,
        c,
    ));
}

/// The grid's vertical axis is turned over: a tile that shows on the
/// greatest row of the grid fills the topmost rows of the tile map, and one
/// that shows on the least row fills the bottommost.
pub proof fn lemma_grid_y_is_inverted(
    out: Raster,
    spec: TileSpec,
    tiles: Seq<TilePlacement>,
    i: int,
    lx: int,
    ly: int,
    c: int,
)
    requires
        is_tile_map(out, spec, tiles),
        0 <= i < tiles.len(),
        forall|j: int|
            i < j < tiles.len() ==> !((#[trigger] tiles[j]).0.x == tiles[i].0.x && tiles[j].0.y
                == tiles[i].0.y),
        0 <= lx < spec.tile_width,
        0 <= ly < spec.tile_height,
        0 <= c < spec.bpp(),
    ensures
        tiles[i].0.y == greatest_y(tiles) ==> out.byte_at(
            (tiles[i].0.x - least_x(tiles)) * spec.tile_width + lx,
            ly,
            c,
        ) == tiles[i].1.unwrap()@.byte_at(lx, ly, c),
        tiles[i].0.y == least_y(tiles) ==> out.byte_at(
            (tiles[i].0.x - least_x(tiles)) * spec.tile_width + lx,
            out.height - spec.tile_height + ly,
            c,
        ) == tiles[i].1.unwrap()@.byte_at(lx, ly, c),
{
    lemma_tile_is_shown(out, spec, tiles, i, lx, ly, c);
    let th = spec.tile_height as int;
    if tiles[i].0.y == greatest_y(tiles) {
        assert((greatest_y(tiles) - tiles[i].0.y) * th == 0) by (nonlinear_arith)
            requires
                greatest_y(tiles) - tiles[i].0.y == 0,
        ;
    }
    if tiles[i].0.y == least_y(tiles) {
        let rows = span_y(tiles);
        assert((rows - 1) * th == rows * th - th) by (nonlinear_arith);
    }
}

/// A cell inside the span of the grid on which no tile was placed is zero in
/// every byte of the tile map.
pub proof fn lemma_empty_cell_is_zero(
    out: Raster,
    spec: TileSpec,
    tiles: Seq<TilePlacement>,
    x: int,
    y: int,
    lx: int,
    ly: int,
    c: int,
)
    requires
        is_tile_map(out, spec, tiles),
        tiles.len() > 0,
        least_x(tiles) <= x <= greatest_x(tiles),
        least_y(tiles) <= y <= greatest_y(tiles),
        forall|j: int| 0 <= j < tiles.len() ==> !((#[trigger] tiles[j]).0.x == x && tiles[j].0.y == y),
        0 <= lx < spec.tile_width,
        0 <= ly < spec.tile_height,
        0 <= c < spec.bpp(),
    ensures
        out.byte_at(
            (x - least_x(tiles)) * spec.tile_width + lx,
            (greatest_y(tiles) - y) * spec.tile_height + ly,
            c,
        ) == 0,
{
    lemma_last_tile_at(tiles, tiles.len() as int, x, y);
    let col = x - least_x(tiles);
    let row = greatest_y(tiles) - y;
    assert(placed_byte(out.bytes, spec, span_x(tiles), col, row, lx, ly, c) == cell_byte(
        tiles,
        tiles.len() as int,
        least_x(tiles) + col,
        greatest_y(tiles) - row,
        lx,
        ly,
        c,
    ));
}

/// The placements decide the tile map: two tile maps of the same
/// placements are the same image.
pub proof fn lemma_tile_map_is_unique(
    a: Raster,
    b: Raster,
    spec: TileSpec,
    tiles: Seq<TilePlacement>,
)
    requires
        is_tile_map(a, spec, tiles),
        is_tile_map(b, spec, tiles),
        tiles.len() > 0,
    ensures
        a == b,
{
    lemma_bounds_exist(tiles);
    let tw = spec.tile_width as int;
    let th = spec.tile_height as int;
    let cols = span_x(tiles);
    let rows = span_y(tiles);
    assert forall|x: int, y: int, c: int| a.contains(x, y) && 0 <= c < a.bpp() implies #[trigger] a.byte_at(
        x,
        y,
        c,
    ) == b.byte_at(x, y, c) by {
        lemma_pixel_in_cell(tw, cols, x);
        lemma_pixel_in_cell(th, rows, y);
        let col = x / tw;
        let row = y / th;
        let lx = x % tw;
        let ly = y % th;
        assert(placed_byte(a.bytes, spec, cols, col, row, lx, ly, c) == cell_byte(
            tiles,
            tiles.len() as int,
            least_x(tiles) + col,
            greatest_y(tiles) - row,
            lx,
            ly,
            c,
        ));
        assert(placed_byte(b.bytes, spec, cols, col, row, lx, ly, c) == cell_byte(
            tiles,
            tiles.len() as int,
            least_x(tiles) + col,
            greatest_y(tiles) - row,
            lx,
            ly,
            c,
        ));
    }
    lemma_raster_equal_by_bytes(a, b);
}

/// A pixel column of an image of `cells` cells of `tile` pixels lies in one
/// of the cells.
proof fn lemma_pixel_in_cell(tile: int, cells: int, x: int)
    requires
        0 <= x < cells * tile,
        0 <= tile,
        0 <= cells,
    ensures
        tile > 0,
        0 <= x / tile < cells,
        0 <= x % tile < tile,
        (x / tile) * tile + x % tile == x,
{
    assert(tile > 0) by (nonlinear_arith)
        requires
            0 <= x < cells * tile,
            0 <= tile,
    ;
    vstd::arithmetic::div_mod::lemma_fundamental_div_mod(x, tile);
    vstd::arithmetic::div_mod::lemma_mod_bound(x, tile);
    let q = x / tile;
    assert(tile * q == q * tile) by (nonlinear_arith);
    assert(0 <= q < cells) by (nonlinear_arith)
        requires
            q * tile + x % tile == x,
            0 <= x % tile < tile,
            0 <= x < cells * tile,
            0 < tile,
    ;
}

} // verus!
