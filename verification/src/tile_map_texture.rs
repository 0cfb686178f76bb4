//! Stitching equally sized tiles, placed on an integer grid, into one image.
//!
//! The grid's vertical axis points up: the row of cells with the greatest
//! `y` becomes the topmost rows of the image.

use vstd::prelude::*;
use vstd::string::*;
use crate::addressing::{byte_at, lemma_cell_unique, lemma_offset_in_bounds, placed_offset};
use crate::blit::{addressable, copy_pixels, covered};
use crate::pixel_buffer::{PixelBuffer, Raster};
use crate::pixel_format::{FormatView, PixelFormat};

verus! {

/// A cell of the tile grid: a column and a row, either of which may be
/// negative.
#[derive(Clone, Copy, Debug, PartialEq, Eq, Structural, Hash)]
pub struct GridPosition {
    pub x: isize,
    pub y: isize,
}

impl GridPosition {
    /// The cell in column `x` and row `y`.
    pub fn new(x: isize, y: isize) -> (position: GridPosition)
        ensures
            position.x == x,
            position.y == y,
    {
        GridPosition { x, y }
    }
}

/// A tile put on the grid: the cell, and the tile's image if the image
/// provider could resolve it.
pub type TilePlacement<'a> = (GridPosition, Option<&'a PixelBuffer>);

/// Why no tile map was made.
#[derive(Debug, PartialEq, Eq)]
pub enum TileMapError {
    /// No tile was given.
    EmptyInput,
    /// The image of a tile was not available.
    UnresolvedHandle,
    /// A tile's format or size is not the configured one.
    FormatMismatch { expected: PixelFormat },
}

impl TileMapError {
    /// The error in words.
    pub open spec fn spec_message(self) -> Seq<char> {
        match self {
            TileMapError::EmptyInput => "No tiles were provided!"@,
            TileMapError::UnresolvedHandle => "Not all textures are loaded yet."@,
            TileMapError::FormatMismatch { expected } => {
                "Not all textures have the configured texture format '"@ + expected@.name + "'."@
            },
        }
    }

    /// The error in words.
    pub fn message(&self) -> (text: String)
        ensures
            text@ == self.spec_message(),
    {
        match self {
            TileMapError::EmptyInput => String::from_str("No tiles were provided!"),
            TileMapError::UnresolvedHandle => String::from_str("Not all textures are loaded yet."),
            TileMapError::FormatMismatch { expected } => {
                let mut text = String::from_str(
                    "Not all textures have the configured texture format '",
                );
                text.append(expected.name());
                text.append("'.");
                text
            },
        }
    }
}

/// The configuration of a tile map: the format and the size of every tile.
pub struct TileSpec {
    pub format: FormatView,
    pub tile_width: nat,
    pub tile_height: nat,
}

impl TileSpec {
    /// The number of bytes one pixel of a tile takes.
    pub open spec fn bpp(self) -> nat {
        self.format.bytes_per_pixel
    }
}

/// Every tile's image is available.
pub open spec fn all_resolved(tiles: Seq<TilePlacement>) -> bool {
    forall|i: int| 0 <= i < tiles.len() ==> (#[trigger] tiles[i]).1 is Some
}

/// The image is a tile as `spec` wants it.
pub open spec fn tile_matches(spec: TileSpec, tile: Raster) -> bool {
    tile.format == spec.format && tile.width == spec.tile_width && tile.height == spec.tile_height
}

/// Every tile has the configured format and size.
pub open spec fn all_match(spec: TileSpec, tiles: Seq<TilePlacement>) -> bool {
    forall|i: int|
        0 <= i < tiles.len() ==> tile_matches(spec, (#[trigger] tiles[i]).1.unwrap()@)
}

/// `m` is the greatest column that holds a tile.
pub open spec fn is_greatest_x(tiles: Seq<TilePlacement>, m: int) -> bool {
    &&& exists|i: int| 0 <= i < tiles.len() && (#[trigger] tiles[i]).0.x == m
    &&& forall|i: int| 0 <= i < tiles.len() ==> (#[trigger] tiles[i]).0.x <= m
}

/// `m` is the least column that holds a tile.
pub open spec fn is_least_x(tiles: Seq<TilePlacement>, m: int) -> bool {
    &&& exists|i: int| 0 <= i < tiles.len() && (#[trigger] tiles[i]).0.x == m
    &&& forall|i: int| 0 <= i < tiles.len() ==> (#[trigger] tiles[i]).0.x >= m
}

/// `m` is the greatest row that holds a tile.
pub open spec fn is_greatest_y(tiles: Seq<TilePlacement>, m: int) -> bool {
    &&& exists|i: int| 0 <= i < tiles.len() && (#[trigger] tiles[i]).0.y == m
    &&& forall|i: int| 0 <= i < tiles.len() ==> (#[trigger] tiles[i]).0.y <= m
}

/// `m` is the least row that holds a tile.
pub open spec fn is_least_y(tiles: Seq<TilePlacement>, m: int) -> bool {
    &&& exists|i: int| 0 <= i < tiles.len() && (#[trigger] tiles[i]).0.y == m
    &&& forall|i: int| 0 <= i < tiles.len() ==> (#[trigger] tiles[i]).0.y >= m
}

/// The greatest column that holds a tile.
pub open spec fn greatest_x(tiles: Seq<TilePlacement>) -> int {
    choose|m: int| is_greatest_x(tiles, m)
}

/// The least column that holds a tile.
pub open spec fn least_x(tiles: Seq<TilePlacement>) -> int {
    choose|m: int| is_least_x(tiles, m)
}

/// The greatest row that holds a tile.
pub open spec fn greatest_y(tiles: Seq<TilePlacement>) -> int {
    choose|m: int| is_greatest_y(tiles, m)
}

/// The least row that holds a tile.
pub open spec fn least_y(tiles: Seq<TilePlacement>) -> int {
    choose|m: int| is_least_y(tiles, m)
}

/// The number of columns from the least to the greatest.
pub open spec fn span_x(tiles: Seq<TilePlacement>) -> int {
    greatest_x(tiles) - least_x(tiles) + 1
}

/// The number of rows from the least to the greatest.
pub open spec fn span_y(tiles: Seq<TilePlacement>) -> int {
    greatest_y(tiles) - least_y(tiles) + 1
}

/// Only one column is the greatest.
pub proof fn lemma_greatest_x_unique(tiles: Seq<TilePlacement>, m: int)
    requires
        is_greatest_x(tiles, m),
    ensures
        greatest_x(tiles) == m,
        is_greatest_x(tiles, greatest_x(tiles)),
{
}

/// Only one column is the least.
pub proof fn lemma_least_x_unique(tiles: Seq<TilePlacement>, m: int)
    requires
        is_least_x(tiles, m),
    ensures
        least_x(tiles) == m,
        is_least_x(tiles, least_x(tiles)),
{
}

/// Only one row is the greatest.
pub proof fn lemma_greatest_y_unique(tiles: Seq<TilePlacement>, m: int)
    requires
        is_greatest_y(tiles, m),
    ensures
        greatest_y(tiles) == m,
        is_greatest_y(tiles, greatest_y(tiles)),
{
}

/// Only one row is the least.
pub proof fn lemma_least_y_unique(tiles: Seq<TilePlacement>, m: int)
    requires
        is_least_y(tiles, m),
    ensures
        least_y(tiles) == m,
        is_least_y(tiles, least_y(tiles)),
{
}

/// The last of the first `n` placements that puts a tile on the cell
/// `(x, y)`, if there is one. Where several placements name one cell, the
/// last is the one that shows.
pub open spec fn last_tile_at(tiles: Seq<TilePlacement>, n: int, x: int, y: int) -> Option<int>
    decreases n,
{
    if n <= 0 {
        None
    } else if tiles[n - 1].0.x == x && tiles[n - 1].0.y == y {
        Some(n - 1)
    } else {
        last_tile_at(tiles, n - 1, x, y)
    }
}

/// Byte `c` of the pixel `(lx, ly)` of the cell `(x, y)` after the first `n`
/// placements: that of the tile that shows there, or zero on an empty cell.
pub open spec fn cell_byte(
    tiles: Seq<TilePlacement>,
    n: int,
    x: int,
    y: int,
    lx: int,
    ly: int,
    c: int,
) -> u8 {
    match last_tile_at(tiles, n, x, y) {
        Some(i) => tiles[i].1.unwrap()@.byte_at(lx, ly, c),
        None => 0u8,
    }
}

/// Byte `c` of the pixel `(lx, ly)` of the cell in column `col` and row `row`
/// of an image of `cols` columns of cells, rows counted from the top.
pub open spec fn placed_byte(
    bytes: Seq<u8>,
    spec: TileSpec,
    cols: int,
    col: int,
    row: int,
    lx: int,
    ly: int,
    c: int,
) -> u8 {
    bytes[placed_offset(
        col,
        row,
        lx,
        ly,
        spec.tile_width as int,
        spec.tile_height as int,
        spec.bpp() as int,
        cols * spec.tile_width,
    ) + c]
}

/// The bytes are those of a tile map of `cols` × `rows` cells that shows the
/// first `n` placements: the cell in column `col` and row `row` from the top
/// is the grid cell `(left + col, top - row)`.
pub open spec fn shows_tiles(
    bytes: Seq<u8>,
    spec: TileSpec,
    tiles: Seq<TilePlacement>,
    n: int,
    left: int,
    top: int,
    cols: int,
    rows: int,
) -> bool {
    forall|col: int, row: int, lx: int, ly: int, c: int|
        0 <= col < cols && 0 <= row < rows && 0 <= lx < spec.tile_width && 0 <= ly
            < spec.tile_height && 0 <= c < spec.bpp() ==> #[trigger] placed_byte(
            bytes,
            spec,
            cols,
            col,
            row,
            lx,
            ly,
            c,
        ) == cell_byte(tiles, n, left + col, top - row, lx, ly, c)
}

/// `out` is the tile map of `tiles`: as many cells wide and high as the
/// placements span, of the configured format, and showing in every cell the
/// tile placed there, the greatest row on top.
pub open spec fn is_tile_map(out: Raster, spec: TileSpec, tiles: Seq<TilePlacement>) -> bool {
    &&& out.wf()
    &&& out.format == spec.format
    &&& out.width == span_x(tiles) * spec.tile_width
    &&& out.height == span_y(tiles) * spec.tile_height
    &&& shows_tiles(
        out.bytes,
        spec,
        tiles,
        tiles.len() as int,
        least_x(tiles),
        greatest_y(tiles),
        span_x(tiles),
        span_y(tiles),
    )
}

/// The tile map of `tiles` can be held: its numbers of columns and rows, its
/// width and height in pixels and its number of bytes each fit a `usize`.
/// Of placements that make no tile map nothing is asked.
pub open spec fn tile_map_fits(spec: TileSpec, tiles: Seq<TilePlacement>) -> bool {
    all_resolved(tiles) && all_match(spec, tiles) && tiles.len() > 0 ==> {
        &&& span_x(tiles) <= usize::MAX
        &&& span_y(tiles) <= usize::MAX
        &&& span_x(tiles) * spec.tile_width <= usize::MAX
        &&& span_y(tiles) * spec.tile_height <= usize::MAX
        &&& (span_x(tiles) * spec.tile_width) * (span_y(tiles) * spec.tile_height) * spec.bpp()
            <= usize::MAX
    }
}

/// The pixels of the cell `cell` lie inside the `cells` cells of a row (or
/// column) of cells of `tile` pixels each.
proof fn lemma_cell_inside(tile: int, cells: int, cell: int)
    requires
        0 <= cell < cells,
        0 <= tile,
    ensures
        0 <= cell * tile,
        cell * tile + tile <= cells * tile,
{
    assert(cell * tile + tile <= cells * tile) by (nonlinear_arith)
        requires
            cell + 1 <= cells,
            0 <= tile,
    ;
}

/// Creates tile map textures.
pub struct TileMapTextureCreator {
    /// The expected format of every tile.
    texture_format: PixelFormat,
    /// The number of bytes each pixel of a tile takes.
    bytes_per_pixel: usize,
    /// The expected width of each tile.
    tile_width: usize,
    /// The expected height of each tile.
    tile_height: usize,
}

impl View for TileMapTextureCreator {
    type V = TileSpec;

    closed spec fn view(&self) -> TileSpec {
        TileSpec {
            format: self.texture_format@,
            tile_width: self.tile_width as nat,
            tile_height: self.tile_height as nat,
        }
    }
}

impl TileMapTextureCreator {
    /// The pixel size held is that of the format.
    #[verifier::type_invariant]
    closed spec fn well_formed(&self) -> bool {
        self.bytes_per_pixel == self.texture_format@.bytes_per_pixel && self.bytes_per_pixel >= 1
    }

    /// A creator of tile maps whose tiles are `tile_width` × `tile_height`
    /// pixels of the format `texture_format`.
    pub fn new(texture_format: PixelFormat, tile_width: usize, tile_height: usize) -> (creator: Self)
        ensures
            creator@ == (TileSpec {
                format: texture_format@,
                tile_width: tile_width as nat,
                tile_height: tile_height as nat,
            }),
    {
        let bytes_per_pixel = texture_format.bytes_per_pixel();
        Self { texture_format, bytes_per_pixel, tile_width, tile_height }
    }

    /// The greatest column that holds a tile.
    pub fn get_max_x(tiles: &[TilePlacement]) -> (found: Result<isize, TileMapError>)
        ensures
            found is Ok <==> tiles@.len() > 0,
            found matches Ok(m) ==> is_greatest_x(tiles@, m as int),
            found matches Err(e) ==> e is EmptyInput,
    {
        if tiles.len() == 0 {
            return Err(TileMapError::EmptyInput);
        }
        let mut max = tiles[0].0.x;
        let mut i: usize = 1;
        while i < tiles.len()
            invariant
                1 <= i <= tiles@.len(),
                exists|j: int| 0 <= j < i && (#[trigger] tiles@[j]).0.x == max,
                forall|j: int| 0 <= j < i ==> (#[trigger] tiles@[j]).0.x <= max,
            decreases tiles@.len() - i,
        {
            if tiles[i].0.x > max {
                max = tiles[i].0.x;
            }
            i += 1;
        }
        Ok(max)
    }

    /// The least column that holds a tile.
    pub fn get_min_x(tiles: &[TilePlacement]) -> (found: Result<isize, TileMapError>)
        ensures
            found is Ok <==> tiles@.len() > 0,
            found matches Ok(m) ==> is_least_x(tiles@, m as int),
            found matches Err(e) ==> e is EmptyInput,
    {
        if tiles.len() == 0 {
            return Err(TileMapError::EmptyInput);
        }
        let mut min = tiles[0].0.x;
        let mut i: usize = 1;
        while i < tiles.len()
            invariant
                1 <= i <= tiles@.len(),
                exists|j: int| 0 <= j < i && (#[trigger] tiles@[j]).0.x == min,
                forall|j: int| 0 <= j < i ==> (#[trigger] tiles@[j]).0.x >= min,
            decreases tiles@.len() - i,
        {
            if tiles[i].0.x < min {
                min = tiles[i].0.x;
            }
            i += 1;
        }
        Ok(min)
    }

    /// The greatest row that holds a tile.
    pub fn get_max_y(tiles: &[TilePlacement]) -> (found: Result<isize, TileMapError>)
        ensures
            found is Ok <==> tiles@.len() > 0,
            found matches Ok(m) ==> is_greatest_y(tiles@, m as int),
            found matches Err(e) ==> e is EmptyInput,
    {
        if tiles.len() == 0 {
            return Err(TileMapError::EmptyInput);
        }
        let mut max = tiles[0].0.y;
        let mut i: usize = 1;
        while i < tiles.len()
            invariant
                1 <= i <= tiles@.len(),
                exists|j: int| 0 <= j < i && (#[trigger] tiles@[j]).0.y == max,
                forall|j: int| 0 <= j < i ==> (#[trigger] tiles@[j]).0.y <= max,
            decreases tiles@.len() - i,
        {
            if tiles[i].0.y > max {
                max = tiles[i].0.y;
            }
            i += 1;
        }
        Ok(max)
    }

    /// The least row that holds a tile.
    pub fn get_min_y(tiles: &[TilePlacement]) -> (found: Result<isize, TileMapError>)
        ensures
            found is Ok <==> tiles@.len() > 0,
            found matches Ok(m) ==> is_least_y(tiles@, m as int),
            found matches Err(e) ==> e is EmptyInput,
    {
        if tiles.len() == 0 {
            return Err(TileMapError::EmptyInput);
        }
        let mut min = tiles[0].0.y;
        let mut i: usize = 1;
        while i < tiles.len()
            invariant
                1 <= i <= tiles@.len(),
                exists|j: int| 0 <= j < i && (#[trigger] tiles@[j]).0.y == min,
                forall|j: int| 0 <= j < i ==> (#[trigger] tiles@[j]).0.y >= min,
            decreases tiles@.len() - i,
        {
            if tiles[i].0.y < min {
                min = tiles[i].0.y;
            }
            i += 1;
        }
        Ok(min)
    }

    /// Combines the given tiles to a single image, a tile map.
    ///
    /// Every tile must be available and have the configured format and size,
    /// and there must be a tile. The map then spans the placed cells; a cell
    /// on which no tile was placed stays zero, and of several tiles placed
    /// on one cell the last shows.
    pub fn create_tile_map_texture(&self, tiles: &[TilePlacement]) -> (made: Result<
        PixelBuffer,
        TileMapError,
    >)
        requires
            tile_map_fits(self@, tiles@),
        ensures
            !all_resolved(tiles@) ==> made matches Err(TileMapError::UnresolvedHandle),
            all_resolved(tiles@) && !all_match(self@, tiles@) ==> (made matches Err(
                TileMapError::FormatMismatch { expected },
            ) && expected@ == self@.format),
            all_resolved(tiles@) && all_match(self@, tiles@) && tiles@.len() == 0 ==> made matches Err(
                TileMapError::EmptyInput,
            ),
            all_resolved(tiles@) && all_match(self@, tiles@) && tiles@.len() > 0 ==> made is Ok,
            made matches Ok(out) ==> is_tile_map(out@, self@, tiles@),
            made matches Ok(out) ==> out@.width == (greatest_x(tiles@) - least_x(tiles@) + 1)
                * self@.tile_width && out@.height == (greatest_y(tiles@) - least_y(tiles@) + 1)
                * self@.tile_height,
    {
        proof {
            use_type_invariant(self);
        }
        if !Self::tiles_resolved(tiles) {
            return Err(TileMapError::UnresolvedHandle);
        }
        if !self.tiles_match(tiles) {
            return Err(TileMapError::FormatMismatch { expected: self.texture_format.clone() });
        }
        let n = tiles.len();
        let max_x = Self::get_max_x(tiles)?;
        let min_x = Self::get_min_x(tiles)?;
        let max_y = Self::get_max_y(tiles)?;
        let min_y = Self::get_min_y(tiles)?;
        proof {
            lemma_greatest_x_unique(tiles@, max_x as int);
            lemma_least_x_unique(tiles@, min_x as int);
            lemma_greatest_y_unique(tiles@, max_y as int);
            lemma_least_y_unique(tiles@, min_y as int);
        }
        let width = Self::cells_between(min_x, max_x).unwrap();
        let height = Self::cells_between(min_y, max_y).unwrap();
        let ghost spec = self@;
        let ghost tw = self.tile_width as int;
        let ghost th = self.tile_height as int;
        let ghost bpp = self.bytes_per_pixel as int;
        let out_width: usize = width * self.tile_width;
        let out_height: usize = height * self.tile_height;
        proof {
            assert(out_width * out_height <= out_width * out_height * bpp) by (nonlinear_arith)
                requires
                    0 <= out_width * out_height,
                    1 <= bpp,
            ;
        }
        let len: usize = out_width * out_height * self.bytes_per_pixel;
        let mut data = vec![0u8; len];
        assert forall|col: int, row: int, lx: int, ly: int, c: int|
            0 <= col < width && 0 <= row < height && 0 <= lx < tw && 0 <= ly < th && 0 <= c
                < bpp implies #[trigger] placed_byte(data@, spec, width as int, col, row, lx, ly, c)
            == cell_byte(tiles@, 0, min_x + col, max_y - row, lx, ly, c) by {
            lemma_cell_inside(tw, width as int, col);
            lemma_cell_inside(th, height as int, row);
            lemma_offset_in_bounds(
                col * tw + lx,
                row * th + ly,
                c,
                bpp,
                out_width as int,
                out_height as int,
            );
        }
        let mut i: usize = 0;
        while i < n
            invariant
                i <= n,
                n == tiles@.len(),
                all_resolved(tiles@),
                all_match(self@, tiles@),
                spec == self@,
                tw == self.tile_width,
                th == self.tile_height,
                bpp == self.bytes_per_pixel,
                bpp == spec.bpp(),
                tw == spec.tile_width,
                th == spec.tile_height,
                is_greatest_x(tiles@, max_x as int),
                is_least_x(tiles@, min_x as int),
                is_greatest_y(tiles@, max_y as int),
                is_least_y(tiles@, min_y as int),
                width == max_x - min_x + 1,
                height == max_y - min_y + 1,
                out_width == width * tw,
                out_height == height * th,
                data@.len() == out_width * out_height * bpp,
                shows_tiles(
                    data@,
                    spec,
                    tiles@,
                    i as int,
                    min_x as int,
                    max_y as int,
                    width as int,
                    height as int,
                ),
            decreases n - i,
        {
            let position = tiles[i].0;
            let tile = tiles[i].1.unwrap();
            let col = Self::cells_between(min_x, position.x).unwrap() - 1;
            let row = Self::cells_between(position.y, max_y).unwrap() - 1;
            let ghost held = data@;
            proof {
                use_type_invariant(tile);
                lemma_cell_inside(th, height as int, row as int);
                assert((row + 1) * th * (width * tw) * bpp <= data@.len()) by (nonlinear_arith)
                    requires
                        row * th + th <= height * th,
                        data@.len() == out_width * out_height * bpp,
                        out_width == width * tw,
                        out_height == height * th,
                        0 <= out_width,
                        0 <= bpp,
                ;
            }
            self.add_data_from_tile_image_at_position(width, &mut data, (col, row), tile.data());
            proof {
                assert forall|cc: int, rr: int, lx: int, ly: int, c: int|
                    0 <= cc < width && 0 <= rr < height && 0 <= lx < tw && 0 <= ly < th && 0 <= c
                        < bpp implies #[trigger] placed_byte(
                    data@,
                    spec,
                    width as int,
                    cc,
                    rr,
                    lx,
                    ly,
                    c,
                ) == cell_byte(tiles@, i + 1, min_x + cc, max_y - rr, lx, ly, c) by {
                    let x = cc * tw + lx;
                    let y = rr * th + ly;
                    lemma_cell_inside(tw, width as int, cc);
                    lemma_cell_inside(th, height as int, rr);
                    lemma_offset_in_bounds(x, y, c, bpp, out_width as int, out_height as int);
                    assert(placed_byte(held, spec, width as int, cc, rr, lx, ly, c) == cell_byte(
                        tiles@,
                        i as int,
                        min_x + cc,
                        max_y - rr,
                        lx,
                        ly,
                        c,
                    ));
                    if covered(x, y, col * tw, row * th, tw, th) {
                        lemma_cell_unique(tw, cc, lx, col as int);
                        lemma_cell_unique(th, rr, ly, row as int);
                    }
                    assert(byte_at(data@, out_width as int, bpp, x, y, c) == placed_byte(
                        data@,
                        spec,
                        width as int,
                        cc,
                        rr,
                        lx,
                        ly,
                        c,
                    ));
                }
            }
            i += 1;
        }
        Ok(self.create_image_from_data(width, height, data))
    }

    /// The number of cells from `low` to `high`, both counted, if a `usize`
    /// can hold it.
    fn cells_between(low: isize, high: isize) -> (cells: Option<usize>)
        requires
            low <= high,
        ensures
            cells is Some <==> high - low + 1 <= usize::MAX,
            cells matches Some(n) ==> n == high - low + 1,
    {
        let cells: i128 = high as i128 - low as i128 + 1;
        if cells <= usize::MAX as i128 {
            Some(cells as usize)
        } else {
            None
        }
    }

    /// Whether every tile's image is available.
    pub fn tiles_resolved(tiles: &[TilePlacement]) -> (yes: bool)
        ensures
            yes == all_resolved(tiles@),
    {
        let mut i: usize = 0;
        while i < tiles.len()
            invariant
                i <= tiles@.len(),
                forall|j: int| 0 <= j < i ==> (#[trigger] tiles@[j]).1 is Some,
            decreases tiles@.len() - i,
        {
            if tiles[i].1.is_none() {
                return false;
            }
            i += 1;
        }
        true
    }

    /// Whether every tile has the configured format and size.
    pub fn tiles_match(&self, tiles: &[TilePlacement]) -> (yes: bool)
        requires
            all_resolved(tiles@),
        ensures
            yes == all_match(self@, tiles@),
    {
        let mut i: usize = 0;
        while i < tiles.len()
            invariant
                i <= tiles@.len(),
                all_resolved(tiles@),
                forall|j: int|
                    0 <= j < i ==> tile_matches(self@, (#[trigger] tiles@[j]).1.unwrap()@),
            decreases tiles@.len() - i,
        {
            let tile = tiles[i].1.unwrap();
            if !tile.format().same_as(&self.texture_format) || tile.width() != self.tile_width
                || tile.height() != self.tile_height {
                return false;
            }
            i += 1;
        }
        true
    }

    /// Whether the tile map of `tiles` can be held, which
    /// `create_tile_map_texture` asks of its callers.
    pub fn fits(&self, tiles: &[TilePlacement]) -> (yes: bool)
        ensures
            yes == tile_map_fits(self@, tiles@),
    {
        proof {
            use_type_invariant(self);
        }
        if !Self::tiles_resolved(tiles) || !self.tiles_match(tiles) || tiles.len() == 0 {
            return true;
        }
        let (max_x, min_x, max_y, min_y) = match (
            Self::get_max_x(tiles),
            Self::get_min_x(tiles),
            Self::get_max_y(tiles),
            Self::get_min_y(tiles),
        ) {
            (Ok(max_x), Ok(min_x), Ok(max_y), Ok(min_y)) => (max_x, min_x, max_y, min_y),
            _ => {
                return true;
            },
        };
        proof {
            lemma_greatest_x_unique(tiles@, max_x as int);
            lemma_least_x_unique(tiles@, min_x as int);
            lemma_greatest_y_unique(tiles@, max_y as int);
            lemma_least_y_unique(tiles@, min_y as int);
        }
        let (cols, rows) = match (
            Self::cells_between(min_x, max_x),
            Self::cells_between(min_y, max_y),
        ) {
            (Some(cols), Some(rows)) => (cols, rows),
            _ => {
                return false;
            },
        };
        let (width, height) = match (
            cols.checked_mul(self.tile_width),
            rows.checked_mul(self.tile_height),
        ) {
            (Some(width), Some(height)) => (width, height),
            _ => {
                return false;
            },
        };
        match width.checked_mul(height) {
            Some(pixels) => pixels.checked_mul(self.bytes_per_pixel).is_some(),
            None => {
                assert(width * height * self.bytes_per_pixel > usize::MAX) by (nonlinear_arith)
                    requires
                        width * height > usize::MAX,
                        self.bytes_per_pixel >= 1,
                ;
                false
            },
        }
    }

    /// Writes a tile into the cell `pos`, a column and a row counted from the
    /// top left, of a tile map that is `width` cells wide.
    fn add_data_from_tile_image_at_position(
        &self,
        width: usize,
        data: &mut Vec<u8>,
        pos: (usize, usize),
        image_data: &Vec<u8>,
    )
        requires
            image_data@.len() == self@.tile_width * self@.tile_height * self@.bpp(),
            pos.0 < width,
            width * self@.tile_width <= usize::MAX,
            (pos.1 + 1) * self@.tile_height * (width * self@.tile_width) * self@.bpp() <= old(
                data,
            )@.len(),
        ensures
            final(data)@.len() == old(data)@.len(),
            forall|x: int, y: int, c: int|
                addressable(
                    x,
                    y,
                    c,
                    self@.bpp() as int,
                    width * self@.tile_width,
                    old(data)@.len() as int,
                ) ==> #[trigger] byte_at(
                    final(data)@,
                    width * self@.tile_width,
                    self@.bpp() as int,
                    x,
                    y,
                    c,
                ) == (if covered(
                    x,
                    y,
                    pos.0 * self@.tile_width,
                    pos.1 * self@.tile_height,
                    self@.tile_width as int,
                    self@.tile_height as int,
                ) {
                    byte_at(
                        image_data@,
                        self@.tile_width as int,
                        self@.bpp() as int,
                        x - pos.0 * self@.tile_width,
                        y - pos.1 * self@.tile_height,
                        c,
                    )
                } else {
                    byte_at(old(data)@, width * self@.tile_width, self@.bpp() as int, x, y, c)
                }),
    {
        proof {
            use_type_invariant(self);
        }
        if self.tile_width == 0 || self.tile_height == 0 {
            return ;
        }
        let ghost tw = self.tile_width as int;
        let ghost th = self.tile_height as int;
        let ghost bpp = self.bytes_per_pixel as int;
        proof {
            lemma_cell_inside(tw, width as int, pos.0 as int);
            assert(data@.len() == data.len());
            let rows = (pos.1 + 1) * th;
            assert(rows <= rows * (width * tw) * bpp) by (nonlinear_arith)
                requires
                    0 <= rows,
                    1 <= width * tw,
                    1 <= bpp,
            ;
            assert(pos.1 * th + th == rows) by (nonlinear_arith)
                requires
                    rows == (pos.1 + 1) * th,
            ;
        }
        let out_width: usize = width * self.tile_width;
        let left: usize = pos.0 * self.tile_width;
        let top: usize = pos.1 * self.tile_height;
        copy_pixels(
            data,
            out_width,
            image_data,
            self.tile_width,
            self.tile_height,
            self.bytes_per_pixel,
            left,
            top,
        );
    }

    /// Makes the image of a tile map of `max_x` × `max_y` cells from its
    /// bytes.
    fn create_image_from_data(&self, max_x: usize, max_y: usize, data: Vec<u8>) -> (image:
        PixelBuffer)
        requires
            max_x * self@.tile_width <= usize::MAX,
            max_y * self@.tile_height <= usize::MAX,
            data@.len() == (max_x * self@.tile_width) * (max_y * self@.tile_height) * self@.bpp(),
        ensures
            image@ == (Raster {
                width: (max_x * self@.tile_width) as nat,
                height: (max_y * self@.tile_height) as nat,
                format: self@.format,
                bytes: data@,
            }),
    {
        let made = PixelBuffer::new(
            max_x * self.tile_width,
            max_y * self.tile_height,
            self.texture_format.clone(),
            data,
        );
        made.unwrap()
    }
}

} // verus!
