use texture_kit::pixel_buffer::PixelBuffer;
use texture_kit::pixel_format::PixelFormat;
use texture_kit::test_utils::create_image;
use texture_kit::tile_map_texture::{GridPosition, TileMapError, TileMapTextureCreator};

const RED: [u8; 4] = [255, 0, 0, 255];
const GREEN: [u8; 4] = [0, 255, 0, 255];
const BLUE: [u8; 4] = [0, 0, 255, 255];
const NONE: [u8; 4] = [0, 0, 0, 0];
fn srgb() -> PixelFormat {
    PixelFormat::rgba8_unorm_srgb()
}

fn format(name: &str, bytes_per_pixel: usize) -> PixelFormat {
    PixelFormat::new(name, bytes_per_pixel).unwrap()
}

fn p(x: isize, y: isize) -> GridPosition {
    GridPosition::new(x, y)
}

fn plain(size: (usize, usize), color: [u8; 4]) -> PixelBuffer {
    create_image(size, srgb(), &vec![color; size.0 * size.1])
}

#[test]
fn lib_create_tile_map_texture_works() {
    // arrange
    let creator = TileMapTextureCreator::new(srgb(), 2, 2);
    let red = create_image((2, 2), srgb(), &[RED, RED, RED, RED]);
    let green = create_image((2, 2), srgb(), &[GREEN, GREEN, GREEN, GREEN]);

    // act
    let image_result = creator.create_tile_map_texture(&[
        (p(0, 0), Some(&red)),
        (p(1, 0), Some(&green)),
        (p(0, 1), Some(&green)),
        (p(1, 1), Some(&red)),
    ]);

    // assert
    assert!(image_result.is_ok());
    let new_image = image_result.unwrap();

    let expected_image = create_image(
        (4, 4),
        srgb(),
        &[
            GREEN, GREEN, RED, RED,
            GREEN, GREEN, RED, RED,
            RED, RED, GREEN, GREEN,
            RED, RED, GREEN, GREEN,
        ],
    );

    assert_eq!(new_image.data(), expected_image.data());
}

#[test]
fn tile_map_texture_create_tile_map_texture_works() {
    // arrange
    let creator = TileMapTextureCreator::new(srgb(), 2, 2);
    let red = create_image((2, 2), srgb(), &[RED, RED, RED, RED]);
    let green = create_image((2, 2), srgb(), &[GREEN, GREEN, GREEN, GREEN]);

    // act
    let image_result = creator.create_tile_map_texture(&[
        (p(0, 0), Some(&red)),
        (p(1, 0), Some(&green)),
        (p(0, 1), Some(&green)),
        (p(1, 1), Some(&red)),
    ]);

    // assert
    assert!(image_result.is_ok());
    let new_image = image_result.unwrap();

    let expected_image = create_image(
        (4, 4),
        srgb(),
        &[
            GREEN, GREEN, RED, RED,
            GREEN, GREEN, RED, RED,
            RED, RED, GREEN, GREEN,
            RED, RED, GREEN, GREEN,
        ],
    );

    assert_eq!(new_image.data(), expected_image.data());
    assert_eq!(new_image.width(), 4);
    assert_eq!(new_image.height(), 4);
    assert_eq!(new_image.format(), &srgb());
}

/// If the texture format does not match the configured format, an error should be returned
/// indicating that.
#[test]
fn create_tile_map_texture_with_different_formats_fails() {
    // arrange
    let creator = TileMapTextureCreator::new(srgb(), 2, 2);
    let red = create_image((2, 2), format("Rgba8Unorm", 4), &[RED, RED, RED, RED]);

    // act
    let image_result = creator.create_tile_map_texture(&[(p(0, 0), Some(&red))]);

    // assert
    assert!(image_result.is_err());
    let message = image_result.unwrap_err().message();

    assert_eq!(
        "Not all textures have the configured texture format 'Rgba8UnormSrgb'.",
        message
    )
}

/// Providing handles to textures that are not loaded yet results in an error.
#[test]
fn create_tile_map_texture_with_not_loaded_textures_fails() {
    // arrange
    let creator = TileMapTextureCreator::new(srgb(), 2, 2);

    // act
    let image_result = creator.create_tile_map_texture(&[(p(0, 0), None)]);

    // assert
    assert!(image_result.is_err());
    let message = image_result.unwrap_err().message();

    assert_eq!("Not all textures are loaded yet.", message)
}

#[test]
fn tile_map_of_no_tiles_is_an_error() {
    let creator = TileMapTextureCreator::new(srgb(), 2, 2);
    let result = creator.create_tile_map_texture(&[]);
    assert_eq!(result.unwrap_err(), TileMapError::EmptyInput);
    assert_eq!(TileMapError::EmptyInput.message(), "No tiles were provided!");
}

#[test]
fn tile_of_another_size_is_a_format_mismatch() {
    let creator = TileMapTextureCreator::new(srgb(), 2, 2);
    let wide = plain((3, 2), RED);
    let high = plain((2, 3), RED);
    let fine = plain((2, 2), RED);
    let expected = TileMapError::FormatMismatch { expected: srgb() };
    assert_eq!(
        creator
            .create_tile_map_texture(&[(p(0, 0), Some(&fine)), (p(1, 0), Some(&wide))])
            .unwrap_err(),
        expected
    );
    assert_eq!(
        creator.create_tile_map_texture(&[(p(0, 0), Some(&high))]).unwrap_err(),
        expected
    );
}

#[test]
fn an_unresolved_tile_is_reported_before_a_mismatch() {
    let creator = TileMapTextureCreator::new(srgb(), 2, 2);
    let other = create_image((2, 2), format("Bgra8Unorm", 4), &[RED, RED, RED, RED]);
    let result = creator.create_tile_map_texture(&[(p(0, 0), Some(&other)), (p(1, 0), None)]);
    assert_eq!(result.unwrap_err(), TileMapError::UnresolvedHandle);
}

#[test]
fn tile_map_spans_the_placed_cells() {
    let creator = TileMapTextureCreator::new(srgb(), 2, 3);
    let red = plain((2, 3), RED);
    let out = creator
        .create_tile_map_texture(&[(p(-1, 2), Some(&red)), (p(1, 3), Some(&red))])
        .unwrap();
    // columns -1..=1 and rows 2..=3
    assert_eq!(out.width(), 3 * 2);
    assert_eq!(out.height(), 2 * 3);
    assert_eq!(out.data().len(), 6 * 6 * 4);
}

#[test]
fn greatest_row_is_drawn_on_top() {
    let creator = TileMapTextureCreator::new(srgb(), 1, 2);
    let low = plain((1, 2), RED);
    let high = plain((1, 2), BLUE);
    let out = creator
        .create_tile_map_texture(&[(p(7, -3), Some(&low)), (p(7, -2), Some(&high))])
        .unwrap();
    assert_eq!(out.width(), 1);
    assert_eq!(out.height(), 4);
    assert_eq!(out.pixel(0, 0), BLUE);
    assert_eq!(out.pixel(0, 1), BLUE);
    assert_eq!(out.pixel(0, 2), RED);
    assert_eq!(out.pixel(0, 3), RED);
}

#[test]
fn cells_without_a_tile_stay_zero() {
    let creator = TileMapTextureCreator::new(srgb(), 1, 1);
    let red = plain((1, 1), RED);
    let green = plain((1, 1), GREEN);
    let out = creator
        .create_tile_map_texture(&[(p(0, 0), Some(&red)), (p(2, 1), Some(&green))])
        .unwrap();
    let expected = create_image(
        (3, 2),
        srgb(),
        &[
            NONE, NONE, GREEN,
            RED, NONE, NONE,
        ],
    );
    assert_eq!(out.data(), expected.data());
}

#[test]
fn the_last_tile_placed_on_a_cell_shows() {
    let creator = TileMapTextureCreator::new(srgb(), 1, 1);
    let red = plain((1, 1), RED);
    let green = plain((1, 1), GREEN);
    let blue = plain((1, 1), BLUE);
    let out = creator
        .create_tile_map_texture(&[
            (p(0, 0), Some(&red)),
            (p(1, 0), Some(&blue)),
            (p(0, 0), Some(&green)),
        ])
        .unwrap();
    assert_eq!(out.pixel(0, 0), GREEN);
    assert_eq!(out.pixel(1, 0), BLUE);
}

#[test]
fn tiles_that_are_not_square_keep_their_rows() {
    let creator = TileMapTextureCreator::new(srgb(), 3, 2);
    let left = create_image(
        (3, 2),
        srgb(),
        &[
            RED, GREEN, BLUE,
            BLUE, RED, GREEN,
        ],
    );
    let right = create_image(
        (3, 2),
        srgb(),
        &[
            GREEN, GREEN, RED,
            NONE, BLUE, BLUE,
        ],
    );
    let out = creator
        .create_tile_map_texture(&[(p(0, 0), Some(&left)), (p(1, 0), Some(&right))])
        .unwrap();
    let expected = create_image(
        (6, 2),
        srgb(),
        &[
            RED, GREEN, BLUE, GREEN, GREEN, RED,
            BLUE, RED, GREEN, NONE, BLUE, BLUE,
        ],
    );
    assert_eq!(out.data(), expected.data());
}

#[test]
fn tiles_of_one_byte_per_pixel_are_stitched() {
    let creator = TileMapTextureCreator::new(format("R8Unorm", 1), 2, 1);
    let a = PixelBuffer::new(2, 1, format("R8Unorm", 1), vec![1, 2]).unwrap();
    let b = PixelBuffer::new(2, 1, format("R8Unorm", 1), vec![3, 4]).unwrap();
    let out = creator
        .create_tile_map_texture(&[(p(0, 0), Some(&a)), (p(1, 1), Some(&b))])
        .unwrap();
    assert_eq!(out.format(), &format("R8Unorm", 1));
    assert_eq!(out.width(), 4);
    assert_eq!(out.height(), 2);
    assert_eq!(out.data(), &vec![0, 0, 3, 4, 1, 2, 0, 0]);
}

#[test]
fn bounds_of_the_placed_cells() {
    let red = plain((1, 1), RED);
    let tiles = [
        (p(3, -4), Some(&red)),
        (p(-2, 9), Some(&red)),
        (p(0, 0), None),
    ];
    assert_eq!(TileMapTextureCreator::get_max_x(&tiles), Ok(3));
    assert_eq!(TileMapTextureCreator::get_min_x(&tiles), Ok(-2));
    assert_eq!(TileMapTextureCreator::get_max_y(&tiles), Ok(9));
    assert_eq!(TileMapTextureCreator::get_min_y(&tiles), Ok(-4));
    assert_eq!(TileMapTextureCreator::get_max_x(&[]), Err(TileMapError::EmptyInput));
    assert_eq!(TileMapTextureCreator::get_min_x(&[]), Err(TileMapError::EmptyInput));
    assert_eq!(TileMapTextureCreator::get_max_y(&[]), Err(TileMapError::EmptyInput));
    assert_eq!(TileMapTextureCreator::get_min_y(&[]), Err(TileMapError::EmptyInput));
}

#[test]
fn a_tile_map_too_large_to_hold_does_not_fit() {
    let creator = TileMapTextureCreator::new(srgb(), 1, 1);
    let red = plain((1, 1), RED);
    let far = [(p(isize::MIN, 0), Some(&red)), (p(isize::MAX, 0), Some(&red))];
    assert!(!creator.fits(&far));
    let wide = [(p(0, 0), Some(&red)), (p(isize::MAX, isize::MAX), Some(&red))];
    assert!(!creator.fits(&wide));
    let near = [(p(0, 0), Some(&red)), (p(3, 3), Some(&red))];
    assert!(creator.fits(&near));
    // of placements that make no tile map nothing is asked
    assert!(creator.fits(&[]));
    assert!(creator.fits(&[(p(isize::MIN, 0), None), (p(isize::MAX, 0), Some(&red))]));
}

#[test]
fn tiles_are_checked_one_by_one() {
    let creator = TileMapTextureCreator::new(srgb(), 1, 1);
    let red = plain((1, 1), RED);
    let big = plain((2, 1), RED);
    assert!(TileMapTextureCreator::tiles_resolved(&[(p(0, 0), Some(&red))]));
    assert!(!TileMapTextureCreator::tiles_resolved(&[(p(0, 0), Some(&red)), (p(0, 1), None)]));
    assert!(creator.tiles_match(&[(p(0, 0), Some(&red))]));
    assert!(!creator.tiles_match(&[(p(0, 0), Some(&red)), (p(0, 1), Some(&big))]));
}

#[test]
fn format_mismatch_names_the_configured_format() {
    let error = TileMapError::FormatMismatch { expected: format("Bgra8Unorm", 4) };
    assert_eq!(
        error.message(),
        "Not all textures have the configured texture format 'Bgra8Unorm'."
    );
}
