use texture_kit::addressing::{local_pixel_offset, placed_pixel_offset};
use texture_kit::blit::copy_pixels;
use texture_kit::pixel_buffer::PixelBuffer;
use texture_kit::pixel_format::PixelFormat;
use texture_kit::test_utils::create_image;
fn srgb() -> PixelFormat {
    PixelFormat::rgba8_unorm_srgb()
}

fn format(name: &str, bytes_per_pixel: usize) -> PixelFormat {
    PixelFormat::new(name, bytes_per_pixel).unwrap()
}

#[test]
fn pixel_offsets_are_row_major() {
    assert_eq!(local_pixel_offset(0, 0, 4, 5), 0);
    assert_eq!(local_pixel_offset(1, 2, 4, 5), 44);
    assert_eq!(local_pixel_offset(4, 0, 1, 5), 4);
    assert_eq!(local_pixel_offset(0, 1, 2, 5), 10);
    assert_eq!(local_pixel_offset(3, 7, 0, 5), 0);
}

#[test]
fn placed_offsets_add_the_cell_to_the_pixel() {
    // cell (1, 1) of 2 x 2 tiles in an image 4 pixels wide, pixel (0, 1): column 2, row 3
    assert_eq!(placed_pixel_offset(1, 1, 0, 1, 2, 2, 4, 4), 56);
    assert_eq!(placed_pixel_offset(0, 0, 0, 0, 2, 2, 4, 4), 0);
    // cell (2, 0) of 3 x 2 tiles in an image 9 pixels wide, pixel (1, 1): column 7, row 1
    assert_eq!(placed_pixel_offset(2, 0, 1, 1, 3, 2, 1, 9), 16);
    assert_eq!(
        placed_pixel_offset(2, 0, 1, 1, 3, 2, 1, 9),
        local_pixel_offset(7, 1, 1, 9)
    );
}

#[test]
fn a_format_is_its_name_and_its_pixel_size() {
    let gray = format("R8Unorm", 1);
    assert_eq!(gray.name(), "R8Unorm");
    assert_eq!(gray.bytes_per_pixel(), 1);
    assert!(!gray.is_four_byte());
    let wide = format("Rgba16Unorm", 8);
    assert_eq!(wide.name(), "Rgba16Unorm");
    assert_eq!(wide.bytes_per_pixel(), 8);
    assert!(!wide.is_four_byte());
    let core = PixelFormat::rgba8_unorm_srgb();
    assert_eq!(core.name(), "Rgba8UnormSrgb");
    assert_eq!(core.bytes_per_pixel(), 4);
    assert!(core.is_four_byte());
    assert_eq!(core, format("Rgba8UnormSrgb", 4));
    let copy = wide.clone();
    assert_eq!(copy.name(), "Rgba16Unorm");
    assert_eq!(copy.bytes_per_pixel(), 8);
}

#[test]
fn no_format_has_pixels_of_no_byte() {
    assert!(PixelFormat::new("Nothing", 0).is_none());
    assert!(PixelFormat::new("Nothing", 1).is_some());
    assert!(PixelFormat::new("", usize::MAX).is_some());
}

#[test]
fn formats_are_the_same_by_name_and_pixel_size() {
    let linear = format("Rgba8Unorm", 4);
    assert!(linear.same_as(&format("Rgba8Unorm", 4)));
    assert!(linear.same_as(&linear.clone()));
    assert!(!linear.same_as(&format("Rgba8UnormSrgb", 4)));
    assert!(!linear.same_as(&format("Rgba8Unorm", 8)));
    assert!(!linear.same_as(&format("Bgra8Unorm", 4)));
    assert!(PixelFormat::rgba8_unorm_srgb().same_as(&format("Rgba8UnormSrgb", 4)));
}

#[test]
fn a_buffer_needs_the_bytes_of_its_pixels() {
    assert!(PixelBuffer::new(2, 3, format("Rgba8Unorm", 4), vec![0; 24]).is_some());
    assert!(PixelBuffer::new(2, 3, format("Rgba8Unorm", 4), vec![0; 23]).is_none());
    assert!(PixelBuffer::new(2, 3, format("Rgba8Unorm", 4), vec![0; 25]).is_none());
    assert!(PixelBuffer::new(2, 3, format("Rgba16Unorm", 8), vec![0; 48]).is_some());
    assert!(PixelBuffer::new(0, 3, format("R8Unorm", 1), vec![]).is_some());
    assert!(PixelBuffer::new(usize::MAX, usize::MAX, format("R8Unorm", 1), vec![]).is_none());
    assert!(PixelBuffer::new(usize::MAX, 1, format("Rg8Unorm", 2), vec![0; 2]).is_none());
}

#[test]
fn a_buffer_gives_back_what_it_was_made_of() {
    let bytes: Vec<u8> = (0..24).collect();
    let buffer = PixelBuffer::new(3, 2, format("Rgba8Unorm", 4), bytes.clone()).unwrap();
    assert_eq!(buffer.width(), 3);
    assert_eq!(buffer.height(), 2);
    assert_eq!(buffer.format(), &format("Rgba8Unorm", 4));
    assert_eq!(buffer.data(), &bytes);
    assert_eq!(buffer.pixel(0, 0), [0, 1, 2, 3]);
    assert_eq!(buffer.pixel(2, 0), [8, 9, 10, 11]);
    assert_eq!(buffer.pixel(1, 1), [16, 17, 18, 19]);
    let copy = buffer.clone();
    assert_eq!(copy.data(), &bytes);
    assert_eq!(copy.width(), 3);
    assert_eq!(copy.height(), 2);
    assert_eq!(buffer.into_data(), bytes);
}

#[test]
fn setting_a_pixel_changes_that_pixel_only() {
    let mut buffer = PixelBuffer::new(2, 2, format("Rgba8Unorm", 4), vec![0; 16]).unwrap();
    buffer.set_pixel(1, 0, [1, 2, 3, 4]);
    buffer.set_pixel(0, 1, [5, 6, 7, 8]);
    assert_eq!(buffer.data(), &vec![0, 0, 0, 0, 1, 2, 3, 4, 5, 6, 7, 8, 0, 0, 0, 0]);
}

#[test]
fn created_images_hold_their_colors_in_order() {
    let image = create_image(
        (2, 2),
        srgb(),
        &[[1, 2, 3, 4], [5, 6, 7, 8], [9, 10, 11, 12], [13, 14, 15, 16]],
    );
    assert_eq!(image.width(), 2);
    assert_eq!(image.height(), 2);
    assert_eq!(image.format(), &srgb());
    assert_eq!(image.data(), &(1..=16).collect::<Vec<u8>>());
    assert_eq!(image.pixel(1, 1), [13, 14, 15, 16]);
}

#[test]
fn copied_pixels_land_at_the_offset() {
    // a 4 x 3 target of two bytes per pixel, a 2 x 2 source laid at (1, 1)
    let mut target = vec![0u8; 24];
    let source = vec![1, 2, 3, 4, 5, 6, 7, 8];
    copy_pixels(&mut target, 4, &source, 2, 2, 2, 1, 1);
    assert_eq!(
        target,
        vec![
            0, 0, 0, 0, 0, 0, 0, 0,
            0, 0, 1, 2, 3, 4, 0, 0,
            0, 0, 5, 6, 7, 8, 0, 0,
        ]
    );
    // a second copy overwrites what lies under it and nothing else
    copy_pixels(&mut target, 4, &vec![9, 9], 1, 1, 2, 2, 1);
    assert_eq!(
        target,
        vec![
            0, 0, 0, 0, 0, 0, 0, 0,
            0, 0, 1, 2, 9, 9, 0, 0,
            0, 0, 5, 6, 7, 8, 0, 0,
        ]
    );
    // an empty source changes nothing
    let held = target.clone();
    copy_pixels(&mut target, 4, &vec![], 0, 5, 2, 4, 0);
    assert_eq!(target, held);
}
