use texture_kit::pixel_format::PixelFormat;
use texture_kit::test_utils::create_image;
use texture_kit::texture_modification::{
    map_to_new_texture, map_to_texture_pixels, modify_texture, PixelBytes,
};

const RED: [u8; 4] = [255, 0, 0, 255];
const GREEN: [u8; 4] = [0, 255, 0, 255];
const BLUE: [u8; 4] = [0, 0, 255, 255];
const YELLOW: [u8; 4] = [255, 255, 0, 255];
fn srgb() -> PixelFormat {
    PixelFormat::rgba8_unorm_srgb()
}

fn format(name: &str, bytes_per_pixel: usize) -> PixelFormat {
    PixelFormat::new(name, bytes_per_pixel).unwrap()
}

#[test]
fn modify_texture_works() {
    // arrange
    let mut red_blue = create_image((2, 2), srgb(), &[RED, BLUE, BLUE, RED]);

    // act
    modify_texture(&mut red_blue, |_, _, pixels| if pixels == BLUE { GREEN } else { pixels });

    // assert
    let expected = create_image((2, 2), srgb(), &[RED, GREEN, GREEN, RED]);

    assert_eq!(
        expected.data(),
        red_blue.data(),
        "The red-blue image should now be red-green, but wasn't."
    );
}

#[test]
fn map_to_new_texture_works() {
    // arrange
    let red_blue = create_image((2, 2), srgb(), &[RED, BLUE, BLUE, RED]);

    // act
    let new_texture =
        map_to_new_texture(&red_blue, |_, _, pixels| if pixels == BLUE { GREEN } else { pixels });

    // assert
    let expected = create_image((2, 2), srgb(), &[RED, GREEN, GREEN, RED]);

    assert_eq!(
        expected.data(),
        new_texture.data(),
        "The red-blue image should now be mapped to a red-green one, but wasn't."
    );
}

/// Check if the convenience method to apply a texture on another one works. The
/// texture to map from is intentionally smaller to check if the mapper can
/// handle this.
#[test]
fn modify_texture_with_other_texture_works() {
    // arrange
    let mut red_blue = create_image(
        (4, 4),
        srgb(),
        &[
            RED, BLUE, RED, BLUE,
            BLUE, RED, BLUE, RED,
            RED, BLUE, RED, BLUE,
            BLUE, RED, BLUE, RED,
        ],
    );

    let yellow_green =
        create_image((2, 2), srgb(), &[YELLOW, GREEN, YELLOW, GREEN]);

    // act
    modify_texture(
        &mut red_blue,
        map_to_texture_pixels(&yellow_green, |pixels: &PixelBytes| pixels == &BLUE),
    );

    // assert
    let expected = create_image(
        (4, 4),
        srgb(),
        &[
            RED, GREEN, RED, GREEN,
            YELLOW, RED, YELLOW, RED,
            RED, GREEN, RED, GREEN,
            YELLOW, RED, YELLOW, RED,
        ],
    );

    assert_eq!(
        expected.data(),
        red_blue.data(),
        "The red-blue texture should now be red-green-yellow, but wasn't."
    )
}

#[test]
fn the_identity_mapper_changes_nothing() {
    let colors = [RED, BLUE, GREEN, YELLOW, BLUE, RED];
    let mut image = create_image((3, 2), format("Rgba8Unorm", 4), &colors);
    let before = image.clone();
    modify_texture(&mut image, |_, _, pixel| pixel);
    assert_eq!(image.data(), before.data());
    assert_eq!(image.width(), 3);
    assert_eq!(image.height(), 2);
    assert_eq!(image.format(), &format("Rgba8Unorm", 4));
}

#[test]
fn the_mapper_is_given_the_coordinates_of_each_pixel() {
    let mut image = create_image((3, 2), srgb(), &[RED; 6]);
    modify_texture(&mut image, |x, y, pixel| [x as u8, y as u8, pixel[0], 7]);
    let expected = create_image(
        (3, 2),
        srgb(),
        &[
            [0, 0, 255, 7], [1, 0, 255, 7], [2, 0, 255, 7],
            [0, 1, 255, 7], [1, 1, 255, 7], [2, 1, 255, 7],
        ],
    );
    assert_eq!(image.data(), expected.data());
}

#[test]
fn mapping_to_a_new_texture_leaves_the_old_one() {
    let old = create_image((2, 1), srgb(), &[RED, BLUE]);
    let new = map_to_new_texture(&old, |_, _, _| GREEN);
    assert_eq!(old.data(), create_image((2, 1), srgb(), &[RED, BLUE]).data());
    assert_eq!(new.data(), create_image((2, 1), srgb(), &[GREEN, GREEN]).data());
}

#[test]
fn stamping_twice_is_stamping_once() {
    let stamp = create_image((2, 1), srgb(), &[BLUE, YELLOW]);
    let mut image = create_image(
        (3, 2),
        srgb(),
        &[
            BLUE, BLUE, BLUE,
            RED, BLUE, RED,
        ],
    );
    let accepts = |pixel: &PixelBytes| pixel == &BLUE || pixel == &YELLOW;
    modify_texture(&mut image, map_to_texture_pixels(&stamp, accepts));
    let once = image.clone();
    let expected = create_image(
        (3, 2),
        srgb(),
        &[
            BLUE, YELLOW, BLUE,
            RED, YELLOW, RED,
        ],
    );
    assert_eq!(once.data(), expected.data());
    modify_texture(&mut image, map_to_texture_pixels(&stamp, accepts));
    assert_eq!(image.data(), once.data());
}

#[test]
fn the_stamp_mapper_leaves_what_the_filter_refuses() {
    let stamp = create_image((1, 1), srgb(), &[GREEN]);
    let mapper = map_to_texture_pixels(&stamp, |pixel: &PixelBytes| pixel[0] == 255);
    assert_eq!(mapper(5, 9, RED), GREEN);
    assert_eq!(mapper(5, 9, BLUE), BLUE);
}

#[test]
fn the_stamp_is_repeated_in_both_directions() {
    let stamp = create_image(
        (2, 3),
        srgb(),
        &[
            RED, GREEN,
            BLUE, YELLOW,
            [1, 2, 3, 4], [5, 6, 7, 8],
        ],
    );
    let mapper = map_to_texture_pixels(&stamp, |_: &PixelBytes| true);
    assert_eq!(mapper(0, 0, RED), RED);
    assert_eq!(mapper(3, 0, RED), GREEN);
    assert_eq!(mapper(4, 4, RED), BLUE);
    assert_eq!(mapper(7, 5, RED), [5, 6, 7, 8]);
}
