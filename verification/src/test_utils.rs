//! Building small images by hand.

use vstd::prelude::*;
use crate::addressing::pixel_offset;
use crate::pixel_buffer::{PixelBuffer, PixelBytes};
use crate::pixel_format::PixelFormat;

verus! {

/// Create an image with the given dimension, format and colors for each
/// pixel. Dimension and given pixels must match in size. The first pixel is
/// top left of the image and the last one is bottom right.
pub fn create_image(
    size: (usize, usize),
    texture_format: PixelFormat,
    pixel_colors: &[PixelBytes],
) -> (image: PixelBuffer)
    requires
        texture_format@.bytes_per_pixel == 4,
        pixel_colors@.len() == size.0 * size.1,
    ensures
        image@.width == size.0,
        image@.height == size.1,
        image@.format == texture_format@,
        forall|x: int, y: int|
            image@.contains(x, y) ==> #[trigger] image@.pixel_at(x, y) == pixel_colors@[y * size.0
                + x],
{
    let mut data: Vec<u8> = Vec::new();
    let mut i: usize = 0;
    while i < pixel_colors.len()
        invariant
            i <= pixel_colors@.len(),
            data@.len() == 4 * i,
            forall|j: int|
                0 <= j < i ==> {
                    &&& data@[4 * j] == (#[trigger] pixel_colors@[j])[0]
                    &&& data@[4 * j + 1] == pixel_colors@[j][1]
                    &&& data@[4 * j + 2] == pixel_colors@[j][2]
                    &&& data@[4 * j + 3] == pixel_colors@[j][3]
                },
        decreases pixel_colors@.len() - i,
    {
        let color = pixel_colors[i];
        data.push(color[0]);
        data.push(color[1]);
        data.push(color[2]);
        data.push(color[3]);
        i += 1;
    }
    let ghost bytes = data@;
    proof {
        assert(size.0 * size.1 * 4 == 4 * (size.0 * size.1)) by (nonlinear_arith);
    }
    let image = PixelBuffer::new(size.0, size.1, texture_format, data).unwrap();
    proof {
        let w = size.0 as int;
        let h = size.1 as int;
        assert forall|x: int, y: int| image@.contains(x, y) implies #[trigger] image@.pixel_at(x, y)
            == pixel_colors@[y * w + x] by {
            crate::addressing::lemma_offset_in_bounds(x, y, 3, 4, w, h);
            let j = y * w + x;
            assert(pixel_offset(x, y, 4, w) == 4 * j);
            let color = pixel_colors@[j];
            assert(bytes[4 * j + 0] == color[0]);
            assert(bytes[4 * j + 1] == color[1]);
            assert(bytes[4 * j + 2] == color[2]);
            assert(bytes[4 * j + 3] == color[3]);
            assert(image@.pixel_at(x, y) =~= color);
        }
    }
    image
}

} // verus!
