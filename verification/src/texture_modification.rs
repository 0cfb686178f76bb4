//! Mapping a function over every pixel of a texture.

use vstd::prelude::*;
use crate::pixel_buffer::{lemma_raster_equal_by_bytes, PixelBuffer, Raster};
pub use crate::pixel_buffer::PixelBytes;

verus! {

/// `after` is `before` with every pixel replaced by what `mapper` made of
/// it: the two have one size and format, and each pixel of `after` is a
/// result of `mapper` on the pixel's coordinates and the pixel of `before`.
pub open spec fn mapped_by<M: Fn(usize, usize, PixelBytes) -> PixelBytes>(
    before: Raster,
    after: Raster,
    mapper: M,
) -> bool {
    &&& after.wf()
    &&& after.width == before.width
    &&& after.height == before.height
    &&& after.format == before.format
    &&& forall|x: int, y: int|
        before.contains(x, y) ==> call_ensures(
            mapper,
            (x as usize, y as usize, before.pixel_at(x, y)),
            #[trigger] after.pixel_at(x, y),
        )
}

/// Whether the walk over the pixels, column by column and each column from
/// the top, has been at `(u, v)` when it stands at `(x, y)`.
spec fn visited(u: int, v: int, x: int, y: int) -> bool {
    u < x || (u == x && v < y)
}

/// Modify the data of a texture with a given pixel mapper. The mapper takes
/// the x and y coordinates of the pixel and also the pixel bytes at these
/// coordinates. Every pixel is handed to the mapper once.
pub fn modify_texture<M: Fn(usize, usize, PixelBytes) -> PixelBytes>(
    texture: &mut PixelBuffer,
    pixel_mapper: M,
)
    requires
        old(texture)@.bpp() == 4,
        forall|x: int, y: int|
            old(texture)@.contains(x, y) ==> call_requires(
                pixel_mapper,
                (x as usize, y as usize, #[trigger] old(texture)@.pixel_at(x, y)),
            ),
    ensures
        mapped_by(old(texture)@, final(texture)@, pixel_mapper),
{
    let ghost before = texture@;
    let width = texture.width();
    let height = texture.height();
    let mut x: usize = 0;
    while x < width
        invariant
            x <= width,
            before.bpp() == 4,
            width == before.width,
            height == before.height,
            texture@.width == before.width,
            texture@.height == before.height,
            texture@.format == before.format,
            forall|u: int, v: int|
                before.contains(u, v) ==> call_requires(
                    pixel_mapper,
                    (u as usize, v as usize, #[trigger] before.pixel_at(u, v)),
                ),
            forall|u: int, v: int|
                before.contains(u, v) && visited(u, v, x as int, 0) ==> call_ensures(
                    pixel_mapper,
                    (u as usize, v as usize, before.pixel_at(u, v)),
                    #[trigger] texture@.pixel_at(u, v),
                ),
            forall|u: int, v: int|
                before.contains(u, v) && !visited(u, v, x as int, 0) ==> #[trigger] texture@.pixel_at(
                    u,
                    v,
                ) == before.pixel_at(u, v),
        decreases width - x,
    {
        let mut y: usize = 0;
        while y < height
            invariant
                x < width,
                y <= height,
                before.bpp() == 4,
                width == before.width,
                height == before.height,
                texture@.width == before.width,
                texture@.height == before.height,
                texture@.format == before.format,
                forall|u: int, v: int|
                    before.contains(u, v) ==> call_requires(
                        pixel_mapper,
                        (u as usize, v as usize, #[trigger] before.pixel_at(u, v)),
                    ),
                forall|u: int, v: int|
                    before.contains(u, v) && visited(u, v, x as int, y as int) ==> call_ensures(
                        pixel_mapper,
                        (u as usize, v as usize, before.pixel_at(u, v)),
                        #[trigger] texture@.pixel_at(u, v),
                    ),
                forall|u: int, v: int|
                    before.contains(u, v) && !visited(u, v, x as int, y as int)
                        ==> #[trigger] texture@.pixel_at(u, v) == before.pixel_at(u, v),
            decreases height - y,
        {
            let ghost held = texture@;
            let pixel = texture.pixel(x, y);
            assert(held.pixel_at(x as int, y as int) == before.pixel_at(x as int, y as int));
            let new_pixel = pixel_mapper(x, y, pixel);
            texture.set_pixel(x, y, new_pixel);
            proof {
                assert forall|u: int, v: int|
                    before.contains(u, v) && visited(u, v, x as int, y + 1) implies call_ensures(
                    pixel_mapper,
                    (u as usize, v as usize, before.pixel_at(u, v)),
                    #[trigger] texture@.pixel_at(u, v),
                ) by {
                    if u != x || v != y {
                        assert(texture@.pixel_at(u, v) == held.pixel_at(u, v));
                    }
                }
                assert forall|u: int, v: int|
                    before.contains(u, v) && !visited(
                        u,
                        v,
                        x as int,
                        y + 1,
                    ) implies #[trigger] texture@.pixel_at(u, v) == before.pixel_at(u, v) by {
                    assert(texture@.pixel_at(u, v) == held.pixel_at(u, v));
                }
            }
            y += 1;
        }
        x += 1;
    }
    proof {
        use_type_invariant(&*texture);
    }
}

/// Takes a texture and a pixel mapper and creates a new texture from it.
/// The given texture stays as it is.
pub fn map_to_new_texture<M: Fn(usize, usize, PixelBytes) -> PixelBytes>(
    texture: &PixelBuffer,
    pixel_mapper: M,
) -> (new_image: PixelBuffer)
    requires
        texture@.bpp() == 4,
        forall|x: int, y: int|
            texture@.contains(x, y) ==> call_requires(
                pixel_mapper,
                (x as usize, y as usize, #[trigger] texture@.pixel_at(x, y)),
            ),
    ensures
        mapped_by(texture@, new_image@, pixel_mapper),
{
    let mut new_image = texture.clone();
    modify_texture(&mut new_image, pixel_mapper);
    new_image
}

/// What a stamping mapper makes of the pixel `pixel` at `(x, y)`: the pixel
/// itself where the filter did not accept it, else the pixel of the stamp
/// at `(x, y)`, the stamp being repeated to the right and downwards.
pub open spec fn stamp_mapped(stamp: Raster, accepted: bool, x: int, y: int, pixel: PixelBytes) -> PixelBytes {
    if accepted {
        stamp.pixel_at(x % (stamp.width as int), y % (stamp.height as int))
    } else {
        pixel
    }
}

/// `mapper` stamps `stamp` on the pixels that `filter` accepts: whatever it
/// returns for a pixel is what `stamp_mapped` gives for an answer of the
/// filter on that pixel.
pub open spec fn is_stamp_mapper<M: Fn(usize, usize, PixelBytes) -> PixelBytes, F: Fn(&PixelBytes) -> bool>(
    mapper: M,
    stamp: Raster,
    filter: F,
) -> bool {
    forall|x: usize, y: usize, pixel: PixelBytes, mapped: PixelBytes| #[trigger]
        call_ensures(mapper, (x, y, pixel), mapped) ==> exists|accepted: bool|
            #[trigger] call_ensures(filter, (&pixel,), accepted) && mapped == stamp_mapped(
                stamp,
                accepted,
                x as int,
                y as int,
                pixel,
            )
}

/// Provides a pixel mapper to replace the pixels of a texture with ones
/// from another texture. Also takes a pixel filter to tell if the
/// pixel should be replaced by the pixel from the other texture.
pub fn map_to_texture_pixels<'a, F: Fn(&PixelBytes) -> bool + 'a>(
    texture: &'a PixelBuffer,
    pixel_filter: F,
) -> (mapper: impl Fn(usize, usize, PixelBytes) -> PixelBytes + 'a)
    requires
        texture@.bpp() == 4,
        texture@.width > 0,
        texture@.height > 0,
        forall|pixel: PixelBytes| call_requires(pixel_filter, (&pixel,)),
    ensures
        forall|x: usize, y: usize, pixel: PixelBytes| call_requires(mapper, (x, y, pixel)),
        is_stamp_mapper(mapper, texture@, pixel_filter),
{
    move |x: usize, y: usize, pixel: PixelBytes| -> (mapped: PixelBytes)
        ensures
            exists|accepted: bool|
                #[trigger] call_ensures(pixel_filter, (&pixel,), accepted) && mapped == stamp_mapped(
                    texture@,
                    accepted,
                    x as int,
                    y as int,
                    pixel,
                ),
        {
            if !pixel_filter(&pixel) {
                pixel
            } else {
                let width = texture.width();
                let x = x % width;
                let y = y % texture.height();
                texture.pixel(x, y)
            }
        }
}

/// A mapper that returns every pixel as it got it leaves the texture as it
/// was, byte for byte.
pub proof fn lemma_identity_mapper_changes_nothing<M: Fn(usize, usize, PixelBytes) -> PixelBytes>(
    before: Raster,
    after: Raster,
    mapper: M,
)
    requires
        before.wf(),
        before.bpp() == 4,
        mapped_by(before, after, mapper),
        forall|x: usize, y: usize, pixel: PixelBytes, mapped: PixelBytes| #[trigger]
            call_ensures(mapper, (x, y, pixel), mapped) ==> mapped == pixel,
    ensures
        after == before,
{
    assert forall|x: int, y: int, c: int| after.contains(x, y) && 0 <= c < after.bpp() implies #[trigger] after.byte_at(
        x,
        y,
        c,
    ) == before.byte_at(x, y, c) by {
        assert(after.pixel_at(x, y) == before.pixel_at(x, y));
        assert(after.pixel_at(x, y)[c] == after.byte_at(x, y, c));
        assert(before.pixel_at(x, y)[c] == before.byte_at(x, y, c));
    }
    lemma_raster_equal_by_bytes(after, before);
}

/// Stamping is stable: where the filter accepted a pixel and accepts what
/// was stamped on it, stamping once more gives the same pixel of the stamp
/// again.
pub proof fn lemma_stamp_again_is_stable<M: Fn(usize, usize, PixelBytes) -> PixelBytes, F: Fn(&PixelBytes) -> bool>(
    first: Raster,
    second: Raster,
    third: Raster,
    stamp: Raster,
    mapper: M,
    filter: F,
    x: int,
    y: int,
)
    requires
        first.wf(),
        mapped_by(first, second, mapper),
        mapped_by(second, third, mapper),
        is_stamp_mapper(mapper, stamp, filter),
        first.contains(x, y),
        forall|accepted: bool| #[trigger]
            call_ensures(filter, (&first.pixel_at(x, y),), accepted) ==> accepted,
        forall|accepted: bool| #[trigger]
            call_ensures(filter, (&second.pixel_at(x, y),), accepted) ==> accepted,
    ensures
        second.pixel_at(x, y) == stamp.pixel_at(x % (stamp.width as int), y % (stamp.height as int)),
        third.pixel_at(x, y) == second.pixel_at(x, y),
{
    assert(call_ensures(mapper, (x as usize, y as usize, first.pixel_at(x, y)), second.pixel_at(x, y)));
    assert(second.contains(x, y));
    assert(call_ensures(mapper, (x as usize, y as usize, second.pixel_at(x, y)), third.pixel_at(x, y)));
}

/// Stamping over a stamped pixel changes nothing: what the stamp puts at a
/// place does not depend on what was there.
pub proof fn lemma_stamp_is_idempotent(stamp: Raster, x: int, y: int, pixel: PixelBytes)
    ensures
        stamp_mapped(stamp, true, x, y, stamp_mapped(stamp, true, x, y, pixel)) == stamp_mapped(
            stamp,
            true,
            x,
            y,
            pixel,
        ),
{
}

} // verus!
