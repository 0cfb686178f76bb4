//! Copying one image into another at a pixel offset.

use vstd::prelude::*;
use crate::addressing::{
    byte_at, lemma_offset_in_bounds, lemma_offset_injective, local_pixel_offset, pixel_offset,
};

verus! {

/// Whether byte `c` of the target pixel `(x, y)` has been written once the
/// copy has finished `rows` source rows, `cols` pixels of the next row and
/// `chans` bytes of the next pixel.
spec fn copied(
    x: int,
    y: int,
    c: int,
    left: int,
    top: int,
    src_width: int,
    rows: int,
    cols: int,
    chans: int,
) -> bool {
    &&& left <= x < left + src_width
    &&& top <= y
    &&& (y < top + rows || (y == top + rows && (x < left + cols || (x == left + cols && c
        < chans))))
}

/// Whether the target pixel `(x, y)` lies under a source image of
/// `src_width` × `src_height` pixels laid down with its top left corner at
/// `(left, top)`.
pub open spec fn covered(
    x: int,
    y: int,
    left: int,
    top: int,
    src_width: int,
    src_height: int,
) -> bool {
    left <= x < left + src_width && top <= y < top + src_height
}

/// Whether `(x, y, c)` names a byte of a buffer of `len` bytes in rows of
/// `width` pixels.
pub open spec fn addressable(x: int, y: int, c: int, bpp: int, width: int, len: int) -> bool {
    0 <= x < width && 0 <= y && 0 <= c < bpp && pixel_offset(x, y, bpp, width) + c < len
}

/// Copies every pixel of the source image into the target buffer, the
/// source's top left corner going to `(left, top)`. Whatever the target held
/// under the source is overwritten; the rest of it stays.
pub fn copy_pixels(
    dst: &mut Vec<u8>,
    dst_width: usize,
    src: &Vec<u8>,
    src_width: usize,
    src_height: usize,
    bpp: usize,
    left: usize,
    top: usize,
)
    requires
        src@.len() == src_width * src_height * bpp,
        left + src_width <= dst_width,
        (top + src_height) * dst_width * bpp <= old(dst)@.len(),
    ensures
        final(dst)@.len() == old(dst)@.len(),
        forall|x: int, y: int, c: int|
            addressable(x, y, c, bpp as int, dst_width as int, old(dst)@.len() as int)
                ==> #[trigger] byte_at(final(dst)@, dst_width as int, bpp as int, x, y, c) == (
            if covered(x, y, left as int, top as int, src_width as int, src_height as int) {
                byte_at(src@, src_width as int, bpp as int, x - left, y - top, c)
            } else {
                byte_at(old(dst)@, dst_width as int, bpp as int, x, y, c)
            }),
        src_width == 0 || src_height == 0 || bpp == 0 ==> final(dst)@ == old(dst)@,
{
    let ghost before = dst@;
    let ghost len = dst@.len() as int;
    let ghost w = dst_width as int;
    let ghost sw = src_width as int;
    let ghost sh = src_height as int;
    let ghost b = bpp as int;
    let ghost l = left as int;
    let ghost t = top as int;
    if bpp == 0 || src_width == 0 || src_height == 0 {
        return ;
    }
    proof {
        assert(dst@.len() == dst.len());
        assert(src@.len() == src.len());
        assert(t + sh <= (t + sh) * w * b) by (nonlinear_arith)
            requires
                0 <= t + sh,
                1 <= w,
                1 <= b,
        ;
    }
    let mut row: usize = 0;
    while row < src_height
        invariant
            row <= src_height,
            dst@.len() == len,
            len <= usize::MAX,
            t + sh <= usize::MAX,
            1 <= b,
            src@.len() <= usize::MAX,
            src@.len() == sw * sh * b,
            l + sw <= w,
            (t + sh) * w * b <= len,
            w == dst_width,
            sw == src_width,
            sh == src_height,
            b == bpp,
            l == left,
            t == top,
            forall|x: int, y: int, c: int|
                addressable(x, y, c, b, w, len) ==> #[trigger] byte_at(dst@, w, b, x, y, c) == (
                if copied(x, y, c, l, t, sw, row as int, 0, 0) {
                    byte_at(src@, sw, b, x - l, y - t, c)
                } else {
                    byte_at(before, w, b, x, y, c)
                }),
        decreases src_height - row,
    {
        let mut col: usize = 0;
        while col < src_width
            invariant
                row < src_height,
                col <= src_width,
                dst@.len() == len,
                len <= usize::MAX,
                t + sh <= usize::MAX,
                1 <= b,
                src@.len() <= usize::MAX,
                src@.len() == sw * sh * b,
                l + sw <= w,
                (t + sh) * w * b <= len,
                w == dst_width,
                sw == src_width,
                sh == src_height,
                b == bpp,
                l == left,
                t == top,
                forall|x: int, y: int, c: int|
                    addressable(x, y, c, b, w, len) ==> #[trigger] byte_at(dst@, w, b, x, y, c)
                        == (if copied(x, y, c, l, t, sw, row as int, col as int, 0) {
                        byte_at(src@, sw, b, x - l, y - t, c)
                    } else {
                        byte_at(before, w, b, x, y, c)
                    }),
            decreases src_width - col,
        {
            proof {
                lemma_offset_in_bounds(l + col, t + row, b - 1, b, w, t + sh);
                lemma_offset_in_bounds(col as int, row as int, b - 1, b, sw, sh);
            }
            let from = local_pixel_offset(col, row, bpp, src_width);
            let to = local_pixel_offset(left + col, top + row, bpp, dst_width);
            let mut chan: usize = 0;
            while chan < bpp
                invariant
                    row < src_height,
                    col < src_width,
                    chan <= bpp,
                    dst@.len() == len,
                    len <= usize::MAX,
                    src@.len() <= usize::MAX,
                    src@.len() == sw * sh * b,
                    l + sw <= w,
                    (t + sh) * w * b <= len,
                    w == dst_width,
                    sw == src_width,
                    sh == src_height,
                    b == bpp,
                    l == left,
                    t == top,
                    from == pixel_offset(col as int, row as int, b, sw),
                    to == pixel_offset(l + col, t + row, b, w),
                    from + b <= src@.len(),
                    to + b <= len,
                    forall|x: int, y: int, c: int|
                        addressable(x, y, c, b, w, len) ==> #[trigger] byte_at(dst@, w, b, x, y, c)
                            == (if copied(x, y, c, l, t, sw, row as int, col as int, chan as int) {
                            byte_at(src@, sw, b, x - l, y - t, c)
                        } else {
                            byte_at(before, w, b, x, y, c)
                        }),
                decreases bpp - chan,
            {
                let ghost held = dst@;
                let value = src[from + chan];
                dst[to + chan] = value;
                proof {
                    assert forall|x: int, y: int, c: int|
                        addressable(x, y, c, b, w, len) implies #[trigger] byte_at(
                        dst@,
                        w,
                        b,
                        x,
                        y,
                        c,
                    ) == (if copied(x, y, c, l, t, sw, row as int, col as int, chan + 1) {
                        byte_at(src@, sw, b, x - l, y - t, c)
                    } else {
                        byte_at(before, w, b, x, y, c)
                    }) by {
                        if x == l + col && y == t + row && c == chan {
                        } else {
                            if pixel_offset(x, y, b, w) + c == to + chan {
                                lemma_offset_injective(w, b, x, y, c, l + col, t + row, chan as int);
                            }
                            assert(byte_at(dst@, w, b, x, y, c) == byte_at(held, w, b, x, y, c));
                        }
                    }
                }
                chan += 1;
            }
            col += 1;
        }
        row += 1;
    }
    proof {
        assert forall|x: int, y: int, c: int| addressable(x, y, c, b, w, len) implies #[trigger] byte_at(
            dst@,
            w,
            b,
            x,
            y,
            c,
        ) == (if covered(x, y, l, t, sw, sh) {
            byte_at(src@, sw, b, x - l, y - t, c)
        } else {
            byte_at(before, w, b, x, y, c)
        }) by {
            assert(copied(x, y, c, l, t, sw, sh, 0, 0) == covered(x, y, l, t, sw, sh));
        }
    }
}

} // verus!
