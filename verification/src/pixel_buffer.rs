//! The flat pixel buffer that every operation of the toolkit reads and
//! writes.

use vstd::prelude::*;
use crate::addressing::{
    byte_at, lemma_offset_in_bounds, lemma_pixels_disjoint, local_pixel_offset, pixel_offset,
};
use crate::pixel_format::{FormatView, PixelFormat};

verus! {

/// The bytes of one pixel of a four-byte format.
pub type PixelBytes = [u8; 4];

/// What a pixel buffer holds: its size in pixels, its format, and its bytes,
/// row by row from the top, each row from the left.
pub struct Raster {
    pub width: nat,
    pub height: nat,
    pub format: FormatView,
    pub bytes: Seq<u8>,
}

impl Raster {
    /// The number of bytes one pixel takes.
    pub open spec fn bpp(self) -> nat {
        self.format.bytes_per_pixel
    }

    /// The image is one that a buffer can hold: its width and height fit a
    /// `usize`, a pixel takes at least one byte, and its bytes are exactly
    /// those of `width * height` pixels.
    pub open spec fn wf(self) -> bool {
        &&& self.width <= usize::MAX
        &&& self.height <= usize::MAX
        &&& self.bpp() >= 1
        &&& self.bytes.len() == self.width * self.height * self.bpp()
    }

    /// Whether `(x, y)` is a pixel of the image.
    pub open spec fn contains(self, x: int, y: int) -> bool {
        0 <= x < self.width && 0 <= y < self.height
    }

    /// Byte `c` of pixel `(x, y)`.
    pub open spec fn byte_at(self, x: int, y: int, c: int) -> u8 {
        byte_at(self.bytes, self.width as int, self.bpp() as int, x, y, c)
    }

    /// The four bytes of pixel `(x, y)` of an image in a four-byte format.
    pub open spec fn pixel_at(self, x: int, y: int) -> PixelBytes {
        [self.byte_at(x, y, 0), self.byte_at(x, y, 1), self.byte_at(x, y, 2), self.byte_at(x, y, 3)]
    }
}

/// Two well-formed images of one size and format whose pixels hold the same
/// bytes are the same image.
pub proof fn lemma_raster_equal_by_bytes(a: Raster, b: Raster)
    requires
        a.wf(),
        b.wf(),
        a.width == b.width,
        a.height == b.height,
        a.format == b.format,
        forall|x: int, y: int, c: int|
            a.contains(x, y) && 0 <= c < a.bpp() ==> #[trigger] a.byte_at(x, y, c) == b.byte_at(
                x,
                y,
                c,
            ),
    ensures
        a == b,
{
    let bpp = a.bpp() as int;
    let w = a.width as int;
    let h = a.height as int;
    assert(bpp >= 1);
    assert forall|k: int| 0 <= k < a.bytes.len() implies a.bytes[k] == b.bytes[k] by {
        let p = k / bpp;
        let c = k % bpp;
        vstd::arithmetic::div_mod::lemma_fundamental_div_mod(k, bpp);
        assert(bpp * p == p * bpp) by (nonlinear_arith);
        assert(0 <= p) by (nonlinear_arith)
            requires
                0 <= k,
                1 <= bpp,
                p == k / bpp,
        ;
        assert(p < w * h) by (nonlinear_arith)
            requires
                p * bpp + c < w * h * bpp,
                0 <= c,
                1 <= bpp,
        ;
        assert(w >= 1) by (nonlinear_arith)
            requires
                0 <= p < w * h,
                0 <= w,
        ;
        let y = p / w;
        let x = p % w;
        vstd::arithmetic::div_mod::lemma_fundamental_div_mod(p, w);
        assert(w * y == y * w) by (nonlinear_arith);
        assert(0 <= y) by (nonlinear_arith)
            requires
                0 <= p,
                1 <= w,
                y == p / w,
        ;
        assert(y < h) by (nonlinear_arith)
            requires
                y * w + x < w * h,
                0 <= x,
                1 <= w,
        ;
        assert(pixel_offset(x, y, bpp, w) + c == k);
        assert(a.byte_at(x, y, c) == b.byte_at(x, y, c));
    }
    assert(a.bytes =~= b.bytes);
}

/// A pixel buffer: an image of `width` × `height` pixels of one format, held
/// as a flat run of bytes without padding.
#[derive(Debug)]
pub struct PixelBuffer {
    width: usize,
    height: usize,
    format: PixelFormat,
    data: Vec<u8>,
}

impl View for PixelBuffer {
    type V = Raster;

    closed spec fn view(&self) -> Raster {
        Raster {
            width: self.width as nat,
            height: self.height as nat,
            format: self.format@,
            bytes: self.data@,
        }
    }
}

impl Clone for PixelBuffer {
    fn clone(&self) -> (copy: PixelBuffer)
        ensures
            copy@ == self@,
    {
        proof {
            use_type_invariant(self);
        }
        let data = self.data.clone();
        assert(data@ =~= self.data@);
        PixelBuffer { width: self.width, height: self.height, format: self.format.clone(), data }
    }
}

impl PixelBuffer {
    /// Every buffer holds exactly the bytes of its pixels.
    #[verifier::type_invariant]
    pub open spec fn well_formed(&self) -> bool {
        self@.wf()
    }

    /// Makes a buffer of `width` × `height` pixels from its bytes. There is
    /// a buffer exactly when `data` holds as many bytes as the pixels take.
    pub fn new(width: usize, height: usize, format: PixelFormat, data: Vec<u8>) -> (made: Option<
        PixelBuffer,
    >)
        ensures
            made is Some <==> data@.len() == width * height * format@.bytes_per_pixel,
            made matches Some(buffer) ==> buffer@ == (Raster {
                width: width as nat,
                height: height as nat,
                format: format@,
                bytes: data@,
            }),
    {
        let bpp = format.bytes_per_pixel();
        let len = data.len();
        let pixels = match width.checked_mul(height) {
            Some(pixels) => pixels,
            None => {
                assert(width * height * bpp > usize::MAX) by (nonlinear_arith)
                    requires
                        width * height > usize::MAX,
                        bpp >= 1,
                ;
                return None;
            },
        };
        let bytes = match pixels.checked_mul(bpp) {
            Some(bytes) => bytes,
            None => {
                return None;
            },
        };
        if len == bytes {
            Some(PixelBuffer { width, height, format, data })
        } else {
            None
        }
    }

    /// The width in pixels.
    pub fn width(&self) -> (width: usize)
        ensures
            width == self@.width,
    {
        self.width
    }

    /// The height in pixels.
    pub fn height(&self) -> (height: usize)
        ensures
            height == self@.height,
    {
        self.height
    }

    /// The pixel format.
    pub fn format(&self) -> (format: &PixelFormat)
        ensures
            format@ == self@.format,
    {
        &self.format
    }

    /// The bytes, row by row.
    pub fn data(&self) -> (data: &Vec<u8>)
        ensures
            data@ == self@.bytes,
    {
        &self.data
    }

    /// Gives up the buffer for its bytes.
    pub fn into_data(self) -> (data: Vec<u8>)
        ensures
            data@ == self@.bytes,
    {
        self.data
    }

    /// The four bytes of pixel `(x, y)`.
    pub fn pixel(&self, x: usize, y: usize) -> (pixel: PixelBytes)
        requires
            self@.bpp() == 4,
            self@.contains(x as int, y as int),
        ensures
            pixel == self@.pixel_at(x as int, y as int),
    {
        proof {
            use_type_invariant(self);
            lemma_offset_in_bounds(x as int, y as int, 3, 4, self.width as int, self.height as int);
            assert(self.data@.len() == self.data.len());
        }
        let at = local_pixel_offset(x, y, 4, self.width);
        let pixel: PixelBytes = [
            self.data[at],
            self.data[at + 1],
            self.data[at + 2],
            self.data[at + 3],
        ];
        assert(pixel =~= self@.pixel_at(x as int, y as int));
        pixel
    }

    /// Overwrites the four bytes of pixel `(x, y)` and leaves every other
    /// pixel as it is.
    pub fn set_pixel(&mut self, x: usize, y: usize, pixel: PixelBytes)
        requires
            old(self)@.bpp() == 4,
            old(self)@.contains(x as int, y as int),
        ensures
            final(self)@.width == old(self)@.width,
            final(self)@.height == old(self)@.height,
            final(self)@.format == old(self)@.format,
            final(self)@.pixel_at(x as int, y as int) == pixel,
            forall|u: int, v: int|
                old(self)@.contains(u, v) && (u != x || v != y) ==> #[trigger] final(self)@.pixel_at(u, v)
                    == old(self)@.pixel_at(u, v),
    {
        proof {
            use_type_invariant(&*self);
            lemma_offset_in_bounds(x as int, y as int, 3, 4, self.width as int, self.height as int);
            assert(self.data@.len() == self.data.len());
        }
        let ghost before = self@;
        let at = local_pixel_offset(x, y, 4, self.width);
        self.data[at] = pixel[0];
        self.data[at + 1] = pixel[1];
        self.data[at + 2] = pixel[2];
        self.data[at + 3] = pixel[3];
        proof {
            assert(self@.pixel_at(x as int, y as int) =~= pixel);
            assert forall|u: int, v: int| before.contains(u, v) && (u != x || v != y) implies self@.pixel_at(
                u,
                v,
            ) == before.pixel_at(u, v) by {
                let w = self.width as int;
                lemma_pixels_disjoint(w, 4, u, v, x as int, y as int);
                lemma_offset_in_bounds(u, v, 3, 4, w, self.height as int);
                assert(self@.byte_at(u, v, 0) == before.byte_at(u, v, 0));
                assert(self@.byte_at(u, v, 1) == before.byte_at(u, v, 1));
                assert(self@.byte_at(u, v, 2) == before.byte_at(u, v, 2));
                assert(self@.byte_at(u, v, 3) == before.byte_at(u, v, 3));
                assert(self@.pixel_at(u, v) =~= before.pixel_at(u, v));
            }
        }
    }
}

} // verus!
