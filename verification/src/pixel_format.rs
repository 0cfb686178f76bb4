//! Pixel formats as the toolkit knows them.
//!
//! The toolkit copies and compares pixels; it never looks into their
//! channels. So a format is known by its name and by the number of bytes
//! that one pixel of it takes, and two formats are the same format when
//! they agree in both.

use vstd::prelude::*;
use vstd::string::*;

verus! {

/// What a pixel format is made of: its name, and the number of bytes that
/// one pixel takes.
pub struct FormatView {
    pub name: Seq<char>,
    pub bytes_per_pixel: nat,
}

/// The format of the images that the layer compositor makes: four bytes per
/// pixel, red, green, blue and alpha.
pub open spec fn core_format() -> FormatView {
    FormatView { name: "Rgba8UnormSrgb"@, bytes_per_pixel: 4 }
}

/// A pixel format: a name, and the number of bytes that one pixel takes,
/// which is at least one.
#[derive(Debug, PartialEq, Eq)]
pub struct PixelFormat {
    name: String,
    bytes_per_pixel: usize,
}

impl View for PixelFormat {
    type V = FormatView;

    closed spec fn view(&self) -> FormatView {
        FormatView { name: self.name@, bytes_per_pixel: self.bytes_per_pixel as nat }
    }
}

impl Clone for PixelFormat {
    fn clone(&self) -> (copy: PixelFormat)
        ensures
            copy@ == self@,
    {
        proof {
            use_type_invariant(self);
        }
        PixelFormat { name: self.name.clone(), bytes_per_pixel: self.bytes_per_pixel }
    }
}

impl PixelFormat {
    /// A pixel takes at least one byte, and no more than a `usize` counts.
    #[verifier::type_invariant]
    pub open spec fn well_formed(&self) -> bool {
        1 <= self@.bytes_per_pixel <= usize::MAX
    }

    /// The format called `name` whose pixels take `bytes_per_pixel` bytes.
    /// There is none whose pixels take no byte.
    pub fn new(name: &str, bytes_per_pixel: usize) -> (made: Option<PixelFormat>)
        ensures
            made is Some <==> bytes_per_pixel >= 1,
            made matches Some(format) ==> format@ == (FormatView {
                name: name@,
                bytes_per_pixel: bytes_per_pixel as nat,
            }),
    {
        if bytes_per_pixel == 0 {
            None
        } else {
            Some(PixelFormat { name: String::from_str(name), bytes_per_pixel })
        }
    }

    /// The format of the images that the layer compositor makes.
    pub fn rgba8_unorm_srgb() -> (format: PixelFormat)
        ensures
            format@ == core_format(),
    {
        PixelFormat { name: String::from_str("Rgba8UnormSrgb"), bytes_per_pixel: 4 }
    }

    /// The format's name.
    pub fn name(&self) -> (name: &str)
        ensures
            name@ == self@.name,
    {
        self.name.as_str()
    }

    /// The number of bytes one pixel of this format takes.
    pub fn bytes_per_pixel(&self) -> (size: usize)
        ensures
            size == self@.bytes_per_pixel,
            size >= 1,
    {
        proof {
            use_type_invariant(self);
        }
        self.bytes_per_pixel
    }

    /// Whether a pixel of this format takes four bytes, as the layer
    /// compositor and the pixel mapper ask.
    pub fn is_four_byte(&self) -> (yes: bool)
        ensures
            yes == (self@.bytes_per_pixel == 4),
    {
        self.bytes_per_pixel == 4
    }

    /// Whether the two are the same format: of one name and one pixel size.
    pub fn same_as(&self, other: &PixelFormat) -> (yes: bool)
        ensures
            yes == (self@ == other@),
    {
        self.bytes_per_pixel == other.bytes_per_pixel && self.name == other.name
    }
}

} // verus!
