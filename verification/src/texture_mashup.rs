//! Layering textures of any size into one image, by depth.
//!
//! Each texture lies at a pixel offset and on a layer. Where textures
//! overlap, the one on the higher layer shows; of two on one layer, the
//! later in the input. Nothing is blended.

use vstd::prelude::*;
use vstd::string::*;
use crate::addressing::{byte_at, lemma_offset_in_bounds};
use crate::blit::{addressable, copy_pixels, covered};
use crate::pixel_buffer::{PixelBuffer, Raster};
use crate::pixel_format::{core_format, PixelFormat};

verus! {

/// The x, y and z offset of a texture. Tells where to put the texture
/// relative to (0, 0) and on which layer.
#[derive(Copy, Clone, Debug)]
pub struct Offset {
    pub x: usize,
    pub y: usize,
    pub z: isize,
}

impl Offset {
    /// The offset `(x, y)` on the layer `z`.
    pub fn new(x: usize, y: usize, z: isize) -> (offset: Self)
        ensures
            offset.x == x,
            offset.y == y,
            offset.z == z,
    {
        Self { x, y, z }
    }
}

/// A texture to be layered: where it goes, and its image if the image
/// provider could resolve it.
pub type Layer<'a> = (Offset, Option<&'a PixelBuffer>);

/// Why no image was layered.
#[derive(Clone, Copy, Debug, PartialEq, Eq, Structural)]
pub enum MashError {
    /// No texture was given.
    EmptyInput,
    /// The image of a texture was not available.
    UnresolvedHandle,
}

impl MashError {
    /// The error in words.
    pub open spec fn spec_message(self) -> Seq<char> {
        match self {
            MashError::EmptyInput => "No texture handles were provided"@,
            MashError::UnresolvedHandle => {
                "Some textures could not be retrieved. Maybe they aren't loaded yet"@
            },
        }
    }

    /// The error in words.
    pub fn message(&self) -> (text: String)
        ensures
            text@ == self.spec_message(),
    {
        match self {
            MashError::EmptyInput => String::from_str("No texture handles were provided"),
            MashError::UnresolvedHandle => String::from_str(
                "Some textures could not be retrieved. Maybe they aren't loaded yet",
            ),
        }
    }
}

/// Every texture's image is available.
pub open spec fn layers_resolved(layers: Seq<Layer>) -> bool {
    forall|i: int| 0 <= i < layers.len() ==> (#[trigger] layers[i]).1 is Some
}

/// Every image that is available has a four-byte format.
pub open spec fn layers_four_byte(layers: Seq<Layer>) -> bool {
    forall|i: int|
        0 <= i < layers.len() && (#[trigger] layers[i]).1 is Some ==> layers[i].1.unwrap()@.bpp()
            == 4
}

/// The image of a layer.
pub open spec fn image_of(layer: Layer) -> Raster {
    layer.1.unwrap()@
}

/// The column just right of the layer's last.
pub open spec fn right_of(layer: Layer) -> int {
    layer.0.x + image_of(layer).width
}

/// The row just below the layer's last.
pub open spec fn bottom_of(layer: Layer) -> int {
    layer.0.y + image_of(layer).height
}

/// Whether the layer has a pixel at `(x, y)` of the output.
pub open spec fn covers(layer: Layer, x: int, y: int) -> bool {
    covered(
        x,
        y,
        layer.0.x as int,
        layer.0.y as int,
        image_of(layer).width as int,
        image_of(layer).height as int,
    )
}

/// `w` is how far right the layers reach.
pub open spec fn is_mash_width(layers: Seq<Layer>, w: int) -> bool {
    &&& exists|i: int| 0 <= i < layers.len() && right_of(#[trigger] layers[i]) == w
    &&& forall|i: int| 0 <= i < layers.len() ==> right_of(#[trigger] layers[i]) <= w
}

/// `h` is how far down the layers reach.
pub open spec fn is_mash_height(layers: Seq<Layer>, h: int) -> bool {
    &&& exists|i: int| 0 <= i < layers.len() && bottom_of(#[trigger] layers[i]) == h
    &&& forall|i: int| 0 <= i < layers.len() ==> bottom_of(#[trigger] layers[i]) <= h
}

/// The width of the layered image: how far right the layers reach.
pub open spec fn mash_width(layers: Seq<Layer>) -> int {
    choose|w: int| is_mash_width(layers, w)
}

/// The height of the layered image: how far down the layers reach.
pub open spec fn mash_height(layers: Seq<Layer>) -> int {
    choose|h: int| is_mash_height(layers, h)
}

/// Layer `i` lies below layer `j`: on a lower layer, or on the same and
/// earlier in the input.
pub open spec fn lies_below(layers: Seq<Layer>, i: int, j: int) -> bool {
    layers[i].0.z < layers[j].0.z || (layers[i].0.z == layers[j].0.z && i < j)
}

/// Of the first `n` layers, layer `i` is the one that shows at `(x, y)`: it
/// has a pixel there, and every other layer that has one lies below it.
pub open spec fn shows_at(layers: Seq<Layer>, n: int, i: int, x: int, y: int) -> bool {
    &&& 0 <= i < n
    &&& covers(layers[i], x, y)
    &&& forall|j: int|
        0 <= j < n && j != i && covers(#[trigger] layers[j], x, y) ==> lies_below(layers, j, i)
}

/// The layer that shows at `(x, y)` among the first `n`, if any has a pixel
/// there.
pub open spec fn top_layer(layers: Seq<Layer>, n: int, x: int, y: int) -> Option<int>
    decreases n,
{
    if n <= 0 {
        None
    } else {
        let under = top_layer(layers, n - 1, x, y);
        if covers(layers[n - 1], x, y) && (under is None || layers[under.unwrap()].0.z
            <= layers[n - 1].0.z) {
            Some(n - 1)
        } else {
            under
        }
    }
}

/// Byte `c` of the pixel `(x, y)` of the layered image: that of the layer
/// that shows there, or zero where no layer has a pixel.
pub open spec fn mash_byte(layers: Seq<Layer>, x: int, y: int, c: int) -> u8 {
    match top_layer(layers, layers.len() as int, x, y) {
        Some(i) => image_of(layers[i]).byte_at(x - layers[i].0.x, y - layers[i].0.y, c),
        None => 0u8,
    }
}

/// `out` is the image layered from `layers`: as wide and as high as the
/// layers reach, and showing at every pixel the topmost layer.
pub open spec fn is_mashup(out: Raster, layers: Seq<Layer>) -> bool {
    &&& out.wf()
    &&& out.format == core_format()
    &&& out.width == mash_width(layers)
    &&& out.height == mash_height(layers)
    &&& forall|x: int, y: int, c: int|
        out.contains(x, y) && 0 <= c < 4 ==> #[trigger] out.byte_at(x, y, c) == mash_byte(
            layers,
            x,
            y,
            c,
        )
}

/// The layers can be layered: each has a four-byte format, and the width of
/// the layered image, its height and its number of bytes each fit a `usize`.
/// Of layers that make no image nothing is asked.
pub open spec fn mash_fits(layers: Seq<Layer>) -> bool {
    layers_resolved(layers) && layers.len() > 0 ==> {
        &&& layers_four_byte(layers)
        &&& mash_width(layers) <= usize::MAX
        &&& mash_height(layers) <= usize::MAX
        &&& mash_width(layers) * mash_height(layers) * 4 <= usize::MAX
    }
}

/// Layer `i` is in the list.
pub open spec fn lists(order: Seq<usize>, i: int) -> bool {
    exists|k: int| 0 <= k < order.len() && #[trigger] order[k] == i
}

/// `order` lists the layers from the lowest to the topmost: each layer
/// once, each below the next.
pub open spec fn is_depth_order(layers: Seq<Layer>, order: Seq<usize>) -> bool {
    &&& order.len() == layers.len()
    &&& forall|k: int| 0 <= k < order.len() ==> 0 <= #[trigger] order[k] < layers.len()
    &&& forall|a: int, b: int|
        0 <= a < b < order.len() ==> lies_below(
            layers,
            (#[trigger] order[a]) as int,
            (#[trigger] order[b]) as int,
        )
    &&& forall|i: int| 0 <= i < layers.len() ==> #[trigger] lists(order, i)
}

/// Lists the layers from the lowest to the topmost. Layers of one depth
/// keep the order of the input.
pub fn depth_order(layers: &[Layer]) -> (order: Vec<usize>)
    ensures
        is_depth_order(layers@, order@),
{
    let n = layers.len();
    let mut order: Vec<usize> = Vec::new();
    let mut i: usize = 0;
    while i < n
        invariant
            i <= n,
            n == layers@.len(),
            order@.len() == i,
            forall|k: int| 0 <= k < i ==> 0 <= #[trigger] order@[k] < i,
            forall|a: int, b: int|
                0 <= a < b < i ==> lies_below(
                    layers@,
                    (#[trigger] order@[a]) as int,
                    (#[trigger] order@[b]) as int,
                ),
            forall|j: int| 0 <= j < i ==> #[trigger] lists(order@, j),
        decreases n - i,
    {
        let depth = layers[i].0.z;
        let mut at: usize = i;
        while at > 0 && layers[order[at - 1]].0.z > depth
            invariant
                at <= i,
                i < n,
                n == layers@.len(),
                order@.len() == i,
                depth == layers@[i as int].0.z,
                forall|k: int| 0 <= k < i ==> 0 <= #[trigger] order@[k] < i,
                forall|k: int| at <= k < i ==> layers@[(#[trigger] order@[k]) as int].0.z > depth,
            decreases at,
        {
            at -= 1;
        }
        let ghost before = order@;
        order.insert(at, i);
        proof {
            before.insert_ensures(at as int, i);
            let after = order@;
            assert forall|a: int, b: int| 0 <= a < b < i + 1 implies lies_below(
                layers@,
                (#[trigger] after[a]) as int,
                (#[trigger] after[b]) as int,
            ) by {
                let pa = if a < at {
                    a
                } else {
                    a - 1
                };
                let pb = if b < at {
                    b
                } else {
                    b - 1
                };
                if a != at {
                    assert(after[a] == before[pa]);
                }
                if b != at {
                    assert(after[b] == before[pb]);
                }
                if b == at {
                    // `a` comes before the new layer
                    if a < at - 1 {
                        assert(lies_below(layers@, before[a] as int, before[at - 1] as int));
                    }
                } else if a == at {
                    // the new layer comes before `b`
                } else {
                    assert(lies_below(layers@, before[pa] as int, before[pb] as int));
                }
            }
            assert forall|j: int| 0 <= j < i + 1 implies #[trigger] lists(after, j) by {
                if j == i {
                    assert(after[at as int] == j);
                } else {
                    assert(lists(before, j));
                    let k = choose|k: int| 0 <= k < before.len() && #[trigger] before[k] == j;
                    if k < at {
                        assert(after[k] == j);
                    } else {
                        assert(after[k + 1] == before[k]);
                    }
                }
            }
            assert forall|k: int| 0 <= k < i + 1 implies 0 <= #[trigger] after[k] < i + 1 by {
                if k < at {
                    assert(after[k] == before[k]);
                } else if k > at {
                    assert(after[k] == before[k - 1]);
                }
            }
        }
        i += 1;
    }
    order
}

/// The place in `order` of the last of its first `k` layers that has a
/// pixel at `(x, y)`: the layer that shows there once those `k` are painted,
/// one over the other.
spec fn painted(layers: Seq<Layer>, order: Seq<usize>, k: int, x: int, y: int) -> Option<
    int,
>
    decreases k,
{
    if k <= 0 {
        None
    } else if covers(layers[order[k - 1] as int], x, y) {
        Some(k - 1)
    } else {
        painted(layers, order, k - 1, x, y)
    }
}

/// Byte `c` of the pixel `(x, y)` once the first `k` layers of `order` are
/// painted over a zeroed image.
spec fn painted_byte(
    layers: Seq<Layer>,
    order: Seq<usize>,
    k: int,
    x: int,
    y: int,
    c: int,
) -> u8 {
    match painted(layers, order, k, x, y) {
        Some(at) => {
            let layer = layers[order[at] as int];
            image_of(layer).byte_at(x - layer.0.x, y - layer.0.y, c)
        },
        None => 0u8,
    }
}

/// Layers the given textures into one image.
///
/// Every texture must be available, and there must be one. The image is
/// as large as the textures reach from (0, 0). Each pixel shows the topmost
/// texture that lies over it, and is zero where none does.
pub fn mash_textures(layers: &[Layer]) -> (made: Result<PixelBuffer, MashError>)
    requires
        mash_fits(layers@),
    ensures
        !layers_resolved(layers@) ==> made matches Err(MashError::UnresolvedHandle),
        layers_resolved(layers@) && layers@.len() == 0 ==> made matches Err(MashError::EmptyInput),
        layers_resolved(layers@) && layers@.len() > 0 ==> made is Ok,
        made matches Ok(out) ==> is_mashup(out@, layers@),
{
    if !all_layers_resolved(layers) {
        return Err(MashError::UnresolvedHandle);
    }
    let n = layers.len();
    if n == 0 {
        return Err(MashError::EmptyInput);
    }
    let order = depth_order(layers);
    proof {
        lemma_mash_size_exists(layers@);
    }
    let image_width = measure_width(layers).unwrap();
    let image_height = measure_height(layers).unwrap();
    let ghost w = image_width as int;
    let ghost h = image_height as int;
    proof {
        assert(0 <= w * h) by (nonlinear_arith)
            requires
                0 <= w,
                0 <= h,
        ;
    }
    let len: usize = image_width * image_height * 4;
    let mut image_data = vec![0u8; len];
    assert forall|x: int, y: int, c: int| 0 <= x < w && 0 <= y < h && 0 <= c < 4 implies #[trigger] byte_at(
        image_data@,
        w,
        4,
        x,
        y,
        c,
    ) == painted_byte(layers@, order@, 0, x, y, c) by {
        lemma_offset_in_bounds(x, y, c, 4, w, h);
    }
    let mut k: usize = 0;
    while k < n
        invariant
            k <= n,
            n == layers@.len(),
            layers_resolved(layers@),
            layers_four_byte(layers@),
            is_depth_order(layers@, order@),
            is_mash_width(layers@, w),
            is_mash_height(layers@, h),
            w == mash_width(layers@),
            h == mash_height(layers@),
            w == image_width,
            h == image_height,
            image_data@.len() == w * h * 4,
            forall|x: int, y: int, c: int|
                0 <= x < w && 0 <= y < h && 0 <= c < 4 ==> #[trigger] byte_at(
                    image_data@,
                    w,
                    4,
                    x,
                    y,
                    c,
                ) == painted_byte(layers@, order@, k as int, x, y, c),
        decreases n - k,
    {
        let offset = layers[order[k]].0;
        let texture = layers[order[k]].1.unwrap();
        let ghost layer = layers@[order@[k as int] as int];
        let ghost held = image_data@;
        let part_width = texture.width();
        let part_height = texture.height();
        proof {
            use_type_invariant(texture);
            assert(right_of(layer) <= w);
            assert(bottom_of(layer) <= h);
            assert((offset.y + part_height) * w * 4 <= w * h * 4) by (nonlinear_arith)
                requires
                    offset.y + part_height <= h,
                    0 <= w,
            ;
        }
        copy_pixels(
            &mut image_data,
            image_width,
            texture.data(),
            part_width,
            part_height,
            4,
            offset.x,
            offset.y,
        );
        proof {
            assert forall|x: int, y: int, c: int|
                0 <= x < w && 0 <= y < h && 0 <= c < 4 implies #[trigger] byte_at(
                image_data@,
                w,
                4,
                x,
                y,
                c,
            ) == painted_byte(layers@, order@, k + 1, x, y, c) by {
                lemma_offset_in_bounds(x, y, c, 4, w, h);
                assert(addressable(x, y, c, 4, w, held.len() as int));
                assert(byte_at(held, w, 4, x, y, c) == painted_byte(
                    layers@,
                    order@,
                    k as int,
                    x,
                    y,
                    c,
                ));
            }
        }
        k += 1;
    }
    let made = PixelBuffer::new(image_width, image_height, PixelFormat::rgba8_unorm_srgb(), image_data);
    let out = made.unwrap();
    proof {
        assert forall|x: int, y: int, c: int| out@.contains(x, y) && 0 <= c < 4 implies #[trigger] out@.byte_at(
            x,
            y,
            c,
        ) == mash_byte(layers@, x, y, c) by {
            lemma_painted_is_top(layers@, order@, x, y);
            assert(out@.byte_at(x, y, c) == byte_at(out@.bytes, w, 4, x, y, c));
        }
    }
    Ok(out)
}

/// Whether every texture's image is available.
pub fn all_layers_resolved(layers: &[Layer]) -> (yes: bool)
    ensures
        yes == layers_resolved(layers@),
{
    let mut i: usize = 0;
    while i < layers.len()
        invariant
            i <= layers@.len(),
            forall|j: int| 0 <= j < i ==> (#[trigger] layers@[j]).1 is Some,
        decreases layers@.len() - i,
    {
        if layers[i].1.is_none() {
            return false;
        }
        i += 1;
    }
    true
}

/// How far right the layers reach, if a `usize` can hold it.
pub fn measure_width(layers: &[Layer]) -> (width: Option<usize>)
    requires
        layers_resolved(layers@),
        layers@.len() > 0,
    ensures
        width is Some <==> mash_width(layers@) <= usize::MAX,
        width matches Some(w) ==> w == mash_width(layers@),
{
    proof {
        lemma_mash_size_exists(layers@);
    }
    let mut width: usize = 0;
    let mut i: usize = 0;
    while i < layers.len()
        invariant
            i <= layers@.len(),
            layers_resolved(layers@),
            is_mash_width(layers@, mash_width(layers@)),
            i > 0 ==> exists|j: int| 0 <= j < i && right_of(#[trigger] layers@[j]) == width,
            forall|j: int| 0 <= j < i ==> right_of(#[trigger] layers@[j]) <= width,
        decreases layers@.len() - i,
    {
        let texture = layers[i].1.unwrap();
        let right = match layers[i].0.x.checked_add(texture.width()) {
            Some(right) => right,
            None => {
                assert(right_of(layers@[i as int]) <= mash_width(layers@));
                return None;
            },
        };
        if right > width || i == 0 {
            width = right;
        }
        i += 1;
    }
    proof {
        lemma_mash_size_unique_width(layers@, width as int);
    }
    Some(width)
}

/// How far down the layers reach, if a `usize` can hold it.
pub fn measure_height(layers: &[Layer]) -> (height: Option<usize>)
    requires
        layers_resolved(layers@),
        layers@.len() > 0,
    ensures
        height is Some <==> mash_height(layers@) <= usize::MAX,
        height matches Some(h) ==> h == mash_height(layers@),
{
    proof {
        lemma_mash_size_exists(layers@);
    }
    let mut height: usize = 0;
    let mut i: usize = 0;
    while i < layers.len()
        invariant
            i <= layers@.len(),
            layers_resolved(layers@),
            is_mash_height(layers@, mash_height(layers@)),
            i > 0 ==> exists|j: int| 0 <= j < i && bottom_of(#[trigger] layers@[j]) == height,
            forall|j: int| 0 <= j < i ==> bottom_of(#[trigger] layers@[j]) <= height,
        decreases layers@.len() - i,
    {
        let texture = layers[i].1.unwrap();
        let bottom = match layers[i].0.y.checked_add(texture.height()) {
            Some(bottom) => bottom,
            None => {
                assert(bottom_of(layers@[i as int]) <= mash_height(layers@));
                return None;
            },
        };
        if bottom > height || i == 0 {
            height = bottom;
        }
        i += 1;
    }
    proof {
        lemma_mash_size_unique_height(layers@, height as int);
    }
    Some(height)
}

/// Whether the layers are such as `mash_textures` asks of its callers.
pub fn layers_fit(layers: &[Layer]) -> (yes: bool)
    ensures
        yes == mash_fits(layers@),
{
    if !all_layers_resolved(layers) || layers.len() == 0 {
        return true;
    }
    let mut i: usize = 0;
    while i < layers.len()
        invariant
            i <= layers@.len(),
            layers_resolved(layers@),
            forall|j: int| 0 <= j < i ==> (#[trigger] layers@[j]).1.unwrap()@.bpp() == 4,
        decreases layers@.len() - i,
    {
        let texture = layers[i].1.unwrap();
        if !texture.format().is_four_byte() {
            return false;
        }
        i += 1;
    }
    let (width, height) = match (measure_width(layers), measure_height(layers)) {
        (Some(width), Some(height)) => (width, height),
        _ => {
            return false;
        },
    };
    match width.checked_mul(height) {
        Some(pixels) => pixels.checked_mul(4).is_some(),
        None => false,
    }
}

/// The layers reach only one width.
pub proof fn lemma_mash_size_unique_width(layers: Seq<Layer>, w: int)
    requires
        is_mash_width(layers, w),
    ensures
        mash_width(layers) == w,
{
}

/// The layers reach only one height.
pub proof fn lemma_mash_size_unique_height(layers: Seq<Layer>, h: int)
    requires
        is_mash_height(layers, h),
    ensures
        mash_height(layers) == h,
{
}

/// Wherever there is a layer, the layers reach some width and some height.
pub proof fn lemma_mash_size_exists(layers: Seq<Layer>)
    requires
        layers.len() > 0,
    ensures
        is_mash_width(layers, mash_width(layers)),
        is_mash_height(layers, mash_height(layers)),
    decreases layers.len(),
{
    let last = layers.last();
    if layers.len() == 1 {
        assert(layers[0] == last);
        assert(is_mash_width(layers, right_of(last)));
        assert(is_mash_height(layers, bottom_of(last)));
    } else {
        let rest = layers.drop_last();
        lemma_mash_size_exists(rest);
        let n = rest.len() as int;
        assert(layers[n] == last);
        let w = if right_of(last) > mash_width(rest) {
            right_of(last)
        } else {
            mash_width(rest)
        };
        let h = if bottom_of(last) > mash_height(rest) {
            bottom_of(last)
        } else {
            mash_height(rest)
        };
        let ww = choose|i: int| 0 <= i < rest.len() && right_of(#[trigger] rest[i]) == mash_width(rest);
        let wh = choose|i: int|
            0 <= i < rest.len() && bottom_of(#[trigger] rest[i]) == mash_height(rest);
        assert(layers[ww] == rest[ww] && layers[wh] == rest[wh]);
        assert forall|i: int| 0 <= i < layers.len() implies right_of(#[trigger] layers[i]) <= w
            && bottom_of(layers[i]) <= h by {
            if i < n {
                assert(layers[i] == rest[i]);
            }
        }
        assert(is_mash_width(layers, w));
        assert(is_mash_height(layers, h));
    }
}

/// The layer that `top_layer` names is the one that shows; it names none
/// only where no layer has a pixel.
pub proof fn lemma_top_layer_shows(layers: Seq<Layer>, n: int, x: int, y: int)
    requires
        0 <= n <= layers.len(),
    ensures
        match top_layer(layers, n, x, y) {
            Some(i) => shows_at(layers, n, i, x, y),
            None => forall|j: int| 0 <= j < n ==> !covers(#[trigger] layers[j], x, y),
        },
    decreases n,
{
    if n > 0 {
        lemma_top_layer_shows(layers, n - 1, x, y);
    }
}

/// A layer that shows is the one that `top_layer` names.
pub proof fn lemma_shown_is_top(layers: Seq<Layer>, n: int, i: int, x: int, y: int)
    requires
        0 <= n <= layers.len(),
        shows_at(layers, n, i, x, y),
    ensures
        top_layer(layers, n, x, y) == Some(i),
{
    lemma_top_layer_shows(layers, n, x, y);
    assert(covers(layers[i], x, y));
}

/// Painting the layers one over the other, from the lowest to the topmost,
/// leaves at every pixel the layer that shows there.
proof fn lemma_painted_is_top(layers: Seq<Layer>, order: Seq<usize>, x: int, y: int)
    requires
        is_depth_order(layers, order),
    ensures
        match painted(layers, order, order.len() as int, x, y) {
            Some(at) => 0 <= at < order.len() && top_layer(layers, layers.len() as int, x, y)
                == Some(order[at] as int),
            None => top_layer(layers, layers.len() as int, x, y) is None,
        },
{
    let n = layers.len() as int;
    lemma_painted(layers, order, n, x, y);
    lemma_top_layer_shows(layers, n, x, y);
    match painted(layers, order, n, x, y) {
        Some(at) => {
            let i = order[at] as int;
            assert forall|j: int| 0 <= j < n && j != i && covers(#[trigger] layers[j], x, y) implies lies_below(
                layers,
                j,
                i,
            ) by {
                assert(lists(order, j));
                let k = choose|k: int| 0 <= k < order.len() && #[trigger] order[k] == j;
                assert(k < at);
                assert(lies_below(layers, order[k] as int, order[at] as int));
            }
            lemma_shown_is_top(layers, n, i, x, y);
        },
        None => {
            assert forall|j: int| 0 <= j < n implies !covers(#[trigger] layers[j], x, y) by {
                assert(lists(order, j));
                let k = choose|k: int| 0 <= k < order.len() && #[trigger] order[k] == j;
                assert(!covers(layers[order[k] as int], x, y));
            }
        },
    }
}

/// What `painted` names is the last of the first `k` layers of `order` that
/// has a pixel at `(x, y)`.
proof fn lemma_painted(layers: Seq<Layer>, order: Seq<usize>, k: int, x: int, y: int)
    requires
        0 <= k <= order.len(),
    ensures
        match painted(layers, order, k, x, y) {
            Some(at) => {
                &&& 0 <= at < k
                &&& covers(layers[order[at] as int], x, y)
                &&& forall|later: int|
                    at < later < k ==> !covers(layers[(#[trigger] order[later]) as int], x, y)
            },
            None => forall|at: int| 0 <= at < k ==> !covers(layers[(#[trigger] order[at]) as int], x, y),
        },
    decreases k,
{
    if k > 0 {
        lemma_painted(layers, order, k - 1, x, y);
    }
}

} // verus!
