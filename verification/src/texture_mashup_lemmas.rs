//! What holds of every layered image.

use vstd::prelude::*;
use crate::pixel_buffer::{lemma_raster_equal_by_bytes, Raster};
use crate::texture_mashup::{
    covers, image_of, is_mashup, lemma_shown_is_top, lemma_top_layer_shows, shows_at, Layer,
};

verus! {

/// Where textures overlap, the one that lies above all the others that have
/// a pixel there is what the layered image shows: the one on the greatest
/// layer, and of those the last in the input.
pub proof fn lemma_topmost_layer_shows(
    out: Raster,
    layers: Seq<Layer>,
    i: int,
    x: int,
    y: int,
    c: int,
)
    requires
        is_mashup(out, layers),
        shows_at(layers, layers.len() as int, i, x, y),
        out.contains(x, y),
        0 <= c < 4,
    ensures
        out.byte_at(x, y, c) == image_of(layers[i]).byte_at(x - layers[i].0.x, y - layers[i].0.y, c),
{
    lemma_shown_is_top(layers, layers.len() as int, i, x, y);
}

/// Where exactly two textures overlap, the image shows the one on the
/// greater layer, and the later of the two if they share a layer.
pub proof fn lemma_overlap_resolution(
    out: Raster,
    layers: Seq<Layer>,
    i: int,
    j: int,
    x: int,
    y: int,
    c: int,
)
    requires
        is_mashup(out, layers),
        0 <= i < layers.len(),
        0 <= j < layers.len(),
        i != j,
        forall|k: int| 0 <= k < layers.len() ==> (covers(#[trigger] layers[k], x, y) <==> k == i || k == j),
        out.contains(x, y),
        0 <= c < 4,
        layers[i].0.z > layers[j].0.z || (layers[i].0.z == layers[j].0.z && i > j),
    ensures
        out.byte_at(x, y, c) == image_of(layers[i]).byte_at(x - layers[i].0.x, y - layers[i].0.y, c),
{
    assert(covers(layers[i], x, y));
    lemma_topmost_layer_shows(out, layers, i, x, y, c);
}

/// A pixel over which no texture lies is zero.
pub proof fn lemma_uncovered_is_zero(out: Raster, layers: Seq<Layer>, x: int, y: int, c: int)
    requires
        is_mashup(out, layers),
        forall|k: int| 0 <= k < layers.len() ==> !covers(#[trigger] layers[k], x, y),
        out.contains(x, y),
        0 <= c < 4,
    ensures
        out.byte_at(x, y, c) == 0,
{
    lemma_top_layer_shows(layers, layers.len() as int, x, y);
}

/// The layers decide the layered image: two images layered from the same
/// layers are the same image.
pub proof fn lemma_mashup_is_unique(a: Raster, b: Raster, layers: Seq<Layer>)
    requires
        is_mashup(a, layers),
        is_mashup(b, layers),
    ensures
        a == b,
{
    lemma_raster_equal_by_bytes(a, b);
}

} // verus!
