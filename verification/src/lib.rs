//! A small pixel-buffer compositing toolkit.
//!
//! Three operations are offered on flat, row-major pixel buffers: stitching
//! equally sized tiles into a tile map, layering textures of any size by a
//! depth key, and mapping a function over every pixel of a texture.

pub mod addressing;
pub mod blit;
pub mod pixel_buffer;
pub mod pixel_format;
pub mod test_utils;
pub mod texture_mashup;
pub mod texture_mashup_lemmas;
pub mod texture_modification;
pub mod tile_map_lemmas;
pub mod tile_map_texture;

pub use pixel_buffer::{PixelBuffer, PixelBytes};
pub use pixel_format::PixelFormat;
pub use texture_mashup::{mash_textures, MashError, Offset};
pub use texture_modification::{map_to_new_texture, map_to_texture_pixels, modify_texture};
pub use tile_map_texture::{GridPosition, TileMapError, TileMapTextureCreator};
