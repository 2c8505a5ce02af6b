//! Decoding and encoding of the graphics lumps of a game asset container:
//! fixed-size flats, column-encoded sprites, and textures composed of patches.
pub mod bytes;
pub mod columns;
pub mod error;
pub mod flat;
pub mod planes;
pub mod rangetools;
pub mod raster;
pub mod roundtrip;
pub mod sprite;
pub mod sprite_canvas;
pub mod texture;

pub use columns::Graphic;
pub use error::GfxError;
pub use flat::Flat;
pub use raster::{scale, Fraction};
pub use sprite::{Column, Span, Sprite};
pub use sprite_canvas::{render_sprite, SpriteCanvas};
pub use texture::{
    parse_pnames, render_patches, render_texture, EagerPatchProvider, LazyPatchProvider, Patch,
    PatchProvider, Texture, TextureDirectory,
};
