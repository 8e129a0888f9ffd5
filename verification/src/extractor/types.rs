//! The values that sprite sheets are made from.

use vstd::prelude::*;
use crate::parser::types::SpriteImage as ParsedSprite;

pub use crate::parser::types::{AssetError, SpriteBuffer};

verus! {

/// A sprite placed by its offsets: the first two numbers of a sprite record
/// read as signed offsets from the point where the sprite is drawn.
#[derive(Clone, Debug, PartialEq, Eq)]
pub struct SpriteImage {
    pub offset_h: i16,
    pub offset_v: i16,
    pub width: u16,
    pub height: u16,
    pub image_buf: SpriteBuffer,
}

impl SpriteImage {
    /// The image has the sprite's dimensions and holds all its pixels.
    pub open spec fn wf(&self) -> bool {
        &&& self.image_buf.width == self.width
        &&& self.image_buf.height == self.height
        &&& self.image_buf.wf()
    }

    /// Reads the two grouping numbers of a parsed sprite as the signed
    /// offsets they encode (two's complement), keeping its image.
    pub fn from_parsed(sprite: ParsedSprite) -> (placed: SpriteImage)
        ensures
            placed.offset_h == sprite.chunk1 as i16,
            placed.offset_v == sprite.chunk2 as i16,
            placed.width == sprite.width,
            placed.height == sprite.height,
            placed.image_buf == sprite.image_buf,
    {
        SpriteImage {
            offset_h: sprite.chunk1 as i16,
            offset_v: sprite.chunk2 as i16,
            width: sprite.width,
            height: sprite.height,
            image_buf: sprite.image_buf,
        }
    }
}

} // verus!
