//! The values that the parsers produce.

use vstd::prelude::*;

verus! {

/// One entry of the index at the start of a `.FIL` archive: the name of a
/// stored file and the byte position at which its contents start.
#[derive(Debug)]
pub struct FilIndexItem {
    pub filename: String,
    pub offset: u64,
}

impl View for FilIndexItem {
    type V = (Seq<char>, u64);

    open spec fn view(&self) -> (Seq<char>, u64) {
        (self.filename@, self.offset)
    }
}

/// The decoded index of a `.FIL` archive.
pub struct FilFileIndex {
    pub num_entries: u64,
    pub entries: Vec<FilIndexItem>,
}

impl FilFileIndex {
    /// The entries, each as its name and start position.
    pub open spec fn entries_view(&self) -> Seq<(Seq<char>, u64)> {
        self.entries@.map_values(|e: FilIndexItem| e@)
    }
}

/// A colour with an alpha channel, one byte per channel.
#[derive(Clone, Copy, Debug, PartialEq, Eq)]
pub struct Rgba {
    pub r: u8,
    pub g: u8,
    pub b: u8,
    pub a: u8,
}

/// Channel `c` (0 red, 1 green, 2 blue, otherwise alpha) of a colour.
pub open spec fn channel(p: Rgba, c: int) -> u8 {
    if c == 0 {
        p.r
    } else if c == 1 {
        p.g
    } else if c == 2 {
        p.b
    } else {
        p.a
    }
}

/// An RGBA image: four bytes per pixel, rows from top to bottom, pixels of
/// a row from left to right.
#[derive(Clone, Debug, PartialEq, Eq)]
pub struct SpriteBuffer {
    pub width: u32,
    pub height: u32,
    pub data: Vec<u8>,
}

impl SpriteBuffer {
    /// The buffer holds exactly the bytes of `width * height` pixels.
    pub open spec fn wf(&self) -> bool {
        self.data@.len() == 4 * (self.width * self.height)
    }
}

/// A sprite read from a `.SPR` file.
#[derive(Clone, Debug, PartialEq, Eq)]
pub struct SpriteImage {
    // The first two numbers of a sprite record may group related sprites;
    // their meaning is not known for certain.
    pub chunk1: u16,
    pub chunk2: u16,
    pub width: u16,
    pub height: u16,
    pub image_buf: SpriteBuffer,
}

impl View for SpriteImage {
    type V = (u16, u16, u16, u16, u32, u32, Seq<u8>);

    /// The four header numbers, then the image's dimensions and bytes.
    open spec fn view(&self) -> (u16, u16, u16, u16, u32, u32, Seq<u8>) {
        (
            self.chunk1,
            self.chunk2,
            self.width,
            self.height,
            self.image_buf.width,
            self.image_buf.height,
            self.image_buf.data@,
        )
    }
}

/// Why reading an asset failed.
#[derive(Clone, Copy, Debug, PartialEq, Eq)]
pub enum AssetError {
    /// The data ended before a value that had to be read in full.
    UnexpectedEof,
    /// A chunk name was not valid UTF-8.
    Utf8,
    /// None of the chunks of a level file is the `CMAP` palette chunk.
    CmapChunkMissing,
    /// A sprite sheet was asked for with no sprites.
    EmptySpriteList,
}

} // verus!
