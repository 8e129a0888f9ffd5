//! Parsers for the raw file formats.

pub mod codec;
pub mod types;
pub mod fil;
pub mod lev;
pub mod spr;
