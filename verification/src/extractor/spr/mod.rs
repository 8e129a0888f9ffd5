//! Sprite sheets and the index of which sprites make up which animation.

pub mod indexes;
pub mod sheet;
