//! Turning parsed sprites into sprite sheets.

pub mod types;
pub mod spr;
