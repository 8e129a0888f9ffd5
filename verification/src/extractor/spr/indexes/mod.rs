//! Which sprite frames make up which animation, per sprite file.

pub mod men;
