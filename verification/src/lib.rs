//! Readers for the asset formats of the 1997 strategy game Constructor:
//! the obfuscated `.FIL` archives, the palette chunk of level files, the
//! run-length encoded `.SPR` sprite files, and the layout of sprite sheets.
//! Every reader works on bytes already in memory; files are read elsewhere.

pub mod parser;
pub mod extractor;
