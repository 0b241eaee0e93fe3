//! Integer Chaos Game Representation of DNA sequences: an exact, reversible
//! encoding of a nucleotide sequence into `(x, y, n)` integer triples, the
//! chunking that keeps the integers bounded, and the tab-separated record
//! format that stores them.

pub mod bicgr;
pub mod chunker;
pub mod config;
pub mod error;
pub mod icgr;
pub mod merge;
pub mod text;
pub mod transform;
pub mod vertex;
