//! Compiler for Unicode collation-element tables.
//!
//! The crate turns the text of a collation-element table (and of the general
//! character property table) into the compact lookup tables that a collation
//! engine loads at start-up: dense arrays, code-point maps, packed-key maps and
//! code-point sets. Every function states what it computes over the text as a
//! sequence of bytes; the proofs are checked by Verus.
//!
//! Reading the files and writing the compiled tables is left to the caller.

pub mod arabic_interleaved;
pub mod arabic_script;
pub mod decomp;
pub mod error;
pub mod fcd;
pub mod remap;
pub mod rows;
pub mod store;
pub mod tables;
pub mod text;
pub mod weights;

pub use decomp::map_decomps;
pub use error::{ErrorKind, TableError};
pub use fcd::map_fcd;
pub use remap::{BUMP, SHIFT};
pub use tables::{map_low, map_multi, map_sing, map_variable, Tailoring};
pub use weights::{pack_code_points, pack_weights, unpack_weights};
