//! rumpy — a numpy-compatible array core with verified contracts.
//!
//! The library models numpy's dtype system and its promotion rules, the
//! shape algebra of n-dimensional arrays (broadcasting, reshaping, flipping,
//! rolling, triangular masks), the `.npy` / `.npz` binary formats and the
//! raw `tofile` / `fromfile` layout, and the integer-valued random routines
//! (permutations, shuffles, choices) on top of an outside generator.
pub mod arith;
pub mod assign;
pub mod axes;
pub mod broadcast;
pub mod crc32;
pub mod dtype;
pub mod dtype_info;
pub mod fold;
pub mod index;
pub mod lanes;
pub mod linalg;
pub mod logic;
pub mod mixed;
pub mod nd;
pub mod ops;
pub mod nonzero;
pub mod npy;
pub mod npy_laws;
pub mod npz;
pub mod npz_laws;
pub mod promote;
pub mod random;
pub mod ravel;
pub mod raw;
pub mod reduce;
pub mod scan;
pub mod search;
pub mod sorting;
pub mod split_laws;
pub mod table;
pub mod text;
pub mod text_arrays;
pub mod textio;
pub mod tiling;
pub mod widths;
