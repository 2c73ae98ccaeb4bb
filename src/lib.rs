//! Strided traversal over a contiguous buffer: visits every k-th element,
//! from either end, without copying or allocating.
//!
//! Positions are plain indices into the borrowed buffer; a [`Cursor`] holds
//! the first and last remaining positions, the signed stride and the number
//! of positions left.
pub mod cursor;
pub mod stride;
pub mod laws;

pub use cursor::Cursor;
pub use stride::{MutStride, Stride};
