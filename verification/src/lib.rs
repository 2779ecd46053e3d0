//! Small verified algorithms and data structures, centred on content-aware
//! image narrowing by seam carving.

pub mod algos;
pub mod bst;
pub mod carve;
pub mod collatz;
pub mod context;
pub mod design;
pub mod iter;
pub mod picture;
pub mod text;
pub mod tui;
