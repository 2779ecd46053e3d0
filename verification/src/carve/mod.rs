//! Content-aware narrowing of grayscale images.
//!
//! One carving step scores every pixel by its local contrast, accumulates the
//! cheapest top-to-bottom path cost into every cell, traces the cheapest
//! vertical seam back from the bottom row, and cuts that seam out.

pub mod carver;
pub mod cost;
pub mod energy;
pub mod excise;
pub mod grid;
pub mod laws;
pub mod trace;

pub use carver::narrow;
pub use grid::{CarveError, Image};
