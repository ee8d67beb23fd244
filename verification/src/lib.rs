//! Terminal cell styles and the integer parts of rendering a grid of cells.
pub mod cell;

pub use crate::cell::Cell;
pub mod pixels;
pub mod undercurl;
pub mod runs;
