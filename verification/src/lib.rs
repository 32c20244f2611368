//! Renders the module matrix of a QR symbol into a picture.
//!
//! `raster` holds the canvas and the copy of one rectangle of pixels onto
//! another canvas; `tiler` the two ways of drawing one module; `pattern` the
//! finder and alignment patterns and the places where they are stamped;
//! `render` the way from a text or a matrix to the finished canvas.

pub mod pattern;
pub mod raster;
pub mod render;
pub mod tiler;
