//! Escape-time rendering of the Mandelbrot set into an 8-bit grayscale
//! raster: the layout of the raster, the partition of an image into bands
//! for parallel workers, the band renderer, the image container, and the
//! parsing of command-line arguments.

pub mod args;
pub mod banded;
pub mod bounds;
pub mod encoder;
pub mod render;
pub mod schedule;
