//! A software rasterizer: an image codec for uncompressed and run-length
//! coded truecolor and grayscale files, Bresenham lines, and depth-tested,
//! textured triangle fills.
pub mod obj;
pub mod renderer;
pub mod rle;
pub mod tga;
