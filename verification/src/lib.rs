pub mod color;
pub mod canvas;
pub mod digits;
pub mod header;
pub mod ppm;
pub mod wrap;
