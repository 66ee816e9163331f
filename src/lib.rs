//! Error-diffusion dithering of RGBA rasters onto small palettes, and the
//! packed byte stream of a seven-color e-paper display.
//!
//! `dithering` holds the kernels and the one-pass diffusion engine, `palette`
//! the palettes and the nearest-color search, `inkplate` the bit packer, and
//! `pipeline` the path from a raster to the display's colors.
pub mod color;
pub mod dithering;
pub mod inkplate;
pub mod palette;
pub mod pipeline;
pub mod raster;
