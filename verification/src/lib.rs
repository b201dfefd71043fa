//! Pixel sorting: reorders the pixels of a raster image along rows or
//! columns by one channel of a chosen color representation, then writes
//! back only the masked channels of the reordered pixels.
pub mod color;
pub mod program_arguments;
pub mod raster;
pub mod sorting;
pub mod text;
