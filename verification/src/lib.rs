//! A glitch-art library built around a verified pixel-sort engine.
//!
//! An image is a grid of RGBA pixels. The engine partitions each row into
//! contiguous runs bounded by generated column boundaries, orders the
//! mask-active pixels of each run by a chosen visual key, and re-renders the
//! row with the sorted pixels while masked-out pixels keep their place.

pub mod raster;

mod entropy;

pub mod pixel_sort;

pub mod remap;
