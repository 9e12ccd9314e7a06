//! Catalog maintenance for a tiled orthophoto map: the per-cell catalog
//! format, the bookkeeping done when a tileset is added, and the integer
//! side of the S2 cell covering of a tileset's outline.

pub mod catalog_file;
pub mod catalog_format;
pub mod cells;
pub mod coverage;
pub mod csv_io;
pub mod errors;
pub mod input_file;
pub mod laws;
pub mod paths;
pub mod outside_errors;
pub mod text;
