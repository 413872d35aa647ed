//! Block-compressed n-dimensional array storage: index iteration, strided layouts, block
//! geometry heuristics and the small containers they are built from.
pub mod error;
pub mod storage;
pub mod util;

