//! Remapping of a binary observation-by-diagnosis matrix onto coarser
//! features, each defined by a fixed set of diagnoses, with an optional floor
//! on the number of observations that support a surviving feature.

pub mod covering;
pub mod csr;
pub mod dictionary;
pub mod maintenance;
pub mod obsolete;
pub mod ordered_set;
pub mod remap;
pub mod resolver;
pub mod substitution;
pub mod support;

pub use csr::{PyArray, PyBasicCsrMatrix, PyShape};
pub use obsolete::remap_rows_smin_obsolete;
pub use remap::{remap_rows, remap_rows_smin};
