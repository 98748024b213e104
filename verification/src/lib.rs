//! List processing engine: delimiter-aware parsing, lax-JSON repair and
//! flattening, normalization-based set comparison, and numeric-aware sorting.

pub mod json;
pub mod numeric;
pub mod operations;
pub mod parser;
pub mod sorting;
pub mod text;
