//! Build-time compiler turning per-code-point Unicode property records into
//! compact page-indexed binary tables, a frequency-ranked string pool, and one
//! generated grapheme-cluster-boundary regular expression.

pub mod details;
pub mod aggregate;
pub mod dynamic;
pub mod paged;
pub mod pool;
pub mod rle;
pub mod sequence;
pub mod tables;
pub mod text;
pub mod ud;
pub mod uax29;
