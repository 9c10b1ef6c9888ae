//! Per-key summary statistics (minimum, maximum, mean) over a delimited
//! text file: one `key;value` record per line, values read as fixed-point
//! decimals with three fractional digits. The input is split into chunks
//! on line boundaries, each chunk is aggregated on its own, and the
//! partial results are merged; the merge is proved order-independent.

pub mod agg;
pub mod chunk;
pub mod error;
pub mod num;
pub mod pipeline;
pub mod render;
pub mod scan;
pub mod source;
pub mod stats;
pub mod table;

pub use error::AggError;
