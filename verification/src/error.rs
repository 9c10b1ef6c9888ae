use vstd::prelude::*;

verus! {

/// Every failure the aggregator can report. All of them are fatal: the run
/// aborts at the first one and produces no output.
#[derive(Clone, Copy, Debug, PartialEq, Eq, Structural)]
pub enum AggError {
    /// The input path does not exist or is inaccessible.
    NotFound,
    /// The input file has zero length, or yields no complete record.
    Empty,
    /// Acquiring the byte view failed for any other reason.
    IoError,
    /// A line lacks the separator byte.
    MalformedLine,
    /// The value segment of a line is not a valid number.
    ParseError,
}

} // verus!
