use vstd::prelude::*;

pub mod stat;
pub mod words;
pub mod line_parser;
pub mod site;
pub mod aggregate;
pub mod rank;
pub mod output;
pub mod corpus;

verus! {

/// Why a run of the pipeline was aborted. Every error is fatal: the caller
/// emits no report when one of these comes back.
#[derive(Clone, Copy, Debug, PartialEq, Eq, Structural)]
pub enum Error {
    /// A line was not a JSON object carrying `texts` and `tags` arrays of strings.
    MalformedRecord,
    /// A counter sum left the range of its integer type.
    CounterOverflow,
    /// The requested worker count was not a positive integer.
    InvalidWorkerCount,
}

} // verus!
