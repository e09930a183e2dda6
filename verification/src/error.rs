//! Terminal, non-retryable outcomes reported to the caller.

use vstd::prelude::*;

verus! {

/// A failed computation. Every variant is terminal: the engine never retries
/// internally, and the caller must change the input to get a different
/// outcome.
#[derive(Debug, PartialEq, Eq)]
pub enum Error {
    /// The terminal-set size or the projected table size exceeds the
    /// tractability bound; carries the vertex count.
    TooLargeInput(usize),
    /// An edge endpoint or a terminal references a vertex index outside
    /// `0..n`; carries the offending input back to the caller.
    InvalidArg(usize, Vec<(usize, usize)>, Vec<usize>),
    /// The computation finished, but no vertex reaches every terminal: the
    /// graph is disconnected with respect to the terminal set.
    TerminalNotConnected,
}

/// Ghost image of an `Error`.
pub enum ErrorSpec {
    TooLargeInput(usize),
    InvalidArg(usize, Seq<(usize, usize)>, Seq<usize>),
    TerminalNotConnected,
}

impl View for Error {
    type V = ErrorSpec;

    open spec fn view(&self) -> ErrorSpec {
        match self {
            Error::TooLargeInput(n) => ErrorSpec::TooLargeInput(*n),
            Error::InvalidArg(n, edges, terms) => ErrorSpec::InvalidArg(*n, edges@, terms@),
            Error::TerminalNotConnected => ErrorSpec::TerminalNotConnected,
        }
    }
}

} // verus!
