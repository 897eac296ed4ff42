use vstd::prelude::*;

verus! {

/// What can go wrong in a crawl run.
#[derive(Debug, PartialEq, Eq)]
pub enum Errors {
    /// A page could not be fetched; the text says why.
    CrawDataError(String),
    /// The requested depth (first) is above the largest one allowed (second).
    InvalidDepth(usize, usize),
    /// A page could not be written to the store; the text says why.
    SaveDataFailed(String),
    /// A link was submitted after the frontier was shut down.
    SendURL2QueueFailed,
}

} // verus!
