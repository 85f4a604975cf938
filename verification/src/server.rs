//! The shapes the transport exchanges with the service, and the mapping
//! from failures to response status codes.

use vstd::prelude::*;

use crate::index::Stats;
use crate::ndjson::dec_chars;
use crate::operations::OperationError;
use crate::text::string_from_chars;

verus! {

/// The body of a whole-index statistics response.
#[derive(Debug)]
pub struct StatsResponse {
    pub len: usize,
    pub stats: Stats,
}

/// The body of a search request.
#[derive(Debug)]
pub struct SearchQuery {
    pub query: String,
}

/// A failure as the transport reports it.
#[derive(Debug)]
pub enum APIError {
    /// An operation was refused.
    Operation(OperationError),
    /// The admission queue is full.
    TooManyRequests,
    /// Something else went wrong; the text is for the log.
    Internal(String),
}

impl APIError {
    /// The HTTP status code this failure maps to.
    pub open spec fn spec_status(&self) -> u16 {
        match self {
            APIError::Operation(OperationError::ReadOnly) => 403,
            APIError::Operation(OperationError::Expression(_)) => 400,
            APIError::Operation(OperationError::Index(_)) => 400,
            APIError::TooManyRequests => 429,
            APIError::Internal(_) => 500,
        }
    }

    /// The status code of the response this failure becomes: forbidden in
    /// read-only mode, bad request for parse and lookup failures, too many
    /// requests on admission overflow, and an internal error otherwise.
    pub fn status_code(&self) -> (r: u16)
        ensures
            r == self.spec_status(),
    {
        match self {
            APIError::Operation(OperationError::ReadOnly) => 403,
            APIError::Operation(OperationError::Expression(_)) => 400,
            APIError::Operation(OperationError::Index(_)) => 400,
            APIError::TooManyRequests => 429,
            APIError::Internal(_) => 500,
        }
    }
}

/// A request latency in microseconds, as the log prints it.
pub fn format_latency(micros: u64) -> (r: String)
    ensures
        r@ == dec_chars(micros as int) + seq!['\u{03BC}', 's'],
{
    let mut out: Vec<char> = Vec::new();
    crate::ndjson::push_dec(&mut out, micros);
    out.push('\u{03BC}');
    out.push('s');
    string_from_chars(&out)
}

} // verus!
