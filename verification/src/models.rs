//! The shapes of the two requests, with the values that take the place of what a caller left
//! out.

use vstd::prelude::*;
use crate::metadata::Metadata;

verus! {

/// The number of results that a query asks for where it names none.
pub open spec fn spec_default_k() -> usize {
    5
}

/// The number of results that a query asks for where it names none.
#[verifier::when_used_as_spec(spec_default_k)]
pub fn default_k() -> (out: usize)
    ensures
        out == 5,
{
    5
}

/// A request to ingest a vector, given as binary32 bit patterns, with its metadata.
#[derive(Debug)]
pub struct IngestRequest {
    pub vector: Vec<u32>,
    pub metadata: Metadata,
}

impl IngestRequest {
    /// The request for `vector`; metadata that was left out is empty.
    pub fn new(vector: Vec<u32>, metadata: Option<Metadata>) -> (out: IngestRequest)
        ensures
            out.vector == vector,
            out.metadata@ == match metadata {
                Some(given) => given@,
                None => Map::<Seq<char>, Seq<char>>::empty(),
            },
    {
        let metadata = match metadata {
            Some(given) => given,
            None => Metadata::new(),
        };
        IngestRequest { vector, metadata }
    }
}

/// A request for the `k` entries nearest to a probe vector, given as binary32 bit patterns,
/// among those that satisfy a filter.
#[derive(Debug)]
pub struct QueryRequest {
    pub vector: Vec<u32>,
    pub k: usize,
    pub filter: Metadata,
}

impl QueryRequest {
    /// The request for `vector`; a `k` that was left out is `default_k()`, and a filter that
    /// was left out is empty, so that every entry satisfies it.
    pub fn new(vector: Vec<u32>, k: Option<usize>, filter: Option<Metadata>) -> (out: QueryRequest)
        ensures
            out.vector == vector,
            out.k == match k {
                Some(given) => given,
                None => default_k(),
            },
            out.filter@ == match filter {
                Some(given) => given@,
                None => Map::<Seq<char>, Seq<char>>::empty(),
            },
    {
        let k = match k {
            Some(given) => given,
            None => default_k(),
        };
        let filter = match filter {
            Some(given) => given,
            None => Metadata::new(),
        };
        QueryRequest { vector, k, filter }
    }
}

} // verus!
