//! Hybrid search requests. Each lane (literal BM25, and the vector lane when
//! an embedder is attached) over-fetches so that rank fusion has room to
//! re-rank: four times the requested results, at least 20.

use vstd::prelude::*;

verus! {

/// A search request: the text and how many results are wanted.
#[derive(Debug)]
pub struct SearchQuery {
    pub text: String,
    pub limit: usize,
}

impl Clone for SearchQuery {
    fn clone(&self) -> (r: Self)
        ensures
            r == *self,
    {
        SearchQuery { text: self.text.clone(), limit: self.limit }
    }
}

/// Results wanted: the limit, but at least one.
pub open spec fn result_limit_spec(limit: usize) -> int {
    if limit < 1 {
        1
    } else {
        limit as int
    }
}

/// Hits fetched from each lane: four times the results wanted, at least 20.
pub open spec fn lane_limit_spec(limit: usize) -> int {
    if result_limit_spec(limit) * 4 < 20 {
        20
    } else {
        result_limit_spec(limit) * 4
    }
}

impl SearchQuery {
    /// Results wanted: the limit, but at least one.
    pub fn result_limit(&self) -> (r: usize)
        ensures
            r == result_limit_spec(self.limit),
    {
        if self.limit < 1 {
            1
        } else {
            self.limit
        }
    }

    /// Hits fetched from each lane before fusion.
    pub fn lane_limit(&self) -> (r: usize)
        requires
            result_limit_spec(self.limit) * 4 <= usize::MAX,
        ensures
            r == lane_limit_spec(self.limit),
    {
        let l = self.result_limit();
        let over = l * 4;
        if over < 20 {
            20
        } else {
            over
        }
    }
}

/// Each lane fetches at least 20 hits and at least four times the results
/// wanted, so fusion always sees more candidates than it returns.
pub proof fn lemma_lanes_overfetch(limit: usize)
    ensures
        lane_limit_spec(limit) >= 20,
        lane_limit_spec(limit) >= 4 * result_limit_spec(limit),
        lane_limit_spec(limit) > result_limit_spec(limit),
{
}

} // verus!
