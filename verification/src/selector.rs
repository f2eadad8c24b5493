//! Picks the entry of a score vector that ranks highest.

use crate::graph::Graph;
use vstd::prelude::*;

verus! {

/// Whether `idx` is the position of the first greatest entry of `scores`.
pub open spec fn is_first_maximum(scores: Seq<u64>, idx: int) -> bool {
    &&& 0 <= idx < scores.len()
    &&& forall|j: int| 0 <= j < scores.len() ==> scores[j] <= scores[idx]
    &&& forall|j: int| 0 <= j < idx ==> scores[j] < scores[idx]
}

/// Index of the greatest entry of `scores`; of the first one where several
/// entries are equally great. `None` exactly when there is no entry.
pub fn highest_score_index(scores: &[u64]) -> (best: Option<usize>)
    ensures
        scores@.len() == 0 <==> best is None,
        best matches Some(idx) ==> is_first_maximum(scores@, idx as int),
{
    if scores.len() == 0 {
        return None;
    }
    let mut best: usize = 0;
    let mut i: usize = 1;
    while i < scores.len()
        invariant
            1 <= i <= scores.len(),
            is_first_maximum(scores@.take(i as int), best as int),
        decreases scores.len() - i,
    {
        if scores[i] > scores[best] {
            best = i;
        }
        i += 1;
    }
    assert(scores@.take(i as int) =~= scores@);
    Some(best)
}

/// The nodes of `graph` that score highest in closeness and in betweenness,
/// in this order. The scores are given by rank: numbers that are ordered as
/// the scores are. Of several nodes with the highest rank the first is taken;
/// `None` stands for a measure without scores.
pub fn get_highest_centrality_indices(
    _graph: &Graph,
    closeness: &[u64],
    betweenness: &[u64],
) -> (best: (Option<usize>, Option<usize>))
    ensures
        closeness@.len() == 0 <==> best.0 is None,
        best.0 matches Some(idx) ==> is_first_maximum(closeness@, idx as int),
        betweenness@.len() == 0 <==> best.1 is None,
        best.1 matches Some(idx) ==> is_first_maximum(betweenness@, idx as int),
{
    (highest_score_index(closeness), highest_score_index(betweenness))
}

} // verus!
