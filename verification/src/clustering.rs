//! Grouping of nodes into clusters by turns.

use vstd::prelude::*;

verus! {

/// Of the first `count` nodes those that fall to cluster `j` of `k`: the
/// nodes whose index leaves the remainder `j` when divided by `k`, in
/// ascending order.
pub open spec fn cluster_members(count: nat, k: nat, j: nat) -> Seq<usize>
    decreases count,
{
    if count == 0 {
        Seq::empty()
    } else {
        let before = cluster_members((count - 1) as nat, k, j);
        if k > 0 && (count - 1) % (k as int) == j {
            before.push((count - 1) as usize)
        } else {
            before
        }
    }
}

/// Groups nodes into a given number of clusters.
pub struct Clusterer;

impl Clusterer {
    /// Deals the nodes `0 .. node_count` out to `k` clusters in turn: node
    /// `i` goes to cluster `i % k`. With nodes to deal out there has to be a
    /// cluster to take them.
    pub fn k_means(node_count: usize, k: usize) -> (clusters: Vec<Vec<usize>>)
        requires
            k > 0 || node_count == 0,
        ensures
            clusters@.len() == k,
            forall|j: int|
                0 <= j < k ==> (#[trigger] clusters@[j])@ == cluster_members(
                    node_count as nat,
                    k as nat,
                    j as nat,
                ),
    {
        let mut clusters: Vec<Vec<usize>> = Vec::new();
        while clusters.len() < k
            invariant
                clusters@.len() <= k,
                forall|j: int|
                    0 <= j < clusters@.len() ==> (#[trigger] clusters@[j])@ == Seq::<
                        usize,
                    >::empty(),
            decreases k - clusters@.len(),
        {
            clusters.push(Vec::new());
        }
        let mut i: usize = 0;
        while i < node_count
            invariant
                i <= node_count,
                k > 0 || node_count == 0,
                clusters@.len() == k,
                forall|j: int|
                    0 <= j < k ==> (#[trigger] clusters@[j])@ == cluster_members(
                        i as nat,
                        k as nat,
                        j as nat,
                    ),
            decreases node_count - i,
        {
            let turn = i % k;
            clusters[turn].push(i);
            i += 1;
        }
        clusters
    }
}

} // verus!
