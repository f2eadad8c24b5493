//! Single-source breadth-first search over the flat edge list.

use crate::graph::{links_in_range, Graph};
use crate::paths::{
    across, adjacent, hop_distance, in_meeting_order, is_distance, is_visit_order, joins,
    lemma_across_joins, lemma_distance_is_hop_distance, lemma_first_met_once,
    lemma_visit_order, lemma_within_monotone, listed, first_met, meets_before, met, reachable,
    visit_order, within,
};
use std::collections::VecDeque;
use vstd::prelude::*;
use vstd::set_lib::{lemma_int_range, lemma_len_subset, set_int_range};

verus! {

/// A distance as the search reports it, read as a natural number.
pub open spec fn distance_view(d: Option<usize>) -> Option<nat> {
    match d {
        Some(x) => Some(x as nat),
        None => None,
    }
}

/// The node at the other end of `edge`, seen from `node`, if `edge` touches
/// `node` at all.
pub fn neighbor_across(edge: (usize, usize), node: usize) -> (other: Option<usize>)
    ensures
        other == across(edge, node),
{
    if edge.0 == node {
        Some(edge.1)
    } else if edge.1 == node {
        Some(edge.0)
    } else {
        None
    }
}

/// Whether the search has given `v` a distance.
spec fn seen(dist: Seq<Option<usize>>, v: int) -> bool {
    0 <= v < dist.len() && dist[v] is Some
}

/// The distance that the search has given `v`.
spec fn level(dist: Seq<Option<usize>>, v: int) -> int {
    dist[v]->0 as int
}

/// The state of a search from `start`: `order` lists the nodes in the order
/// in which they were queued, its first `head` nodes have been taken from
/// the queue, and `cur` is the level of the node at `head`.
spec fn search_inv(
    links: Seq<(usize, usize)>,
    start: int,
    dist: Seq<Option<usize>>,
    order: Seq<usize>,
    head: int,
    cur: int,
) -> bool {
    &&& links_in_range(links, dist.len())
    &&& 0 <= start < dist.len()
    &&& 0 <= head <= order.len()
    &&& 0 <= cur
    &&& order.len() >= 1
    &&& order[0] == start
    &&& order.no_duplicates()
    &&& forall|i: int|
        0 <= i < order.len() ==> seen(dist, #[trigger] order[i] as int) && level(
            dist,
            order[i] as int,
        ) <= i && level(dist, order[i] as int) <= cur + 1
    &&& forall|v: int| #[trigger] seen(dist, v) ==> listed(order, v)
    &&& forall|i: int, j: int|
        0 <= i <= j < order.len() ==> level(dist, #[trigger] order[i] as int) <= level(
            dist,
            #[trigger] order[j] as int,
        )
    &&& forall|v: int| #[trigger]
        seen(dist, v) ==> is_distance(links, start, v, level(dist, v) as nat)
    &&& forall|i: int, w: int|
        0 <= i < head && #[trigger] adjacent(links, order[i] as int, w) ==> seen(dist, w)
    &&& forall|x: int| #[trigger] within(links, start, x, cur as nat) ==> seen(dist, x)
    &&& head < order.len() ==> cur == level(dist, order[head] as int)
}

/// Distinct numbers below `n` are at most `n` many.
proof fn lemma_distinct_below(s: Seq<usize>, n: nat)
    requires
        s.no_duplicates(),
        forall|i: int| 0 <= i < s.len() ==> s[i] < n,
    ensures
        s.len() <= n,
{
    let t = s.map_values(|x: usize| x as int);
    t.unique_seq_to_set();
    lemma_int_range(0, n as int);
    lemma_len_subset(t.to_set(), set_int_range(0, n as int));
}

/// A search in a valid state has queued no more nodes than the graph has, and
/// no level reaches the number of nodes.
proof fn lemma_search_bounds(
    links: Seq<(usize, usize)>,
    start: int,
    dist: Seq<Option<usize>>,
    order: Seq<usize>,
    head: int,
    cur: int,
)
    requires
        search_inv(links, start, dist, order, head, cur),
    ensures
        order.len() <= dist.len(),
        head < order.len() ==> cur + 1 < dist.len() + 1 && cur == level(dist, order[head] as int),
        forall|i: int| 0 <= i < order.len() ==> seen(dist, #[trigger] order[i] as int),
{
    lemma_distinct_below(order, dist.len());
}

/// The state in which a search begins.
proof fn lemma_search_start(links: Seq<(usize, usize)>, n: nat, start: usize)
    requires
        links_in_range(links, n),
        start < n,
    ensures
        search_inv(
            links,
            start as int,
            Seq::new(n, |i: int| None::<usize>).update(start as int, Some(0usize)),
            seq![start],
            0,
            0,
        ),
{
}

/// Giving the unseen neighbour `w` of the node at `head` the next level, and
/// queueing it, keeps the search valid.
proof fn lemma_discover(
    links: Seq<(usize, usize)>,
    start: int,
    dist: Seq<Option<usize>>,
    order: Seq<usize>,
    head: int,
    cur: int,
    w: usize,
)
    requires
        search_inv(links, start, dist, order, head, cur),
        head < order.len(),
        w < dist.len(),
        dist[w as int] is None,
        adjacent(links, order[head] as int, w as int),
        cur + 1 <= usize::MAX,
    ensures
        search_inv(
            links,
            start,
            dist.update(w as int, Some((cur + 1) as usize)),
            order.push(w),
            head,
            cur,
        ),
{
    let dist2 = dist.update(w as int, Some((cur + 1) as usize));
    let order2 = order.push(w);
    assert forall|e: nat| e < cur + 1 implies !#[trigger] within(links, start, w as int, e) by {
        if within(links, start, w as int, e) {
            lemma_within_monotone(links, start, w as int, e, cur as nat);
        }
    }
    assert forall|v: int| #[trigger] seen(dist2, v) implies listed(order2, v) by {
        if v == w {
            assert(order2[order.len() as int] as int == v);
        } else {
            assert(seen(dist, v));
            let i = choose|i: int| 0 <= i < order.len() && #[trigger] order[i] as int == v;
            assert(order2[i] as int == v);
        }
    }
}

/// Once every neighbour of the node at `head` is seen, the search goes on
/// with the next node of the queue.
proof fn lemma_advance(
    links: Seq<(usize, usize)>,
    start: int,
    dist: Seq<Option<usize>>,
    order: Seq<usize>,
    head: int,
    cur: int,
)
    requires
        search_inv(links, start, dist, order, head, cur),
        head < order.len(),
        forall|w: int| #[trigger] adjacent(links, order[head] as int, w) ==> seen(dist, w),
    ensures
        search_inv(
            links,
            start,
            dist,
            order,
            head + 1,
            if head + 1 < order.len() {
                level(dist, order[head + 1] as int)
            } else {
                cur
            },
        ),
{
    if head + 1 < order.len() {
        let next = level(dist, order[head + 1] as int);
        assert forall|x: int| #[trigger] within(links, start, x, next as nat) implies seen(
            dist,
            x,
        ) by {
            if next != cur && !within(links, start, x, cur as nat) {
                let u = choose|u: int|
                    within(links, start, u, cur as nat) && #[trigger] adjacent(links, u, x);
                if level(dist, u) > cur {
                    lemma_within_monotone(links, start, u, cur as nat, (level(dist, u) - 1) as nat);
                }
            }
        }
    }
}

/// When the queue is empty, everything that can be reached has been seen.
proof fn lemma_exhausted(
    links: Seq<(usize, usize)>,
    start: int,
    dist: Seq<Option<usize>>,
    order: Seq<usize>,
    cur: int,
    x: int,
    d: nat,
)
    requires
        search_inv(links, start, dist, order, order.len() as int, cur),
        within(links, start, x, d),
    ensures
        seen(dist, x),
    decreases d,
{
    if d == 0 {
        // the start was seen first of all
    } else if within(links, start, x, (d - 1) as nat) {
        lemma_exhausted(links, start, dist, order, cur, x, (d - 1) as nat);
    } else {
        let u = choose|u: int|
                within(links, start, u, (d - 1) as nat) && #[trigger] adjacent(links, u, x);
        lemma_exhausted(links, start, dist, order, cur, u, (d - 1) as nat);
    }
}

/// What a finished search knows: the hop distance of every node, and the
/// order in which the reached nodes left the queue.
proof fn lemma_search_result(
    links: Seq<(usize, usize)>,
    start: int,
    dist: Seq<Option<usize>>,
    order: Seq<usize>,
    cur: int,
)
    requires
        search_inv(links, start, dist, order, order.len() as int, cur),
        in_meeting_order(links, order),
    ensures
        is_visit_order(links, dist.len(), start, order),
        forall|v: int|
            0 <= v < dist.len() ==> distance_view(#[trigger] dist[v]) == hop_distance(
                links,
                start,
                v,
            ),
        forall|v: int| 0 <= v < dist.len() && (#[trigger] dist[v]) is Some ==> dist[v]->0 < dist.len(),
{
    lemma_search_bounds(links, start, dist, order, order.len() as int, cur);
    assert forall|v: int| 0 <= v < dist.len() && (#[trigger] dist[v]) is Some implies dist[v]->0
        < dist.len() by {
        assert(seen(dist, v));
    }
    assert forall|v: int| 0 <= v < dist.len() implies distance_view(#[trigger] dist[v])
        == hop_distance(links, start, v) by {
        if dist[v] is Some {
            assert(seen(dist, v));
            lemma_distance_is_hop_distance(links, start, v, level(dist, v) as nat);
        } else {
            if reachable(links, start, v) {
                let d = choose|d: nat| within(links, start, v, d);
                lemma_exhausted(links, start, dist, order, cur, v, d);
            }
        }
    }
    assert forall|v: int| 0 <= v < dist.len() implies (#[trigger] listed(order, v) <==> reachable(
        links,
        start,
        v,
    )) by {
        if dist[v] is Some {
            assert(seen(dist, v));
        }
    }
}

/// The record that a search keeps of its meetings: for every queued node but
/// the first, from which position and over which link it was first met. All
/// meetings so far came before the one that the link `scanned` of the node at
/// `head` would make.
spec fn meeting_log(
    links: Seq<(usize, usize)>,
    order: Seq<usize>,
    log: Seq<(int, int)>,
    head: int,
    scanned: int,
) -> bool {
    &&& log.len() == order.len()
    &&& forall|j: int|
        1 <= j < order.len() ==> first_met(links, order, j, (#[trigger] log[j]).0, log[j].1)
            && meets_before(log[j].0, log[j].1, head, scanned)
    &&& forall|i: int, j: int|
        1 <= i < j < order.len() ==> meets_before(
            (#[trigger] log[i]).0,
            log[i].1,
            (#[trigger] log[j]).0,
            log[j].1,
        )
}

/// Queueing `w`, first met from the node at `head` over link `k`, extends the
/// record of meetings.
proof fn lemma_log_discover(
    links: Seq<(usize, usize)>,
    order: Seq<usize>,
    log: Seq<(int, int)>,
    head: int,
    k: int,
    w: usize,
)
    requires
        meeting_log(links, order, log, head, k),
        0 <= head < order.len(),
        0 <= k < links.len(),
        joins(links[k], order[head] as int, w as int),
        forall|q: int| 0 <= q < head ==> !adjacent(links, #[trigger] order[q] as int, w as int),
        forall|e: int| 0 <= e < k ==> !joins(#[trigger] links[e], order[head] as int, w as int),
    ensures
        meeting_log(links, order.push(w), log.push((head, k)), head, k + 1),
{
}

/// The record of meetings stays valid while the search moves on to a later
/// link or a later node.
proof fn lemma_log_moves_on(
    links: Seq<(usize, usize)>,
    order: Seq<usize>,
    log: Seq<(int, int)>,
    head: int,
    scanned: int,
    head2: int,
    scanned2: int,
)
    requires
        meeting_log(links, order, log, head, scanned),
        meets_before(head, scanned, head2, scanned2) || (head == head2 && scanned == scanned2),
    ensures
        meeting_log(links, order, log, head2, scanned2),
{
}

/// An order with a record of its meetings lists its nodes as they are met.
proof fn lemma_log_result(
    links: Seq<(usize, usize)>,
    order: Seq<usize>,
    log: Seq<(int, int)>,
    head: int,
    scanned: int,
)
    requires
        meeting_log(links, order, log, head, scanned),
    ensures
        in_meeting_order(links, order),
{
    assert forall|j: int| 1 <= j < order.len() implies #[trigger] met(links, order, j) by {
        assert(first_met(links, order, j, log[j].0, log[j].1));
    }
    assert forall|i: int, j: int, p: int, k: int, q: int, e: int|
        1 <= i < j < order.len() && #[trigger] first_met(links, order, i, p, k) && #[trigger] first_met(
            links,
            order,
            j,
            q,
            e,
        ) implies meets_before(p, k, q, e) by {
        lemma_first_met_once(links, order, i, p, k, log[i].0, log[i].1);
        lemma_first_met_once(links, order, j, q, e, log[j].0, log[j].1);
    }
}

/// What one breadth-first search from a node finds.
#[derive(Debug)]
pub struct Search {
    /// For every node its hop distance from the start, `None` where the node
    /// cannot be reached.
    pub distances: Vec<Option<usize>>,
    /// The reached nodes in the order in which they left the queue.
    pub order: Vec<usize>,
}

/// Searches `graph` breadth-first from `start`. Every step scans the whole
/// edge list for the edges that touch the node just taken from the queue.
pub fn breadth_first_search(graph: &Graph, start: usize) -> (found: Search)
    requires
        start < graph.labels().len(),
    ensures
        found.distances@.len() == graph.labels().len(),
        forall|v: int|
            0 <= v < found.distances@.len() ==> distance_view(#[trigger] found.distances@[v])
                == hop_distance(graph.links(), start as int, v),
        forall|v: int|
            0 <= v < found.distances@.len() && (#[trigger] found.distances@[v]) is Some
                ==> found.distances@[v]->0 < graph.labels().len(),
        is_visit_order(graph.links(), graph.labels().len(), start as int, found.order@),
        found.order@ == visit_order(graph.links(), graph.labels().len(), start as int),
{
    let n = graph.nodes().len();
    let edges = graph.edges();
    let ghost links = graph.links();
    proof {
        use_type_invariant(graph);
    }
    let mut distances: Vec<Option<usize>> = Vec::new();
    let mut filled: usize = 0;
    while filled < n
        invariant
            filled <= n,
            distances@ == Seq::new(filled as nat, |i: int| None::<usize>),
        decreases n - filled,
    {
        distances.push(None);
        filled += 1;
    }
    let mut queue: VecDeque<usize> = VecDeque::new();
    let mut order: Vec<usize> = Vec::new();
    distances.set(start, Some(0));
    queue.push_back(start);
    let ghost mut queued: Seq<usize> = seq![start];
    let ghost mut log: Seq<(int, int)> = seq![(0int, 0int)];
    let ghost mut cur: int = 0;
    proof {
        lemma_search_start(links, n as nat, start);
    }
    while queue.len() > 0
        invariant
            edges@ == links,
            distances@.len() == n,
            search_inv(links, start as int, distances@, queued, order@.len() as int, cur),
            meeting_log(links, queued, log, order@.len() as int, 0),
            order@ == queued.subrange(0, order@.len() as int),
            queue@ == queued.subrange(order@.len() as int, queued.len() as int),
        decreases n - order@.len(),
    {
        proof {
            lemma_search_bounds(links, start as int, distances@, queued, order@.len() as int, cur);
        }
        let ghost head = order@.len() as int;
        let node = queue.pop_front().unwrap();
        order.push(node);
        let current = distances[node].unwrap();
        let mut k: usize = 0;
        while k < edges.len()
            invariant
                k <= edges.len(),
                edges@ == links,
                distances@.len() == n,
                head + 1 == order@.len(),
                head < queued.len(),
                node == queued[head],
                current == cur,
                search_inv(links, start as int, distances@, queued, head, cur),
                meeting_log(links, queued, log, head, k as int),
                order@ == queued.subrange(0, head + 1),
                queue@ == queued.subrange(head + 1, queued.len() as int),
                forall|j: int, w: int|
                    0 <= j < k && #[trigger] joins(links[j], node as int, w) ==> seen(
                        distances@,
                        w,
                    ),
            decreases edges.len() - k,
        {
            let edge = edges[k];
            let ghost mut mark: int = k as int;
            match neighbor_across(edge, node) {
                Some(w) => {
                    proof {
                        lemma_across_joins(edge, node, w as int);
                        lemma_search_bounds(links, start as int, distances@, queued, head, cur);
                        use_type_invariant(graph);
                    }
                    if distances[w].is_none() {
                        proof {
                            lemma_log_discover(links, queued, log, head, k as int, w);
                            lemma_discover(links, start as int, distances@, queued, head, cur, w);
                        }
                        distances.set(w, Some(current + 1));
                        queue.push_back(w);
                        proof {
                            queued = queued.push(w);
                            log = log.push((head, k as int));
                            mark = k + 1;
                        }
                    }
                },
                None => {},
            }
            proof {
                lemma_log_moves_on(links, queued, log, head, mark, head, k + 1);
            }
            k += 1;
        }
        proof {
            lemma_log_moves_on(links, queued, log, head, k as int, head + 1, 0);
            lemma_advance(links, start as int, distances@, queued, head, cur);
            if head + 1 < queued.len() {
                cur = level(distances@, queued[head + 1] as int);
            }
            lemma_search_bounds(links, start as int, distances@, queued, head + 1, cur);
        }
    }
    proof {
        assert(order@ =~= queued);
        lemma_log_result(links, queued, log, queued.len() as int, 0);
        lemma_search_result(links, start as int, distances@, queued, cur);
        lemma_visit_order(links, n as nat, start as int, queued);
    }
    Search { distances, order }
}

/// The hop distance from `start` to every node of `graph`, `None` for a node
/// that cannot be reached from `start`.
pub fn bfs_shortest_path(graph: &Graph, start: usize) -> (distances: Vec<Option<usize>>)
    requires
        start < graph.labels().len(),
    ensures
        distances@.len() == graph.labels().len(),
        forall|v: int|
            0 <= v < distances@.len() ==> distance_view(#[trigger] distances@[v]) == hop_distance(
                graph.links(),
                start as int,
                v,
            ),
        forall|v: int|
            0 <= v < distances@.len() && (#[trigger] distances@[v]) is Some ==> distances@[v]->0
                < graph.labels().len(),
{
    breadth_first_search(graph, start).distances
}

} // verus!
