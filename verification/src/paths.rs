//! The graph as mathematics: which nodes the links join, how far one node
//! is from another, and in which order a breadth-first search visits them.

use vstd::prelude::*;

verus! {

/// Whether `link` joins `u` and `v`, in either direction.
pub open spec fn joins(link: (usize, usize), u: int, v: int) -> bool {
    (link.0 == u && link.1 == v) || (link.0 == v && link.1 == u)
}

/// Whether some link joins `u` and `v`.
pub open spec fn adjacent(links: Seq<(usize, usize)>, u: int, v: int) -> bool {
    exists|k: int| 0 <= k < links.len() && joins(#[trigger] links[k], u, v)
}

/// Whether `v` can be reached from `s` over at most `d` links.
pub open spec fn within(links: Seq<(usize, usize)>, s: int, v: int, d: nat) -> bool
    decreases d,
{
    if d == 0 {
        v == s
    } else {
        within(links, s, v, (d - 1) as nat) || exists|u: int|
            within(links, s, u, (d - 1) as nat) && #[trigger] adjacent(links, u, v)
    }
}

/// Whether `v` can be reached from `s` at all.
pub open spec fn reachable(links: Seq<(usize, usize)>, s: int, v: int) -> bool {
    exists|d: nat| within(links, s, v, d)
}

/// Whether `d` is the least number of links over which `v` is reached from `s`.
pub open spec fn is_distance(links: Seq<(usize, usize)>, s: int, v: int, d: nat) -> bool {
    within(links, s, v, d) && forall|e: nat| e < d ==> !#[trigger] within(links, s, v, e)
}

/// The hop distance from `s` to `v`: the least number of links on a way from
/// one to the other, `None` where there is no way.
pub open spec fn hop_distance(links: Seq<(usize, usize)>, s: int, v: int) -> Option<nat> {
    if reachable(links, s, v) {
        Some(choose|d: nat| is_distance(links, s, v, d))
    } else {
        None
    }
}

/// The node at the other end of `link`, seen from `node`: the second end
/// where the first is `node`, else the first end where the second is `node`.
pub open spec fn across(link: (usize, usize), node: usize) -> Option<usize> {
    if link.0 == node {
        Some(link.1)
    } else if link.1 == node {
        Some(link.0)
    } else {
        None
    }
}

/// Whether `v` is one of the nodes that `order` lists.
pub open spec fn listed(order: Seq<usize>, v: int) -> bool {
    exists|i: int| 0 <= i < order.len() && #[trigger] order[i] as int == v
}

/// Whether the node at position `j` of `order` was first met from the node
/// at position `p`, over link `k`: no node that stands before `p` is joined
/// with it, and no link before `k` joins it with the node at `p`.
pub open spec fn first_met(links: Seq<(usize, usize)>, order: Seq<usize>, j: int, p: int, k: int) -> bool {
    &&& 0 <= p < j < order.len()
    &&& 0 <= k < links.len()
    &&& joins(links[k], order[p] as int, order[j] as int)
    &&& forall|q: int| 0 <= q < p ==> !adjacent(links, #[trigger] order[q] as int, order[j] as int)
    &&& forall|e: int| 0 <= e < k ==> !joins(#[trigger] links[e], order[p] as int, order[j] as int)
}

/// Whether the node at position `j` of `order` was met from a node that
/// stands before it.
pub open spec fn met(links: Seq<(usize, usize)>, order: Seq<usize>, j: int) -> bool {
    exists|p: int, k: int| first_met(links, order, j, p, k)
}

/// Whether the meeting from position `p` over link `k` comes before the one
/// from position `q` over link `e`.
pub open spec fn meets_before(p: int, k: int, q: int, e: int) -> bool {
    p < q || (p == q && k < e)
}

/// Whether `order` lists its nodes as they are met: every node but the first
/// was met from one before it, and of two nodes the one stands first that
/// was met from the earlier node, or from the same node over the earlier
/// link.
pub open spec fn in_meeting_order(links: Seq<(usize, usize)>, order: Seq<usize>) -> bool {
    &&& forall|j: int| 1 <= j < order.len() ==> #[trigger] met(links, order, j)
    &&& forall|i: int, j: int, p: int, k: int, q: int, e: int|
        1 <= i < j < order.len() && #[trigger] first_met(links, order, i, p, k) && #[trigger] first_met(
            links,
            order,
            j,
            q,
            e,
        ) ==> meets_before(p, k, q, e)
}

/// Whether `order` is the order in which the breadth-first search from
/// `start` visits a graph of `n` nodes: it lists, without repeating any, the
/// nodes that can be reached from `start`, `start` first, no node before one
/// that is nearer to `start`, and every node where it was first met.
pub open spec fn is_visit_order(
    links: Seq<(usize, usize)>,
    n: nat,
    start: int,
    order: Seq<usize>,
) -> bool {
    &&& order.len() >= 1
    &&& order[0] == start
    &&& order.no_duplicates()
    &&& forall|i: int| 0 <= i < order.len() ==> (#[trigger] order[i]) < n
    &&& forall|v: int| 0 <= v < n ==> (#[trigger] listed(order, v) <==> reachable(links, start, v))
    &&& forall|i: int, j: int|
        0 <= i <= j < order.len() ==> hop_distance(links, start, #[trigger] order[i] as int)->0
            <= hop_distance(links, start, #[trigger] order[j] as int)->0
    &&& in_meeting_order(links, order)
}

/// The order in which the breadth-first search from `start` visits a graph
/// of `n` nodes.
pub open spec fn visit_order(links: Seq<(usize, usize)>, n: nat, start: int) -> Seq<usize> {
    choose|order: Seq<usize>| is_visit_order(links, n, start, order)
}

/// What is reached over at most `d` links is reached over at most `e >= d`.
pub proof fn lemma_within_monotone(links: Seq<(usize, usize)>, s: int, v: int, d: nat, e: nat)
    requires
        within(links, s, v, d),
        d <= e,
    ensures
        within(links, s, v, e),
    decreases e,
{
    if d < e {
        lemma_within_monotone(links, s, v, d, (e - 1) as nat);
    }
}

/// The distance is unique: a least number of links is the hop distance.
pub proof fn lemma_distance_is_hop_distance(links: Seq<(usize, usize)>, s: int, v: int, d: nat)
    requires
        is_distance(links, s, v, d),
    ensures
        hop_distance(links, s, v) == Some(d),
{
}

/// The hop distance, where there is one, is a least number of links.
pub proof fn lemma_hop_distance_is_distance(links: Seq<(usize, usize)>, s: int, v: int)
    requires
        reachable(links, s, v),
    ensures
        hop_distance(links, s, v) matches Some(d) && is_distance(links, s, v, d),
{
    let d0 = choose|d: nat| within(links, s, v, d);
    lemma_least_within(links, s, v, d0);
}

/// Below any number of links that suffices there is a least one.
proof fn lemma_least_within(links: Seq<(usize, usize)>, s: int, v: int, d: nat)
    requires
        within(links, s, v, d),
    ensures
        exists|e: nat| is_distance(links, s, v, e),
    decreases d,
{
    if d > 0 && within(links, s, v, (d - 1) as nat) {
        lemma_least_within(links, s, v, (d - 1) as nat);
    } else {
        assert forall|e: nat| e < d implies !#[trigger] within(links, s, v, e) by {
            if within(links, s, v, e) {
                lemma_within_monotone(links, s, v, e, (d - 1) as nat);
            }
        }
        assert(is_distance(links, s, v, d));
    }
}

/// A link from `s` to `u` before a way of at most `d` links from `u` to `v`
/// makes a way of at most `d + 1` links from `s` to `v`.
proof fn lemma_within_prepend(links: Seq<(usize, usize)>, s: int, u: int, v: int, d: nat)
    requires
        adjacent(links, s, u),
        within(links, u, v, d),
    ensures
        within(links, s, v, d + 1),
    decreases d,
{
    if d == 0 {
        assert(within(links, s, s, 0));
    } else if within(links, u, v, (d - 1) as nat) {
        lemma_within_prepend(links, s, u, v, (d - 1) as nat);
    } else {
        let x = choose|x: int|
            within(links, u, x, (d - 1) as nat) && #[trigger] adjacent(links, x, v);
        lemma_within_prepend(links, s, u, x, (d - 1) as nat);
    }
}

/// A way of at most `d` links from `s` to `v` is one from `v` to `s`.
pub proof fn lemma_within_symmetric(links: Seq<(usize, usize)>, s: int, v: int, d: nat)
    requires
        within(links, s, v, d),
    ensures
        within(links, v, s, d),
    decreases d,
{
    if d == 0 {
    } else if within(links, s, v, (d - 1) as nat) {
        lemma_within_symmetric(links, s, v, (d - 1) as nat);
    } else {
        let u = choose|u: int|
            within(links, s, u, (d - 1) as nat) && #[trigger] adjacent(links, u, v);
        lemma_within_symmetric(links, s, u, (d - 1) as nat);
        lemma_within_prepend(links, v, u, s, (d - 1) as nat);
    }
}

/// Hop distance is symmetric: from `i` to `j` it is what it is from `j` to
/// `i`, and where one is undefined so is the other.
pub proof fn hop_distance_is_symmetric(links: Seq<(usize, usize)>, i: int, j: int)
    ensures
        hop_distance(links, i, j) == hop_distance(links, j, i),
{
    if reachable(links, i, j) {
        lemma_hop_distance_is_distance(links, i, j);
        let d = hop_distance(links, i, j)->0;
        lemma_within_symmetric(links, i, j, d);
        assert forall|e: nat| e < d implies !#[trigger] within(links, j, i, e) by {
            if within(links, j, i, e) {
                lemma_within_symmetric(links, j, i, e);
            }
        }
        lemma_distance_is_hop_distance(links, j, i, d);
    } else if reachable(links, j, i) {
        let d = choose|d: nat| within(links, j, i, d);
        lemma_within_symmetric(links, j, i, d);
    }
}

/// A link joins `node` with the node across it, and with no other.
pub proof fn lemma_across_joins(link: (usize, usize), node: usize, w: int)
    ensures
        joins(link, node as int, w) <==> (across(link, node) matches Some(x) && x == w),
{
}

/// A node was first met from one node and over one link only.
pub proof fn lemma_first_met_once(
    links: Seq<(usize, usize)>,
    order: Seq<usize>,
    j: int,
    p: int,
    k: int,
    q: int,
    e: int,
)
    requires
        first_met(links, order, j, p, k),
        first_met(links, order, j, q, e),
    ensures
        p == q,
        k == e,
{
}

/// Where two visit orders agree on their first `j` nodes, and the node at
/// `j` of the first was met no later than that of the second, they agree on
/// the node at `j`.
proof fn lemma_next_agrees(
    links: Seq<(usize, usize)>,
    n: nat,
    start: int,
    a: Seq<usize>,
    b: Seq<usize>,
    j: int,
    p: int,
    k: int,
    q: int,
    e: int,
)
    requires
        is_visit_order(links, n, start, a),
        is_visit_order(links, n, start, b),
        1 <= j < a.len(),
        j < b.len(),
        forall|i: int| 0 <= i < j ==> a[i] == b[i],
        first_met(links, a, j, p, k),
        first_met(links, b, j, q, e),
        !meets_before(q, e, p, k),
    ensures
        a[j] == b[j],
{
    let x = a[j];
    assert(listed(a, x as int));
    assert(listed(b, x as int));
    let m = choose|m: int| 0 <= m < b.len() && #[trigger] b[m] as int == x as int;
    if m < j {
    } else if m > j {
        assert(first_met(links, b, m, p, k));
    }
}

/// Of two visit orders the shorter lists every node of the longer.
proof fn lemma_no_longer(
    links: Seq<(usize, usize)>,
    n: nat,
    start: int,
    a: Seq<usize>,
    b: Seq<usize>,
)
    requires
        is_visit_order(links, n, start, a),
        is_visit_order(links, n, start, b),
        a.len() <= b.len(),
        forall|i: int| 0 <= i < a.len() ==> a[i] == b[i],
    ensures
        a.len() == b.len(),
{
    if a.len() < b.len() {
        let j = a.len() as int;
        assert(listed(b, b[j] as int));
        assert(listed(a, b[j] as int));
    }
}

/// Two visit orders agree on their first `j` nodes.
proof fn lemma_orders_agree(
    links: Seq<(usize, usize)>,
    n: nat,
    start: int,
    a: Seq<usize>,
    b: Seq<usize>,
    j: nat,
)
    requires
        is_visit_order(links, n, start, a),
        is_visit_order(links, n, start, b),
        j <= a.len(),
        j <= b.len(),
    ensures
        forall|i: int| 0 <= i < j ==> a[i] == b[i],
    decreases j,
{
    if j > 1 {
        lemma_orders_agree(links, n, start, a, b, (j - 1) as nat);
        let at = j - 1;
        assert(met(links, a, at));
        assert(met(links, b, at));
        let (p, k) = choose|p: int, k: int| first_met(links, a, at, p, k);
        let (q, e) = choose|q: int, e: int| first_met(links, b, at, q, e);
        if meets_before(q, e, p, k) {
            lemma_next_agrees(links, n, start, b, a, at, q, e, p, k);
        } else {
            lemma_next_agrees(links, n, start, a, b, at, p, k, q, e);
        }
    }
}

/// A graph has one visit order from a node: the search is held to a single
/// sequence.
pub proof fn visit_order_is_unique(
    links: Seq<(usize, usize)>,
    n: nat,
    start: int,
    a: Seq<usize>,
    b: Seq<usize>,
)
    requires
        is_visit_order(links, n, start, a),
        is_visit_order(links, n, start, b),
    ensures
        a == b,
{
    if a.len() <= b.len() {
        lemma_orders_agree(links, n, start, a, b, a.len());
        lemma_no_longer(links, n, start, a, b);
    } else {
        lemma_orders_agree(links, n, start, a, b, b.len());
        lemma_no_longer(links, n, start, b, a);
    }
}

/// What is a visit order is the visit order.
pub proof fn lemma_visit_order(links: Seq<(usize, usize)>, n: nat, start: int, order: Seq<usize>)
    requires
        is_visit_order(links, n, start, order),
    ensures
        order == visit_order(links, n, start),
{
    visit_order_is_unique(links, n, start, order, visit_order(links, n, start));
}

} // verus!
