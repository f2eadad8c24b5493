//! Betweenness centrality after Brandes, as far as the graph alone decides
//! it: for every source the order of the traversal, the predecessor lists
//! and the schedule of updates to path counts, dependencies and scores. The
//! arithmetic on the scores themselves is left to the caller, who runs the
//! schedule over numbers of its choice.

use crate::graph::{links_in_range, Graph};
use crate::paths::{across, adjacent, is_visit_order, joins, lemma_across_joins, visit_order};
use crate::traversal::{breadth_first_search, neighbor_across};
use vstd::prelude::*;

verus! {

/// One update of the running numbers of a source's pass. A pass keeps, for
/// every node, a path count and a dependency: at its start all are zero but
/// the path count of the source, which is one. The whole computation keeps a
/// score for every node, zero at its start.
#[derive(Debug, Clone, Copy, PartialEq, Eq, Structural)]
pub enum Step {
    /// Add the path count of `from` to the path count of `to`.
    Count { from: usize, to: usize },
    /// Add to the dependency of `to` the path count of `to`, divided by the
    /// path count of `from`, times one plus the dependency of `from`.
    Pass { from: usize, to: usize },
    /// Add the dependency of `node` to the score of `node`.
    Credit { node: usize },
}

/// The transfers of path count that taking `v` from the queue causes: one to
/// the node across every link that touches `v`, in the order of the links.
pub open spec fn transfers_from(links: Seq<(usize, usize)>, v: usize) -> Seq<(usize, usize)>
    decreases links.len(),
{
    if links.len() == 0 {
        Seq::empty()
    } else {
        let before = transfers_from(links.drop_last(), v);
        match across(links.last(), v) {
            Some(w) => before.push((v, w)),
            None => before,
        }
    }
}

/// The transfers of path count of a whole traversal: those of every visited
/// node, in the order of the visits.
pub open spec fn transfers_of(links: Seq<(usize, usize)>, order: Seq<usize>) -> Seq<
    (usize, usize),
>
    decreases order.len(),
{
    if order.len() == 0 {
        Seq::empty()
    } else {
        transfers_of(links, order.drop_last()) + transfers_from(links, order.last())
    }
}

/// The predecessor list of `w`: the visited nodes that a link joins with `w`,
/// each once, in the order of the visits.
pub open spec fn predecessors_of(links: Seq<(usize, usize)>, order: Seq<usize>, w: usize) -> Seq<
    usize,
>
    decreases order.len(),
{
    if order.len() == 0 {
        Seq::empty()
    } else {
        let before = predecessors_of(links, order.drop_last(), w);
        if adjacent(links, order.last() as int, w as int) {
            before.push(order.last())
        } else {
            before
        }
    }
}

/// The predecessor lists of all `n` nodes.
pub open spec fn predecessor_lists(links: Seq<(usize, usize)>, n: nat, order: Seq<usize>) -> Seq<
    Seq<usize>,
> {
    Seq::new(n, |w: int| predecessors_of(links, order, w as usize))
}

/// The counting steps of a pass: one for every transfer.
pub open spec fn count_steps(transfers: Seq<(usize, usize)>) -> Seq<Step> {
    Seq::new(transfers.len(), |j: int| Step::Count { from: transfers[j].0, to: transfers[j].1 })
}

/// The steps that the back pass makes for `w`: the dependency of `w` goes on
/// to every predecessor, then to the score of `w` unless `w` is the source.
pub open spec fn node_steps(preds: Seq<usize>, w: usize, source: usize) -> Seq<Step> {
    Seq::new(preds.len(), |j: int| Step::Pass { from: w, to: preds[j] }) + (if w != source {
        seq![Step::Credit { node: w }]
    } else {
        Seq::empty()
    })
}

/// The steps of the back pass for the nodes at `from` and after it in
/// `order`, the last visited first.
pub open spec fn back_steps(lists: Seq<Seq<usize>>, order: Seq<usize>, source: usize, from: int) -> Seq<
    Step,
>
    decreases order.len() - from,
{
    if from < 0 || from >= order.len() {
        Seq::empty()
    } else {
        back_steps(lists, order, source, from + 1) + node_steps(
            lists[order[from] as int],
            order[from],
            source,
        )
    }
}

/// All steps of one pass: the counting steps, then the back pass.
pub open spec fn pass_steps(
    transfers: Seq<(usize, usize)>,
    lists: Seq<Seq<usize>>,
    order: Seq<usize>,
    source: usize,
) -> Seq<Step> {
    count_steps(transfers) + back_steps(lists, order, source, 0)
}

/// The steps of the pass from `source` over a graph of `n` nodes.
pub open spec fn source_steps(links: Seq<(usize, usize)>, n: nat, source: usize) -> Seq<Step> {
    let order = visit_order(links, n, source as int);
    pass_steps(transfers_of(links, order), predecessor_lists(links, n, order), order, source)
}

/// By what the summed scores of a graph of `n` nodes are divided:
/// `(n - 1)(n - 2)`, and nothing where that is not positive.
pub open spec fn normalizer(n: nat) -> Option<nat> {
    if n >= 3 {
        Some(((n - 1) * (n - 2)) as nat)
    } else {
        None
    }
}

/// Whether `step` names only nodes below `n`.
pub open spec fn step_below(step: Step, n: nat) -> bool {
    match step {
        Step::Count { from, to } => from < n && to < n,
        Step::Pass { from, to } => from < n && to < n,
        Step::Credit { node } => node < n,
    }
}

/// What the traversal from one source leaves behind for the back pass.
#[derive(Debug)]
pub struct Traversal {
    /// The reached nodes in the order in which they left the queue.
    pub order: Vec<usize>,
    /// For every node its predecessor list.
    pub predecessors: Vec<Vec<usize>>,
    /// The transfers of path count, each from its first node to its second,
    /// in the order in which they were made.
    pub transfers: Vec<(usize, usize)>,
}

impl Traversal {
    /// Whether every visited node has a predecessor list.
    pub open spec fn indexed(&self) -> bool {
        forall|i: int|
            0 <= i < self.order@.len() ==> (#[trigger] self.order@[i]) < self.predecessors@.len()
    }

    /// Whether the traversal is one of `n` nodes: it has a predecessor list
    /// for every node and names only nodes below `n`.
    pub open spec fn below(&self, n: nat) -> bool {
        &&& self.predecessors@.len() == n
        &&& forall|i: int| 0 <= i < self.order@.len() ==> (#[trigger] self.order@[i]) < n
        &&& forall|w: int, j: int|
            0 <= w < n && 0 <= j < self.predecessors@[w]@.len() ==> (
            #[trigger] self.predecessors@[w]@[j]) < n
        &&& forall|t: int|
            0 <= t < self.transfers@.len() ==> (#[trigger] self.transfers@[t]).0 < n
                && self.transfers@[t].1 < n
    }

    /// Whether this is what a traversal from `source` leaves behind.
    pub open spec fn of(&self, links: Seq<(usize, usize)>, n: nat, source: usize) -> bool {
        &&& self.order@ == visit_order(links, n, source as int)
        &&& self.transfers@ == transfers_of(links, self.order@)
        &&& self.predecessors.deep_view() == predecessor_lists(links, n, self.order@)
    }
}

/// Whether a link among the first `k` joins `u` and `w`.
spec fn adjacent_so_far(links: Seq<(usize, usize)>, k: int, u: int, w: int) -> bool {
    exists|j: int| 0 <= j < k && j < links.len() && joins(#[trigger] links[j], u, w)
}

/// Every predecessor of a node is a visited node.
proof fn lemma_predecessors_listed(
    links: Seq<(usize, usize)>,
    order: Seq<usize>,
    w: usize,
    x: usize,
)
    requires
        predecessors_of(links, order, w).contains(x),
    ensures
        order.contains(x),
    decreases order.len(),
{
    if order.len() > 0 {
        let before = predecessors_of(links, order.drop_last(), w);
        if before.contains(x) {
            lemma_predecessors_listed(links, order.drop_last(), w, x);
        }
    }
}

/// The transfers that a node below `n` causes go to nodes below `n`.
proof fn lemma_transfers_from_below(links: Seq<(usize, usize)>, v: usize, n: nat, t: int)
    requires
        links_in_range(links, n),
        v < n,
        0 <= t < transfers_from(links, v).len(),
    ensures
        transfers_from(links, v)[t].0 < n,
        transfers_from(links, v)[t].1 < n,
    decreases links.len(),
{
    if links.len() > 0 {
        let shorter = links.drop_last();
        if t < transfers_from(shorter, v).len() {
            lemma_transfers_from_below(shorter, v, n, t);
        }
    }
}

/// The transfers of a traversal over nodes below `n` stay below `n`.
proof fn lemma_transfers_below(links: Seq<(usize, usize)>, order: Seq<usize>, n: nat, t: int)
    requires
        links_in_range(links, n),
        forall|i: int| 0 <= i < order.len() ==> (#[trigger] order[i]) < n,
        0 <= t < transfers_of(links, order).len(),
    ensures
        transfers_of(links, order)[t].0 < n,
        transfers_of(links, order)[t].1 < n,
    decreases order.len(),
{
    if order.len() > 0 {
        let shorter = order.drop_last();
        let before = transfers_of(links, shorter);
        if t < before.len() {
            lemma_transfers_below(links, shorter, n, t);
        } else {
            lemma_transfers_from_below(links, order.last(), n, t - before.len());
        }
    }
}

/// The steps of a back pass over nodes below `n` name only nodes below `n`.
proof fn lemma_back_steps_below(
    lists: Seq<Seq<usize>>,
    order: Seq<usize>,
    source: usize,
    from: int,
    n: nat,
    j: int,
)
    requires
        lists.len() == n,
        forall|i: int| 0 <= i < order.len() ==> (#[trigger] order[i]) < n,
        forall|w: int, x: int| 0 <= w < n && 0 <= x < lists[w].len() ==> (#[trigger] lists[w][x]) < n,
        0 <= j < back_steps(lists, order, source, from).len(),
    ensures
        step_below(back_steps(lists, order, source, from)[j], n),
    decreases order.len() - from,
{
    if 0 <= from < order.len() {
        let later = back_steps(lists, order, source, from + 1);
        if j < later.len() {
            lemma_back_steps_below(lists, order, source, from + 1, n, j);
        }
    }
}

/// Whether `list` holds `v`.
fn holds(list: &Vec<usize>, v: usize) -> (found: bool)
    ensures
        found == list@.contains(v),
{
    let mut i: usize = 0;
    while i < list.len()
        invariant
            i <= list.len(),
            forall|j: int| 0 <= j < i ==> list@[j] != v,
        decreases list.len() - i,
    {
        if list[i] == v {
            return true;
        }
        i += 1;
    }
    false
}

/// The entry that `v` has so far made in the predecessor list of `w`.
spec fn fresh_entry(links: Seq<(usize, usize)>, k: int, v: usize, w: int) -> Seq<usize> {
    if adjacent_so_far(links, k, v as int, w) {
        seq![v]
    } else {
        Seq::empty()
    }
}

/// The traversal from `source` that the back pass of Brandes' algorithm
/// rests on. A node joins the predecessor list of every node that a link
/// joins it with, once, when it leaves the queue; and every such link, each
/// time it is met, moves path count across.
pub fn augmented_traversal(graph: &Graph, source: usize) -> (trail: Traversal)
    requires
        source < graph.labels().len(),
    ensures
        trail.of(graph.links(), graph.labels().len(), source),
        trail.below(graph.labels().len()),
        trail.indexed(),
{
    let n = graph.nodes().len();
    let edges = graph.edges();
    let ghost links = graph.links();
    proof {
        use_type_invariant(graph);
    }
    let order = breadth_first_search(graph, source).order;
    let mut predecessors: Vec<Vec<usize>> = Vec::new();
    while predecessors.len() < n
        invariant
            predecessors@.len() <= n,
            forall|w: int| 0 <= w < predecessors@.len() ==> (#[trigger] predecessors@[w])@.len() == 0,
        decreases n - predecessors@.len(),
    {
        predecessors.push(Vec::new());
    }
    let mut transfers: Vec<(usize, usize)> = Vec::new();
    let mut i: usize = 0;
    while i < order.len()
        invariant
            i <= order@.len(),
            n == graph.labels().len(),
            edges@ == links,
            links_in_range(links, n as nat),
            is_visit_order(links, n as nat, source as int, order@),
            predecessors@.len() == n,
            transfers@ == transfers_of(links, order@.take(i as int)),
            forall|w: int|
                0 <= w < n ==> (#[trigger] predecessors@[w])@ == predecessors_of(
                    links,
                    order@.take(i as int),
                    w as usize,
                ),
        decreases order@.len() - i,
    {
        let v = order[i];
        let ghost visited = order@.take(i as int);
        let mut k: usize = 0;
        while k < edges.len()
            invariant
                k <= edges@.len(),
                i < order@.len(),
                v == order@[i as int],
                visited == order@.take(i as int),
                edges@ == links,
                links_in_range(links, n as nat),
                is_visit_order(links, n as nat, source as int, order@),
                predecessors@.len() == n,
                transfers@ == transfers_of(links, visited) + transfers_from(
                    links.take(k as int),
                    v,
                ),
                forall|w: int|
                    0 <= w < n ==> (#[trigger] predecessors@[w])@ == predecessors_of(
                        links,
                        visited,
                        w as usize,
                    ) + fresh_entry(links, k as int, v, w),
            decreases edges@.len() - k,
        {
            let edge = edges[k];
            proof {
                assert(links.take(k + 1).drop_last() =~= links.take(k as int));
            }
            match neighbor_across(edge, v) {
                Some(w) => {
                    proof {
                        if predecessors_of(links, visited, w).contains(v) {
                            lemma_predecessors_listed(links, visited, w, v);
                        }
                        let earlier = predecessors_of(links, visited, w);
                        let entry = fresh_entry(links, k as int, v, w as int);
                        if entry.len() > 0 {
                            assert((earlier + entry)[earlier.len() as int] == v);
                        }
                    }
                    if !holds(&predecessors[w], v) {
                        predecessors[w].push(v);
                    }
                    transfers.push((v, w));
                    proof {
                        lemma_across_joins(edge, v, w as int);
                    }
                },
                None => {},
            }
            k += 1;
        }
        proof {
            assert(links.take(k as int) =~= links);
            assert(order@.take(i + 1).drop_last() =~= visited);
        }
        i += 1;
    }
    proof {
        assert(order@.take(i as int) =~= order@);
        assert forall|w: int| 0 <= w < n implies (#[trigger] predecessors.deep_view()[w])
            == predecessor_lists(links, n as nat, order@)[w] by {}
        assert(predecessors.deep_view() =~= predecessor_lists(links, n as nat, order@));
        assert forall|w: int, j: int|
            0 <= w < n && 0 <= j < predecessors@[w]@.len() implies (#[trigger] predecessors@[w]@[j])
            < n by {
            let x = predecessors@[w]@[j];
            lemma_predecessors_listed(links, order@, w as usize, x);
        }
        assert forall|t: int| 0 <= t < transfers@.len() implies (#[trigger] transfers@[t]).0 < n
            && transfers@[t].1 < n by {
            lemma_transfers_below(links, order@, n as nat, t);
        }
    }
    Traversal { order, predecessors, transfers }
}

/// The steps of the pass that `trail` describes: first the transfers of path
/// count, then, from the last visited node back to the first, what every
/// node passes on to its predecessors and adds to its own score.
pub fn accumulation_steps(trail: &Traversal, source: usize) -> (steps: Vec<Step>)
    requires
        trail.indexed(),
    ensures
        steps@ == pass_steps(
            trail.transfers@,
            trail.predecessors.deep_view(),
            trail.order@,
            source,
        ),
        forall|n: nat, j: int|
            trail.below(n) && 0 <= j < steps@.len() ==> #[trigger] step_below(steps@[j], n),
{
    let ghost lists = trail.predecessors.deep_view();
    let mut steps: Vec<Step> = Vec::new();
    let mut t: usize = 0;
    while t < trail.transfers.len()
        invariant
            t <= trail.transfers@.len(),
            steps@ == count_steps(trail.transfers@.take(t as int)),
        decreases trail.transfers@.len() - t,
    {
        let transfer = trail.transfers[t];
        steps.push(Step::Count { from: transfer.0, to: transfer.1 });
        t += 1;
    }
    let mut i: usize = trail.order.len();
    while i > 0
        invariant
            i <= trail.order@.len(),
            trail.indexed(),
            lists == trail.predecessors.deep_view(),
            steps@ == count_steps(trail.transfers@) + back_steps(
                lists,
                trail.order@,
                source,
                i as int,
            ),
        decreases i,
    {
        i -= 1;
        let w = trail.order[i];
        let ghost before = steps@;
        let list = &trail.predecessors[w];
        let mut j: usize = 0;
        while j < list.len()
            invariant
                j <= list@.len(),
                steps@ == before + Seq::new(
                    j as nat,
                    |x: int| Step::Pass { from: w, to: list@[x] },
                ),
            decreases list@.len() - j,
        {
            steps.push(Step::Pass { from: w, to: list[j] });
            j += 1;
        }
        if w != source {
            steps.push(Step::Credit { node: w });
        }
    }
    proof {
        assert forall|n: nat, j: int| trail.below(n) && 0 <= j < steps@.len() implies #[trigger] step_below(
            steps@[j],
            n,
        ) by {
            let counts = count_steps(trail.transfers@);
            if j >= counts.len() {
                lemma_back_steps_below(lists, trail.order@, source, 0, n, j - counts.len());
            }
        }
    }
    steps
}

/// By what the summed scores of a graph of `n` nodes are divided, if by
/// anything.
pub fn betweenness_normalizer(n: usize) -> (divisor: Option<u128>)
    ensures
        divisor is Some <==> normalizer(n as nat) is Some,
        divisor matches Some(d) ==> normalizer(n as nat) == Some(d as nat),
{
    if n >= 3 {
        let a: u128 = (n - 1) as u128;
        let b: u128 = (n - 2) as u128;
        assert(a * b <= 0xFFFF_FFFF_FFFF_FFFF * 0xFFFF_FFFF_FFFF_FFFF) by (nonlinear_arith)
            requires
                a <= 0xFFFF_FFFF_FFFF_FFFF,
                b <= 0xFFFF_FFFF_FFFF_FFFF,
        ;
        Some(a * b)
    } else {
        None
    }
}

/// The schedule of a whole betweenness computation: the passes are run one
/// after another, each from fresh path counts and dependencies, their steps
/// in order; then every score is divided by the divisor, if there is one.
#[derive(Debug)]
pub struct BetweennessPlan {
    /// The steps of the pass from every node, by source; empty for a graph of
    /// fewer than two nodes, whose scores all stay zero.
    pub passes: Vec<Vec<Step>>,
    /// By what every score is divided once all passes have run; `None` where
    /// the scores stay as they are.
    pub divisor: Option<u128>,
}

/// Plans the betweenness computation for `graph`: one pass from every node
/// as source, in the order of the nodes, unless the graph has fewer than two
/// nodes, and the divisor that normalizes the summed scores.
pub fn betweenness_plan(graph: &Graph) -> (plan: BetweennessPlan)
    ensures
        graph.labels().len() < 2 ==> plan.passes@.len() == 0,
        graph.labels().len() >= 2 ==> plan.passes@.len() == graph.labels().len(),
        forall|s: int|
            0 <= s < plan.passes@.len() ==> (#[trigger] plan.passes@[s])@ == source_steps(
                graph.links(),
                graph.labels().len(),
                s as usize,
            ),
        forall|s: int, j: int|
            0 <= s < plan.passes@.len() && 0 <= j < plan.passes@[s]@.len() ==> step_below(
                #[trigger] plan.passes@[s]@[j],
                graph.labels().len(),
            ),
        plan.divisor is Some <==> normalizer(graph.labels().len()) is Some,
        plan.divisor matches Some(d) ==> normalizer(graph.labels().len()) == Some(d as nat),
{
    let n = graph.nodes().len();
    let mut passes: Vec<Vec<Step>> = Vec::new();
    if n >= 2 {
        let mut s: usize = 0;
        while s < n
            invariant
                s <= n,
                n == graph.labels().len(),
                passes@.len() == s,
                forall|x: int|
                    0 <= x < s ==> (#[trigger] passes@[x])@ == source_steps(
                        graph.links(),
                        n as nat,
                        x as usize,
                    ),
                forall|x: int, j: int|
                    0 <= x < s && 0 <= j < passes@[x]@.len() ==> step_below(
                        #[trigger] passes@[x]@[j],
                        n as nat,
                    ),
            decreases n - s,
        {
            let trail = augmented_traversal(graph, s);
            let steps = accumulation_steps(&trail, s);
            passes.push(steps);
            s += 1;
        }
    }
    BetweennessPlan { passes, divisor: betweenness_normalizer(n) }
}

} // verus!
