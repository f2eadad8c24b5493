//! Closeness centrality: for every node the number of nodes it reaches over
//! the sum of their hop distances, scaled so that the best node scores one.
//! Scores are kept as exact fractions.

use crate::graph::Graph;
use crate::paths::{hop_distance, reachable};
use crate::traversal::{bfs_shortest_path, distance_view};
use vstd::prelude::*;

verus! {

/// The greatest number of nodes for which the scaled scores are computed:
/// with no more nodes, every product of two sums fits in 128 bits.
pub const MAX_NODES: usize = 0xFFFF_FFFF;

/// A fraction of natural numbers.
pub struct Fraction {
    pub num: nat,
    pub den: nat,
}

/// A score: the fraction `num / den`.
#[derive(Debug, Clone, Copy, PartialEq, Eq, Structural)]
pub struct Ratio {
    pub num: u128,
    pub den: u128,
}

impl View for Ratio {
    type V = Fraction;

    open spec fn view(&self) -> Fraction {
        Fraction { num: self.num as nat, den: self.den as nat }
    }
}

/// Whether `a` is at most `b`, for fractions with positive denominators.
pub open spec fn at_most(a: Fraction, b: Fraction) -> bool {
    a.num * b.den <= b.num * a.den
}

/// How many of the nodes below `upto` can be reached from `s`; `s` counts
/// where it is among them.
pub open spec fn reach_count(links: Seq<(usize, usize)>, s: int, upto: nat) -> nat
    decreases upto,
{
    if upto == 0 {
        0
    } else {
        reach_count(links, s, (upto - 1) as nat) + if reachable(links, s, upto - 1) {
            1nat
        } else {
            0nat
        }
    }
}

/// The sum of the hop distances from `s` to the nodes below `upto` that can
/// be reached from `s`.
pub open spec fn reach_total(links: Seq<(usize, usize)>, s: int, upto: nat) -> nat
    decreases upto,
{
    if upto == 0 {
        0
    } else {
        reach_total(links, s, (upto - 1) as nat) + match hop_distance(links, s, upto - 1) {
            Some(d) => d,
            None => 0nat,
        }
    }
}

/// The score of a node that reaches `count` nodes, itself among them, over
/// distances that sum to `total`: the other nodes it reaches over the sum,
/// and zero where it reaches no other.
pub open spec fn score_of(count: nat, total: nat) -> Fraction {
    if total > 0 && count > 1 {
        Fraction { num: (count - 1) as nat, den: total }
    } else {
        Fraction { num: 0, den: 1 }
    }
}

/// The score of node `i` in a graph of `n` nodes, before scaling.
pub open spec fn raw_score(links: Seq<(usize, usize)>, n: nat, i: int) -> Fraction {
    score_of(reach_count(links, i, n), reach_total(links, i, n))
}

/// The scores of all `n` nodes before scaling.
pub open spec fn raw_scores(links: Seq<(usize, usize)>, n: nat) -> Seq<Fraction> {
    Seq::new(n, |i: int| raw_score(links, n, i))
}

/// Whether `p` is the position of the first greatest of `scores`.
pub open spec fn is_peak(scores: Seq<Fraction>, p: int) -> bool {
    &&& 0 <= p < scores.len()
    &&& forall|j: int| 0 <= j < scores.len() ==> at_most(#[trigger] scores[j], scores[p])
    &&& forall|j: int| 0 <= j < p ==> !at_most(scores[p], #[trigger] scores[j])
}

/// `score` over `peak`; where the peak is zero, `score` as it is.
pub open spec fn scaled(score: Fraction, peak: Fraction) -> Fraction {
    if peak.num == 0 {
        score
    } else {
        Fraction { num: score.num * peak.den, den: score.den * peak.num }
    }
}

/// The position of the first greatest of `scores`.
pub open spec fn peak(scores: Seq<Fraction>) -> int {
    choose|p: int| is_peak(scores, p)
}

/// The node of a graph of `n` nodes that scores highest before scaling, and
/// of several such nodes the first.
pub open spec fn best_node(links: Seq<(usize, usize)>, n: nat) -> int {
    peak(raw_scores(links, n))
}

/// The closeness scores of a graph of `n` nodes: the scores before scaling,
/// each over the greatest of them.
pub open spec fn closeness_scores(links: Seq<(usize, usize)>, n: nat) -> Seq<Fraction> {
    let before = raw_scores(links, n);
    Seq::new(n, |i: int| scaled(before[i], before[peak(before)]))
}

/// Every score before scaling has a positive denominator.
pub proof fn raw_scores_are_fractions(links: Seq<(usize, usize)>, n: nat)
    ensures
        forall|j: int| 0 <= j < n ==> (#[trigger] raw_scores(links, n)[j]).den > 0,
{
}

/// There is one first greatest score at most.
pub proof fn peak_is_unique(scores: Seq<Fraction>, p: int, q: int)
    requires
        is_peak(scores, p),
        is_peak(scores, q),
    ensures
        p == q,
{
    if p < q {
        assert(at_most(scores[p], scores[q]));
    }
    if q < p {
        assert(at_most(scores[q], scores[p]));
    }
}

/// Scaling maps the greatest score, unless it is zero, to one; it leaves
/// every score between zero and one; and where the greatest score is zero,
/// all scores are zero and stay so.
pub proof fn scaling_is_normal(scores: Seq<Fraction>, p: int, i: int)
    requires
        is_peak(scores, p),
        0 <= i < scores.len(),
        forall|j: int| 0 <= j < scores.len() ==> (#[trigger] scores[j]).den > 0,
    ensures
        scores[p].num > 0 ==> scaled(scores[p], scores[p]).num == scaled(scores[p], scores[p]).den,
        scaled(scores[i], scores[p]).den > 0,
        scaled(scores[i], scores[p]).num <= scaled(scores[i], scores[p]).den,
        scores[p].num == 0 ==> scores[i].num == 0 && scaled(scores[i], scores[p]) == scores[i],
{
    let a = scores[i];
    let b = scores[p];
    assert(b.num * b.den == b.den * b.num) by (nonlinear_arith);
    assert(b.num * a.den == a.den * b.num) by (nonlinear_arith);
    if b.num > 0 {
        assert(a.den * b.num > 0) by (nonlinear_arith)
            requires
                a.den > 0,
                b.num > 0,
        ;
    } else {
        assert(0 * a.den == 0);
        assert(a.num == 0) by (nonlinear_arith)
            requires
                a.num * b.den <= 0,
                b.den > 0,
        ;
    }
}

/// Scores that are not none have a first greatest.
pub proof fn peak_exists(scores: Seq<Fraction>)
    requires
        scores.len() > 0,
        forall|j: int| 0 <= j < scores.len() ==> (#[trigger] scores[j]).den > 0,
    ensures
        is_peak(scores, peak(scores)),
    decreases scores.len(),
{
    if scores.len() == 1 {
        assert(is_peak(scores, 0));
    } else {
        let shorter = scores.drop_last();
        peak_exists(shorter);
        let p = peak(shorter);
        let last = scores.last();
        if at_most(last, scores[p]) {
            assert forall|j: int| 0 <= j < scores.len() implies at_most(
                #[trigger] scores[j],
                scores[p],
            ) by {
                if j < shorter.len() {
                    assert(at_most(shorter[j], shorter[p]));
                }
            }
            assert forall|j: int| 0 <= j < p implies !at_most(scores[p], #[trigger] scores[j]) by {
                assert(!at_most(shorter[p], shorter[j]));
            }
            assert(is_peak(scores, p));
        } else {
            let top = scores.len() - 1;
            assert(last.num * scores[p].den == scores[p].den * last.num) by (nonlinear_arith);
            assert(scores[p].num * last.den == last.den * scores[p].num) by (nonlinear_arith);
            assert forall|j: int| 0 <= j < top implies !at_most(
                scores[top],
                #[trigger] scores[j],
            ) by {
                assert(at_most(shorter[j], shorter[p]));
                if at_most(last, scores[j]) {
                    lemma_at_most_chain(last, scores[j], scores[p]);
                }
            }
            assert(is_peak(scores, top));
        }
    }
}

/// Closeness is normal: every score lies between zero and one; the node that
/// scores highest before scaling scores exactly one, unless it scores zero;
/// and then every node scores zero, before scaling and after.
pub proof fn closeness_is_normal(links: Seq<(usize, usize)>, n: nat, i: int)
    requires
        0 <= i < n,
    ensures
        closeness_scores(links, n)[i].den > 0,
        closeness_scores(links, n)[i].num <= closeness_scores(links, n)[i].den,
        0 <= best_node(links, n) < n,
        raw_score(links, n, best_node(links, n)).num > 0 ==> closeness_scores(links, n)[best_node(
            links,
            n,
        )].num == closeness_scores(links, n)[best_node(links, n)].den,
        raw_score(links, n, best_node(links, n)).num == 0 ==> raw_score(links, n, i).num == 0
            && closeness_scores(links, n)[i].num == 0,
{
    let before = raw_scores(links, n);
    raw_scores_are_fractions(links, n);
    peak_exists(before);
    let p = peak(before);
    scaling_is_normal(before, p, i);
    scaling_is_normal(before, p, p);
}

/// How many nodes `source` reaches, itself among them, and the sum of their
/// hop distances from `source`.
pub fn reachability_sums(graph: &Graph, source: usize) -> (sums: (usize, u128))
    requires
        source < graph.labels().len(),
    ensures
        sums.0 == reach_count(graph.links(), source as int, graph.labels().len()),
        sums.1 == reach_total(graph.links(), source as int, graph.labels().len()),
        sums.0 <= graph.labels().len(),
        sums.1 <= graph.labels().len() * graph.labels().len(),
{
    let distances = bfs_shortest_path(graph, source);
    let n = distances.len();
    let ghost links = graph.links();
    let mut count: usize = 0;
    let mut total: u128 = 0;
    let mut v: usize = 0;
    while v < n
        invariant
            v <= n,
            n == distances@.len(),
            n == graph.labels().len(),
            forall|x: int|
                0 <= x < n ==> distance_view(#[trigger] distances@[x])
                    == hop_distance(links, source as int, x),
            forall|x: int|
                0 <= x < n && (#[trigger] distances@[x]) is Some ==> distances@[x]->0 < n,
            count == reach_count(links, source as int, v as nat),
            total == reach_total(links, source as int, v as nat),
            count <= v,
            total <= v * n,
        decreases n - v,
    {
        assert((v + 1) * n == v * n + n) by (nonlinear_arith);
        assert((v + 1) * n <= n * n) by (nonlinear_arith)
            requires
                v + 1 <= n,
        ;
        assert(n * n <= 0xFFFF_FFFF_FFFF_FFFF * 0xFFFF_FFFF_FFFF_FFFF) by (nonlinear_arith)
            requires
                n <= 0xFFFF_FFFF_FFFF_FFFF,
        ;
        match distances[v] {
            Some(d) => {
                count += 1;
                total += d as u128;
            },
            None => {},
        }
        v += 1;
    }
    assert(n * n >= v * n) by (nonlinear_arith)
        requires
            v <= n,
    ;
    (count, total)
}

/// The score of `node` before scaling: the number of other nodes it reaches
/// over the sum of their hop distances, zero where it reaches none.
pub fn closeness_before_scaling(graph: &Graph, node: usize) -> (score: Ratio)
    requires
        node < graph.labels().len(),
    ensures
        score@ == raw_score(graph.links(), graph.labels().len(), node as int),
        score.den > 0,
        score.num < graph.labels().len(),
        score.den <= graph.labels().len() * graph.labels().len(),
{
    let (count, total) = reachability_sums(graph, node);
    assert(1 <= graph.labels().len() * graph.labels().len()) by (nonlinear_arith)
        requires
            graph.labels().len() >= 1,
    ;
    if total > 0 && count > 1 {
        Ratio { num: (count - 1) as u128, den: total }
    } else {
        Ratio { num: 0, den: 1 }
    }
}

/// The views of `scores`.
pub open spec fn fractions(scores: Seq<Ratio>) -> Seq<Fraction> {
    Seq::new(scores.len(), |i: int| scores[i]@)
}

/// Whether every score of `scores` has a positive denominator, a numerator
/// of at most 32 bits and a denominator of at most 64.
spec fn narrow(scores: Seq<Ratio>) -> bool {
    forall|x: int|
        0 <= x < scores.len() ==> (#[trigger] scores[x]).den > 0 && scores[x].num <= 0xFFFF_FFFF
            && scores[x].den <= 0xFFFF_FFFF * 0xFFFF_FFFF
}

/// The score of every node of `graph` before scaling, by node index.
fn scores_before_scaling(graph: &Graph) -> (before: Vec<Ratio>)
    requires
        graph.labels().len() <= MAX_NODES,
    ensures
        fractions(before@) == raw_scores(graph.links(), graph.labels().len()),
        narrow(before@),
{
    let n = graph.nodes().len();
    let ghost raws = raw_scores(graph.links(), n as nat);
    let mut before: Vec<Ratio> = Vec::new();
    let mut i: usize = 0;
    assert(n * n <= 0xFFFF_FFFF * 0xFFFF_FFFF) by (nonlinear_arith)
        requires
            n <= 0xFFFF_FFFF,
    ;
    while i < n
        invariant
            i <= n,
            n == graph.labels().len(),
            n * n <= 0xFFFF_FFFF * 0xFFFF_FFFF,
            n <= MAX_NODES,
            before@.len() == i,
            raws == raw_scores(graph.links(), n as nat),
            forall|j: int| 0 <= j < i ==> (#[trigger] before@[j])@ == raws[j],
            narrow(before@),
        decreases n - i,
    {
        let score = closeness_before_scaling(graph, i);
        before.push(score);
        i += 1;
    }
    before
}

/// The position of the first greatest of `scores`.
fn first_greatest(scores: &Vec<Ratio>) -> (best: usize)
    requires
        scores@.len() > 0,
        narrow(scores@),
    ensures
        is_peak(fractions(scores@), best as int),
        best == peak(fractions(scores@)),
{
    let ghost all = fractions(scores@);
    let mut best: usize = 0;
    let mut j: usize = 1;
    while j < scores.len()
        invariant
            1 <= j <= scores@.len(),
            best < j,
            narrow(scores@),
            all == fractions(scores@),
            is_peak(all.take(j as int), best as int),
        decreases scores@.len() - j,
    {
        let top = scores[best];
        let here = scores[j];
        assert(top.num * here.den <= 0xFFFF_FFFF * (0xFFFF_FFFF * 0xFFFF_FFFF))
            by (nonlinear_arith)
            requires
                top.num <= 0xFFFF_FFFF,
                here.den <= 0xFFFF_FFFF * 0xFFFF_FFFF,
        ;
        assert(here.num * top.den <= 0xFFFF_FFFF * (0xFFFF_FFFF * 0xFFFF_FFFF))
            by (nonlinear_arith)
            requires
                here.num <= 0xFFFF_FFFF,
                top.den <= 0xFFFF_FFFF * 0xFFFF_FFFF,
        ;
        if top.num * here.den < here.num * top.den {
            best = j;
        }
        proof {
            let longer = all.take(j + 1);
            let shorter = all.take(j as int);
            assert forall|x: int| 0 <= x < best implies !at_most(
                longer[best as int],
                #[trigger] longer[x],
            ) by {
                if best == j {
                    if at_most(here@, shorter[x]) {
                        lemma_at_most_chain(here@, shorter[x], top@);
                    }
                }
            }
        }
        j += 1;
    }
    proof {
        assert(all.take(j as int) =~= all);
        peak_exists(all);
        peak_is_unique(all, best as int, peak(all));
    }
    best
}

/// The closeness centrality of every node of `graph`, by node index: the
/// score before scaling over the greatest such score, so that the best node
/// scores exactly one; where no node reaches another, all scores are zero.
pub fn calculate_closeness_centrality(graph: &Graph) -> (scores: Vec<Ratio>)
    requires
        graph.labels().len() <= MAX_NODES,
    ensures
        scores@.len() == graph.labels().len(),
        fractions(scores@) == closeness_scores(graph.links(), graph.labels().len()),
        forall|i: int|
            0 <= i < scores@.len() ==> (#[trigger] scores@[i]).den > 0 && scores@[i].num
                <= scores@[i].den,
        scores@.len() > 0 ==> 0 <= best_node(graph.links(), graph.labels().len()) < scores@.len(),
        scores@.len() > 0 && raw_score(
            graph.links(),
            graph.labels().len(),
            best_node(graph.links(), graph.labels().len()),
        ).num > 0 ==> scores@[best_node(graph.links(), graph.labels().len())].num
            == scores@[best_node(graph.links(), graph.labels().len())].den,
        scores@.len() > 0 && raw_score(
            graph.links(),
            graph.labels().len(),
            best_node(graph.links(), graph.labels().len()),
        ).num == 0 ==> forall|i: int| 0 <= i < scores@.len() ==> (#[trigger] scores@[i]).num == 0,
{
    let scores = scaled_scores(graph);
    proof {
        let n = graph.labels().len();
        assert forall|i: int| 0 <= i < n implies (#[trigger] scores@[i]).den > 0 && scores@[i].num
            <= scores@[i].den && (raw_score(graph.links(), n, best_node(graph.links(), n)).num == 0
            ==> scores@[i].num == 0) by {
            closeness_is_normal(graph.links(), n, i);
        }
        if n > 0 {
            closeness_is_normal(graph.links(), n, 0);
        }
    }
    scores
}

/// The closeness scores of `graph` as fractions.
fn scaled_scores(graph: &Graph) -> (scores: Vec<Ratio>)
    requires
        graph.labels().len() <= MAX_NODES,
    ensures
        scores@.len() == graph.labels().len(),
        fractions(scores@) == closeness_scores(graph.links(), graph.labels().len()),
{
    let before = scores_before_scaling(graph);
    let n = before.len();
    let ghost raws = raw_scores(graph.links(), graph.labels().len());
    if n == 0 {
        assert(fractions(before@) =~= closeness_scores(graph.links(), 0));
        return before;
    }
    let best = first_greatest(&before);
    let top = before[best];
    let mut scores: Vec<Ratio> = Vec::new();
    let mut k: usize = 0;
    while k < n
        invariant
            k <= n,
            n == before@.len(),
            narrow(before@),
            fractions(before@) == raws,
            top.num <= 0xFFFF_FFFF,
            top.den <= 0xFFFF_FFFF * 0xFFFF_FFFF,
            scores@.len() == k,
            forall|x: int| 0 <= x < k ==> (#[trigger] scores@[x])@ == scaled(raws[x], top@),
        decreases n - k,
    {
        let here = before[k];
        assert(here.num * top.den <= 0xFFFF_FFFF * (0xFFFF_FFFF * 0xFFFF_FFFF))
            by (nonlinear_arith)
            requires
                here.num <= 0xFFFF_FFFF,
                top.den <= 0xFFFF_FFFF * 0xFFFF_FFFF,
        ;
        assert(here.den * top.num <= (0xFFFF_FFFF * 0xFFFF_FFFF) * 0xFFFF_FFFF)
            by (nonlinear_arith)
            requires
                top.num <= 0xFFFF_FFFF,
                here.den <= 0xFFFF_FFFF * 0xFFFF_FFFF,
        ;
        let score = if top.num == 0 {
            here
        } else {
            Ratio { num: here.num * top.den, den: here.den * top.num }
        };
        scores.push(score);
        k += 1;
    }
    scores
}

/// Of fractions with positive denominators, one that is at most a second that
/// is at most a third is at most the third.
proof fn lemma_at_most_chain(a: Fraction, b: Fraction, c: Fraction)
    requires
        at_most(a, b),
        at_most(b, c),
        a.den > 0,
        b.den > 0,
        c.den > 0,
    ensures
        at_most(a, c),
{
    assert(a.num * c.den <= c.num * a.den) by (nonlinear_arith)
        requires
            a.num * b.den <= b.num * a.den,
            b.num * c.den <= c.num * b.den,
            a.den > 0,
            b.den > 0,
            c.den > 0,
    ;
}

} // verus!
