//! The graph store: labelled nodes kept in insertion order, and edges kept as
//! pairs of node indices.

use crate::dataset::{rows_view, Record};
use crate::text::same_text;
use crate::paths::across;
use crate::traversal::neighbor_across;
use vstd::prelude::*;

verus! {

/// Why an operation on a [`Graph`] was refused.
#[derive(Debug, Clone, Copy, PartialEq, Eq, Structural)]
pub enum GraphError {
    /// An edge named a label that no node of the graph carries.
    UnknownNodeLabel,
}

impl GraphError {
    /// The error in words.
    pub fn message(&self) -> (text: String)
        ensures
            text@ == "edge refers to a label that is not a node of the graph"@,
    {
        "edge refers to a label that is not a node of the graph".to_string()
    }
}

/// Whether no label occurs twice in `labels`.
pub open spec fn labels_distinct(labels: Seq<Seq<char>>) -> bool {
    forall|i: int, j: int| 0 <= i < j < labels.len() ==> labels[i] != labels[j]
}

/// Whether both ends of every link are indices below `n`.
pub open spec fn links_in_range(links: Seq<(usize, usize)>, n: nat) -> bool {
    forall|k: int| 0 <= k < links.len() ==> (#[trigger] links[k]).0 < n && links[k].1 < n
}

/// Position of `label` in `labels`, where it occurs.
pub open spec fn label_position(labels: Seq<Seq<char>>, label: Seq<char>) -> int {
    choose|i: int| 0 <= i < labels.len() && labels[i] == label
}

/// An undirected, unweighted graph. A node is known by its position in the
/// order of insertion; labels are unique; an edge is a pair of positions and
/// may occur more than once.
#[derive(Debug)]
pub struct Graph {
    nodes: Vec<String>,
    edges: Vec<(usize, usize)>,
}

impl Graph {
    /// The node labels in insertion order, each as its sequence of characters.
    pub closed spec fn labels(&self) -> Seq<Seq<char>> {
        self.nodes.deep_view()
    }

    /// The edges in insertion order.
    pub closed spec fn links(&self) -> Seq<(usize, usize)> {
        self.edges@
    }

    /// What holds of every graph: labels are unique and every edge joins two
    /// existing nodes.
    #[verifier::type_invariant]
    pub open spec fn well_formed(&self) -> bool {
        &&& labels_distinct(self.labels())
        &&& links_in_range(self.links(), self.labels().len())
    }

    /// The graph without nodes and edges.
    pub fn new() -> (graph: Self)
        ensures
            graph.labels() == Seq::<Seq<char>>::empty(),
            graph.links() == Seq::<(usize, usize)>::empty(),
    {
        Self { nodes: Vec::new(), edges: Vec::new() }
    }

    /// Index of the node labelled `label`, if there is one.
    pub fn find_node(&self, label: &str) -> (found: Option<usize>)
        ensures
            found is Some <==> self.labels().contains(label@),
            found matches Some(i) ==> i < self.labels().len() && self.labels()[i as int] == label@
                && i == label_position(self.labels(), label@),
    {
        proof {
            use_type_invariant(self);
        }
        let mut i: usize = 0;
        while i < self.nodes.len()
            invariant
                i <= self.nodes.len(),
                self.labels() == self.nodes.deep_view(),
                labels_distinct(self.labels()),
                forall|j: int| 0 <= j < i ==> self.labels()[j] != label@,
            decreases self.nodes.len() - i,
        {
            if same_text(self.nodes[i].as_str(), label) {
                assert(self.labels()[i as int] == label@);
                return Some(i);
            }
            i += 1;
        }
        None
    }

    /// Adds a node labelled `node` unless one is there already.
    pub fn add_node(&mut self, node: String)
        ensures
            final(self).links() == old(self).links(),
            old(self).labels().contains(node@) ==> final(self).labels() == old(self).labels(),
            !old(self).labels().contains(node@) ==> final(self).labels() == old(self).labels().push(
                node@,
            ),
    {
        proof {
            use_type_invariant(&*self);
        }
        if self.find_node(node.as_str()).is_none() {
            // The graph is taken apart and put together again, so that what
            // holds of every graph is shown of the whole new value.
            let mut taken = Graph::new();
            std::mem::swap(self, &mut taken);
            let Graph { mut nodes, edges } = taken;
            nodes.push(node);
            assert(nodes.deep_view() =~= old(self).labels().push(node@));
            *self = Graph { nodes, edges };
        }
    }

    /// Adds an edge between the nodes labelled `node1` and `node2`. Where
    /// either label is unknown the graph stays as it is and the call fails.
    pub fn add_edge(&mut self, node1: &str, node2: &str) -> (outcome: Result<(), GraphError>)
        ensures
            final(self).labels() == old(self).labels(),
            outcome is Ok <==> old(self).labels().contains(node1@) && old(self).labels().contains(
                node2@,
            ),
            outcome is Ok ==> final(self).links() == old(self).links().push(
                (
                    label_position(old(self).labels(), node1@) as usize,
                    label_position(old(self).labels(), node2@) as usize,
                ),
            ),
            outcome is Err ==> final(self).links() == old(self).links(),
            outcome matches Err(e) ==> e == GraphError::UnknownNodeLabel,
    {
        proof {
            use_type_invariant(&*self);
        }
        let first = self.find_node(node1);
        let second = self.find_node(node2);
        match (first, second) {
            (Some(a), Some(b)) => {
                let mut taken = Graph::new();
                std::mem::swap(self, &mut taken);
                let Graph { nodes, mut edges } = taken;
                edges.push((a, b));
                *self = Graph { nodes, edges };
                Ok(())
            },
            _ => Err(GraphError::UnknownNodeLabel),
        }
    }

    /// The node labels in insertion order.
    pub fn nodes(&self) -> (nodes: &Vec<String>)
        ensures
            nodes.deep_view() == self.labels(),
            labels_distinct(self.labels()),
    {
        proof {
            use_type_invariant(self);
        }
        &self.nodes
    }

    /// The edges in insertion order.
    pub fn edges(&self) -> (edges: &Vec<(usize, usize)>)
        ensures
            edges@ == self.links(),
            links_in_range(self.links(), self.labels().len()),
    {
        proof {
            use_type_invariant(self);
        }
        &self.edges
    }
}

/// In a list without repeated labels, the position of a label is where it
/// stands.
pub proof fn lemma_label_position(labels: Seq<Seq<char>>, i: int)
    requires
        labels_distinct(labels),
        0 <= i < labels.len(),
    ensures
        label_position(labels, labels[i]) == i,
{
}

/// The labels that the rows give to nodes: the values of the field `Brand`,
/// each once, in the order in which they first occur.
pub open spec fn brand_labels(rows: Seq<Map<Seq<char>, Seq<char>>>) -> Seq<Seq<char>>
    decreases rows.len(),
{
    if rows.len() == 0 {
        Seq::empty()
    } else {
        let before = brand_labels(rows.drop_last());
        if rows.last().contains_key("Brand"@) && !before.contains(rows.last()["Brand"@]) {
            before.push(rows.last()["Brand"@])
        } else {
            before
        }
    }
}

/// The links of a chain of `n` nodes: every node to the next.
pub open spec fn chain_links(n: nat) -> Seq<(usize, usize)> {
    Seq::new(
        if n > 0 {
            (n - 1) as nat
        } else {
            0
        },
        |i: int| (i as usize, (i + 1) as usize),
    )
}

/// The graph of the brands in `data`: a node for every value of the field
/// `Brand`, in the order in which the values first occur, and an edge from
/// every node to the one added after it.
pub fn build_graph(data: &[Record]) -> (graph: Graph)
    ensures
        graph.labels() == brand_labels(rows_view(data@)),
        graph.links() == chain_links(graph.labels().len()),
{
    let mut graph = Graph::new();
    let mut r: usize = 0;
    while r < data.len()
        invariant
            r <= data@.len(),
            graph.labels() == brand_labels(rows_view(data@).take(r as int)),
            graph.links().len() == 0,
        decreases data@.len() - r,
    {
        proof {
            assert(rows_view(data@).take(r + 1).drop_last() =~= rows_view(data@).take(r as int));
        }
        match data[r].get("Brand") {
            Some(brand) => {
                graph.add_node(brand.clone());
            },
            None => {},
        }
        r += 1;
    }
    assert(rows_view(data@).take(r as int) =~= rows_view(data@));
    let count = graph.nodes().len();
    let mut i: usize = 0;
    while i + 1 < count
        invariant
            count == graph.labels().len(),
            i < count || (count == 0 && i == 0),
            graph.labels() == brand_labels(rows_view(data@)),
            graph.links() == Seq::new(i as nat, |i: int| (i as usize, (i + 1) as usize)),
        decreases count - i,
    {
        proof {
            use_type_invariant(&graph);
            lemma_label_position(graph.labels(), i as int);
            lemma_label_position(graph.labels(), i + 1);
        }
        let from = graph.nodes()[i].clone();
        let to = graph.nodes()[i + 1].clone();
        let linked = graph.add_edge(from.as_str(), to.as_str());
        assert(linked is Ok);
        i += 1;
    }
    graph
}

/// The labels of the star round `center`: its own, then that of the node
/// across every link that touches it, each once, in the order of the links.
pub open spec fn star_labels(labels: Seq<Seq<char>>, links: Seq<(usize, usize)>, center: usize) -> Seq<
    Seq<char>,
>
    decreases links.len(),
{
    if links.len() == 0 {
        seq![labels[center as int]]
    } else {
        let before = star_labels(labels, links.drop_last(), center);
        match across(links.last(), center) {
            Some(w) => if before.contains(labels[w as int]) {
                before
            } else {
                before.push(labels[w as int])
            },
            None => before,
        }
    }
}

/// The links of the star round `center`: every link that touches it, in the
/// order of the links, its ends given as positions in `star`.
pub open spec fn star_links(
    labels: Seq<Seq<char>>,
    links: Seq<(usize, usize)>,
    center: usize,
    star: Seq<Seq<char>>,
) -> Seq<(usize, usize)>
    decreases links.len(),
{
    if links.len() == 0 {
        Seq::empty()
    } else {
        let before = star_links(labels, links.drop_last(), center, star);
        if across(links.last(), center) is Some {
            before.push(
                (
                    label_position(star, labels[links.last().0 as int]) as usize,
                    label_position(star, labels[links.last().1 as int]) as usize,
                ),
            )
        } else {
            before
        }
    }
}

/// Whether `star` holds the label of every end of every link among `links`
/// that touches `center`.
spec fn star_covers(
    labels: Seq<Seq<char>>,
    links: Seq<(usize, usize)>,
    center: usize,
    star: Seq<Seq<char>>,
) -> bool {
    forall|k: int|
        0 <= k < links.len() && across(#[trigger] links[k], center) is Some ==> star.contains(
            labels[links[k].0 as int],
        ) && star.contains(labels[links[k].1 as int])
}

/// The links of a star do not change when its list of labels grows at the
/// end.
proof fn lemma_star_links_stable(
    labels: Seq<Seq<char>>,
    links: Seq<(usize, usize)>,
    center: usize,
    star: Seq<Seq<char>>,
    longer: Seq<Seq<char>>,
)
    requires
        labels_distinct(longer),
        star.len() <= longer.len(),
        longer.take(star.len() as int) == star,
        star_covers(labels, links, center, star),
    ensures
        star_links(labels, links, center, star) == star_links(labels, links, center, longer),
    decreases links.len(),
{
    if links.len() > 0 {
        let shorter = links.drop_last();
        lemma_star_links_stable(labels, shorter, center, star, longer);
        let last = links[links.len() - 1];
        if across(last, center) is Some {
            lemma_position_stable(star, longer, labels[last.0 as int]);
            lemma_position_stable(star, longer, labels[last.1 as int]);
        }
    }
}

/// A label keeps its position when the list that holds it grows at the end.
proof fn lemma_position_stable(star: Seq<Seq<char>>, longer: Seq<Seq<char>>, label: Seq<char>)
    requires
        labels_distinct(longer),
        star.len() <= longer.len(),
        longer.take(star.len() as int) == star,
        star.contains(label),
    ensures
        label_position(star, label) == label_position(longer, label),
{
    let p = label_position(star, label);
    lemma_label_position(longer, p);
}

/// The star round the node labelled `target_node`: that node, the nodes that
/// an edge of `graph` joins it with, and those edges. Edges between two of
/// the other nodes are left out. Where no node carries the label, the graph
/// without nodes and edges.
pub fn build_subgraph(graph: &Graph, target_node: &str) -> (subgraph: Graph)
    ensures
        !graph.labels().contains(target_node@) ==> subgraph.labels().len() == 0
            && subgraph.links().len() == 0,
        graph.labels().contains(target_node@) ==> subgraph.labels() == star_labels(
            graph.labels(),
            graph.links(),
            label_position(graph.labels(), target_node@) as usize,
        ) && subgraph.links() == star_links(
            graph.labels(),
            graph.links(),
            label_position(graph.labels(), target_node@) as usize,
            subgraph.labels(),
        ),
{
    let mut subgraph = Graph::new();
    let center = match graph.find_node(target_node) {
        Some(index) => index,
        None => {
            return subgraph;
        },
    };
    proof {
        use_type_invariant(graph);
    }
    let nodes = graph.nodes();
    let edges = graph.edges();
    let ghost labels = graph.labels();
    let ghost links = graph.links();
    subgraph.add_node(nodes[center].clone());
    assert(subgraph.labels()[0] == labels[center as int]);
    let mut k: usize = 0;
    while k < edges.len()
        invariant
            k <= edges@.len(),
            edges@ == links,
            nodes.deep_view() == labels,
            labels == graph.labels(),
            links == graph.links(),
            labels_distinct(labels),
            links_in_range(links, labels.len()),
            center < labels.len(),
            subgraph.labels() == star_labels(labels, links.take(k as int), center),
            subgraph.links() == star_links(labels, links.take(k as int), center, subgraph.labels()),
            star_covers(labels, links.take(k as int), center, subgraph.labels()),
            subgraph.labels().contains(labels[center as int]),
        decreases edges@.len() - k,
    {
        let edge = edges[k];
        let ghost star = subgraph.labels();
        let ghost seen = links.take(k as int);
        proof {
            assert(links.take(k + 1).drop_last() =~= seen);
        }
        match neighbor_across(edge, center) {
            Some(w) => {
                subgraph.add_node(nodes[w].clone());
                let ghost longer = subgraph.labels();
                proof {
                    use_type_invariant(&subgraph);
                    assert(longer.take(star.len() as int) =~= star);
                    lemma_star_links_stable(labels, seen, center, star, longer);
                    if !star.contains(labels[w as int]) {
                        assert(longer[star.len() as int] == labels[w as int]);
                    }
                }
                let linked = subgraph.add_edge(nodes[edge.0].as_str(), nodes[edge.1].as_str());
                assert(linked is Ok);
            },
            None => {},
        }
        k += 1;
    }
    assert(links.take(k as int) =~= links);
    subgraph
}

} // verus!
