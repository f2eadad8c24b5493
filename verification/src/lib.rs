//! Centrality measures on undirected, unweighted graphs.
//!
//! A [`graph::Graph`] keeps labelled nodes in insertion order and edges as
//! pairs of node indices. [`traversal`] searches it breadth-first from one
//! node; [`paths`] says what the search has to find. [`closeness`] scores
//! every node by how near the nodes it reaches are, in exact fractions.
//! [`betweenness`] lays out, step by step, the accumulation of path counts
//! and dependencies after Brandes; the caller runs the steps over numbers of
//! its choice. [`selector`] picks the node that ranks highest.
//!
//! Around these stand the rows of a table ([`dataset`]), their reading from
//! comma-separated text ([`ingest`]), the comparison of texts ([`text`]) and
//! a grouping of nodes by turns ([`clustering`]).

pub mod betweenness;
pub mod closeness;
pub mod clustering;
pub mod dataset;
pub mod graph;
pub mod ingest;
pub mod paths;
pub mod selector;
pub mod text;
pub mod traversal;
