//! Turns a list of change records, each a content hash with the hashes it
//! depends on, into a Graphviz `digraph` document with one statement per
//! dependency edge.
use vstd::prelude::*;

pub mod edges;
pub mod laws;
pub mod model;
pub mod render;

pub use edges::{extract_edges, nodes, sort_edges};
pub use model::{ChangeHash, ChangeRecord, Edge};
pub use render::{node_id, render_document};

verus! {

/// Appends to `output` the Graphviz document of the dependency graph of
/// `changes`: one edge statement per dependency of each change, ordered by
/// source hash and then target hash, with node identifiers cut to
/// `hash_length` hex digits when that is positive. The order of `changes`
/// does not affect the output.
pub fn graph_deps(changes: &[ChangeRecord], output: &mut Vec<u8>, hash_length: usize)
    ensures
        final(output)@ == old(output)@ + render::document(
            model::canonical_order(model::edges_of(changes@)),
            hash_length as nat,
        ),
{
    let edges = extract_edges(changes);
    let sorted = sort_edges(edges.as_slice());
    render_document(sorted.as_slice(), output, hash_length);
}

} // verus!
