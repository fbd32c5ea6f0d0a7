//! The values the library works on, and their mathematical model.
use vstd::prelude::*;

verus! {

/// Number of bytes in a change hash.
pub const HASH_SIZE: usize = 32;

/// A content hash identifying a change: a fixed-size array of bytes.
#[derive(Clone, Copy, Debug, PartialEq, Eq, Hash)]
pub struct ChangeHash(pub [u8; HASH_SIZE]);

impl View for ChangeHash {
    type V = Seq<u8>;

    open spec fn view(&self) -> Seq<u8> {
        self.0@
    }
}

/// A change: its own hash and, in order, the hashes of the changes it
/// depends on. The dependencies need not be among the records at hand.
#[derive(Clone, Debug, PartialEq, Eq)]
pub struct ChangeRecord {
    pub hash: ChangeHash,
    pub deps: Vec<ChangeHash>,
}

/// A dependency edge: `from` depends on `to`.
#[derive(Clone, Copy, Debug, PartialEq, Eq, Hash)]
pub struct Edge {
    pub from: ChangeHash,
    pub to: ChangeHash,
}

/// The edges contributed by one record: one per dependency, in list order.
pub open spec fn record_edges(r: ChangeRecord) -> Seq<Edge> {
    r.deps@.map_values(|d: ChangeHash| Edge { from: r.hash, to: d })
}

/// All edges of a list of records: records in order, each followed by its
/// dependencies in order.
pub open spec fn edges_of(changes: Seq<ChangeRecord>) -> Seq<Edge>
    decreases changes.len(),
{
    if changes.len() == 0 {
        Seq::empty()
    } else {
        edges_of(changes.drop_last()) + record_edges(changes.last())
    }
}

/// The sum of the lengths of all dependency lists.
pub open spec fn total_deps(changes: Seq<ChangeRecord>) -> nat
    decreases changes.len(),
{
    if changes.len() == 0 {
        0
    } else {
        total_deps(changes.drop_last()) + changes.last().deps@.len()
    }
}

/// Lexicographic order on byte strings of equal length: `a` is smaller
/// than `b` when they agree up to some position where `a` holds the
/// smaller byte.
pub open spec fn bytes_lt(a: Seq<u8>, b: Seq<u8>) -> bool {
    exists|i: int|
        0 <= i < a.len() && i < b.len() && a.take(i) == b.take(i) && #[trigger] a[i] < b[i]
}

/// Each hash is smaller than every hash after it: sorted, with no repeats.
pub open spec fn strictly_sorted(s: Seq<ChangeHash>) -> bool {
    forall|i: int, j: int| 0 <= i < j < s.len() ==> bytes_lt(#[trigger] s[i]@, #[trigger] s[j]@)
}

/// Order on edges: by source hash, then by target hash.
pub open spec fn edge_lt(a: Edge, b: Edge) -> bool {
    bytes_lt(a.from@, b.from@) || (a.from == b.from && bytes_lt(a.to@, b.to@))
}

/// No edge stands after a smaller one: sorted, with equal edges side by side.
pub open spec fn in_edge_order(s: Seq<Edge>) -> bool {
    forall|i: int, j: int| 0 <= i < j < s.len() ==> !edge_lt(#[trigger] s[j], #[trigger] s[i])
}

/// `s` with `e` put in just after the last edge that is not greater than `e`.
pub open spec fn insert_edge(s: Seq<Edge>, e: Edge) -> Seq<Edge>
    decreases s.len(),
{
    if s.len() == 0 {
        seq![e]
    } else if edge_lt(e, s.last()) {
        insert_edge(s.drop_last(), e).push(s.last())
    } else {
        s.push(e)
    }
}

/// The edges in edge order, each put in turn among those before it.
pub open spec fn canonical_order(s: Seq<Edge>) -> Seq<Edge>
    decreases s.len(),
{
    if s.len() == 0 {
        Seq::empty()
    } else {
        insert_edge(canonical_order(s.drop_last()), s.last())
    }
}

/// `h` is the source or the target of one of the edges.
pub open spec fn is_endpoint(edges: Seq<Edge>, h: ChangeHash) -> bool {
    exists|i: int| 0 <= i < edges.len() && (#[trigger] edges[i].from == h || edges[i].to == h)
}

} // verus!
