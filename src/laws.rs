//! Properties of the document that hold for every input.
use vstd::prelude::*;

use crate::edges::{lemma_canonical_order, lemma_in_edge_order_unique};
use crate::model::{
    canonical_order, edges_of, record_edges, total_deps, ChangeHash, ChangeRecord, Edge, HASH_SIZE,
};
use crate::render::{
    ascii, document, edge_statement, footer, header, hex_of, node_label, statements,
};

verus! {

/// The number of times the byte `x` occurs in `s`.
pub open spec fn count_byte(s: Seq<u8>, x: u8) -> nat
    decreases s.len(),
{
    if s.len() == 0 {
        0
    } else {
        count_byte(s.drop_last(), x) + if s.last() == x {
            1nat
        } else {
            0nat
        }
    }
}

proof fn lemma_count_concat(a: Seq<u8>, b: Seq<u8>, x: u8)
    ensures
        count_byte(a + b, x) == count_byte(a, x) + count_byte(b, x),
    decreases b.len(),
{
    if b.len() > 0 {
        assert((a + b).drop_last() =~= a + b.drop_last());
        lemma_count_concat(a, b.drop_last(), x);
    } else {
        assert(a + b =~= a);
    }
}

proof fn lemma_count_absent(s: Seq<u8>, x: u8)
    requires
        forall|i: int| 0 <= i < s.len() ==> s[i] != x,
    ensures
        count_byte(s, x) == 0,
    decreases s.len(),
{
    if s.len() > 0 {
        lemma_count_absent(s.drop_last(), x);
    }
}

/// A node identifier holds no `;`.
proof fn lemma_label_no_semicolon(h: Seq<u8>, hash_length: nat)
    ensures
        count_byte(node_label(h, hash_length), 59) == 0,
{
    reveal_strlit("N");
    let s = node_label(h, hash_length);
    assert forall|i: int| 0 <= i < s.len() implies s[i] != 59 by {
        if i > 0 {
            assert(s[i] == hex_of(h)[i - 1]);
        }
    }
    lemma_count_absent(s, 59);
}

/// Each statement holds exactly one `;`.
proof fn lemma_statement_one_semicolon(e: Edge, hash_length: nat)
    ensures
        count_byte(edge_statement(e, hash_length), 59) == 1,
{
    reveal_strlit(" -> ");
    reveal_strlit(";\n");
    let a = node_label(e.from@, hash_length);
    let b = ascii(" -> "@);
    let c = node_label(e.to@, hash_length);
    let d = ascii(";\n"@);
    lemma_label_no_semicolon(e.from@, hash_length);
    lemma_label_no_semicolon(e.to@, hash_length);
    lemma_count_absent(b, 59);
    assert(d.len() == 2 && d[0] == 59 && d[1] == 10);
    let d1 = d.drop_last();
    assert(d1.len() == 1 && d1.last() == 59);
    assert(d1.drop_last() =~= Seq::<u8>::empty());
    assert(count_byte(d1.drop_last(), 59) == 0);
    assert(count_byte(d1, 59) == 1);
    assert(count_byte(d, 59) == 1);
    lemma_count_concat(a, b, 59);
    lemma_count_concat(a + b, c, 59);
    lemma_count_concat(a + b + c, d, 59);
}

proof fn lemma_statements_count(edges: Seq<Edge>, hash_length: nat)
    ensures
        count_byte(statements(edges, hash_length), 59) == edges.len(),
    decreases edges.len(),
{
    if edges.len() > 0 {
        lemma_statements_count(edges.drop_last(), hash_length);
        lemma_statement_one_semicolon(edges.last(), hash_length);
        lemma_count_concat(
            statements(edges.drop_last(), hash_length),
            edge_statement(edges.last(), hash_length),
            59,
        );
    }
}

proof fn lemma_edges_of_len(changes: Seq<ChangeRecord>)
    ensures
        edges_of(changes).len() == total_deps(changes),
    decreases changes.len(),
{
    if changes.len() > 0 {
        lemma_edges_of_len(changes.drop_last());
        assert(record_edges(changes.last()).len() == changes.last().deps@.len());
    }
}

/// With no changes, the document is the opening line directly followed by
/// the closing line, whatever the identifier length.
pub proof fn lemma_empty_input(hash_length: nat)
    ensures
        document(canonical_order(edges_of(Seq::empty())), hash_length) == ascii(
            "digraph automerge {\n}\n"@,
        ),
{
    reveal_strlit("digraph automerge {\n");
    reveal_strlit("}\n");
    reveal_strlit("digraph automerge {\n}\n");
    assert(statements(Seq::<Edge>::empty(), hash_length) =~= Seq::<u8>::empty());
    assert(canonical_order(edges_of(Seq::<ChangeRecord>::empty())) =~= Seq::<Edge>::empty());
    assert(document(canonical_order(edges_of(Seq::empty())), hash_length) =~= ascii(
        "digraph automerge {\n}\n"@,
    ));
}

/// The document holds one edge statement, each ending in `;`, for every
/// dependency of every change: as many as the dependency lists' lengths
/// added up.
pub proof fn lemma_edge_count(changes: Seq<ChangeRecord>, hash_length: nat)
    ensures
        edges_of(changes).len() == total_deps(changes),
        canonical_order(edges_of(changes)).len() == total_deps(changes),
        count_byte(document(canonical_order(edges_of(changes)), hash_length), 59) == total_deps(
            changes,
        ),
{
    broadcast use vstd::seq_lib::to_multiset_len;

    reveal_strlit("digraph automerge {\n");
    reveal_strlit("}\n");
    let e = canonical_order(edges_of(changes));
    lemma_edges_of_len(changes);
    lemma_canonical_order(edges_of(changes));
    assert(e.len() == e.to_multiset().len());
    assert(edges_of(changes).len() == edges_of(changes).to_multiset().len());
    lemma_statements_count(e, hash_length);
    lemma_count_absent(header(), 59);
    lemma_count_absent(footer(), 59);
    lemma_count_concat(header(), statements(e, hash_length), 59);
    lemma_count_concat(header() + statements(e, hash_length), footer(), 59);
}

proof fn lemma_edges_of_concat(a: Seq<ChangeRecord>, b: Seq<ChangeRecord>)
    ensures
        edges_of(a + b) == edges_of(a) + edges_of(b),
    decreases b.len(),
{
    if b.len() == 0 {
        assert(a + b =~= a);
        assert(edges_of(a) + edges_of(b) =~= edges_of(a));
    } else {
        assert((a + b).drop_last() =~= a + b.drop_last());
        lemma_edges_of_concat(a, b.drop_last());
        assert(edges_of(a + b) =~= edges_of(a) + edges_of(b));
    }
}

proof fn lemma_permuted_records_same_edges(a: Seq<ChangeRecord>, b: Seq<ChangeRecord>)
    requires
        a.to_multiset() == b.to_multiset(),
    ensures
        edges_of(a).to_multiset() == edges_of(b).to_multiset(),
    decreases a.len(),
{
    broadcast use vstd::seq_lib::group_to_multiset_ensures;
    broadcast use vstd::seq_lib::lemma_multiset_commutative;

    if a.len() == 0 {
        assert(a.to_multiset().len() == 0);
        assert(b.len() == b.to_multiset().len());
        assert(a =~= b);
    } else {
        let x = a.last();
        let a1 = a.drop_last();
        assert(a =~= a1.push(x));
        assert(a.to_multiset().count(x) > 0);
        assert(b.contains(x));
        let j = choose|j: int| 0 <= j < b.len() && b[j] == x;
        let b1 = b.remove(j);
        assert(a1.to_multiset() =~= b1.to_multiset());
        lemma_permuted_records_same_edges(a1, b1);
        let front = b.take(j);
        let back = b.skip(j + 1);
        assert(b1 =~= front + back);
        assert(b =~= front + seq![x] + back);
        lemma_edges_of_concat(front, back);
        lemma_edges_of_concat(front, seq![x]);
        lemma_edges_of_concat(front + seq![x], back);
        assert(seq![x].drop_last() =~= Seq::<ChangeRecord>::empty());
        assert(seq![x].last() == x);
        assert(edges_of(seq![x]) == edges_of(Seq::<ChangeRecord>::empty()) + record_edges(x));
        assert(edges_of(seq![x]) =~= record_edges(x));
        assert(edges_of(a).to_multiset() =~= edges_of(b).to_multiset());
    }
}

/// The document does not depend on the order of the changes: changes
/// listed in any other order give the same document, byte for byte.
pub proof fn lemma_permuted_records_same_document(
    a: Seq<ChangeRecord>,
    b: Seq<ChangeRecord>,
    hash_length: nat,
)
    requires
        a.to_multiset() == b.to_multiset(),
    ensures
        document(canonical_order(edges_of(a)), hash_length) == document(
            canonical_order(edges_of(b)),
            hash_length,
        ),
{
    lemma_permuted_records_same_edges(a, b);
    lemma_canonical_order(edges_of(a));
    lemma_canonical_order(edges_of(b));
    lemma_in_edge_order_unique(canonical_order(edges_of(a)), canonical_order(edges_of(b)));
}

/// A node identifier is the marker letter followed by `hash_length` hex
/// digits when `hash_length` is positive and below the two digits per byte
/// of a full hash, and by all of those digits otherwise.
pub proof fn lemma_identifier_length(h: ChangeHash, hash_length: nat)
    ensures
        node_label(h@, hash_length).len() == if 0 < hash_length < 2 * HASH_SIZE {
            hash_length + 1
        } else {
            (2 * HASH_SIZE + 1) as nat
        },
{
    reveal_strlit("N");
}

} // verus!
