//! Extracting the dependency edges of a list of changes, and the set of
//! nodes those edges touch.
use vstd::prelude::*;

use core::cmp::Ordering;

use crate::model::{
    bytes_lt, canonical_order, edge_lt, edges_of, in_edge_order, insert_edge, is_endpoint,
    record_edges, strictly_sorted, ChangeHash, ChangeRecord, Edge, HASH_SIZE,
};

verus! {

proof fn lemma_edges_of_push(changes: Seq<ChangeRecord>, i: int)
    requires
        0 <= i < changes.len(),
    ensures
        edges_of(changes.take(i + 1)) == edges_of(changes.take(i)) + record_edges(changes[i]),
{
    assert(changes.take(i + 1).drop_last() =~= changes.take(i));
}

/// Every dependency of every record, as an edge from the record's hash to
/// the dependency, records in order and each one's dependencies in order.
pub fn extract_edges(changes: &[ChangeRecord]) -> (r: Vec<Edge>)
    ensures
        r@ == edges_of(changes@),
{
    let mut r: Vec<Edge> = Vec::new();
    let mut i: usize = 0;
    while i < changes.len()
        invariant
            i <= changes@.len(),
            r@ == edges_of(changes@.take(i as int)),
        decreases changes@.len() - i,
    {
        let change = &changes[i];
        let ghost before = r@;
        let mut j: usize = 0;
        while j < change.deps.len()
            invariant
                j <= change.deps@.len(),
                r@ == before + record_edges(*change).take(j as int),
            decreases change.deps@.len() - j,
        {
            r.push(Edge { from: change.hash, to: change.deps[j] });
            assert(record_edges(*change).take(j + 1) =~= record_edges(*change).take(j as int).push(
                Edge { from: change.hash, to: change.deps@[j as int] },
            ));
            assert(r@ =~= before + record_edges(*change).take(j + 1));
            j += 1;
        }
        proof {
            assert(record_edges(*change).take(j as int) =~= record_edges(*change));
            lemma_edges_of_push(changes@, i as int);
        }
        i += 1;
    }
    assert(changes@.take(i as int) =~= changes@);
    r
}

/// No byte string is smaller than itself, and of two byte strings at
/// most one is smaller than the other.
proof fn lemma_lt_asymmetric(a: Seq<u8>, b: Seq<u8>)
    requires
        bytes_lt(a, b),
    ensures
        !bytes_lt(b, a),
{
    let i = choose|i: int|
        0 <= i < a.len() && i < b.len() && a.take(i) == b.take(i) && #[trigger] a[i] < b[i];
    if bytes_lt(b, a) {
        let j = choose|j: int|
            0 <= j < b.len() && j < a.len() && b.take(j) == a.take(j) && #[trigger] b[j] < a[j];
        if i < j {
            assert(a.take(j)[i] == b.take(j)[i]);
        } else if j < i {
            assert(a.take(i)[j] == b.take(i)[j]);
        }
    }
}

proof fn lemma_lt_transitive(a: Seq<u8>, b: Seq<u8>, c: Seq<u8>)
    requires
        bytes_lt(a, b),
        bytes_lt(b, c),
        a.len() == b.len() == c.len(),
    ensures
        bytes_lt(a, c),
{
    let i = choose|i: int|
        0 <= i < a.len() && i < b.len() && a.take(i) == b.take(i) && #[trigger] a[i] < b[i];
    let j = choose|j: int|
        0 <= j < b.len() && j < c.len() && b.take(j) == c.take(j) && #[trigger] b[j] < c[j];
    if i < j {
        assert(b.take(i) =~= b.take(j).take(i));
        assert(c.take(i) =~= c.take(j).take(i));
        assert(b.take(j)[i] == c.take(j)[i]);
        assert(a[i] < c[i]);
    } else if j < i {
        assert(a.take(j) =~= a.take(i).take(j));
        assert(b.take(j) =~= b.take(i).take(j));
        assert(a.take(i)[j] == b.take(i)[j]);
        assert(a[j] < c[j]);
    } else {
        assert(a[i] < c[i]);
    }
}

proof fn lemma_lt_irreflexive(a: Seq<u8>)
    ensures
        !bytes_lt(a, a),
{
    if bytes_lt(a, a) {
        lemma_lt_asymmetric(a, a);
    }
}

proof fn lemma_lt_total_from(a: Seq<u8>, b: Seq<u8>, i: int)
    requires
        a.len() == b.len(),
        0 <= i <= a.len(),
        a.take(i) == b.take(i),
        a != b,
    ensures
        bytes_lt(a, b) || bytes_lt(b, a),
    decreases a.len() - i,
{
    if i == a.len() {
        assert(a =~= a.take(i));
        assert(b =~= b.take(i));
    } else if a[i] < b[i] {
        assert(bytes_lt(a, b));
    } else if b[i] < a[i] {
        assert(bytes_lt(b, a));
    } else {
        assert(a.take(i + 1) =~= a.take(i).push(a[i]));
        assert(b.take(i + 1) =~= b.take(i).push(b[i]));
        lemma_lt_total_from(a, b, i + 1);
    }
}

/// Of two different hashes, one is smaller than the other.
proof fn lemma_hash_lt_total(a: ChangeHash, b: ChangeHash)
    requires
        a != b,
    ensures
        bytes_lt(a@, b@) || bytes_lt(b@, a@),
{
    if a@ == b@ {
        assert(a.0 =~= b.0);
    }
    assert(a@.take(0) =~= b@.take(0));
    lemma_lt_total_from(a@, b@, 0);
}

proof fn lemma_edge_lt_asymmetric(a: Edge, b: Edge)
    requires
        edge_lt(a, b),
    ensures
        !edge_lt(b, a),
{
    lemma_lt_irreflexive(a.from@);
    if bytes_lt(a.from@, b.from@) {
        lemma_lt_asymmetric(a.from@, b.from@);
    } else {
        lemma_lt_asymmetric(a.to@, b.to@);
    }
}

proof fn lemma_edge_lt_transitive(a: Edge, b: Edge, c: Edge)
    requires
        edge_lt(a, b),
        edge_lt(b, c),
    ensures
        edge_lt(a, c),
{
    if bytes_lt(a.from@, b.from@) && bytes_lt(b.from@, c.from@) {
        lemma_lt_transitive(a.from@, b.from@, c.from@);
    } else if !bytes_lt(a.from@, b.from@) && !bytes_lt(b.from@, c.from@) {
        lemma_lt_transitive(a.to@, b.to@, c.to@);
    }
}

proof fn lemma_edge_lt_total(a: Edge, b: Edge)
    requires
        a != b,
    ensures
        edge_lt(a, b) || edge_lt(b, a),
{
    if a.from != b.from {
        lemma_hash_lt_total(a.from, b.from);
    } else {
        lemma_hash_lt_total(a.to, b.to);
    }
}

proof fn lemma_insert_edge(s: Seq<Edge>, e: Edge)
    requires
        in_edge_order(s),
    ensures
        in_edge_order(insert_edge(s, e)),
        insert_edge(s, e).to_multiset() == s.to_multiset().insert(e),
    decreases s.len(),
{
    broadcast use vstd::seq_lib::group_to_multiset_ensures;

    let r = insert_edge(s, e);
    if s.len() == 0 {
        assert(s =~= Seq::<Edge>::empty());
        assert(r =~= s.push(e));
    } else {
        let l = s.last();
        let t = s.drop_last();
        assert(s =~= t.push(l));
        assert forall|i: int, j: int| 0 <= i < j < t.len() implies !edge_lt(
            #[trigger] t[j],
            #[trigger] t[i],
        ) by {
            assert(t[i] == s[i] && t[j] == s[j]);
        }
        if edge_lt(e, l) {
            lemma_insert_edge(t, e);
            let r1 = insert_edge(t, e);
            assert(r =~= r1.push(l));
            assert(r.to_multiset() =~= s.to_multiset().insert(e));
            assert forall|i: int, j: int| 0 <= i < j < r.len() implies !edge_lt(
                #[trigger] r[j],
                #[trigger] r[i],
            ) by {
                if j == r1.len() {
                    let x = r1[i];
                    assert(r1.to_multiset().count(x) > 0);
                    if x == e {
                        lemma_edge_lt_asymmetric(e, l);
                    } else {
                        assert(t.to_multiset().count(x) > 0);
                        let k = choose|k: int| 0 <= k < t.len() && t[k] == x;
                        assert(s[k] == x);
                        assert(s[s.len() - 1] == l);
                    }
                } else {
                    assert(r[i] == r1[i] && r[j] == r1[j]);
                }
            }
        } else {
            assert(r =~= s.push(e));
            assert forall|i: int, j: int| 0 <= i < j < r.len() implies !edge_lt(
                #[trigger] r[j],
                #[trigger] r[i],
            ) by {
                if j == s.len() && i < s.len() - 1 && edge_lt(e, s[i]) {
                    assert(s[s.len() - 1] == l);
                    if e == l {
                    } else {
                        lemma_edge_lt_total(e, l);
                        lemma_edge_lt_transitive(l, e, s[i]);
                    }
                }
                if j < s.len() {
                    assert(r[i] == s[i] && r[j] == s[j]);
                }
            }
        }
    }
}

/// The canonical order of a list of edges is sorted by source and then
/// target, and holds each edge exactly as often as the list does.
pub proof fn lemma_canonical_order(s: Seq<Edge>)
    ensures
        in_edge_order(canonical_order(s)),
        canonical_order(s).to_multiset() == s.to_multiset(),
    decreases s.len(),
{
    broadcast use vstd::seq_lib::group_to_multiset_ensures;

    if s.len() == 0 {
        assert(s =~= Seq::<Edge>::empty());
    } else {
        lemma_canonical_order(s.drop_last());
        lemma_insert_edge(canonical_order(s.drop_last()), s.last());
        assert(s =~= s.drop_last().push(s.last()));
    }
}

/// Two sorted lists of edges that hold the same edges equally often are
/// the same list.
pub proof fn lemma_in_edge_order_unique(a: Seq<Edge>, b: Seq<Edge>)
    requires
        in_edge_order(a),
        in_edge_order(b),
        a.to_multiset() == b.to_multiset(),
    ensures
        a == b,
    decreases a.len(),
{
    broadcast use vstd::seq_lib::group_to_multiset_ensures;

    assert(a.len() == a.to_multiset().len());
    assert(b.len() == b.to_multiset().len());
    if a.len() == 0 {
        assert(a =~= b);
    } else {
        let x = a[0];
        let y = b[0];
        assert(a.to_multiset().count(x) > 0);
        assert(b.to_multiset().count(y) > 0);
        let j = choose|j: int| 0 <= j < b.len() && b[j] == x;
        let k = choose|k: int| 0 <= k < a.len() && a[k] == y;
        if x != y {
            assert(j > 0 && k > 0);
            assert(!edge_lt(b[j], b[0]));
            assert(!edge_lt(a[k], a[0]));
            lemma_edge_lt_total(x, y);
        }
        let a1 = a.remove(0);
        let b1 = b.remove(0);
        assert(a1.to_multiset() == b1.to_multiset());
        assert forall|i: int, j: int| 0 <= i < j < a1.len() implies !edge_lt(
            #[trigger] a1[j],
            #[trigger] a1[i],
        ) by {
            assert(a1[i] == a[i + 1] && a1[j] == a[j + 1]);
        }
        assert forall|i: int, j: int| 0 <= i < j < b1.len() implies !edge_lt(
            #[trigger] b1[j],
            #[trigger] b1[i],
        ) by {
            assert(b1[i] == b[i + 1] && b1[j] == b[j + 1]);
        }
        lemma_in_edge_order_unique(a1, b1);
        assert(a =~= b1.insert(0, x));
        assert(b =~= b1.insert(0, y));
    }
}

/// Compares two hashes byte by byte.
fn compare_hashes(a: &ChangeHash, b: &ChangeHash) -> (r: Ordering)
    ensures
        r == Ordering::Less <==> bytes_lt(a@, b@),
        r == Ordering::Greater <==> bytes_lt(b@, a@),
        r == Ordering::Equal <==> *a == *b,
{
    let mut i: usize = 0;
    while i < HASH_SIZE
        invariant
            i <= HASH_SIZE,
            a@.len() == HASH_SIZE,
            b@.len() == HASH_SIZE,
            a@.take(i as int) == b@.take(i as int),
        decreases HASH_SIZE - i,
    {
        if a.0[i] < b.0[i] {
            proof {
                assert(a@[i as int] < b@[i as int]);
                lemma_lt_asymmetric(a@, b@);
            }
            return Ordering::Less;
        }
        if a.0[i] > b.0[i] {
            proof {
                assert(b@[i as int] < a@[i as int]);
                lemma_lt_asymmetric(b@, a@);
            }
            return Ordering::Greater;
        }
        assert(a@.take(i + 1) =~= b@.take(i + 1)) by {
            assert(a@.take(i + 1) =~= a@.take(i as int).push(a@[i as int]));
            assert(b@.take(i + 1) =~= b@.take(i as int).push(b@[i as int]));
        }
        i += 1;
    }
    assert(a@ =~= a@.take(HASH_SIZE as int));
    assert(b@ =~= b@.take(HASH_SIZE as int));
    assert(a.0 =~= b.0);
    assert(!bytes_lt(a@, b@)) by {
        if bytes_lt(a@, b@) {
            let j = choose|j: int|
                0 <= j < a@.len() && j < b@.len() && a@.take(j) == b@.take(j) && #[trigger] a@[j]
                    < b@[j];
        }
    }
    assert(!bytes_lt(b@, a@)) by {
        if bytes_lt(b@, a@) {
            let j = choose|j: int|
                0 <= j < b@.len() && j < a@.len() && b@.take(j) == a@.take(j) && #[trigger] b@[j]
                    < a@[j];
        }
    }
    Ordering::Equal
}

/// Adds `h` to a sorted list of hashes, unless it is there already.
fn insert_sorted(r: &mut Vec<ChangeHash>, h: ChangeHash)
    requires
        strictly_sorted(old(r)@),
    ensures
        strictly_sorted(final(r)@),
        forall|x: ChangeHash| final(r)@.contains(x) <==> (old(r)@.contains(x) || x == h),
{
    let mut p: usize = 0;
    while p < r.len()
        invariant
            p <= r@.len(),
            r@ == old(r)@,
            strictly_sorted(r@),
            forall|k: int| 0 <= k < p ==> bytes_lt(#[trigger] r@[k]@, h@),
        decreases r@.len() - p,
    {
        match compare_hashes(&r[p], &h) {
            Ordering::Less => {
                p += 1;
            },
            Ordering::Equal => {
                assert(r@[p as int] == h);
                return ;
            },
            Ordering::Greater => {
                let ghost s = r@;
                r.insert(p, h);
                proof {
                    let t = r@;
                    assert(t =~= s.insert(p as int, h));
                    assert forall|i: int, j: int| 0 <= i < j < t.len() implies bytes_lt(
                        #[trigger] t[i]@,
                        #[trigger] t[j]@,
                    ) by {
                        if j < p {
                        } else if j == p {
                        } else if i < p {
                            lemma_lt_transitive(t[i]@, h@, s[p as int]@);
                            if j - 1 > p {
                                lemma_lt_transitive(t[i]@, s[p as int]@, t[j]@);
                            }
                        } else if i == p {
                            if j - 1 > p {
                                lemma_lt_transitive(h@, s[p as int]@, t[j]@);
                            }
                        }
                    }
                    assert forall|x: ChangeHash| t.contains(x) <==> (s.contains(x) || x == h) by {
                        if t.contains(x) {
                            let k = choose|k: int| 0 <= k < t.len() && t[k] == x;
                            if k < p {
                                assert(s[k] == x);
                            } else if k > p {
                                assert(s[k - 1] == x);
                            }
                        }
                        if s.contains(x) {
                            let k = choose|k: int| 0 <= k < s.len() && s[k] == x;
                            if k < p {
                                assert(t[k] == x);
                            } else {
                                assert(t[k + 1] == x);
                            }
                        }
                        if x == h {
                            assert(t[p as int] == x);
                        }
                    }
                }
                return ;
            },
        }
    }
    let ghost s = r@;
    r.push(h);
    proof {
        let t = r@;
        assert(t =~= s.push(h));
        assert forall|x: ChangeHash| t.contains(x) <==> (s.contains(x) || x == h) by {
            if t.contains(x) {
                let k = choose|k: int| 0 <= k < t.len() && t[k] == x;
                if k < s.len() {
                    assert(s[k] == x);
                }
            }
            if s.contains(x) {
                let k = choose|k: int| 0 <= k < s.len() && s[k] == x;
                assert(t[k] == x);
            }
            if x == h {
                assert(t[s.len() as int] == x);
            }
        }
    }
}

/// The distinct hashes that occur as the source or the target of an edge,
/// in ascending byte order.
pub fn nodes(edges: &[Edge]) -> (r: Vec<ChangeHash>)
    ensures
        strictly_sorted(r@),
        forall|h: ChangeHash| r@.contains(h) <==> is_endpoint(edges@, h),
{
    let mut r: Vec<ChangeHash> = Vec::new();
    let mut i: usize = 0;
    while i < edges.len()
        invariant
            i <= edges@.len(),
            strictly_sorted(r@),
            forall|h: ChangeHash| r@.contains(h) <==> is_endpoint(edges@.take(i as int), h),
        decreases edges@.len() - i,
    {
        let e = edges[i];
        insert_sorted(&mut r, e.from);
        insert_sorted(&mut r, e.to);
        proof {
            let before = edges@.take(i as int);
            let after = edges@.take(i + 1);
            assert(after =~= before.push(e));
            assert forall|h: ChangeHash| is_endpoint(after, h) <==> (is_endpoint(before, h)
                || h == e.from || h == e.to) by {
                if is_endpoint(after, h) {
                    let k = choose|k: int|
                        0 <= k < after.len() && (#[trigger] after[k].from == h || after[k].to
                            == h);
                    if k < i {
                        assert(before[k] == after[k]);
                    }
                }
                if is_endpoint(before, h) {
                    let k = choose|k: int|
                        0 <= k < before.len() && (#[trigger] before[k].from == h || before[k].to
                            == h);
                    assert(after[k] == before[k]);
                }
                if h == e.from || h == e.to {
                    assert(after[i as int] == e);
                }
            }
        }
        i += 1;
    }
    assert(edges@.take(i as int) =~= edges@);
    r
}

/// Compares two edges by source hash, then by target hash.
fn edge_less(a: &Edge, b: &Edge) -> (r: bool)
    ensures
        r == edge_lt(*a, *b),
{
    match compare_hashes(&a.from, &b.from) {
        Ordering::Less => true,
        Ordering::Greater => false,
        Ordering::Equal => match compare_hashes(&a.to, &b.to) {
            Ordering::Less => true,
            _ => false,
        },
    }
}

proof fn lemma_insert_at(s: Seq<Edge>, e: Edge, p: int)
    requires
        0 <= p <= s.len(),
        forall|k: int| p <= k < s.len() ==> edge_lt(e, #[trigger] s[k]),
        p == 0 || !edge_lt(e, s[p - 1]),
    ensures
        insert_edge(s, e) == s.insert(p, e),
    decreases s.len(),
{
    if s.len() == 0 {
        assert(s.insert(p, e) =~= seq![e]);
    } else if p == s.len() {
        assert(s.insert(p, e) =~= s.push(e));
    } else {
        let t = s.drop_last();
        assert(edge_lt(e, s[s.len() - 1]));
        lemma_insert_at(t, e, p);
        assert(t.insert(p, e).push(s.last()) =~= s.insert(p, e));
    }
}

/// The edges in canonical order: ascending by source hash and then by
/// target hash, equal edges kept as often as they occur.
pub fn sort_edges(edges: &[Edge]) -> (r: Vec<Edge>)
    ensures
        r@ == canonical_order(edges@),
        in_edge_order(r@),
        r@.to_multiset() == edges@.to_multiset(),
{
    let mut r: Vec<Edge> = Vec::new();
    let mut i: usize = 0;
    while i < edges.len()
        invariant
            i <= edges@.len(),
            r@ == canonical_order(edges@.take(i as int)),
        decreases edges@.len() - i,
    {
        let e = edges[i];
        let mut p: usize = r.len();
        loop
            invariant
                p <= r@.len(),
                forall|k: int| p <= k < r@.len() ==> edge_lt(e, #[trigger] r@[k]),
            ensures
                p <= r@.len(),
                forall|k: int| p <= k < r@.len() ==> edge_lt(e, #[trigger] r@[k]),
                p == 0 || !edge_lt(e, r@[p - 1]),
            decreases p,
        {
            if p == 0 {
                break;
            }
            if edge_less(&e, &r[p - 1]) {
                p -= 1;
            } else {
                break;
            }
        }
        proof {
            lemma_insert_at(r@, e, p as int);
            assert(edges@.take(i + 1).drop_last() =~= edges@.take(i as int));
            assert(edges@.take(i + 1).last() == e);
        }
        r.insert(p, e);
        i += 1;
    }
    assert(edges@.take(i as int) =~= edges@);
    proof {
        lemma_canonical_order(edges@);
    }
    r
}

} // verus!
