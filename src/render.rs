//! Writing the graph document: node identifiers and one statement per edge.
use vstd::prelude::*;

use crate::model::{ChangeHash, Edge, HASH_SIZE};

verus! {

broadcast use vstd::string::is_ascii_spec_bytes;

/// The lowercase hexadecimal digit of a value below 16, as an ASCII byte:
/// `'0'..='9'`, then `'a'..='f'`.
pub open spec fn hex_digit(d: u8) -> u8 {
    if d < 10 {
        (d + 48) as u8
    } else {
        (d + 87) as u8
    }
}

/// Lowercase hexadecimal text of a byte string: two digits per byte, the
/// high half first.
pub open spec fn hex_of(b: Seq<u8>) -> Seq<u8> {
    Seq::new(
        2 * b.len(),
        |i: int|
            if i % 2 == 0 {
                hex_digit(b[i / 2] / 16)
            } else {
                hex_digit(b[i / 2] % 16)
            },
    )
}

/// The bytes of an ASCII text.
pub open spec fn ascii(s: Seq<char>) -> Seq<u8> {
    s.map_values(|c: char| c as u8)
}

/// The number of hex digits kept for an identifier: `hash_length` when it
/// is positive and shorter than the full text, else the full text.
pub open spec fn kept_digits(full: nat, hash_length: nat) -> nat {
    if 0 < hash_length && hash_length < full {
        hash_length
    } else {
        full
    }
}

/// The identifier of a node: `N` followed by the hash's hex text, cut to
/// the kept number of digits.
pub open spec fn node_label(h: Seq<u8>, hash_length: nat) -> Seq<u8> {
    ascii("N"@) + hex_of(h).take(kept_digits(hex_of(h).len(), hash_length) as int)
}

/// The statement for one edge: `<from> -> <to>;` and a line break.
pub open spec fn edge_statement(e: Edge, hash_length: nat) -> Seq<u8> {
    node_label(e.from@, hash_length) + ascii(" -> "@) + node_label(e.to@, hash_length) + ascii(
        ";\n"@,
    )
}

/// The statements for a list of edges, in edge order.
pub open spec fn statements(edges: Seq<Edge>, hash_length: nat) -> Seq<u8>
    decreases edges.len(),
{
    if edges.len() == 0 {
        Seq::empty()
    } else {
        statements(edges.drop_last(), hash_length) + edge_statement(edges.last(), hash_length)
    }
}

/// The opening line of the document.
pub open spec fn header() -> Seq<u8> {
    ascii("digraph automerge {\n"@)
}

/// The closing line of the document.
pub open spec fn footer() -> Seq<u8> {
    ascii("}\n"@)
}

/// The whole document for a list of edges.
pub open spec fn document(edges: Seq<Edge>, hash_length: nat) -> Seq<u8> {
    header() + statements(edges, hash_length) + footer()
}

/// Relies on hex::encode: each byte becomes two lowercase hex digits, the
/// high half first.
#[verifier::external_body]
fn hex_encode(bytes: &[u8; HASH_SIZE]) -> (r: Vec<u8>)
    ensures
        r@ == hex_of(bytes@),
{
    hex::encode(bytes).into_bytes()
}

/// Appends the bytes of an ASCII text.
fn push_ascii(out: &mut Vec<u8>, s: &str)
    requires
        s.is_ascii(),
    ensures
        final(out)@ == old(out)@ + ascii(s@),
{
    let b = s.as_bytes();
    assert(b@ =~= ascii(s@));
    push_prefix(out, b, b.len());
    assert(b@.take(b@.len() as int) =~= b@);
}

/// Appends the first `n` bytes of `b`.
fn push_prefix(out: &mut Vec<u8>, b: &[u8], n: usize)
    requires
        n <= b@.len(),
    ensures
        final(out)@ == old(out)@ + b@.take(n as int),
{
    let mut i: usize = 0;
    while i < n
        invariant
            i <= n <= b@.len(),
            out@ == old(out)@ + b@.take(i as int),
        decreases n - i,
    {
        out.push(b[i]);
        assert(b@.take(i + 1) =~= b@.take(i as int).push(b@[i as int]));
        i += 1;
    }
}

/// The identifier of a hash in the document: `N` followed by its lowercase
/// hex text, of which only the first `hash_length` digits are kept when
/// `hash_length` is positive and shorter than the text.
pub fn node_id(h: &ChangeHash, hash_length: usize) -> (r: Vec<u8>)
    ensures
        r@ == node_label(h@, hash_length as nat),
{
    let hex = hex_encode(&h.0);
    let keep: usize = if 0 < hash_length && hash_length < hex.len() {
        hash_length
    } else {
        hex.len()
    };
    let mut r: Vec<u8> = Vec::new();
    proof {
        reveal_strlit("N");
    }
    push_ascii(&mut r, "N");
    push_prefix(&mut r, hex.as_slice(), keep);
    assert(r@ =~= node_label(h@, hash_length as nat));
    r
}

/// Appends the document for `edges` to `output`: the opening line, one
/// statement per edge in the order given, and the closing line.
pub fn render_document(edges: &[Edge], output: &mut Vec<u8>, hash_length: usize)
    ensures
        final(output)@ == old(output)@ + document(edges@, hash_length as nat),
{
    proof {
        reveal_strlit("digraph automerge {\n");
        reveal_strlit("}\n");
    }
    push_ascii(output, "digraph automerge {\n");
    let mut i: usize = 0;
    while i < edges.len()
        invariant
            i <= edges@.len(),
            output@ == old(output)@ + header() + statements(edges@.take(i as int), hash_length as nat),
        decreases edges@.len() - i,
    {
        let e = edges[i];
        proof {
            reveal_strlit(" -> ");
            reveal_strlit(";\n");
        }
        let from = node_id(&e.from, hash_length);
        let to = node_id(&e.to, hash_length);
        push_prefix(output, from.as_slice(), from.len());
        push_ascii(output, " -> ");
        push_prefix(output, to.as_slice(), to.len());
        push_ascii(output, ";\n");
        proof {
            assert(from@.take(from@.len() as int) =~= from@);
            assert(to@.take(to@.len() as int) =~= to@);
            assert(edges@.take(i + 1).drop_last() =~= edges@.take(i as int));
            assert(output@ =~= old(output)@ + header() + statements(edges@.take(i + 1), hash_length as nat));
        }
        i += 1;
    }
    push_ascii(output, "}\n");
    assert(edges@.take(i as int) =~= edges@);
    assert(output@ =~= old(output)@ + document(edges@, hash_length as nat));
}

} // verus!
