use automerge::transaction::Transactable;
use automerge::{AutoCommit, Change, ROOT};
use automerge_graphviz::{
    extract_edges, graph_deps, node_id, nodes, render_document, sort_edges, ChangeHash, ChangeRecord,
    Edge,
};

fn record(hash: u8, deps: &[u8]) -> ChangeRecord {
    ChangeRecord {
        hash: ChangeHash([hash; 32]),
        deps: deps.iter().map(|d| ChangeHash([*d; 32])).collect(),
    }
}

fn record_of(change: &Change) -> ChangeRecord {
    ChangeRecord {
        hash: ChangeHash(change.hash().0),
        deps: change.deps().iter().map(|d| ChangeHash(d.0)).collect(),
    }
}

fn render(changes: &[ChangeRecord], hash_length: usize) -> String {
    let mut v = Vec::new();
    graph_deps(changes, &mut v, hash_length);
    String::from_utf8(v).unwrap()
}

fn full_id(byte: u8) -> String {
    format!("N{}", format!("{:02x}", byte).repeat(32))
}

#[test]
fn empty() {
    let mut v = Vec::new();
    graph_deps(&[], &mut v, 7);
    let s = String::from_utf8(v).unwrap();
    assert_eq!(
        &s,
        "digraph automerge {
}
"
    );
}

#[test]
fn minimal() {
    let mut doc = AutoCommit::new();
    doc.put(ROOT, "a", 1i64).unwrap();
    doc.commit();
    doc.put(ROOT, "b", 1i64).unwrap();
    doc.commit();

    let records: Vec<ChangeRecord> = doc.get_changes(&[]).into_iter().map(record_of).collect();
    let mut v = Vec::new();
    graph_deps(&records, &mut v, 7);
    String::from_utf8(v).unwrap();
}

#[test]
fn minimal_has_one_edge() {
    let mut doc = AutoCommit::new();
    doc.put(ROOT, "a", 1i64).unwrap();
    let first = doc.commit().unwrap();
    doc.put(ROOT, "b", 1i64).unwrap();
    let second = doc.commit().unwrap();

    let records: Vec<ChangeRecord> = doc.get_changes(&[]).into_iter().map(record_of).collect();
    let s = render(&records, 7);
    let expected = format!(
        "digraph automerge {{\nN{} -> N{};\n}}\n",
        &hex::encode(second.0)[..7],
        &hex::encode(first.0)[..7]
    );
    assert_eq!(s, expected);
}

#[test]
fn empty_any_length() {
    for k in [0usize, 1, 7, 64, 1000] {
        assert_eq!(render(&[], k), "digraph automerge {\n}\n");
    }
    let roots = vec![record(1, &[]), record(2, &[])];
    assert_eq!(render(&roots, 0), "digraph automerge {\n}\n");
}

#[test]
fn two_records_one_edge() {
    let s = render(&[record(1, &[]), record(2, &[1])], 0);
    let expected = format!("digraph automerge {{\n{} -> {};\n}}\n", full_id(2), full_id(1));
    assert_eq!(s, expected);
    for line in s.lines().skip(1) {
        assert!(!line.starts_with(&format!("{} ", full_id(1))));
    }
}

#[test]
fn statement_count_is_dependency_count() {
    let changes = vec![record(1, &[2, 3]), record(4, &[]), record(5, &[1, 2, 3])];
    let s = render(&changes, 0);
    assert_eq!(s.lines().count(), 5 + 2);
    assert_eq!(s.matches(';').count(), 5);
    assert_eq!(s.matches(" -> ").count(), 5);
}

#[test]
fn duplicate_edges_are_kept() {
    let changes = vec![record(1, &[2, 2]), record(1, &[2])];
    let s = render(&changes, 3);
    assert_eq!(
        s,
        "digraph automerge {\nN010 -> N020;\nN010 -> N020;\nN010 -> N020;\n}\n"
    );
}

#[test]
fn same_input_same_output() {
    let changes = vec![record(3, &[1]), record(7, &[3, 1]), record(1, &[])];
    assert_eq!(render(&changes, 5), render(&changes, 5));
    let moved = vec![record(1, &[]), record(3, &[1]), record(7, &[3, 1])];
    assert_eq!(render(&changes, 5), render(&moved, 5));
}

#[test]
fn permuted_records_give_same_output() {
    let a = vec![record(0x30, &[1]), record(0x70, &[0x30])];
    let b = vec![record(0x70, &[0x30]), record(0x30, &[1])];
    assert_eq!(render(&a, 0).into_bytes(), render(&b, 0).into_bytes());
    let c = vec![record(9, &[7, 3]), record(3, &[]), record(7, &[3]), record(2, &[9, 3])];
    let d = vec![record(7, &[3]), record(2, &[9, 3]), record(3, &[]), record(9, &[7, 3])];
    assert_eq!(render(&c, 4), render(&d, 4));
}

#[test]
fn statements_ordered_by_source_then_target() {
    let changes = vec![record(0x70, &[0x30]), record(0x30, &[0x02, 0x01]), record(0x30, &[0x01])];
    assert_eq!(
        render(&changes, 4),
        "digraph automerge {\nN3030 -> N0101;\nN3030 -> N0101;\nN3030 -> N0202;\nN7070 -> N3030;\n}\n"
    );
}

#[test]
fn sort_edges_keeps_every_edge() {
    let e = |a: u8, b: u8| Edge { from: ChangeHash([a; 32]), to: ChangeHash([b; 32]) };
    let mut late = [5u8; 32];
    late[31] = 6;
    let edges = vec![
        e(5, 9),
        Edge { from: ChangeHash(late), to: ChangeHash([0; 32]) },
        e(5, 1),
        e(1, 200),
        e(5, 1),
    ];
    let expected = vec![
        e(1, 200),
        e(5, 1),
        e(5, 1),
        e(5, 9),
        Edge { from: ChangeHash(late), to: ChangeHash([0; 32]) },
    ];
    assert_eq!(sort_edges(&edges), expected);
    assert!(sort_edges(&[]).is_empty());
}

#[test]
fn truncated_identifiers() {
    let h = ChangeHash([0xab; 32]);
    assert_eq!(node_id(&h, 7), b"Nabababa".to_vec());
    assert_eq!(node_id(&h, 1), b"Na".to_vec());
    for k in 1..64 {
        assert_eq!(node_id(&h, k).len(), k + 1);
    }
}

#[test]
fn full_identifiers() {
    let mut bytes = [0u8; 32];
    for (i, b) in bytes.iter_mut().enumerate() {
        *b = (i as u8) * 8;
    }
    let h = ChangeHash(bytes);
    let expected = format!("N{}", hex::encode(bytes));
    assert_eq!(expected.len(), 65);
    for k in [0usize, 64, 65, 1000] {
        assert_eq!(String::from_utf8(node_id(&h, k)).unwrap(), expected);
    }
    assert!(expected.starts_with("N0008101820"));
}

#[test]
fn truncation_may_merge_nodes() {
    let mut a = [0x11u8; 32];
    let mut b = [0x11u8; 32];
    a[31] = 0;
    b[31] = 1;
    assert_eq!(node_id(&ChangeHash(a), 10), node_id(&ChangeHash(b), 10));
    assert_ne!(node_id(&ChangeHash(a), 0), node_id(&ChangeHash(b), 0));
}

#[test]
fn edges_in_record_then_dependency_order() {
    let changes = vec![record(5, &[4, 3]), record(2, &[]), record(9, &[5])];
    let edges = extract_edges(&changes);
    let pairs: Vec<(u8, u8)> = edges.iter().map(|e| (e.from.0[0], e.to.0[0])).collect();
    assert_eq!(pairs, vec![(5, 4), (5, 3), (9, 5)]);
    assert!(extract_edges(&[]).is_empty());
}

#[test]
fn nodes_sorted_and_distinct() {
    let e = |a: u8, b: u8| Edge { from: ChangeHash([a; 32]), to: ChangeHash([b; 32]) };
    let mut low = [9u8; 32];
    low[0] = 1;
    let edges = vec![
        e(9, 4),
        e(4, 200),
        e(9, 4),
        Edge { from: ChangeHash(low), to: ChangeHash([1; 32]) },
    ];
    let ns = nodes(&edges);
    let expected = vec![
        ChangeHash([1; 32]),
        ChangeHash(low),
        ChangeHash([4; 32]),
        ChangeHash([9; 32]),
        ChangeHash([200; 32]),
    ];
    assert_eq!(ns, expected);
    assert!(nodes(&[]).is_empty());
}

#[test]
fn render_appends_to_output() {
    let edges = vec![Edge { from: ChangeHash([0xff; 32]), to: ChangeHash([0; 32]) }];
    let mut v = b"// graph\n".to_vec();
    render_document(&edges, &mut v, 2);
    assert_eq!(
        String::from_utf8(v).unwrap(),
        "// graph\ndigraph automerge {\nNff -> N00;\n}\n"
    );
}

#[test]
fn output_is_well_formed_graph_text() {
    let changes = vec![record(0x3c, &[0x01, 0xfe]), record(0x01, &[0x3c])];
    let s = render(&changes, 12);
    let lines: Vec<&str> = s.split('\n').collect();
    assert_eq!(lines[0], "digraph automerge {");
    assert_eq!(lines[lines.len() - 2], "}");
    assert_eq!(lines[lines.len() - 1], "");
    for line in &lines[1..lines.len() - 2] {
        let body = line.strip_suffix(';').unwrap();
        let parts: Vec<&str> = body.split(" -> ").collect();
        assert_eq!(parts.len(), 2);
        for id in parts {
            assert!(id.starts_with('N'));
            assert_eq!(id.len(), 13);
            assert!(id[1..].chars().all(|c| c.is_ascii_digit() || ('a'..='f').contains(&c)));
        }
    }
}
