use spaa::diff::HeapDiff;
use spaa::heap::{FieldMeta, ParsedSnapshot, RawHeapSnapshot, SnapshotMeta};

const HIDDEN: i64 = 0;
const STRING: i64 = 2;
const OBJECT: i64 = 3;
const CLOSURE: i64 = 5;
const SYNTHETIC: i64 = 9;

const ELEMENT: i64 = 1;
const PROPERTY: i64 = 2;

fn strings(v: &[&str]) -> Vec<String> {
    v.iter().map(|s| s.to_string()).collect()
}

fn raw(nodes: Vec<i64>, edges: Vec<i64>, strs: &[&str]) -> RawHeapSnapshot {
    RawHeapSnapshot {
        snapshot: SnapshotMeta {
            meta: FieldMeta {
                node_fields: strings(&["type", "name", "id", "self_size", "edge_count"]),
                node_types: strings(&[
                    "hidden", "array", "string", "object", "code", "closure", "regexp", "number", "native",
                    "synthetic",
                ]),
                edge_fields: strings(&["type", "name_or_index", "to_node"]),
                edge_types: strings(&["context", "element", "property", "internal", "hidden", "shortcut", "weak"]),
            },
            node_count: 0,
            edge_count: 0,
        },
        nodes,
        edges,
        strings: strings(strs),
    }
}

fn decode(r: &RawHeapSnapshot) -> ParsedSnapshot {
    ParsedSnapshot::from_raw(r).unwrap()
}

/// Baseline: one `Foo` of 100 bytes. Target: three, of 100, 150 and 150.
#[test]
fn growth_of_one_type() {
    let names = ["", "Foo"];
    let base = decode(&raw(vec![OBJECT, 1, 1, 100, 0], vec![], &names));
    let target = decode(&raw(
        vec![OBJECT, 1, 1, 100, 0, OBJECT, 1, 3, 150, 0, OBJECT, 1, 5, 150, 0],
        vec![],
        &names,
    ));

    let diff = HeapDiff::compute(&base, &target, "a.heapsnapshot", "b.heapsnapshot", 10);

    assert_eq!(diff.type_growth.len(), 1);
    let g = &diff.type_growth[0];
    assert_eq!(g.constructor, "Foo");
    assert_eq!(g.count_before, 1);
    assert_eq!(g.count_after, 3);
    assert_eq!(g.count_delta, 2);
    assert_eq!(g.size_before, 100);
    assert_eq!(g.size_after, 400);
    assert_eq!(g.size_delta, 300);
    assert_eq!(diff.baseline_path, "a.heapsnapshot");
    assert_eq!(diff.target_path, "b.heapsnapshot");
}

/// Target: `root(synthetic, "root") -> obj(Foo)`; the baseline has no `Foo`.
#[test]
fn path_from_synthetic_root() {
    let names = ["", "root", "Foo", "cache"];
    let base = decode(&raw(vec![SYNTHETIC, 1, 1, 0, 0], vec![], &names));

    // Named edge: the label is the segment.
    let target = decode(&raw(
        vec![SYNTHETIC, 1, 1, 0, 1, OBJECT, 2, 3, 100, 0],
        vec![PROPERTY, 3, 5],
        &names,
    ));
    let diff = HeapDiff::compute(&base, &target, "a", "b", 10);
    assert_eq!(diff.retained_objects.len(), 1);
    let obj = &diff.retained_objects[0];
    assert_eq!(obj.constructor, "Foo");
    assert_eq!(obj.size, 100);
    assert_eq!(obj.retention_path, vec!["root".to_string(), "cache".to_string()]);

    // Edge with an empty name: the node name is the segment.
    let target = decode(&raw(
        vec![SYNTHETIC, 1, 1, 0, 1, OBJECT, 2, 3, 100, 0],
        vec![PROPERTY, 0, 5],
        &names,
    ));
    let diff = HeapDiff::compute(&base, &target, "a", "b", 10);
    assert_eq!(diff.retained_objects.len(), 1);
    assert_eq!(diff.retained_objects[0].retention_path, vec!["root".to_string(), "Foo".to_string()]);
}

/// An object referenced only by another ordinary object has no root.
#[test]
fn no_root_no_row() {
    let names = ["", "Foo", "Bar"];
    let base = decode(&raw(vec![], vec![], &names));
    let target = decode(&raw(
        vec![OBJECT, 2, 1, 10, 1, OBJECT, 1, 3, 100, 0],
        vec![PROPERTY, 0, 5],
        &names,
    ));

    let diff = HeapDiff::compute(&base, &target, "a", "b", 10);

    assert_eq!(diff.type_growth.len(), 2);
    assert!(diff.retained_objects.is_empty());
}

/// A trailing node record shorter than the layout is dropped.
#[test]
fn short_record_dropped() {
    let names = ["", "Foo"];
    let s = decode(&raw(vec![OBJECT, 1, 1, 10, 0, OBJECT, 1, 3, 20, 0, OBJECT, 1, 5], vec![], &names));

    assert_eq!(s.nodes.len(), 2);
    assert_eq!(s.nodes[0].id, 1);
    assert_eq!(s.nodes[1].id, 3);
    assert_eq!(s.nodes[1].self_size, 20);
    assert_eq!(s.id_to_idx.len(), 2);
}

#[test]
fn decodes_names_categories_and_edges() {
    let names = ["", "Foo", "x"];
    let s = decode(&raw(
        vec![OBJECT, 1, 7, 32, 3, 42, 9, 9, 8, 0, STRING, 99, 11, 4, 0],
        vec![ELEMENT, 4, 5, PROPERTY, 2, 10, PROPERTY, 77, 0],
        &names,
    ));

    assert_eq!(s.nodes.len(), 3);
    assert_eq!(s.nodes[0].node_type, "object");
    assert_eq!(s.nodes[0].name, "Foo");
    assert_eq!(s.nodes[1].node_type, "type_42");
    assert_eq!(s.nodes[2].node_type, "string");
    assert_eq!(s.nodes[2].name, "");
    assert_eq!(s.nodes[0].edges_start, 0);
    assert_eq!(s.nodes[1].edges_start, 3);
    assert_eq!(s.nodes[2].edges_start, 3);

    assert_eq!(s.edges.len(), 3);
    assert_eq!(s.edges[0].edge_type, "element");
    assert_eq!(s.edges[0].name_or_index, "[4]");
    assert_eq!(s.edges[0].to_node_idx, 1);
    assert_eq!(s.edges[1].name_or_index, "x");
    assert_eq!(s.edges[1].to_node_idx, 2);
    assert_eq!(s.edges[2].name_or_index, "77");
    assert_eq!(s.edges[2].to_node_idx, 0);

    assert_eq!(s.id_to_idx.get(&7), Some(&0));
    assert_eq!(s.id_to_idx.get(&9), Some(&1));
    assert_eq!(s.id_to_idx.get(&11), Some(&2));
    assert_eq!(s.edges_for_node(0).len(), 3);
    assert_eq!(s.edges_for_node(1).len(), 0);
}

#[test]
fn field_positions_follow_the_layout() {
    let names = ["", "Foo"];
    let mut r = raw(vec![5, 250, 1, OBJECT, 0], vec![], &names);
    r.snapshot.meta.node_fields = strings(&["id", "self_size", "name", "type", "edge_count"]);
    let s = decode(&r);

    assert_eq!(s.nodes[0].id, 5);
    assert_eq!(s.nodes[0].self_size, 250);
    assert_eq!(s.nodes[0].name, "Foo");
    assert_eq!(s.nodes[0].node_type, "object");
}

#[test]
fn undecodable_snapshots_are_refused() {
    let names = ["", "Foo"];
    // no node fields
    let mut r = raw(vec![], vec![], &names);
    r.snapshot.meta.node_fields = vec![];
    assert!(ParsedSnapshot::from_raw(&r).is_err());
    // a field outside the record
    let mut r = raw(vec![], vec![], &names);
    r.snapshot.meta.edge_fields = strings(&["type"]);
    assert!(ParsedSnapshot::from_raw(&r).is_err());
    // byte total beyond i64
    assert!(ParsedSnapshot::from_raw(&raw(
        vec![OBJECT, 1, 1, i64::MAX, 0, OBJECT, 1, 2, 1, 0],
        vec![],
        &names
    ))
    .is_err());
}

#[test]
fn edge_ranges_are_cut_at_the_table_end() {
    let names = ["", "Foo"];
    // the second edge record is truncated: only one complete edge
    let s = decode(&raw(
        vec![OBJECT, 1, 1, 10, 1, OBJECT, 1, 2, 10, 3, OBJECT, 1, 3, 10, 0],
        vec![PROPERTY, 1, 5, PROPERTY, 1],
        &names,
    ));

    assert_eq!(s.nodes.len(), 3);
    assert_eq!(s.edges.len(), 1);
    assert_eq!((s.nodes[0].edges_start, s.nodes[0].edge_count), (0, 1));
    assert_eq!((s.nodes[1].edges_start, s.nodes[1].edge_count), (1, 0));
    assert_eq!((s.nodes[2].edges_start, s.nodes[2].edge_count), (1, 0));
    assert!(s.edges_for_node(1).is_empty());

    // declared edges beyond the table are cut as well
    let s = decode(&raw(vec![OBJECT, 1, 1, 10, 2], vec![PROPERTY, 0, 0], &names));
    assert_eq!(s.nodes[0].edge_count, 1);
}

#[test]
fn repeated_ids_keep_the_last_node() {
    let names = ["", "Foo"];
    let s = decode(&raw(
        vec![OBJECT, 1, 7, 1, 0, OBJECT, 1, 8, 1, 0, OBJECT, 1, 7, 1, 0],
        vec![],
        &names,
    ));

    assert_eq!(s.id_to_idx[&7], 2);
    assert_eq!(s.id_to_idx[&8], 1);
}

#[test]
fn search_follows_referrer_order_and_takes_the_shorter_chain() {
    let names = ["", "root", "Foo", "long", "short", "a"];
    // root -> a -> Foo (label "long"), root -> Foo (label "short"); the
    // direct reference is found first.
    let target = decode(&raw(
        vec![SYNTHETIC, 1, 1, 0, 2, OBJECT, 5, 2, 1, 1, OBJECT, 2, 3, 1, 0],
        vec![PROPERTY, 5, 5, PROPERTY, 4, 10, PROPERTY, 3, 10],
        &names,
    ));
    let rev = HeapDiff::build_reverse_edge_map(&target);

    assert_eq!(rev[2], vec![(0, "short".to_string()), (1, "long".to_string())]);
    assert_eq!(HeapDiff::find_retention_path(&target, 2, &rev), vec!["root".to_string(), "short".to_string()]);
}

#[test]
fn unchanged_and_shrinking_types_are_not_growth() {
    let names = ["", "Same", "Shrinks", "Grows"];
    let base = decode(&raw(
        vec![OBJECT, 1, 1, 10, 0, OBJECT, 2, 2, 50, 0, OBJECT, 3, 3, 5, 0],
        vec![],
        &names,
    ));
    let target = decode(&raw(
        vec![OBJECT, 1, 1, 10, 0, OBJECT, 2, 2, 20, 0, OBJECT, 3, 3, 5, 0, OBJECT, 3, 4, 5, 0],
        vec![],
        &names,
    ));

    let diff = HeapDiff::compute(&base, &target, "a", "b", 10);

    assert_eq!(diff.type_growth.len(), 1);
    assert_eq!(diff.type_growth[0].constructor, "Grows");
    assert_eq!(diff.type_growth[0].count_delta, 1);
    assert_eq!(diff.type_growth[0].size_delta, 5);
}

#[test]
fn growth_sorted_by_size_delta() {
    let names = ["", "Small", "Big", "Mid", "fn"];
    let base = decode(&raw(vec![], vec![], &names));
    let target = decode(&raw(
        vec![
            OBJECT, 1, 1, 10, 0, OBJECT, 2, 2, 300, 0, OBJECT, 3, 3, 50, 0, CLOSURE, 0, 4, 70, 0, HIDDEN, 4, 5, 1, 0,
        ],
        vec![],
        &names,
    ));

    let diff = HeapDiff::compute(&base, &target, "a", "b", 10);
    let order: Vec<&str> = diff.type_growth.iter().map(|g| g.constructor.as_str()).collect();

    assert_eq!(order, vec!["Big", "closure", "Mid", "Small", "hidden"]);
    for w in diff.type_growth.windows(2) {
        assert!(w[0].size_delta >= w[1].size_delta);
    }
}

#[test]
fn type_stats_group_by_key() {
    let names = ["", "Foo"];
    let s = decode(&raw(
        vec![OBJECT, 1, 1, 10, 0, OBJECT, 0, 2, 20, 0, STRING, 1, 3, 30, 0, OBJECT, 1, 4, 40, 0],
        vec![],
        &names,
    ));

    let stats = HeapDiff::compute_type_stats(&s);

    assert_eq!(stats.len(), 3);
    assert_eq!(stats[0].0, "Foo");
    assert_eq!(stats[0].1.count, 2);
    assert_eq!(stats[0].1.total_size, 50);
    assert_eq!(stats[1].0, "object");
    assert_eq!(stats[1].1.count, 1);
    assert_eq!(stats[2].0, "string");
    assert_eq!(stats[2].1.total_size, 30);
}

#[test]
fn reverse_edges_list_referrers() {
    let names = ["", "a", "b"];
    let s = decode(&raw(
        vec![OBJECT, 1, 1, 1, 2, OBJECT, 2, 2, 1, 1, OBJECT, 2, 3, 1, 0],
        vec![PROPERTY, 1, 10, PROPERTY, 2, 5, PROPERTY, 1, 10],
        &names,
    ));

    let rev = HeapDiff::build_reverse_edge_map(&s);

    assert_eq!(rev.len(), 3);
    assert!(rev[0].is_empty());
    assert_eq!(rev[1], vec![(0, "b".to_string())]);
    assert_eq!(rev[2], vec![(0, "a".to_string()), (1, "a".to_string())]);
}

#[test]
fn retained_objects_are_new_and_capped() {
    let names = ["", "(GC roots)", "Foo"];
    let base = decode(&raw(vec![SYNTHETIC, 1, 1, 0, 0, OBJECT, 2, 3, 10, 0], vec![], &names));
    let target = decode(&raw(
        vec![
            SYNTHETIC, 1, 1, 0, 4, OBJECT, 2, 3, 10, 0, OBJECT, 2, 5, 10, 0, OBJECT, 2, 7, 10, 0, OBJECT, 2, 9, 10, 0,
        ],
        vec![PROPERTY, 0, 5, PROPERTY, 0, 10, PROPERTY, 0, 15, PROPERTY, 0, 20],
        &names,
    ));

    let diff = HeapDiff::compute(&base, &target, "a", "b", 2);
    assert_eq!(diff.retained_objects.len(), 2);

    let diff = HeapDiff::compute(&base, &target, "a", "b", 100);
    // the object with id 3 exists in the baseline and is not reported
    assert_eq!(diff.retained_objects.len(), 3);
    for o in &diff.retained_objects {
        assert_eq!(o.constructor, "Foo");
        assert_eq!(o.retention_path, vec!["(GC roots)".to_string(), "Foo".to_string()]);
    }

    let diff = HeapDiff::compute(&base, &target, "a", "b", 0);
    assert!(diff.retained_objects.is_empty());
}

#[test]
fn window_and_global_are_roots() {
    let names = ["", "Window", "Foo", "global", "app"];
    let base = decode(&raw(vec![], vec![], &names));
    let target = decode(&raw(
        vec![OBJECT, 1, 1, 0, 1, OBJECT, 2, 2, 10, 0, OBJECT, 3, 3, 0, 0],
        vec![PROPERTY, 4, 5],
        &names,
    ));
    let rev = HeapDiff::build_reverse_edge_map(&target);

    assert_eq!(HeapDiff::find_retention_path(&target, 1, &rev), vec!["Window".to_string(), "app".to_string()]);
    // a root reports itself
    assert_eq!(HeapDiff::find_retention_path(&target, 2, &rev), vec!["global".to_string()]);
}

#[test]
fn long_paths_are_cut() {
    let names = ["", "root", "Foo"];
    let base = decode(&raw(vec![], vec![], &names));
    // root -> n1 -> n2 -> ... -> n30, every edge unnamed
    let n = 31;
    let mut nodes = vec![SYNTHETIC, 1, 1, 0, 1];
    let mut edges = vec![];
    for i in 1..n {
        let has_edge = if i + 1 < n { 1 } else { 0 };
        nodes.extend_from_slice(&[OBJECT, 2, (i + 1) as i64, 1, has_edge]);
    }
    for i in 0..(n - 1) {
        edges.extend_from_slice(&[PROPERTY, 0, ((i + 1) * 5) as i64]);
    }
    let target = decode(&raw(nodes, edges, &names));
    let rev = HeapDiff::build_reverse_edge_map(&target);

    let path = HeapDiff::find_retention_path(&target, n - 1, &rev);
    assert_eq!(path.len(), 21);
    assert_eq!(path[0], "root");
    assert_eq!(path[20], "...");

    let path = HeapDiff::find_retention_path(&target, 19, &rev);
    assert_eq!(path.len(), 20);
    assert_eq!(path[19], "Foo");
}

#[test]
fn search_gives_up_after_iteration_limit() {
    let names = ["", "root", "Foo"];
    // 10 001 objects in a chain before the root: the root is never reached.
    let chain = 10_001usize;
    let mut nodes = vec![];
    let mut edges = vec![];
    nodes.extend_from_slice(&[SYNTHETIC, 1, 1, 0, 1]);
    edges.extend_from_slice(&[PROPERTY, 0, 5]);
    for i in 1..=chain {
        let has_edge = if i < chain { 1 } else { 0 };
        nodes.extend_from_slice(&[OBJECT, 2, (i + 1) as i64, 1, has_edge]);
        if i < chain {
            edges.extend_from_slice(&[PROPERTY, 0, ((i + 1) * 5) as i64]);
        }
    }
    let target = decode(&raw(nodes, edges, &names));
    let rev = HeapDiff::build_reverse_edge_map(&target);

    assert!(HeapDiff::find_retention_path(&target, chain, &rev).is_empty());
    assert_eq!(HeapDiff::find_retention_path(&target, 5, &rev).len(), 6);
}

#[test]
fn ids_lead_back_to_their_nodes() {
    let names = ["", "a"];
    let s = decode(&raw(
        vec![OBJECT, 1, 10, 1, 0, OBJECT, 1, 20, 1, 0, OBJECT, 1, 30, 1, 0],
        vec![],
        &names,
    ));

    for (i, node) in s.nodes.iter().enumerate() {
        assert_eq!(s.id_to_idx[&node.id], i);
    }
    assert_eq!(s.id_to_idx.len(), s.nodes.len());
}

#[test]
fn edge_ranges_partition_the_table() {
    let names = ["", "a"];
    let s = decode(&raw(
        vec![OBJECT, 1, 1, 1, 2, OBJECT, 1, 2, 1, 0, OBJECT, 1, 3, 1, 1],
        vec![PROPERTY, 1, 5, PROPERTY, 1, 10, PROPERTY, 1, 0],
        &names,
    ));

    let mut next = 0;
    for node in &s.nodes {
        assert_eq!(node.edges_start, next);
        next = node.edges_start + node.edge_count;
        assert!(next <= s.edges.len());
    }
    assert_eq!(s.edges_for_node(2)[0].to_node_idx, 0);
}
