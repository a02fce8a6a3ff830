//! The heap graph model and the decoder of the flat snapshot encoding.
use std::collections::HashMap;
use vstd::prelude::*;
use vstd::string::StringExecFns;
use crate::text::{concat2, concat3, i64_decimal, int_decimal, nat_decimal, str_eq, u64_decimal};

verus! {

broadcast use vstd::std_specs::hash::group_hash_axioms;

/// One object or value of the graph.
#[derive(Clone, Debug)]
pub struct HeapNode {
    pub node_type: String,
    pub name: String,
    pub id: u64,
    pub self_size: u64,
    pub edge_count: usize,
    pub edges_start: usize,
}

/// A reference from the node that owns the edge to `to_node_idx`.
#[derive(Clone, Debug)]
pub struct HeapEdge {
    pub edge_type: String,
    pub name_or_index: String,
    pub to_node_idx: usize,
}

/// A decoded snapshot: node and edge tables and the lookup from id to index.
pub struct ParsedSnapshot {
    pub nodes: Vec<HeapNode>,
    pub edges: Vec<HeapEdge>,
    /// Map from node id to node index, for comparison across snapshots.
    pub id_to_idx: HashMap<u64, usize>,
    /// Node category names, indexed by type code.
    pub node_type_names: Vec<String>,
    /// Edge category names, indexed by type code.
    pub edge_type_names: Vec<String>,
}

/// The field layout of an encoded snapshot.
pub struct FieldMeta {
    pub node_fields: Vec<String>,
    /// Node category names, indexed by type code.
    pub node_types: Vec<String>,
    pub edge_fields: Vec<String>,
    /// Edge category names, indexed by type code.
    pub edge_types: Vec<String>,
}

/// The header block of an encoded snapshot.
pub struct SnapshotMeta {
    pub meta: FieldMeta,
    pub node_count: u64,
    pub edge_count: u64,
}

/// An encoded snapshot: flat integer records and a shared string table.
pub struct RawHeapSnapshot {
    pub snapshot: SnapshotMeta,
    pub nodes: Vec<i64>,
    pub edges: Vec<i64>,
    pub strings: Vec<String>,
}

/// Why a snapshot could not be decoded or analysed.
#[derive(Debug)]
pub enum HeapDiffError {
    InvalidSnapshot(String),
}

// ---------------------------------------------------------------------------
// The model
// ---------------------------------------------------------------------------

/// Sum of the edge counts of the first `k` nodes.
pub open spec fn edge_total(nodes: Seq<HeapNode>, k: int) -> int
    decreases k,
{
    if k <= 0 || k > nodes.len() {
        0
    } else {
        edge_total(nodes, k - 1) + nodes[k - 1].edge_count
    }
}

/// Sum of the self sizes of the first `k` nodes.
pub open spec fn size_total(nodes: Seq<HeapNode>, k: int) -> int
    decreases k,
{
    if k <= 0 || k > nodes.len() {
        0
    } else {
        size_total(nodes, k - 1) + nodes[k - 1].self_size
    }
}

/// Each node's edges start where the previous node's end, from the first
/// edge on, and all of them lie within a table of `n_edges` edges.
pub open spec fn edge_ranges_ok(nodes: Seq<HeapNode>, n_edges: int) -> bool {
    &&& forall|i: int| 0 <= i < nodes.len() ==> #[trigger] nodes[i].edges_start == edge_total(nodes, i)
    &&& edge_total(nodes, nodes.len() as int) <= n_edges
}

/// The lookup sends each id of the table to an index of a node with that id.
pub open spec fn id_index_ok(nodes: Seq<HeapNode>, m: Map<u64, usize>) -> bool {
    &&& forall|id: u64| #[trigger] m.contains_key(id) ==> m[id] < nodes.len() && nodes[m[id] as int].id == id
    &&& forall|i: int| 0 <= i < nodes.len() ==> #[trigger] m.contains_key(nodes[i].id)
}

/// No two nodes share an id.
pub open spec fn ids_distinct(nodes: Seq<HeapNode>) -> bool {
    forall|i: int, j: int| 0 <= i < nodes.len() && 0 <= j < nodes.len() && i != j ==> #[trigger] nodes[i].id != #[trigger] nodes[j].id
}

impl ParsedSnapshot {
    /// The invariant of a decoded snapshot. Counts and byte totals stay
    /// within `i64`, so that differences of two snapshots' totals fit.
    pub open spec fn well_formed(&self) -> bool {
        &&& edge_ranges_ok(self.nodes@, self.edges@.len() as int)
        &&& id_index_ok(self.nodes@, self.id_to_idx@)
        &&& self.nodes@.len() <= i64::MAX
        &&& size_total(self.nodes@, self.nodes@.len() as int) <= i64::MAX
    }
}

pub proof fn lemma_edge_total_mono(nodes: Seq<HeapNode>, a: int, b: int)
    requires
        0 <= a <= b <= nodes.len(),
    ensures
        edge_total(nodes, a) <= edge_total(nodes, b),
    decreases b - a,
{
    if a < b {
        lemma_edge_total_mono(nodes, a, b - 1);
    }
}

pub proof fn lemma_size_total_mono(nodes: Seq<HeapNode>, a: int, b: int)
    requires
        0 <= a <= b <= nodes.len(),
    ensures
        size_total(nodes, a) <= size_total(nodes, b),
    decreases b - a,
{
    if a < b {
        lemma_size_total_mono(nodes, a, b - 1);
    }
}

/// Every node's edge range ends within the edge table, and the ranges of two
/// distinct nodes do not overlap: the earlier node's range ends where or
/// before the later one's begins.
pub proof fn lemma_edge_ranges_partition(s: &ParsedSnapshot, i: int, j: int)
    requires
        s.well_formed(),
        0 <= i < s.nodes@.len(),
        0 <= j < s.nodes@.len(),
    ensures
        s.nodes@[i].edges_start + s.nodes@[i].edge_count <= s.edges@.len(),
        i < j ==> s.nodes@[i].edges_start + s.nodes@[i].edge_count <= s.nodes@[j].edges_start,
{
    let nodes = s.nodes@;
    lemma_edge_total_mono(nodes, i + 1, nodes.len() as int);
    if i < j {
        lemma_edge_total_mono(nodes, i + 1, j);
    }
}

/// Within one snapshot whose ids are distinct, the lookup from id to index is
/// a bijection between the ids of the nodes and the node indices: each node's
/// id leads back to that node, and each id of the table to a node with it.
pub proof fn lemma_id_lookup_bijection(s: &ParsedSnapshot)
    requires
        s.well_formed(),
        ids_distinct(s.nodes@),
    ensures
        forall|i: int| 0 <= i < s.nodes@.len() ==> s.id_to_idx@.contains_key(#[trigger] s.nodes@[i].id)
            && s.id_to_idx@[s.nodes@[i].id] == i,
        forall|id: u64| #[trigger] s.id_to_idx@.contains_key(id) ==> s.id_to_idx@[id] < s.nodes@.len()
            && s.nodes@[s.id_to_idx@[id] as int].id == id,
{
    assert forall|i: int| 0 <= i < s.nodes@.len() implies s.id_to_idx@.contains_key(#[trigger] s.nodes@[i].id)
        && s.id_to_idx@[s.nodes@[i].id] == i by {
        let id = s.nodes@[i].id;
        assert(id_index_ok(s.nodes@, s.id_to_idx@));
        assert(s.id_to_idx@.contains_key(id));
        let k = s.id_to_idx@[id] as int;
        assert(0 <= k < s.nodes@.len());
        assert(s.nodes@[k].id == id);
    }
}

impl ParsedSnapshot {
    /// The edges that node `node_idx` owns, in table order.
    pub fn edges_for_node(&self, node_idx: usize) -> (r: &[HeapEdge])
        requires
            self.well_formed(),
            node_idx < self.nodes@.len(),
        ensures
            r@ == self.edges@.subrange(
                self.nodes@[node_idx as int].edges_start as int,
                self.nodes@[node_idx as int].edges_start + self.nodes@[node_idx as int].edge_count,
            ),
    {
        proof {
            lemma_edge_ranges_partition(self, node_idx as int, node_idx as int);
        }
        let node = &self.nodes[node_idx];
        let start = node.edges_start;
        let n_edges = self.edges.len();
        assert(start + node.edge_count <= n_edges);
        let end = start + node.edge_count;
        &self.edges.as_slice()[start..end]
    }
}

// ---------------------------------------------------------------------------
// Decoding
// ---------------------------------------------------------------------------

/// Index of the first of `fields` from `i` on whose name is `name`, or -1.
pub open spec fn find_field_from(fields: Seq<String>, name: Seq<char>, i: int) -> int
    decreases fields.len() - i,
{
    if i < 0 || i >= fields.len() {
        -1
    } else if fields[i]@ == name {
        i
    } else {
        find_field_from(fields, name, i + 1)
    }
}

/// Position of the field called `name`; `dflt` where no field has that name.
pub open spec fn field_position(fields: Seq<String>, name: Seq<char>, dflt: int) -> int {
    let p = find_field_from(fields, name, 0);
    if p < 0 {
        dflt
    } else {
        p
    }
}

pub open spec fn node_type_pos(m: &FieldMeta) -> int {
    field_position(m.node_fields@, "type"@, 0)
}

pub open spec fn node_name_pos(m: &FieldMeta) -> int {
    field_position(m.node_fields@, "name"@, 1)
}

pub open spec fn node_id_pos(m: &FieldMeta) -> int {
    field_position(m.node_fields@, "id"@, 2)
}

pub open spec fn node_size_pos(m: &FieldMeta) -> int {
    field_position(m.node_fields@, "self_size"@, 3)
}

pub open spec fn node_count_pos(m: &FieldMeta) -> int {
    field_position(m.node_fields@, "edge_count"@, 4)
}

pub open spec fn edge_type_pos(m: &FieldMeta) -> int {
    field_position(m.edge_fields@, "type"@, 0)
}

pub open spec fn edge_name_pos(m: &FieldMeta) -> int {
    field_position(m.edge_fields@, "name_or_index"@, 1)
}

pub open spec fn edge_to_pos(m: &FieldMeta) -> int {
    field_position(m.edge_fields@, "to_node"@, 2)
}

/// Every field that the decoder reads lies within a record.
pub open spec fn layout_ok(m: &FieldMeta) -> bool {
    let f = m.node_fields@.len();
    let g = m.edge_fields@.len();
    &&& f > 0
    &&& node_type_pos(m) < f
    &&& node_name_pos(m) < f
    &&& node_id_pos(m) < f
    &&& node_size_pos(m) < f
    &&& node_count_pos(m) < f
    &&& g > 0
    &&& edge_type_pos(m) < g
    &&& edge_name_pos(m) < g
    &&& edge_to_pos(m) < g
}

/// Number of complete node records; a shorter trailing record is dropped.
pub open spec fn raw_node_count(raw: &RawHeapSnapshot) -> int {
    raw.nodes@.len() as int / raw.snapshot.meta.node_fields@.len() as int
}

/// Number of complete edge records; a shorter trailing record is dropped.
pub open spec fn raw_edge_count(raw: &RawHeapSnapshot) -> int {
    raw.edges@.len() as int / raw.snapshot.meta.edge_fields@.len() as int
}

/// Field `pos` of node record `k`.
pub open spec fn node_field(raw: &RawHeapSnapshot, k: int, pos: int) -> i64 {
    raw.nodes@[k * raw.snapshot.meta.node_fields@.len() + pos]
}

/// Field `pos` of edge record `k`.
pub open spec fn edge_field(raw: &RawHeapSnapshot, k: int, pos: int) -> i64 {
    raw.edges@[k * raw.snapshot.meta.edge_fields@.len() + pos]
}

/// Sum of the declared edge counts of the first `k` node records.
pub open spec fn raw_edge_total(raw: &RawHeapSnapshot, k: int) -> int
    decreases k,
{
    if k <= 0 {
        0
    } else {
        raw_edge_total(raw, k - 1) + (node_field(raw, k - 1, node_count_pos(&raw.snapshot.meta)) as usize)
    }
}

/// Sum of the self sizes of the first `k` node records.
pub open spec fn raw_size_total(raw: &RawHeapSnapshot, k: int) -> int
    decreases k,
{
    if k <= 0 {
        0
    } else {
        raw_size_total(raw, k - 1) + (node_field(raw, k - 1, node_size_pos(&raw.snapshot.meta)) as u64)
    }
}

/// The encoding can be decoded: the layout is usable, and the node count and
/// the byte total fit in `i64`.
pub open spec fn decodable(raw: &RawHeapSnapshot) -> bool {
    &&& layout_ok(&raw.snapshot.meta)
    &&& raw_node_count(raw) <= i64::MAX
    &&& raw_size_total(raw, raw_node_count(raw)) <= i64::MAX
}

/// Where the edges of node record `k` start: the declared edge counts of the
/// records before it, summed, but never past the end of the edge table.
pub open spec fn edge_start_of(raw: &RawHeapSnapshot, k: int) -> int {
    let t = raw_edge_total(raw, k);
    let m = raw_edge_count(raw);
    if t <= m {
        t
    } else {
        m
    }
}

/// Each id of the lookup leads to the last node that has it.
pub open spec fn id_index_last(nodes: Seq<HeapNode>, m: Map<u64, usize>) -> bool {
    forall|id: u64, j: int| #[trigger] m.contains_key(id) && m[id] < j < nodes.len() ==> #[trigger] nodes[j].id != id
}

/// Name of a category code: its entry in `names`, else `prefix` and the code.
pub open spec fn category_name(names: Seq<String>, code: usize, prefix: Seq<char>) -> Seq<char> {
    if code < names.len() {
        names[code as int]@
    } else {
        prefix + nat_decimal(code as nat)
    }
}

/// `node` is what node record `k` decodes to.
pub open spec fn node_decoded(raw: &RawHeapSnapshot, k: int, node: HeapNode) -> bool {
    let m = &raw.snapshot.meta;
    let name_code = node_field(raw, k, node_name_pos(m)) as usize;
    &&& node.node_type@ == category_name(m.node_types@, node_field(raw, k, node_type_pos(m)) as usize, "type_"@)
    &&& node.name@ == (if name_code < raw.strings@.len() {
        raw.strings@[name_code as int]@
    } else {
        Seq::<char>::empty()
    })
    &&& node.id == node_field(raw, k, node_id_pos(m)) as u64
    &&& node.self_size == node_field(raw, k, node_size_pos(m)) as u64
    &&& node.edges_start == edge_start_of(raw, k)
    &&& node.edge_count == edge_start_of(raw, k + 1) - edge_start_of(raw, k)
}

/// Label of an edge of category `ty` whose name field holds `v`: an index in
/// brackets for element and hidden edges, else the string `v` names, else `v`.
pub open spec fn edge_label(strings: Seq<String>, ty: Seq<char>, v: i64) -> Seq<char> {
    if ty == "element"@ || ty == "hidden"@ {
        "["@ + int_decimal(v as int) + "]"@
    } else if (v as usize) < strings.len() {
        strings[(v as usize) as int]@
    } else {
        int_decimal(v as int)
    }
}

/// `e` is what edge record `k` decodes to. The target field counts fields of
/// the node array, so it is divided by the node record width.
pub open spec fn edge_decoded(raw: &RawHeapSnapshot, k: int, e: HeapEdge) -> bool {
    let m = &raw.snapshot.meta;
    let ty = category_name(m.edge_types@, edge_field(raw, k, edge_type_pos(m)) as usize, "edge_"@);
    &&& e.edge_type@ == ty
    &&& e.name_or_index@ == edge_label(raw.strings@, ty, edge_field(raw, k, edge_name_pos(m)))
    &&& e.to_node_idx as int == (edge_field(raw, k, edge_to_pos(m)) as usize) as int / (m.node_fields@.len() as int)
}

proof fn lemma_record_in_bounds(k: int, f: int, len: int)
    requires
        0 <= k,
        0 < f,
        0 <= len,
        k < len / f,
    ensures
        k * f + f <= len,
        (k + 1) * f == k * f + f,
{
    vstd::arithmetic::div_mod::lemma_fundamental_div_mod(len, f);
    vstd::arithmetic::div_mod::lemma_mod_pos_bound(len, f);
    let q = len / f;
    assert(k * f + f <= q * f) by (nonlinear_arith)
        requires
            k + 1 <= q,
            f > 0,
    ;
    assert((k + 1) * f == k * f + f) by (nonlinear_arith);
    assert(f * q == q * f) by (nonlinear_arith);
}

proof fn lemma_totals_push(nodes: Seq<HeapNode>, x: HeapNode, k: int)
    requires
        0 <= k <= nodes.len(),
    ensures
        edge_total(nodes.push(x), k) == edge_total(nodes, k),
        size_total(nodes.push(x), k) == size_total(nodes, k),
    decreases k,
{
    if k > 0 {
        lemma_totals_push(nodes, x, k - 1);
        assert(nodes.push(x)[k - 1] == nodes[k - 1]);
    }
}

proof fn lemma_raw_totals_mono(raw: &RawHeapSnapshot, a: int, b: int)
    requires
        0 <= a <= b,
    ensures
        raw_edge_total(raw, a) <= raw_edge_total(raw, b),
        raw_size_total(raw, a) <= raw_size_total(raw, b),
    decreases b - a,
{
    if a < b {
        lemma_raw_totals_mono(raw, a, b - 1);
    }
}

/// Position of the field called `name`, or `dflt` where none is.
fn position_of(fields: &Vec<String>, name: &str, dflt: usize) -> (r: usize)
    ensures
        r as int == field_position(fields@, name@, dflt as int),
{
    let mut i: usize = 0;
    while i < fields.len()
        invariant
            i <= fields@.len(),
            find_field_from(fields@, name@, 0) == find_field_from(fields@, name@, i as int),
        decreases fields@.len() - i,
    {
        if str_eq(fields[i].as_str(), name) {
            return i;
        }
        i += 1;
    }
    dflt
}

/// The name of category `code`: its entry in `names`, else `prefix` and the code.
fn category_of(names: &Vec<String>, code: usize, prefix: &str) -> (r: String)
    ensures
        r@ == category_name(names@, code, prefix@),
{
    if code < names.len() {
        names[code].clone()
    } else {
        let digits = u64_decimal(code as u64);
        concat2(prefix, digits.as_str())
    }
}

fn invalid(msg: &str) -> (r: HeapDiffError) {
    HeapDiffError::InvalidSnapshot(String::from_str(msg))
}

impl ParsedSnapshot {
    /// Decodes the flat encoding into node and edge tables and the id lookup.
    /// A trailing record shorter than the declared width is dropped; a string
    /// or category code out of range gets a placeholder; edge ranges are cut
    /// at the end of the edge table. The encoding is refused when a field
    /// that is read lies outside a record, or when the node count or the
    /// byte total exceeds `i64`. Where ids repeat, the lookup keeps the last
    /// node.
    #[verifier::rlimit(40)]
    pub fn from_raw(raw: &RawHeapSnapshot) -> (r: Result<ParsedSnapshot, HeapDiffError>)
        ensures
            match r {
                Ok(s) => {
                    &&& decodable(raw)
                    &&& s.well_formed()
                    &&& id_index_last(s.nodes@, s.id_to_idx@)
                    &&& s.nodes@.len() == raw_node_count(raw)
                    &&& s.edges@.len() == raw_edge_count(raw)
                    &&& forall|k: int| 0 <= k < s.nodes@.len() ==> node_decoded(raw, k, #[trigger] s.nodes@[k])
                    &&& forall|k: int| 0 <= k < s.edges@.len() ==> edge_decoded(raw, k, #[trigger] s.edges@[k])
                },
                Err(_) => !decodable(raw),
            },
    {
        let meta = &raw.snapshot.meta;
        let f = meta.node_fields.len();
        let type_pos = position_of(&meta.node_fields, "type", 0);
        let name_pos = position_of(&meta.node_fields, "name", 1);
        let id_pos = position_of(&meta.node_fields, "id", 2);
        let size_pos = position_of(&meta.node_fields, "self_size", 3);
        let count_pos = position_of(&meta.node_fields, "edge_count", 4);
        let g = meta.edge_fields.len();
        let etype_pos = position_of(&meta.edge_fields, "type", 0);
        let ename_pos = position_of(&meta.edge_fields, "name_or_index", 1);
        let eto_pos = position_of(&meta.edge_fields, "to_node", 2);
        if f == 0 || type_pos >= f || name_pos >= f || id_pos >= f || size_pos >= f || count_pos >= f {
            return Err(invalid("node field layout is unusable"));
        }
        if g == 0 || etype_pos >= g || ename_pos >= g || eto_pos >= g {
            return Err(invalid("edge field layout is unusable"));
        }
        let nodes_len = raw.nodes.len();
        let edges_len = raw.edges.len();
        let n = nodes_len / f;
        let n_edges = edges_len / g;
        if n as u64 > 0x7fff_ffff_ffff_ffffu64 {
            return Err(invalid("too many nodes"));
        }
        let mut nodes: Vec<HeapNode> = Vec::new();
        let mut id_to_idx: HashMap<u64, usize> = HashMap::new();
        let mut edge_offset: usize = 0;
        let mut size_sum: u64 = 0;
        let mut k: usize = 0;
        let mut base: usize = 0;
        while k < n
            invariant
                layout_ok(meta),
                meta == &raw.snapshot.meta,
                f == meta.node_fields@.len(),
                n == raw_node_count(raw),
                n_edges == raw_edge_count(raw),
                n <= i64::MAX,
                nodes_len == raw.nodes@.len(),
                type_pos == node_type_pos(meta),
                name_pos == node_name_pos(meta),
                id_pos == node_id_pos(meta),
                size_pos == node_size_pos(meta),
                count_pos == node_count_pos(meta),
                k <= n,
                base == k * f,
                nodes@.len() == k,
                edge_offset == edge_start_of(raw, k as int),
                edge_offset <= n_edges,
                size_sum == raw_size_total(raw, k as int),
                size_sum <= i64::MAX,
                forall|i: int| 0 <= i < k ==> node_decoded(raw, i, #[trigger] nodes@[i]),
                forall|i: int| 0 <= i <= k ==> #[trigger] edge_total(nodes@, i) == edge_start_of(raw, i),
                forall|i: int| 0 <= i <= k ==> #[trigger] size_total(nodes@, i) == raw_size_total(raw, i),
                id_index_ok(nodes@, id_to_idx@),
                id_index_last(nodes@, id_to_idx@),
            decreases n - k,
        {
            proof {
                lemma_record_in_bounds(k as int, f as int, nodes_len as int);
            }
            let type_code = #[verifier::truncate] (raw.nodes[base + type_pos] as usize);
            let node_type = category_of(&meta.node_types, type_code, "type_");
            let name_code = #[verifier::truncate] (raw.nodes[base + name_pos] as usize);
            let name = if name_code < raw.strings.len() {
                raw.strings[name_code].clone()
            } else {
                String::new()
            };
            let id = #[verifier::truncate] (raw.nodes[base + id_pos] as u64);
            let self_size = #[verifier::truncate] (raw.nodes[base + size_pos] as u64);
            let declared = #[verifier::truncate] (raw.nodes[base + count_pos] as usize);
            let edge_count = if declared > n_edges - edge_offset {
                n_edges - edge_offset
            } else {
                declared
            };
            if self_size > i64::MAX as u64 - size_sum {
                proof {
                    lemma_raw_totals_mono(raw, k as int + 1, n as int);
                }
                return Err(invalid("byte total exceeds the supported range"));
            }
            let node = HeapNode { node_type, name, id, self_size, edge_count, edges_start: edge_offset };
            let ghost old_nodes = nodes@;
            nodes.push(node);
            id_to_idx.insert(id, k);
            proof {
                assert forall|i: int|
                    #![trigger edge_total(nodes@, i)]
                    #![trigger size_total(nodes@, i)]
                    0 <= i <= k + 1 implies edge_total(nodes@, i) == edge_start_of(raw, i)
                        && size_total(nodes@, i) == raw_size_total(raw, i) by {
                    if i <= k {
                        lemma_totals_push(old_nodes, nodes@[k as int], i);
                    } else {
                        lemma_totals_push(old_nodes, nodes@[k as int], k as int);
                    }
                }
                assert forall|i: int| 0 <= i < k + 1 implies node_decoded(raw, i, #[trigger] nodes@[i]) by {
                    if i < k {
                        assert(nodes@[i] == old_nodes[i]);
                    }
                }
            }
            edge_offset = edge_offset + edge_count;
            size_sum = size_sum + self_size;
            k = k + 1;
            base = base + f;
        }
        proof {
            assert forall|i: int| 0 <= i < nodes@.len() implies #[trigger] nodes@[i].edges_start == edge_total(nodes@, i) by {
                assert(node_decoded(raw, i, nodes@[i]));
            }
        }
        let mut edges: Vec<HeapEdge> = Vec::new();
        let mut j: usize = 0;
        let mut ebase: usize = 0;
        while j < n_edges
            invariant
                layout_ok(meta),
                meta == &raw.snapshot.meta,
                f == meta.node_fields@.len(),
                g == meta.edge_fields@.len(),
                n_edges == raw_edge_count(raw),
                edges_len == raw.edges@.len(),
                etype_pos == edge_type_pos(meta),
                ename_pos == edge_name_pos(meta),
                eto_pos == edge_to_pos(meta),
                j <= n_edges,
                ebase == j * g,
                edges@.len() == j,
                forall|i: int| 0 <= i < j ==> edge_decoded(raw, i, #[trigger] edges@[i]),
            decreases n_edges - j,
        {
            proof {
                lemma_record_in_bounds(j as int, g as int, edges_len as int);
            }
            let type_code = #[verifier::truncate] (raw.edges[ebase + etype_pos] as usize);
            let edge_type = category_of(&meta.edge_types, type_code, "edge_");
            let raw_name = raw.edges[ebase + ename_pos];
            let name_or_index = if str_eq(edge_type.as_str(), "element") || str_eq(edge_type.as_str(), "hidden") {
                let digits = i64_decimal(raw_name);
                concat3("[", digits.as_str(), "]")
            } else if (#[verifier::truncate] (raw_name as usize)) < raw.strings.len() {
                raw.strings[#[verifier::truncate] (raw_name as usize)].clone()
            } else {
                i64_decimal(raw_name)
            };
            let to_node_idx = (#[verifier::truncate] (raw.edges[ebase + eto_pos] as usize)) / f;
            let ghost old_edges = edges@;
            edges.push(HeapEdge { edge_type, name_or_index, to_node_idx });
            proof {
                assert forall|i: int| 0 <= i < j + 1 implies edge_decoded(raw, i, #[trigger] edges@[i]) by {
                    if i < j {
                        assert(edges@[i] == old_edges[i]);
                    }
                }
            }
            j = j + 1;
            ebase = ebase + g;
        }
        Ok(ParsedSnapshot {
            nodes,
            edges,
            id_to_idx,
            node_type_names: meta.node_types.clone(),
            edge_type_names: meta.edge_types.clone(),
        })
    }
}

} // verus!
