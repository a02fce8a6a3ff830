//! Differential analysis of two decoded snapshots: per-type statistics, the
//! growth between them, and retention paths of new objects.
use vstd::prelude::*;
use vstd::string::StringExecFns;
use crate::heap::{HeapNode, ParsedSnapshot, size_total};
use crate::text::{seq_contains, str_contains, str_eq};

verus! {

broadcast use vstd::std_specs::hash::group_hash_axioms;

/// Count and byte total of the nodes of one type.
#[derive(Clone, Copy, Debug)]
pub struct TypeStats {
    pub count: u64,
    pub total_size: u64,
}

/// The growth of one type between the baseline and the target.
#[derive(Clone, Debug)]
pub struct TypeGrowth {
    pub constructor: String,
    pub count_before: u64,
    pub count_after: u64,
    pub count_delta: i64,
    pub size_before: u64,
    pub size_after: u64,
    pub size_delta: i64,
}

/// A new object of a growing type, with a chain of references that keeps it.
#[derive(Clone, Debug)]
pub struct RetainedObject {
    pub constructor: String,
    pub size: u64,
    pub retention_path: Vec<String>,
}

/// The result of comparing two snapshots.
pub struct HeapDiff {
    pub baseline_path: String,
    pub target_path: String,
    pub type_growth: Vec<TypeGrowth>,
    pub retained_objects: Vec<RetainedObject>,
}

/// Number of leading growth rows whose types are searched for new objects.
pub const TOP_GROWING_TYPES: usize = 10;

/// Most nodes taken from the queue while searching for a root.
pub const MAX_BFS_ITERATIONS: usize = 10000;

/// Most segments of a retention path before it is cut short with `...`.
pub const MAX_PATH_SEGMENTS: usize = 20;

// ---------------------------------------------------------------------------
// Type statistics
// ---------------------------------------------------------------------------

/// The type a node is counted under: objects and closures by their
/// constructor name when they have one, everything else by its category.
pub open spec fn type_key(n: HeapNode) -> Seq<char> {
    if (n.node_type@ == "object"@ || n.node_type@ == "closure"@) && n.name@.len() > 0 {
        n.name@
    } else {
        n.node_type@
    }
}

/// Number of the first `k` nodes counted under `key`.
pub open spec fn key_count(nodes: Seq<HeapNode>, key: Seq<char>, k: int) -> int
    decreases k,
{
    if k <= 0 || k > nodes.len() {
        0
    } else {
        key_count(nodes, key, k - 1) + (if type_key(nodes[k - 1]) == key { 1int } else { 0int })
    }
}

/// Byte total of the first `k` nodes counted under `key`.
pub open spec fn key_size(nodes: Seq<HeapNode>, key: Seq<char>, k: int) -> int
    decreases k,
{
    if k <= 0 || k > nodes.len() {
        0
    } else {
        key_size(nodes, key, k - 1) + (if type_key(nodes[k - 1]) == key { nodes[k - 1].self_size as int } else { 0int })
    }
}

/// Number of nodes of `s` counted under `key`.
pub open spec fn count_of(s: &ParsedSnapshot, key: Seq<char>) -> int {
    key_count(s.nodes@, key, s.nodes@.len() as int)
}

/// Byte total of the nodes of `s` counted under `key`.
pub open spec fn size_of(s: &ParsedSnapshot, key: Seq<char>) -> int {
    key_size(s.nodes@, key, s.nodes@.len() as int)
}

/// The statistics table of the first `k` nodes: one entry per type that
/// occurs, with its count and byte total.
pub open spec fn stats_ok(nodes: Seq<HeapNode>, k: int, t: Seq<(String, TypeStats)>) -> bool {
    &&& forall|j: int| 0 <= j < t.len() ==> (#[trigger] t[j]).1.count == key_count(nodes, t[j].0@, k)
        && t[j].1.total_size == key_size(nodes, t[j].0@, k) && t[j].1.count > 0
    &&& forall|i: int, j: int| 0 <= i < j < t.len() ==> (#[trigger] t[i]).0@ != (#[trigger] t[j]).0@
    &&& forall|i: int| 0 <= i < k ==> exists|j: int| 0 <= j < t.len() && (#[trigger] t[j]).0@ == type_key(#[trigger] nodes[i])
}

proof fn lemma_key_bounds(nodes: Seq<HeapNode>, key: Seq<char>, k: int)
    requires
        0 <= k <= nodes.len(),
    ensures
        0 <= key_count(nodes, key, k) <= k,
        0 <= key_size(nodes, key, k) <= size_total(nodes, k),
    decreases k,
{
    if k > 0 {
        lemma_key_bounds(nodes, key, k - 1);
    }
}

/// A type that no node has counts zero nodes and zero bytes.
proof fn lemma_absent_key(nodes: Seq<HeapNode>, key: Seq<char>, k: int)
    requires
        0 <= k <= nodes.len(),
        forall|i: int| 0 <= i < k ==> type_key(#[trigger] nodes[i]) != key,
    ensures
        key_count(nodes, key, k) == 0,
        key_size(nodes, key, k) == 0,
    decreases k,
{
    if k > 0 {
        lemma_absent_key(nodes, key, k - 1);
    }
}

/// The key a node is counted under.
pub fn type_key_of(node: &HeapNode) -> (r: String)
    ensures
        r@ == type_key(*node),
{
    let t = node.node_type.as_str();
    if (str_eq(t, "object") || str_eq(t, "closure")) && !node.name.as_str().is_empty() {
        node.name.clone()
    } else {
        node.node_type.clone()
    }
}

/// Index of the entry of `t` for `key`, if there is one.
pub fn find_key(t: &Vec<(String, TypeStats)>, key: &String) -> (r: Option<usize>)
    ensures
        match r {
            Some(j) => j < t@.len() && t@[j as int].0@ == key@,
            None => forall|j: int| 0 <= j < t@.len() ==> (#[trigger] t@[j]).0@ != key@,
        },
{
    let mut j: usize = 0;
    while j < t.len()
        invariant
            j <= t@.len(),
            forall|i: int| 0 <= i < j ==> (#[trigger] t@[i]).0@ != key@,
        decreases t@.len() - j,
    {
        if t[j].0 == *key {
            return Some(j);
        }
        j += 1;
    }
    None
}

impl HeapDiff {
    /// Groups the nodes of `snapshot` by type and sums count and bytes per
    /// type. Entries come in the order in which their types first occur.
    #[verifier::rlimit(40)]
    pub fn compute_type_stats(snapshot: &ParsedSnapshot) -> (r: Vec<(String, TypeStats)>)
        requires
            snapshot.well_formed(),
        ensures
            stats_ok(snapshot.nodes@, snapshot.nodes@.len() as int, r@),
    {
        let nodes = &snapshot.nodes;
        let mut stats: Vec<(String, TypeStats)> = Vec::new();
        let mut i: usize = 0;
        while i < nodes.len()
            invariant
                snapshot.well_formed(),
                nodes == &snapshot.nodes,
                i <= nodes@.len(),
                stats_ok(nodes@, i as int, stats@),
            decreases nodes@.len() - i,
        {
            let node = &nodes[i];
            let key = type_key_of(node);
            let ghost old_stats = stats@;
            let ghost mut pos: int = 0;
            proof {
                lemma_key_bounds(nodes@, key@, i as int);
                lemma_key_bounds(nodes@, key@, i as int + 1);
                crate::heap::lemma_size_total_mono(nodes@, i as int + 1, nodes@.len() as int);
            }
            match find_key(&stats, &key) {
                Some(j) => {
                    let cur = stats[j].1;
                    let upd = TypeStats { count: cur.count + 1, total_size: cur.total_size + node.self_size };
                    stats.set(j, (key, upd));
                    proof {
                        pos = j as int;
                    }
                },
                None => {
                    proof {
                        assert forall|m: int| 0 <= m < i implies type_key(#[trigger] nodes@[m]) != key@ by {
                            if type_key(nodes@[m]) == key@ {
                                let w = choose|w: int| 0 <= w < old_stats.len() && (#[trigger] old_stats[w]).0@ == type_key(nodes@[m]);
                                assert(old_stats[w].0@ == key@);
                            }
                        }
                        lemma_absent_key(nodes@, key@, i as int);
                    }
                    stats.push((key, TypeStats { count: 1, total_size: node.self_size }));
                    proof {
                        pos = old_stats.len() as int;
                    }
                },
            }
            proof {
                let k = i as int + 1;
                assert forall|j: int| 0 <= j < stats@.len() implies (#[trigger] stats@[j]).1.count == key_count(nodes@, stats@[j].0@, k)
                    && stats@[j].1.total_size == key_size(nodes@, stats@[j].0@, k) && stats@[j].1.count > 0 by {
                    if j < old_stats.len() && stats@[j].0@ != key@ {
                        assert(stats@[j] == old_stats[j]);
                    }
                }
                assert forall|a: int, b: int| 0 <= a < b < stats@.len() implies (#[trigger] stats@[a]).0@ != (#[trigger] stats@[b]).0@ by {
                    if b < old_stats.len() {
                        assert(old_stats[a].0@ != old_stats[b].0@);
                    }
                }
                assert forall|m: int| 0 <= m < k implies exists|j: int| 0 <= j < stats@.len() && (#[trigger] stats@[j]).0@ == type_key(#[trigger] nodes@[m]) by {
                    if m < i {
                        let w = choose|w: int| 0 <= w < old_stats.len() && (#[trigger] old_stats[w]).0@ == type_key(nodes@[m]);
                        assert(stats@[w].0@ == old_stats[w].0@);
                    } else {
                        assert(stats@[pos].0@ == type_key(nodes@[m]));
                    }
                }
            }
            i += 1;
        }
        stats
    }
}

// ---------------------------------------------------------------------------
// Growth
// ---------------------------------------------------------------------------

/// The type counted under `key` has more nodes or more bytes in the target.
pub open spec fn grows(base: &ParsedSnapshot, target: &ParsedSnapshot, key: Seq<char>) -> bool {
    count_of(target, key) > count_of(base, key) || size_of(target, key) > size_of(base, key)
}

/// `row` holds the before and after figures of its type and their differences.
pub open spec fn growth_row_ok(base: &ParsedSnapshot, target: &ParsedSnapshot, row: TypeGrowth) -> bool {
    let k = row.constructor@;
    &&& row.count_before == count_of(base, k)
    &&& row.count_after == count_of(target, k)
    &&& row.size_before == size_of(base, k)
    &&& row.size_after == size_of(target, k)
    &&& row.count_delta == count_of(target, k) - count_of(base, k)
    &&& row.size_delta == size_of(target, k) - size_of(base, k)
}

/// Rows ordered by byte growth, largest first.
pub open spec fn sorted_by_size_delta(rows: Seq<TypeGrowth>) -> bool {
    forall|i: int, j: int| 0 <= i < j < rows.len() ==> (#[trigger] rows[i]).size_delta >= (#[trigger] rows[j]).size_delta
}

/// No two rows are about the same type.
pub open spec fn constructors_distinct(rows: Seq<TypeGrowth>) -> bool {
    forall|i: int, j: int| 0 <= i < j < rows.len() ==> (#[trigger] rows[i]).constructor@ != (#[trigger] rows[j]).constructor@
}

/// Some row is about the type `key`.
pub open spec fn has_row(rows: Seq<TypeGrowth>, key: Seq<char>) -> bool {
    exists|i: int| 0 <= i < rows.len() && (#[trigger] rows[i]).constructor@ == key
}

/// The growth table: exactly one row for each type that grew, with its
/// figures, ordered by byte growth, largest first.
pub open spec fn growth_rows_ok(base: &ParsedSnapshot, target: &ParsedSnapshot, rows: Seq<TypeGrowth>) -> bool {
    &&& forall|i: int| 0 <= i < rows.len() ==> growth_row_ok(base, target, #[trigger] rows[i])
        && grows(base, target, rows[i].constructor@)
    &&& forall|key: Seq<char>| #[trigger] grows(base, target, key) ==> has_row(rows, key)
    &&& constructors_distinct(rows)
    &&& sorted_by_size_delta(rows)
}

/// A growth row is reported exactly for the types whose count or byte total
/// rose: every row has a positive count or byte difference, and a type whose
/// count and byte total are the same in both snapshots has no row.
pub proof fn lemma_growth_rows_exact(
    base: &ParsedSnapshot,
    target: &ParsedSnapshot,
    rows: Seq<TypeGrowth>,
    key: Seq<char>,
)
    requires
        growth_rows_ok(base, target, rows),
    ensures
        forall|i: int| 0 <= i < rows.len() ==> (#[trigger] rows[i]).count_delta > 0 || rows[i].size_delta > 0,
        has_row(rows, key) <==> count_of(target, key) - count_of(base, key) > 0 || size_of(target, key) - size_of(base, key) > 0,
        count_of(target, key) == count_of(base, key) && size_of(target, key) == size_of(base, key) ==> !has_row(rows, key),
{
    assert forall|i: int| 0 <= i < rows.len() implies (#[trigger] rows[i]).count_delta > 0 || rows[i].size_delta > 0 by {
        assert(growth_row_ok(base, target, rows[i]));
    }
    if has_row(rows, key) {
        let i = choose|i: int| 0 <= i < rows.len() && (#[trigger] rows[i]).constructor@ == key;
        assert(grows(base, target, rows[i].constructor@));
    }
    if grows(base, target, key) {
        assert(has_row(rows, key));
    }
}

/// Inserts `row` after every row whose byte growth is at least its own.
#[verifier::rlimit(40)]
fn insert_by_size_delta(rows: &mut Vec<TypeGrowth>, row: TypeGrowth) -> (p: usize)
    requires
        sorted_by_size_delta(old(rows)@),
    ensures
        sorted_by_size_delta(final(rows)@),
        p <= old(rows)@.len(),
        final(rows)@ == old(rows)@.insert(p as int, row),
{
    let mut p: usize = 0;
    while p < rows.len() && rows[p].size_delta >= row.size_delta
        invariant
            p <= rows@.len(),
            forall|i: int| 0 <= i < p ==> (#[trigger] rows@[i]).size_delta >= row.size_delta,
        decreases rows@.len() - p,
    {
        p += 1;
    }
    let ghost before = rows@;
    rows.insert(p, row);
    proof {
        assert forall|i: int, j: int| 0 <= i < j < rows@.len() implies (#[trigger] rows@[i]).size_delta >= (#[trigger] rows@[j]).size_delta by {
            if j == p {
            } else if i == p {
                assert(rows@[j] == before[j - 1]);
                assert(before[p as int].size_delta < rows@[p as int].size_delta);
                if j - 1 > p {
                    assert(before[p as int].size_delta >= before[j - 1].size_delta);
                }
            } else {
                let i0 = if i < p { i } else { i - 1 };
                let j0 = if j < p { j } else { j - 1 };
                assert(rows@[i] == before[i0]);
                assert(rows@[j] == before[j0]);
                if i0 < j0 {
                    assert(before[i0].size_delta >= before[j0].size_delta);
                }
            }
        }
    }
    p
}

/// Invariant of the two passes that build the growth table: the rows are
/// right, distinct and sorted, and cover the growing types in `done`.
pub open spec fn rows_partial(base: &ParsedSnapshot, target: &ParsedSnapshot, rows: Seq<TypeGrowth>, done: spec_fn(Seq<char>) -> bool) -> bool {
    &&& forall|i: int| 0 <= i < rows.len() ==> growth_row_ok(base, target, #[trigger] rows[i])
        && grows(base, target, rows[i].constructor@) && done(rows[i].constructor@)
    &&& forall|key: Seq<char>| #[trigger] grows(base, target, key) && done(key) ==> has_row(rows, key)
    &&& constructors_distinct(rows)
    &&& sorted_by_size_delta(rows)
}

proof fn lemma_insert_row(
    base: &ParsedSnapshot,
    target: &ParsedSnapshot,
    rows: Seq<TypeGrowth>,
    p: int,
    row: TypeGrowth,
    done: spec_fn(Seq<char>) -> bool,
    done2: spec_fn(Seq<char>) -> bool,
)
    requires
        rows_partial(base, target, rows, done),
        0 <= p <= rows.len(),
        sorted_by_size_delta(rows.insert(p, row)),
        growth_row_ok(base, target, row),
        grows(base, target, row.constructor@),
        !done(row.constructor@),
        forall|k: Seq<char>| #[trigger] done2(k) <==> done(k) || k == row.constructor@,
    ensures
        rows_partial(base, target, rows.insert(p, row), done2),
{
    let r2 = rows.insert(p, row);
    assert forall|i: int| 0 <= i < r2.len() implies growth_row_ok(base, target, #[trigger] r2[i])
        && grows(base, target, r2[i].constructor@) && done2(r2[i].constructor@) by {
        if i < p {
            assert(r2[i] == rows[i]);
        } else if i > p {
            assert(r2[i] == rows[i - 1]);
        }
    }
    assert forall|key: Seq<char>| #[trigger] grows(base, target, key) && done2(key) implies has_row(r2, key) by {
        if key == row.constructor@ {
            assert(r2[p].constructor@ == key);
        } else {
            assert(done(key));
            let w = choose|w: int| 0 <= w < rows.len() && (#[trigger] rows[w]).constructor@ == key;
            if w < p {
                assert(r2[w] == rows[w]);
            } else {
                assert(r2[w + 1] == rows[w]);
            }
        }
    }
    assert forall|i: int, j: int| 0 <= i < j < r2.len() implies (#[trigger] r2[i]).constructor@ != (#[trigger] r2[j]).constructor@ by {
        if i == p {
            assert(r2[j] == rows[j - 1]);
            assert(done(rows[j - 1].constructor@));
        } else if j == p {
            assert(r2[i] == rows[i]);
            assert(done(rows[i].constructor@));
        } else {
            let i0 = if i < p { i } else { i - 1 };
            let j0 = if j < p { j } else { j - 1 };
            assert(r2[i] == rows[i0]);
            assert(r2[j] == rows[j0]);
        }
    }
}

/// Builds the row of `key` from its before and after figures.
fn growth_row(key: String, before: TypeStats, after: TypeStats) -> (r: TypeGrowth)
    requires
        before.count <= i64::MAX,
        after.count <= i64::MAX,
        before.total_size <= i64::MAX,
        after.total_size <= i64::MAX,
    ensures
        r.constructor@ == key@,
        r.count_before == before.count,
        r.count_after == after.count,
        r.size_before == before.total_size,
        r.size_after == after.total_size,
        r.count_delta == after.count - before.count,
        r.size_delta == after.total_size - before.total_size,
{
    TypeGrowth {
        constructor: key,
        count_before: before.count,
        count_after: after.count,
        count_delta: after.count as i64 - before.count as i64,
        size_before: before.total_size,
        size_after: after.total_size,
        size_delta: after.total_size as i64 - before.total_size as i64,
    }
}

impl HeapDiff {
    /// The growth table of two snapshots from their statistics tables: one
    /// row per type whose count or byte total rose, largest byte growth first.
    #[verifier::rlimit(40)]
    pub fn compute_growth(
        baseline: &ParsedSnapshot,
        target: &ParsedSnapshot,
        baseline_stats: &Vec<(String, TypeStats)>,
        target_stats: &Vec<(String, TypeStats)>,
    ) -> (r: Vec<TypeGrowth>)
        requires
            baseline.well_formed(),
            target.well_formed(),
            stats_ok(baseline.nodes@, baseline.nodes@.len() as int, baseline_stats@),
            stats_ok(target.nodes@, target.nodes@.len() as int, target_stats@),
        ensures
            growth_rows_ok(baseline, target, r@),
    {
        let ghost bn = baseline.nodes@;
        let ghost tn = target.nodes@;
        let ghost bs = baseline_stats@;
        let ghost ts = target_stats@;
        let mut rows: Vec<TypeGrowth> = Vec::new();
        let zero = TypeStats { count: 0, total_size: 0 };
        let mut i: usize = 0;
        while i < baseline_stats.len()
            invariant
                baseline.well_formed(),
                target.well_formed(),
                bs == baseline_stats@,
                ts == target_stats@,
                stats_ok(bn, bn.len() as int, bs),
                stats_ok(tn, tn.len() as int, ts),
                bn == baseline.nodes@,
                tn == target.nodes@,
                i <= bs.len(),
                zero.count == 0,
                zero.total_size == 0,
                rows_partial(baseline, target, rows@, |k: Seq<char>| exists|m: int| 0 <= m < i && (#[trigger] bs[m]).0@ == k),
            decreases bs.len() - i,
        {
            let key = &baseline_stats[i].0;
            let before = baseline_stats[i].1;
            let ghost kv = key@;
            let after = match find_key(target_stats, key) {
                Some(j) => target_stats[j].1,
                None => {
                    proof {
                        assert forall|m: int| 0 <= m < tn.len() implies type_key(#[trigger] tn[m]) != kv by {
                            if type_key(tn[m]) == kv {
                                let w = choose|w: int| 0 <= w < ts.len() && (#[trigger] ts[w]).0@ == type_key(tn[m]);
                            }
                        }
                        lemma_absent_key(tn, kv, tn.len() as int);
                    }
                    zero
                },
            };
            proof {
                lemma_key_bounds(bn, kv, bn.len() as int);
                lemma_key_bounds(tn, kv, tn.len() as int);
            }
            let ghost done = |k: Seq<char>| exists|m: int| 0 <= m < i && (#[trigger] bs[m]).0@ == k;
            let ghost done2 = |k: Seq<char>| exists|m: int| 0 <= m < i + 1 && (#[trigger] bs[m]).0@ == k;
            proof {
                assert forall|k: Seq<char>| #[trigger] done2(k) <==> done(k) || k == kv by {
                    if done2(k) && k != kv {
                        let m = choose|m: int| 0 <= m < i + 1 && (#[trigger] bs[m]).0@ == k;
                        assert(m < i);
                    }
                    if k == kv {
                        assert(bs[i as int].0@ == k);
                    }
                }
            }
            if after.count > before.count || after.total_size > before.total_size {
                let row = growth_row(key.clone(), before, after);
                proof {
                    if done(kv) {
                        let m = choose|m: int| 0 <= m < i && (#[trigger] bs[m]).0@ == kv;
                        assert(bs[m].0@ != bs[i as int].0@);
                    }
                }
                let ghost old_rows = rows@;
                let p = insert_by_size_delta(&mut rows, row);
                proof {
                    lemma_insert_row(baseline, target, old_rows, p as int, row, done, done2);
                }
            } else {
                proof {
                    assert forall|k: Seq<char>| #[trigger] grows(baseline, target, k) && done2(k) implies has_row(rows@, k) by {
                        if k != kv {
                            assert(done(k));
                        }
                    }
                    assert forall|r: int| 0 <= r < rows@.len() implies done2((#[trigger] rows@[r]).constructor@) by {
                        assert(done(rows@[r].constructor@));
                    }
                }
            }
            i += 1;
        }
        let mut j: usize = 0;
        while j < target_stats.len()
            invariant
                baseline.well_formed(),
                target.well_formed(),
                bs == baseline_stats@,
                ts == target_stats@,
                stats_ok(bn, bn.len() as int, bs),
                stats_ok(tn, tn.len() as int, ts),
                bn == baseline.nodes@,
                tn == target.nodes@,
                j <= ts.len(),
                zero.count == 0,
                zero.total_size == 0,
                rows_partial(baseline, target, rows@, |k: Seq<char>|
                    (exists|m: int| 0 <= m < bs.len() && (#[trigger] bs[m]).0@ == k)
                    || (exists|m: int| 0 <= m < j && (#[trigger] ts[m]).0@ == k)),
            decreases ts.len() - j,
        {
            let key = &target_stats[j].0;
            let after = target_stats[j].1;
            let ghost kv = key@;
            let ghost done = |k: Seq<char>|
                (exists|m: int| 0 <= m < bs.len() && (#[trigger] bs[m]).0@ == k)
                || (exists|m: int| 0 <= m < j && (#[trigger] ts[m]).0@ == k);
            let ghost done2 = |k: Seq<char>|
                (exists|m: int| 0 <= m < bs.len() && (#[trigger] bs[m]).0@ == k)
                || (exists|m: int| 0 <= m < j + 1 && (#[trigger] ts[m]).0@ == k);
            proof {
                assert forall|k: Seq<char>| #[trigger] done2(k) <==> done(k) || k == kv by {
                    if k == kv {
                        assert(ts[j as int].0@ == k);
                    }
                    if done2(k) && k != kv && !(exists|m: int| 0 <= m < bs.len() && (#[trigger] bs[m]).0@ == k) {
                        let m = choose|m: int| 0 <= m < j + 1 && (#[trigger] ts[m]).0@ == k;
                        assert(m < j);
                    }
                }
                lemma_key_bounds(tn, kv, tn.len() as int);
            }
            match find_key(baseline_stats, key) {
                Some(_) => {
                    proof {
                        assert forall|k: Seq<char>| #[trigger] grows(baseline, target, k) && done2(k) implies has_row(rows@, k) by {
                            assert(done(k));
                        }
                        assert forall|r: int| 0 <= r < rows@.len() implies done2((#[trigger] rows@[r]).constructor@) by {
                            assert(done(rows@[r].constructor@));
                        }
                    }
                },
                None => {
                    proof {
                        assert forall|m: int| 0 <= m < bn.len() implies type_key(#[trigger] bn[m]) != kv by {
                            if type_key(bn[m]) == kv {
                                let w = choose|w: int| 0 <= w < bs.len() && (#[trigger] bs[w]).0@ == type_key(bn[m]);
                            }
                        }
                        lemma_absent_key(bn, kv, bn.len() as int);
                        if done(kv) {
                            let m = choose|m: int| 0 <= m < j && (#[trigger] ts[m]).0@ == kv;
                            assert(ts[m].0@ != ts[j as int].0@);
                        }
                    }
                    let row = growth_row(key.clone(), zero, after);
                    let ghost old_rows = rows@;
                    let p = insert_by_size_delta(&mut rows, row);
                    proof {
                        lemma_insert_row(baseline, target, old_rows, p as int, row, done, done2);
                    }
                },
            }
            j += 1;
        }
        proof {
            assert forall|key: Seq<char>| #[trigger] grows(baseline, target, key) implies has_row(rows@, key) by {
                lemma_key_bounds(bn, key, bn.len() as int);
                if !(exists|m: int| 0 <= m < ts.len() && (#[trigger] ts[m]).0@ == key) {
                    assert forall|m: int| 0 <= m < tn.len() implies type_key(#[trigger] tn[m]) != key by {
                        if type_key(tn[m]) == key {
                            let w = choose|w: int| 0 <= w < ts.len() && (#[trigger] ts[w]).0@ == type_key(tn[m]);
                        }
                    }
                    lemma_absent_key(tn, key, tn.len() as int);
                    assert(false);
                } else {
                    let m = choose|m: int| 0 <= m < ts.len() && (#[trigger] ts[m]).0@ == key;
                    assert(ts[m].0@ == key);
                }
            }
        }
        rows
    }
}

// ---------------------------------------------------------------------------
// Reverse edges
// ---------------------------------------------------------------------------

/// Edge `k` lies in the range of edges that node `i` owns.
pub open spec fn owns_edge(s: &ParsedSnapshot, i: int, k: int) -> bool {
    &&& 0 <= i < s.nodes@.len()
    &&& s.nodes@[i].edges_start <= k < s.nodes@[i].edges_start + s.nodes@[i].edge_count
}

/// `e` names a referrer of node `j` and the label of an edge it holds to `j`.
pub open spec fn pred_entry_ok(s: &ParsedSnapshot, j: int, e: (usize, String)) -> bool {
    exists|k: int| #[trigger] owns_edge(s, e.0 as int, k) && s.edges@[k].to_node_idx == j
        && s.edges@[k].name_or_index@ == e.1@
}

/// `list` holds an entry for referrer `i` with label `label`.
pub open spec fn has_pred(list: Seq<(usize, String)>, i: int, label: Seq<char>) -> bool {
    exists|m: int| 0 <= m < list.len() && (#[trigger] list[m]).0 == i && list[m].1@ == label
}

/// The reverse-edge index of `s`: for each node, entries for exactly the
/// edges that point at it, each with the owner of the edge and its label.
pub open spec fn reverse_ok(s: &ParsedSnapshot, rev: Seq<Vec<(usize, String)>>) -> bool {
    &&& rev.len() == s.nodes@.len()
    &&& forall|j: int, m: int| 0 <= j < rev.len() && 0 <= m < rev[j]@.len() ==> pred_entry_ok(s, j, #[trigger] rev[j]@[m])
    &&& forall|i: int, k: int| #[trigger] owns_edge(s, i, k) && s.edges@[k].to_node_idx < rev.len()
        ==> has_pred(rev[s.edges@[k].to_node_idx as int]@, i, s.edges@[k].name_or_index@)
}

/// The node that owns edge `k`.
pub open spec fn edge_owner(s: &ParsedSnapshot, k: int) -> int {
    choose|i: int| owns_edge(s, i, k)
}

/// An entry of a referrer list as numbers and characters.
pub open spec fn referrer_view(list: Seq<(usize, String)>) -> Seq<(int, Seq<char>)> {
    list.map_values(|e: (usize, String)| (e.0 as int, e.1@))
}

/// The referrers of node `j` through the edges before the `k`-th: one entry
/// per edge into `j`, its owner and its label, in edge order.
pub open spec fn referrers_upto(s: &ParsedSnapshot, j: int, k: int) -> Seq<(int, Seq<char>)>
    decreases k,
{
    if k <= 0 {
        Seq::empty()
    } else if s.edges@[k - 1].to_node_idx == j {
        referrers_upto(s, j, k - 1).push((edge_owner(s, k - 1), s.edges@[k - 1].name_or_index@))
    } else {
        referrers_upto(s, j, k - 1)
    }
}

/// An edge has one owner.
pub proof fn lemma_edge_owner(s: &ParsedSnapshot, i: int, k: int)
    requires
        s.well_formed(),
        owns_edge(s, i, k),
    ensures
        edge_owner(s, k) == i,
{
    let o = edge_owner(s, k);
    assert(owns_edge(s, o, k));
    if o < i {
        crate::heap::lemma_edge_ranges_partition(s, o, i);
    } else if i < o {
        crate::heap::lemma_edge_ranges_partition(s, i, o);
    }
}

impl HeapDiff {
    /// For every node, the nodes that reference it, with the labels of those
    /// references, in the order of the owners' indices. Edges whose target
    /// lies outside the node table are left out.
    #[verifier::rlimit(40)]
    pub fn build_reverse_edge_map(snapshot: &ParsedSnapshot) -> (r: Vec<Vec<(usize, String)>>)
        requires
            snapshot.well_formed(),
        ensures
            reverse_ok(snapshot, r@),
            forall|j: int| 0 <= j < r@.len() ==> (#[trigger] r@[j])@.len() <= snapshot.edges@.len(),
            forall|j: int| 0 <= j < r@.len() ==> referrer_view((#[trigger] r@[j])@) == referrers_upto(
                snapshot,
                j,
                crate::heap::edge_total(snapshot.nodes@, snapshot.nodes@.len() as int),
            ),
    {
        let n = snapshot.nodes.len();
        let mut rev: Vec<Vec<(usize, String)>> = Vec::new();
        while rev.len() < n
            invariant
                n == snapshot.nodes@.len(),
                rev@.len() <= n,
                forall|j: int| 0 <= j < rev@.len() ==> (#[trigger] rev@[j])@.len() == 0,
            decreases n - rev@.len(),
        {
            rev.push(Vec::new());
        }
        let mut i: usize = 0;
        while i < n
            invariant
                snapshot.well_formed(),
                n == snapshot.nodes@.len(),
                i <= n,
                rev@.len() == n,
                forall|j: int, m: int| 0 <= j < rev@.len() && 0 <= m < rev@[j]@.len() ==> pred_entry_ok(snapshot, j, #[trigger] rev@[j]@[m]),
                forall|a: int, k: int| #[trigger] owns_edge(snapshot, a, k) && a < i && snapshot.edges@[k].to_node_idx < n
                    ==> has_pred(rev@[snapshot.edges@[k].to_node_idx as int]@, a, snapshot.edges@[k].name_or_index@),
                forall|j: int| 0 <= j < rev@.len() ==> (#[trigger] rev@[j])@.len() <= crate::heap::edge_total(snapshot.nodes@, i as int),
                forall|j: int| 0 <= j < rev@.len() ==> referrer_view((#[trigger] rev@[j])@) == referrers_upto(
                    snapshot,
                    j,
                    crate::heap::edge_total(snapshot.nodes@, i as int),
                ),
            decreases n - i,
        {
            proof {
                crate::heap::lemma_edge_ranges_partition(snapshot, i as int, i as int);
            }
            let n_edges = snapshot.edges.len();
            let start = snapshot.nodes[i].edges_start;
            assert(start + snapshot.nodes@[i as int].edge_count <= n_edges);
            let end = start + snapshot.nodes[i].edge_count;
            let mut k: usize = start;
            assert(start == crate::heap::edge_total(snapshot.nodes@, i as int));
            proof {
                assert forall|j: int| 0 <= j < n implies referrer_view((#[trigger] rev@[j])@) == referrers_upto(snapshot, j, k as int) by {}
            }
            while k < end
                invariant
                    snapshot.well_formed(),
                    n == snapshot.nodes@.len(),
                    i < n,
                    start == snapshot.nodes@[i as int].edges_start,
                    end == start + snapshot.nodes@[i as int].edge_count,
                    end <= snapshot.edges@.len(),
                    start <= k <= end,
                    rev@.len() == n,
                    forall|j: int, m: int| 0 <= j < rev@.len() && 0 <= m < rev@[j]@.len() ==> pred_entry_ok(snapshot, j, #[trigger] rev@[j]@[m]),
                    forall|a: int, kk: int| #[trigger] owns_edge(snapshot, a, kk) && (a < i || (a == i && kk < k)) && snapshot.edges@[kk].to_node_idx < n
                        ==> has_pred(rev@[snapshot.edges@[kk].to_node_idx as int]@, a, snapshot.edges@[kk].name_or_index@),
                    forall|j: int| 0 <= j < rev@.len() ==> (#[trigger] rev@[j])@.len() <= k,
                    forall|j: int| 0 <= j < rev@.len() ==> referrer_view((#[trigger] rev@[j])@) == referrers_upto(snapshot, j, k as int),
                decreases end - k,
            {
                let edge = &snapshot.edges[k];
                let to = edge.to_node_idx;
                proof {
                    assert(owns_edge(snapshot, i as int, k as int));
                    lemma_edge_owner(snapshot, i as int, k as int);
                }
                let ghost pre_rev = rev@;
                if to < n {
                    let entry = (i, edge.name_or_index.clone());
                    let ghost old_rev = rev@;
                    rev[to].push(entry);
                    proof {
                        assert(owns_edge(snapshot, i as int, k as int));
                        assert(rev@.len() == old_rev.len());
                        assert forall|j: int| 0 <= j < rev@.len() implies (#[trigger] rev@[j])@.len() <= k + 1 by {
                            if j != to {
                                assert(rev@[j] == old_rev[j]);
                            }
                        }
                        assert(rev@[to as int]@ == old_rev[to as int]@.push(entry));
                        assert(referrer_view(rev@[to as int]@) =~= referrer_view(old_rev[to as int]@).push((i as int, entry.1@)));
                        assert(forall|j: int| 0 <= j < rev@.len() && j != to ==> rev@[j] == old_rev[j]);
                        assert forall|j: int, m: int| 0 <= j < rev@.len() && 0 <= m < rev@[j]@.len() implies pred_entry_ok(snapshot, j, #[trigger] rev@[j]@[m]) by {
                            if j != to || m < old_rev[j]@.len() {
                                assert(rev@[j]@[m] == old_rev[j]@[m]);
                                assert(pred_entry_ok(snapshot, j, old_rev[j]@[m]));
                            } else {
                                assert(rev@[j]@[m] == entry);
                                assert(owns_edge(snapshot, entry.0 as int, k as int));
                                assert(snapshot.edges@[k as int].name_or_index@ == entry.1@);
                                assert(pred_entry_ok(snapshot, j, entry));
                            }
                        }
                        assert forall|a: int, kk: int| #[trigger] owns_edge(snapshot, a, kk) && (a < i || (a == i && kk < k + 1)) && snapshot.edges@[kk].to_node_idx < n
                            implies has_pred(rev@[snapshot.edges@[kk].to_node_idx as int]@, a, snapshot.edges@[kk].name_or_index@) by {
                            let t = snapshot.edges@[kk].to_node_idx as int;
                            if a == i && kk == k {
                                assert(rev@[t]@[rev@[t]@.len() - 1] == entry);
                            } else {
                                let w = choose|w: int| 0 <= w < old_rev[t]@.len() && (#[trigger] old_rev[t]@[w]).0 == a
                                    && old_rev[t]@[w].1@ == snapshot.edges@[kk].name_or_index@;
                                assert(rev@[t]@[w] == old_rev[t]@[w]);
                            }
                        }
                    }
                }
                proof {
                    assert forall|j: int| 0 <= j < rev@.len() implies referrer_view((#[trigger] rev@[j])@) == referrers_upto(snapshot, j, k as int + 1) by {
                        if j != to {
                            assert(rev@[j] == pre_rev[j]);
                            assert(referrer_view(pre_rev[j]@) == referrers_upto(snapshot, j, k as int));
                        }
                    }
                }
                k += 1;
            }
            proof {
                assert(end == crate::heap::edge_total(snapshot.nodes@, i as int + 1));
                assert forall|a: int, kk: int| #[trigger] owns_edge(snapshot, a, kk) && a < i + 1 && snapshot.edges@[kk].to_node_idx < n
                    implies has_pred(rev@[snapshot.edges@[kk].to_node_idx as int]@, a, snapshot.edges@[kk].name_or_index@) by {
                }
            }
            i += 1;
        }
        proof {
            assert(crate::heap::edge_total(snapshot.nodes@, n as int) <= snapshot.edges@.len());
        }
        rev
    }
}

// ---------------------------------------------------------------------------
// Retention paths
// ---------------------------------------------------------------------------

/// A garbage-collection root: a synthetic node whose name mentions `root`,
/// or the global object under either of its names.
pub open spec fn is_gc_root(n: HeapNode) -> bool {
    ||| (n.node_type@ == "synthetic"@ && seq_contains(n.name@, "root"@))
    ||| n.name@ == "Window"@
    ||| n.name@ == "global"@
}

/// The segment for a step along an edge labelled `label` to node `b`: the
/// label, or the name of `b` where the label is empty.
pub open spec fn step_segment(s: &ParsedSnapshot, b: int, label: Seq<char>) -> Seq<char> {
    if label.len() == 0 {
        s.nodes@[b].name@
    } else {
        label
    }
}

/// Node `a` holds an edge to node `b` whose segment is `seg`.
pub open spec fn chain_step(s: &ParsedSnapshot, a: int, b: int, seg: Seq<char>) -> bool {
    exists|k: int| #[trigger] owns_edge(s, a, k) && s.edges@[k].to_node_idx == b
        && seg == step_segment(s, b, s.edges@[k].name_or_index@)
}

/// `path` spells the chain of nodes `chain`: the first node's name, then one
/// segment for each reference from a node of the chain to the next.
pub open spec fn spells_chain(s: &ParsedSnapshot, chain: Seq<int>, path: Seq<String>) -> bool {
    &&& chain.len() == path.len()
    &&& chain.len() >= 1
    &&& forall|i: int| 0 <= i < chain.len() ==> 0 <= #[trigger] chain[i] < s.nodes@.len()
    &&& path[0]@ == s.nodes@[chain[0]].name@
    &&& forall|i: int| 0 <= i < chain.len() - 1 ==> #[trigger] chain_step(s, chain[i], chain[i + 1], path[i + 1]@)
}

/// `p` spells `chain`, which runs from a root either to `target` within the
/// segment limit, or as far as the limit, where `...` follows.
pub open spec fn path_chain(s: &ParsedSnapshot, target: int, chain: Seq<int>, p: Seq<String>) -> bool {
    ||| spells_chain(s, chain, p) && is_gc_root(s.nodes@[chain[0]]) && chain.last() == target
        && p.len() <= MAX_PATH_SEGMENTS
    ||| spells_chain(s, chain, p.subrange(0, MAX_PATH_SEGMENTS as int)) && is_gc_root(s.nodes@[chain[0]])
        && p.len() == MAX_PATH_SEGMENTS + 1 && p[MAX_PATH_SEGMENTS as int]@ == "..."@
}

/// A retention path of node `target`: it spells a chain of references that
/// starts at a root, and either ends at `target` within the segment limit,
/// or is cut at the limit and ends with `...`.
pub open spec fn path_ok(s: &ParsedSnapshot, target: int, p: Seq<String>) -> bool {
    &&& 1 <= p.len() <= MAX_PATH_SEGMENTS + 1
    &&& exists|chain: Seq<int>| #[trigger] path_chain(s, target, chain, p)
}

/// The first segment of a retention path is the name of a root, and at most
/// the segment limit of segments precede a final `...`.
pub proof fn lemma_path_starts_at_root(s: &ParsedSnapshot, target: int, p: Seq<String>)
    requires
        path_ok(s, target, p),
    ensures
        exists|r: int| 0 <= r < s.nodes@.len() && is_gc_root(#[trigger] s.nodes@[r]) && p[0]@ == s.nodes@[r].name@,
        p.len() <= MAX_PATH_SEGMENTS || (p.len() == MAX_PATH_SEGMENTS + 1 && p[MAX_PATH_SEGMENTS as int]@ == "..."@),
{
    let chain = choose|chain: Seq<int>| #[trigger] path_chain(s, target, chain, p);
    if p.len() == MAX_PATH_SEGMENTS + 1 {
        assert(p.subrange(0, MAX_PATH_SEGMENTS as int)[0] == p[0]);
    }
    assert(0 <= chain[0] < s.nodes@.len());
}

/// Whether `node` is a garbage-collection root.
pub fn is_root_node(node: &HeapNode) -> (r: bool)
    ensures
        r == is_gc_root(*node),
{
    let name = node.name.as_str();
    (str_eq(node.node_type.as_str(), "synthetic") && str_contains(name, "root")) || str_eq(name, "Window")
        || str_eq(name, "global")
}

/// Node `v` holds an edge to `to` labelled `label`.
pub open spec fn tree_edge(s: &ParsedSnapshot, v: int, to: int, label: Seq<char>) -> bool {
    exists|k: int| #[trigger] owns_edge(s, v, k) && s.edges@[k].to_node_idx == to && s.edges@[k].name_or_index@ == label
}

/// Search tree of the backward search: every visited node but the start has
/// a visited parent, the node it was reached from, and holds an edge to it
/// with the recorded label.
pub open spec fn tree_ok(
    s: &ParsedSnapshot,
    target: int,
    visited: Seq<bool>,
    parent: Seq<usize>,
    labels: Seq<String>,
) -> bool {
    let n = s.nodes@.len();
    &&& visited.len() == n
    &&& parent.len() == n
    &&& labels.len() == n
    &&& 0 <= target < n
    &&& visited[target]
    &&& forall|v: int| 0 <= v < n && #[trigger] visited[v] && v != target ==> parent[v] < n && visited[parent[v] as int]
        && tree_edge(s, v, parent[v] as int, labels[v]@)
}

/// Some entry of the referrer list `tp` is a root.
pub open spec fn root_referrer(s: &ParsedSnapshot, tp: Seq<(usize, String)>) -> bool {
    exists|j: int| 0 <= j < tp.len() && is_gc_root(s.nodes@[(#[trigger] tp[j]).0 as int])
}

/// The first `upto` referrers of the start, other than the start itself,
/// stand in the queue after it, within as many places as there are referrers.
pub open spec fn preds_queued_upto(tp: Seq<(usize, String)>, target: usize, queue: Seq<usize>, upto: int) -> bool {
    forall|j: int| 0 <= j < upto && tp[j].0 != target ==> exists|q: int| 1 <= q <= tp.len() && q < queue.len() && queue[q]
        == #[trigger] tp[j].0
}

/// All referrers of the start, other than the start itself, stand in the
/// queue after it, within as many places as there are referrers.
pub open spec fn preds_queued(tp: Seq<(usize, String)>, target: usize, queue: Seq<usize>) -> bool {
    preds_queued_upto(tp, target, queue, tp.len() as int)
}

/// The referrers of node `j`: one entry per owned edge into `j`, in edge order.
pub open spec fn referrers(s: &ParsedSnapshot, j: int) -> Seq<(int, Seq<char>)> {
    referrers_upto(s, j, crate::heap::edge_total(s.nodes@, s.nodes@.len() as int))
}

/// State of the backward search: the queue in order of discovery, and for
/// each node found, the node it was reached from and the label of the edge
/// (the start has none: `-1`).
pub type SearchState = (Seq<int>, Map<int, (int, Seq<char>)>);

/// The state after the first `m` referrers `tp` of node `c` are offered:
/// each one not yet found joins the queue, reached from `c`.
pub open spec fn add_referrers(st: SearchState, c: int, tp: Seq<(int, Seq<char>)>, m: int) -> SearchState
    decreases m,
{
    if m <= 0 || m > tp.len() {
        st
    } else {
        let prev = add_referrers(st, c, tp, m - 1);
        let p = tp[m - 1].0;
        if prev.1.contains_key(p) {
            prev
        } else {
            (prev.0.push(p), prev.1.insert(p, (c, tp[m - 1].1)))
        }
    }
}

/// The state of the backward search from `target` after the first `h`
/// nodes of the queue were taken, none of them a root.
pub open spec fn search_state(s: &ParsedSnapshot, target: int, h: int) -> SearchState
    decreases h,
{
    if h <= 0 {
        (seq![target], map![target => (-1int, Seq::<char>::empty())])
    } else {
        let st = search_state(s, target, h - 1);
        if h - 1 < st.0.len() {
            let c = st.0[h - 1];
            add_referrers(st, c, referrers(s, c), referrers(s, c).len() as int)
        } else {
            st
        }
    }
}

/// Position in the queue of the first root the search takes from position
/// `h` on, within the iteration limit.
pub open spec fn first_root_from(s: &ParsedSnapshot, target: int, h: int) -> Option<int>
    decreases MAX_BFS_ITERATIONS - h,
{
    if h < 0 || h >= MAX_BFS_ITERATIONS {
        None
    } else {
        let st = search_state(s, target, h);
        if h >= st.0.len() {
            None
        } else if is_gc_root(s.nodes@[st.0[h]]) {
            Some(h)
        } else {
            first_root_from(s, target, h + 1)
        }
    }
}

/// Segments from node `v` along the search tree towards `target`, at most
/// `k` of them, then `...` where the target is not reached.
pub open spec fn segments_from(
    s: &ParsedSnapshot,
    tree: Map<int, (int, Seq<char>)>,
    target: int,
    v: int,
    k: nat,
) -> Seq<Seq<char>>
    decreases k,
{
    if v == target {
        Seq::empty()
    } else if k == 0 {
        seq!["..."@]
    } else {
        seq![step_segment(s, tree[v].0, tree[v].1)] + segments_from(s, tree, target, tree[v].0, (k - 1) as nat)
    }
}

/// The retention path that the search gives for `target`: empty where no
/// root is among the first nodes it takes, else the name of the first root
/// found and the segments along the search tree from it to `target`.
pub open spec fn search_path(s: &ParsedSnapshot, target: int) -> Seq<Seq<char>> {
    match first_root_from(s, target, 0) {
        Some(h) => {
            let st = search_state(s, target, h);
            let r = st.0[h];
            seq![s.nodes@[r].name@] + segments_from(s, st.1, target, r, (MAX_PATH_SEGMENTS - 1) as nat)
        },
        None => Seq::empty(),
    }
}

/// The characters of each string.
pub open spec fn strings_view(v: Seq<String>) -> Seq<Seq<char>> {
    v.map_values(|x: String| x@)
}

/// The exec arrays of the search hold the state `st`.
pub open spec fn matches_search(
    n: int,
    target: int,
    st: SearchState,
    queue: Seq<usize>,
    visited: Seq<bool>,
    parent: Seq<usize>,
    labels: Seq<String>,
) -> bool {
    &&& queue.len() == st.0.len()
    &&& forall|q: int| 0 <= q < queue.len() ==> queue[q] as int == #[trigger] st.0[q]
    &&& forall|v: int| 0 <= v < n ==> (#[trigger] visited[v] <==> st.1.contains_key(v))
    &&& forall|v: int| #[trigger] st.1.contains_key(v) ==> 0 <= v < n
    &&& st.1.contains_key(target)
    &&& st.1[target] == (-1int, Seq::<char>::empty())
    &&& forall|v: int| #[trigger] st.1.contains_key(v) && v != target ==> parent[v] as int == st.1[v].0 && labels[v]@
        == st.1[v].1
}

impl HeapDiff {
    /// Searches backwards from node `target_idx` along the reverse edges for
    /// a root, taking at most the iteration limit of nodes from the queue,
    /// and spells the path from the root found towards the node: the root's
    /// name, then for each step the edge's label, or the name of the node it
    /// reaches where the label is empty. Empty where no root was found.
    #[verifier::rlimit(40)]
    pub fn find_retention_path(
        snapshot: &ParsedSnapshot,
        target_idx: usize,
        reverse_edges: &Vec<Vec<(usize, String)>>,
    ) -> (r: Vec<String>)
        requires
            snapshot.well_formed(),
            target_idx < snapshot.nodes@.len(),
            reverse_ok(snapshot, reverse_edges@),
            forall|j: int| 0 <= j < snapshot.nodes@.len() ==> referrer_view((#[trigger] reverse_edges@[j])@) == referrers(snapshot, j),
        ensures
            strings_view(r@) == search_path(snapshot, target_idx as int),
            r@.len() == 0 || path_ok(snapshot, target_idx as int, r@),
            is_gc_root(snapshot.nodes@[target_idx as int]) ==> r@.len() == 1 && r@[0]@ == snapshot.nodes@[target_idx as int].name@,
            root_referrer(snapshot, reverse_edges@[target_idx as int]@) && reverse_edges@[target_idx as int]@.len()
                < MAX_BFS_ITERATIONS ==> r@.len() > 0,
    {
        let nodes = &snapshot.nodes;
        let n = nodes.len();
        let mut visited: Vec<bool> = Vec::new();
        let mut parent: Vec<usize> = Vec::new();
        let mut labels: Vec<String> = Vec::new();
        while visited.len() < n
            invariant
                n == nodes@.len(),
                visited@.len() <= n,
                parent@.len() == visited@.len(),
                labels@.len() == visited@.len(),
                forall|v: int| 0 <= v < visited@.len() ==> !(#[trigger] visited@[v]),
            decreases n - visited@.len(),
        {
            visited.push(false);
            parent.push(0);
            labels.push(String::new());
        }
        let mut queue: Vec<usize> = Vec::new();
        queue.push(target_idx);
        let ghost unvisited = visited@;
        visited.set(target_idx, true);
        proof {
            assert forall|v: int| 0 <= v < n && #[trigger] visited@[v] implies exists|q: int| 0 <= q < queue@.len() && queue@[q] == v by {
                if v != target_idx {
                    assert(!unvisited[v]);
                }
                assert(queue@[0] == v);
            }
        }
        let ghost tp = reverse_edges@[target_idx as int]@;
        let ghost t = target_idx as int;
        let ghost mut gst: SearchState = search_state(snapshot, t, 0);
        let ghost mut rpos: int = 0;
        proof {
            assert forall|v: int| 0 <= v < n implies (#[trigger] visited@[v] <==> gst.1.contains_key(v)) by {
                if v != t {
                    assert(!unvisited[v]);
                }
            }
            assert(matches_search(n as int, t, gst, queue@, visited@, parent@, labels@));
        }
        let mut head: usize = 0;
        let mut root: Option<usize> = None;
        while head < queue.len() && head < MAX_BFS_ITERATIONS
            invariant_except_break
                root is None,
            invariant
                snapshot.well_formed(),
                nodes == &snapshot.nodes,
                n == nodes@.len(),
                reverse_ok(snapshot, reverse_edges@),
                tp == reverse_edges@[target_idx as int]@,
                tree_ok(snapshot, target_idx as int, visited@, parent@, labels@),
                queue@.len() >= 1,
                queue@[0] == target_idx,
                head <= queue@.len(),
                head <= MAX_BFS_ITERATIONS,
                forall|q: int| 0 <= q < queue@.len() ==> (#[trigger] queue@[q]) < n && visited@[queue@[q] as int],
                forall|v: int| 0 <= v < n && #[trigger] visited@[v] ==> exists|q: int| 0 <= q < queue@.len() && queue@[q] == v,
                root is None ==> forall|q: int| 0 <= q < head ==> !is_gc_root(nodes@[(#[trigger] queue@[q]) as int]),
                root is None && head >= 1 ==> preds_queued(tp, target_idx, queue@),
                head == 0 ==> root is None && queue@.len() == 1,
                match root {
                    Some(x) => x < n && visited@[x as int] && is_gc_root(nodes@[x as int]),
                    None => true,
                },
                is_gc_root(nodes@[target_idx as int]) && head > 0 ==> root == Some(target_idx),
                t == target_idx as int,
                forall|j: int| 0 <= j < snapshot.nodes@.len() ==> referrer_view((#[trigger] reverse_edges@[j])@) == referrers(snapshot, j),
                matches_search(n as int, t, gst, queue@, visited@, parent@, labels@),
                root is None ==> gst == search_state(snapshot, t, head as int) && first_root_from(snapshot, t, 0)
                    == first_root_from(snapshot, t, head as int),
                root matches Some(x) ==> gst == search_state(snapshot, t, rpos) && 0 <= rpos < gst.0.len() && x == gst.0[rpos]
                    && first_root_from(snapshot, t, 0) == Some(rpos),
            ensures
                matches_search(n as int, t, gst, queue@, visited@, parent@, labels@),
                root is None ==> first_root_from(snapshot, t, 0) is None,
                root matches Some(x) ==> gst == search_state(snapshot, t, rpos) && 0 <= rpos < gst.0.len() && x == gst.0[rpos]
                    && first_root_from(snapshot, t, 0) == Some(rpos),
                tree_ok(snapshot, target_idx as int, visited@, parent@, labels@),
                match root {
                    Some(x) => x < n && visited@[x as int] && is_gc_root(nodes@[x as int]),
                    None => {
                        &&& head == queue@.len() || head == MAX_BFS_ITERATIONS
                        &&& head >= 1
                        &&& forall|q: int| 0 <= q < head ==> !is_gc_root(nodes@[(#[trigger] queue@[q]) as int])
                        &&& preds_queued(tp, target_idx, queue@)
                    },
                },
                is_gc_root(nodes@[target_idx as int]) ==> root == Some(target_idx),
            decreases MAX_BFS_ITERATIONS - head,
        {
            let current = queue[head];
            proof {
                rpos = head as int;
            }
            head += 1;
            proof {
                assert(gst.0[rpos] == current as int);
            }
            if is_root_node(&nodes[current]) {
                root = Some(current);
                proof {
                    assert(first_root_from(snapshot, t, rpos) == Some(rpos));
                }
                break;
            }
            proof {
                assert(first_root_from(snapshot, t, rpos) == first_root_from(snapshot, t, head as int));
            }
            let preds = &reverse_edges[current];
            let ghost st0 = gst;
            let ghost tpc = referrers(snapshot, current as int);
            proof {
                assert(referrer_view(reverse_edges@[current as int]@) == tpc);
                assert(tpc.len() == preds@.len());
            }
            let mut m: usize = 0;
            while m < preds.len()
                invariant
                    snapshot.well_formed(),
                    nodes == &snapshot.nodes,
                    n == nodes@.len(),
                    reverse_ok(snapshot, reverse_edges@),
                    tp == reverse_edges@[target_idx as int]@,
                    current < n,
                    current == queue@[head - 1],
                    preds == &reverse_edges@[current as int],
                    visited@[current as int],
                    tree_ok(snapshot, target_idx as int, visited@, parent@, labels@),
                    queue@.len() >= 1,
                    queue@[0] == target_idx,
                    head <= queue@.len(),
                    head >= 1,
                    head <= MAX_BFS_ITERATIONS,
                    forall|q: int| 0 <= q < queue@.len() ==> (#[trigger] queue@[q]) < n && visited@[queue@[q] as int],
                    forall|v: int| 0 <= v < n && #[trigger] visited@[v] ==> exists|q: int| 0 <= q < queue@.len() && queue@[q] == v,
                    forall|q: int| 0 <= q < head ==> !is_gc_root(nodes@[(#[trigger] queue@[q]) as int]),
                    head == 1 ==> queue@.len() <= 1 + m && preds_queued_upto(tp, target_idx, queue@, m as int),
                    tpc.len() == preds@.len(),
                    head > 1 ==> preds_queued(tp, target_idx, queue@),
                    m <= preds@.len(),
                    root is None,
                    t == target_idx as int,
                    forall|j: int| 0 <= j < snapshot.nodes@.len() ==> referrer_view((#[trigger] reverse_edges@[j])@) == referrers(snapshot, j),
                    st0 == search_state(snapshot, t, head - 1),
                    head - 1 < st0.0.len(),
                    current as int == st0.0[head - 1],
                    tpc == referrers(snapshot, current as int),
                    first_root_from(snapshot, t, 0) == first_root_from(snapshot, t, head as int),
                    gst == add_referrers(st0, current as int, tpc, m as int),
                    matches_search(n as int, t, gst, queue@, visited@, parent@, labels@),
                    !is_gc_root(nodes@[target_idx as int]),
                decreases preds@.len() - m,
            {
                let p = preds[m].0;
                proof {
                    assert(pred_entry_ok(snapshot, current as int, preds@[m as int]));
                    let k = choose|k: int| #[trigger] owns_edge(snapshot, preds@[m as int].0 as int, k)
                        && snapshot.edges@[k].to_node_idx == current
                        && snapshot.edges@[k].name_or_index@ == preds@[m as int].1@;
                }
                let ghost old_queue = queue@;
                let ghost gprev = gst;
                proof {
                    assert(tpc == referrer_view(preds@));
                    assert(tpc[m as int] == (p as int, preds@[m as int].1@));
                    assert(p < n);
                }
                if !visited[p] {
                    let ghost old_labels = labels@;
                    let ghost old_parent = parent@;
                    let ghost old_visited = visited@;
                    visited.set(p, true);
                    parent.set(p, current);
                    labels.set(p, preds[m].1.clone());
                    queue.push(p);
                    proof {
                        gst = (gprev.0.push(p as int), gprev.1.insert(p as int, (current as int, preds@[m as int].1@)));
                        assert(gst == add_referrers(st0, current as int, tpc, m as int + 1));
                        assert forall|q: int| 0 <= q < queue@.len() implies queue@[q] as int == #[trigger] gst.0[q] by {
                            if q < old_queue.len() {
                                assert(queue@[q] == old_queue[q]);
                            }
                        }
                        assert forall|v: int| 0 <= v < n implies (#[trigger] visited@[v] <==> gst.1.contains_key(v)) by {
                            if v != p {
                                assert(visited@[v] == old_visited[v]);
                            }
                        }
                        assert forall|v: int| #[trigger] gst.1.contains_key(v) && v != t implies parent@[v] as int == gst.1[v].0
                            && labels@[v]@ == gst.1[v].1 by {
                            if v != p {
                                assert(gprev.1.contains_key(v));
                                assert(parent@[v] == old_parent[v]);
                                assert(labels@[v] == old_labels[v]);
                            }
                        }
                        assert(matches_search(n as int, t, gst, queue@, visited@, parent@, labels@));
                        assert forall|v: int| 0 <= v < n && #[trigger] visited@[v] && v != target_idx implies parent@[v] < n
                            && visited@[parent@[v] as int] && tree_edge(snapshot, v, parent@[v] as int, labels@[v]@) by {
                            if v != p {
                                assert(old_visited[v]);
                                assert(parent@[v] == old_parent[v]);
                                assert(labels@[v] == old_labels[v]);
                            }
                        }
                        assert forall|v: int| 0 <= v < n && #[trigger] visited@[v] implies exists|q: int| 0 <= q < queue@.len() && queue@[q] == v by {
                            if v == p {
                                assert(queue@[queue@.len() - 1] == v);
                            } else {
                                assert(old_visited[v]);
                                let q = choose|q: int| 0 <= q < old_queue.len() && old_queue[q] == v;
                                assert(queue@[q] == v);
                            }
                        }
                        assert forall|q: int| 0 <= q < queue@.len() implies (#[trigger] queue@[q]) < n && visited@[queue@[q] as int] by {
                            if q < old_queue.len() {
                                assert(queue@[q] == old_queue[q]);
                                assert(old_visited[old_queue[q] as int]);
                            }
                        }
                        assert forall|q: int| 0 <= q < head implies !is_gc_root(nodes@[(#[trigger] queue@[q]) as int]) by {
                            assert(queue@[q] == old_queue[q]);
                        }
                    }
                }
                proof {
                    if head == 1 {
                        assert(current == target_idx);
                        assert(preds@ == tp);
                        assert forall|j: int| 0 <= j < m + 1 && tp[j].0 != target_idx implies
                            exists|q: int| 1 <= q <= tp.len() && q < queue@.len() && queue@[q] == #[trigger] tp[j].0 by {
                            if j < m {
                                assert(preds_queued_upto(tp, target_idx, old_queue, m as int));
                                let q = choose|q: int| 1 <= q <= tp.len() && q < old_queue.len() && old_queue[q] == tp[j].0;
                                assert(queue@[q] == old_queue[q]);
                            } else if old_queue.len() < queue@.len() {
                                assert(queue@[old_queue.len() as int] == tp[j].0);
                            } else {
                                let q = choose|q: int| 0 <= q < old_queue.len() && old_queue[q] == tp[j].0;
                                assert(q != 0);
                            }
                        }
                    } else {
                        assert forall|j: int| 0 <= j < tp.len() && tp[j].0 != target_idx implies
                            exists|q: int| 1 <= q <= tp.len() && q < queue@.len() && queue@[q] == #[trigger] tp[j].0 by {
                            assert(preds_queued(tp, target_idx, old_queue));
                            let q = choose|q: int| 1 <= q <= tp.len() && q < old_queue.len() && old_queue[q] == tp[j].0;
                            assert(queue@[q] == old_queue[q]);
                        }
                    }
                }
                proof {
                    assert(gst == add_referrers(st0, current as int, tpc, m as int + 1));
                }
                m += 1;
            }
            proof {
                assert(gst == search_state(snapshot, t, head as int));
            }
            proof {
                if head == 1 {
                    assert(preds_queued_upto(tp, target_idx, queue@, tp.len() as int));
                }
            }
        }
        proof {
            if root is None && !is_gc_root(nodes@[target_idx as int]) && tp.len() < MAX_BFS_ITERATIONS {
                assert forall|j: int| 0 <= j < tp.len() implies !is_gc_root(nodes@[(#[trigger] tp[j]).0 as int]) by {
                    if is_gc_root(nodes@[tp[j].0 as int]) {
                        assert(tp[j].0 != target_idx);
                        let q = choose|q: int| 1 <= q <= tp.len() && q < queue@.len() && queue@[q] == tp[j].0;
                        assert(q < head);
                        assert(!is_gc_root(nodes@[queue@[q] as int]));
                    }
                }
            }
        }
        let mut path: Vec<String> = Vec::new();
        if let Some(r) = root {
            path.push(nodes[r].name.clone());
            let mut current = r;
            let ghost mut chain: Seq<int> = seq![r as int];
            let ghost tree = gst.1;
            let ghost full = seq![nodes@[r as int].name@] + segments_from(snapshot, tree, t, r as int, (MAX_PATH_SEGMENTS - 1) as nat);
            proof {
                assert(strings_view(path@) =~= seq![nodes@[r as int].name@]);
            }
            while current != target_idx
                invariant_except_break
                    path@.len() <= MAX_PATH_SEGMENTS,
                    spells_chain(snapshot, chain, path@),
                    chain.last() == current,
                    strings_view(path@) + segments_from(snapshot, tree, t, current as int, (MAX_PATH_SEGMENTS - path@.len()) as nat)
                        == full,
                invariant
                    t == target_idx as int,
                    tree == gst.1,
                    matches_search(n as int, t, gst, queue@, visited@, parent@, labels@),
                    full == seq![nodes@[r as int].name@] + segments_from(snapshot, tree, t, r as int, (MAX_PATH_SEGMENTS - 1) as nat),
                    n == nodes@.len(),
                    nodes == &snapshot.nodes,
                    tree_ok(snapshot, target_idx as int, visited@, parent@, labels@),
                    current < n,
                    visited@[current as int],
                    r < n,
                    is_gc_root(nodes@[r as int]),
                    1 <= path@.len(),
                    chain.len() >= 1,
                    chain[0] == r,
                    path@[0]@ == nodes@[r as int].name@,
                    r == target_idx ==> current == r && path@.len() == 1,
                ensures
                    chain.len() >= 1,
                    chain[0] == r,
                    spells_chain(snapshot, chain, path@) && chain.last() == target_idx && path@.len() <= MAX_PATH_SEGMENTS
                        || spells_chain(snapshot, chain, path@.subrange(0, MAX_PATH_SEGMENTS as int))
                        && path@.len() == MAX_PATH_SEGMENTS + 1 && path@[MAX_PATH_SEGMENTS as int]@ == "..."@,
                    r == target_idx ==> path@.len() == 1,
                    strings_view(path@) == full,
                decreases MAX_PATH_SEGMENTS + 1 - path@.len(),
            {
                if path.len() >= MAX_PATH_SEGMENTS {
                    let ghost before = path@;
                    path.push(String::from_str("..."));
                    assert(path@.subrange(0, MAX_PATH_SEGMENTS as int) =~= before);
                    proof {
                        assert(segments_from(snapshot, tree, t, current as int, 0) == seq!["..."@]);
                        assert(strings_view(path@) =~= strings_view(before) + seq!["..."@]);
                    }
                    break;
                }
                let next = parent[current];
                proof {
                    assert(tree.contains_key(current as int));
                    assert(tree[current as int].0 == next as int);
                    assert(tree[current as int].1 == labels@[current as int]@);
                }
                let ghost old_path = path@;
                let ghost old_chain = chain;
                if labels[current].as_str().is_empty() {
                    path.push(nodes[next].name.clone());
                } else {
                    path.push(labels[current].clone());
                }
                proof {
                    assert(tree_edge(snapshot, current as int, next as int, labels@[current as int]@));
                    let k = choose|k: int| #[trigger] owns_edge(snapshot, current as int, k) && snapshot.edges@[k].to_node_idx == next
                        && snapshot.edges@[k].name_or_index@ == labels@[current as int]@;
                    chain = chain.push(next as int);
                    assert(chain_step(snapshot, current as int, next as int, path@[path@.len() - 1]@));
                    let k0 = (MAX_PATH_SEGMENTS - old_path.len()) as nat;
                    let seg = path@[path@.len() - 1]@;
                    assert(seg == step_segment(snapshot, next as int, labels@[current as int]@));
                    assert(segments_from(snapshot, tree, t, current as int, k0) == seq![seg] + segments_from(
                        snapshot,
                        tree,
                        t,
                        next as int,
                        (k0 - 1) as nat,
                    ));
                    assert(strings_view(path@) =~= strings_view(old_path).push(seg));
                    assert(strings_view(path@) + segments_from(snapshot, tree, t, next as int, (k0 - 1) as nat) =~= strings_view(
                        old_path,
                    ) + segments_from(snapshot, tree, t, current as int, k0));
                    assert forall|i: int| 0 <= i < chain.len() - 1 implies #[trigger] chain_step(snapshot, chain[i], chain[i + 1], path@[i + 1]@) by {
                        if i < old_chain.len() - 1 {
                            assert(chain[i] == old_chain[i]);
                            assert(chain[i + 1] == old_chain[i + 1]);
                            assert(path@[i + 1] == old_path[i + 1]);
                            assert(chain_step(snapshot, old_chain[i], old_chain[i + 1], old_path[i + 1]@));
                        }
                    }
                    assert forall|i: int| 0 <= i < chain.len() implies 0 <= #[trigger] chain[i] < snapshot.nodes@.len() by {
                        if i < old_chain.len() {
                            assert(chain[i] == old_chain[i]);
                        }
                    }
                }
                current = next;
            }
            proof {
                assert(path_chain(snapshot, target_idx as int, chain, path@));
            }
        } else {
            proof {
                assert(strings_view(path@) =~= Seq::<Seq<char>>::empty());
            }
        }
        path
    }
}

// ---------------------------------------------------------------------------
// The diff
// ---------------------------------------------------------------------------

/// The number of leading growth rows whose types are searched.
pub open spec fn top_count(rows: Seq<TypeGrowth>) -> int {
    if rows.len() < TOP_GROWING_TYPES {
        rows.len() as int
    } else {
        TOP_GROWING_TYPES as int
    }
}

/// `key` is the type of one of the leading growth rows.
pub open spec fn is_top_type(rows: Seq<TypeGrowth>, key: Seq<char>) -> bool {
    exists|t: int| 0 <= t < top_count(rows) && (#[trigger] rows[t]).constructor@ == key
}

/// `o` stands for node `x` of the target: a node whose id the baseline does
/// not have, of one of the leading growing types, with a retention path.
pub open spec fn retained_from(
    baseline: &ParsedSnapshot,
    target: &ParsedSnapshot,
    rows: Seq<TypeGrowth>,
    o: RetainedObject,
    x: int,
) -> bool {
    &&& 0 <= x < target.nodes@.len()
    &&& !baseline.id_to_idx@.contains_key(target.nodes@[x].id)
    &&& type_key(target.nodes@[x]) == o.constructor@
    &&& o.size == target.nodes@[x].self_size
    &&& is_top_type(rows, o.constructor@)
    &&& path_ok(target, x, o.retention_path@)
    &&& strings_view(o.retention_path@) == search_path(target, x)
}

/// Node `x` of the target is new, of a leading growing type, and the search
/// from it finds a root.
pub open spec fn is_candidate(baseline: &ParsedSnapshot, target: &ParsedSnapshot, rows: Seq<TypeGrowth>, x: int) -> bool {
    &&& 0 <= x < target.nodes@.len()
    &&& !baseline.id_to_idx@.contains_key(target.nodes@[x].id)
    &&& is_top_type(rows, type_key(target.nodes@[x]))
    &&& search_path(target, x).len() > 0
}

/// The objects stand for the candidates in node order, from the first on:
/// every candidate before the last one taken is taken, and where fewer than
/// `max` were taken, every candidate is.
pub open spec fn selection_ok(
    baseline: &ParsedSnapshot,
    target: &ParsedSnapshot,
    rows: Seq<TypeGrowth>,
    objs: Seq<RetainedObject>,
    origins: Seq<int>,
    max: int,
) -> bool {
    &&& in_node_order(baseline, target, rows, objs, origins)
    &&& forall|x: int| #[trigger] is_candidate(baseline, target, rows, x) && (objs.len() < max || (origins.len() > 0
        && x < origins.last())) ==> exists|i: int| 0 <= i < origins.len() && origins[i] == x
}

/// A retained object is a new object of a leading growing type of the target,
/// reported with a retention path.
pub open spec fn retained_ok(
    baseline: &ParsedSnapshot,
    target: &ParsedSnapshot,
    rows: Seq<TypeGrowth>,
    o: RetainedObject,
) -> bool {
    exists|x: int| #[trigger] retained_from(baseline, target, rows, o, x)
}

/// Some root holds a reference to node `x`.
pub open spec fn held_by_root(s: &ParsedSnapshot, x: int) -> bool {
    exists|i: int, k: int| #[trigger] owns_edge(s, i, k) && s.edges@[k].to_node_idx == x && is_gc_root(s.nodes@[i])
}

/// Node `x` of the target is new, of a leading growing type, and is a root
/// or is referenced by one in a target of fewer edges than the search limit:
/// the search finds a root for it.
pub open spec fn must_report(baseline: &ParsedSnapshot, target: &ParsedSnapshot, rows: Seq<TypeGrowth>, x: int) -> bool {
    &&& 0 <= x < target.nodes@.len()
    &&& !baseline.id_to_idx@.contains_key(target.nodes@[x].id)
    &&& is_top_type(rows, type_key(target.nodes@[x]))
    &&& is_gc_root(target.nodes@[x]) || (held_by_root(target, x) && target.edges@.len() < MAX_BFS_ITERATIONS)
}

/// Some object of `objs` stands for node `x`.
pub open spec fn reported(
    baseline: &ParsedSnapshot,
    target: &ParsedSnapshot,
    rows: Seq<TypeGrowth>,
    objs: Seq<RetainedObject>,
    x: int,
) -> bool {
    exists|i: int| 0 <= i < objs.len() && #[trigger] retained_from(baseline, target, rows, objs[i], x)
}

/// The objects of `objs` stand for the nodes `origins`, in node order.
pub open spec fn in_node_order(
    baseline: &ParsedSnapshot,
    target: &ParsedSnapshot,
    rows: Seq<TypeGrowth>,
    objs: Seq<RetainedObject>,
    origins: Seq<int>,
) -> bool {
    &&& origins.len() == objs.len()
    &&& forall|i: int| 0 <= i < objs.len() ==> #[trigger] retained_from(baseline, target, rows, objs[i], origins[i])
    &&& forall|i: int, j: int| 0 <= i < j < origins.len() ==> #[trigger] origins[i] < #[trigger] origins[j]
}

fn contains_key_string(keys: &Vec<String>, key: &String) -> (r: bool)
    ensures
        r == exists|i: int| 0 <= i < keys@.len() && (#[trigger] keys@[i])@ == key@,
{
    let mut i: usize = 0;
    while i < keys.len()
        invariant
            i <= keys@.len(),
            forall|j: int| 0 <= j < i ==> (#[trigger] keys@[j])@ != key@,
        decreases keys@.len() - i,
    {
        if keys[i] == *key {
            return true;
        }
        i += 1;
    }
    false
}

impl HeapDiff {
    /// Compares `baseline` with `target`: the growth table of the types, and
    /// for new objects of the leading growing types, taken in node order
    /// until `max_retained_objects` are reported, their retention paths.
    /// Objects for which no root is found are passed over.
    #[verifier::rlimit(40)]
    pub fn compute(
        baseline: &ParsedSnapshot,
        target: &ParsedSnapshot,
        baseline_path: &str,
        target_path: &str,
        max_retained_objects: usize,
    ) -> (r: HeapDiff)
        requires
            baseline.well_formed(),
            target.well_formed(),
        ensures
            r.baseline_path@ == baseline_path@,
            r.target_path@ == target_path@,
            growth_rows_ok(baseline, target, r.type_growth@),
            r.retained_objects@.len() <= max_retained_objects,
            forall|i: int| 0 <= i < r.retained_objects@.len()
                ==> retained_ok(baseline, target, r.type_growth@, #[trigger] r.retained_objects@[i]),
            r.retained_objects@.len() < max_retained_objects ==> forall|x: int| #[trigger] must_report(baseline, target, r.type_growth@, x)
                ==> reported(baseline, target, r.type_growth@, r.retained_objects@, x),
            exists|origins: Seq<int>| #[trigger] selection_ok(
                baseline,
                target,
                r.type_growth@,
                r.retained_objects@,
                origins,
                max_retained_objects as int,
            ),
    {
        let baseline_stats = Self::compute_type_stats(baseline);
        let target_stats = Self::compute_type_stats(target);
        let type_growth = Self::compute_growth(baseline, target, &baseline_stats, &target_stats);
        let ghost rows = type_growth@;
        let mut top_growing_types: Vec<String> = Vec::new();
        let mut t: usize = 0;
        while t < type_growth.len() && t < TOP_GROWING_TYPES
            invariant
                rows == type_growth@,
                t <= top_count(rows),
                top_growing_types@.len() == t,
                forall|q: int| 0 <= q < t ==> (#[trigger] top_growing_types@[q])@ == rows[q].constructor@,
            decreases TOP_GROWING_TYPES - t,
        {
            top_growing_types.push(type_growth[t].constructor.clone());
            t += 1;
        }
        let reverse_edges = Self::build_reverse_edge_map(target);
        proof {
            assert forall|j: int| 0 <= j < target.nodes@.len() implies referrer_view((#[trigger] reverse_edges@[j])@) == referrers(target, j) by {}
        }
        let mut retained_objects: Vec<RetainedObject> = Vec::new();
        let ghost mut origins: Seq<int> = Seq::empty();
        let n = target.nodes.len();
        let mut idx: usize = 0;
        while idx < n
            invariant
                baseline.well_formed(),
                target.well_formed(),
                n == target.nodes@.len(),
                rows == type_growth@,
                reverse_ok(target, reverse_edges@),
                top_growing_types@.len() == top_count(rows),
                forall|q: int| 0 <= q < top_count(rows) ==> (#[trigger] top_growing_types@[q])@ == rows[q].constructor@,
                idx <= n,
                retained_objects@.len() <= max_retained_objects,
                forall|i: int| 0 <= i < retained_objects@.len()
                    ==> retained_ok(baseline, target, rows, #[trigger] retained_objects@[i]),
                forall|j: int| 0 <= j < reverse_edges@.len() ==> (#[trigger] reverse_edges@[j])@.len() <= target.edges@.len(),
                forall|x: int| 0 <= x < idx && #[trigger] must_report(baseline, target, rows, x)
                    ==> reported(baseline, target, rows, retained_objects@, x),
                in_node_order(baseline, target, rows, retained_objects@, origins),
                forall|i: int| 0 <= i < origins.len() ==> #[trigger] origins[i] < idx,
                forall|j: int| 0 <= j < target.nodes@.len() ==> referrer_view((#[trigger] reverse_edges@[j])@) == referrers(target, j),
                forall|x: int| 0 <= x < idx && #[trigger] is_candidate(baseline, target, rows, x)
                    ==> exists|i: int| 0 <= i < origins.len() && origins[i] == x,
            ensures
                selection_ok(baseline, target, rows, retained_objects@, origins, max_retained_objects as int),
                in_node_order(baseline, target, rows, retained_objects@, origins),
                retained_objects@.len() <= max_retained_objects,
                forall|i: int| 0 <= i < retained_objects@.len()
                    ==> retained_ok(baseline, target, rows, #[trigger] retained_objects@[i]),
                retained_objects@.len() < max_retained_objects ==> forall|x: int| #[trigger] must_report(baseline, target, rows, x)
                    ==> reported(baseline, target, rows, retained_objects@, x),
            decreases n - idx,
        {
            if retained_objects.len() >= max_retained_objects {
                proof {
                    assert forall|x: int| #[trigger] is_candidate(baseline, target, rows, x) && (retained_objects@.len()
                        < max_retained_objects || (origins.len() > 0 && x < origins.last()))
                        implies exists|i: int| 0 <= i < origins.len() && origins[i] == x by {
                        assert(origins.last() < idx);
                    }
                }
                break;
            }
            let ghost origins_before = origins;
            let node = &target.nodes[idx];
            if !baseline.id_to_idx.contains_key(&node.id) {
                let constructor = type_key_of(node);
                if contains_key_string(&top_growing_types, &constructor) {
                    let retention_path = Self::find_retention_path(target, idx, &reverse_edges);
                    proof {
                        if must_report(baseline, target, rows, idx as int) && !is_gc_root(target.nodes@[idx as int]) {
                            let (i, k) = choose|i: int, k: int| #[trigger] owns_edge(target, i, k) && target.edges@[k].to_node_idx == idx
                                && is_gc_root(target.nodes@[i]);
                            let tp = reverse_edges@[idx as int]@;
                            assert(has_pred(tp, i, target.edges@[k].name_or_index@));
                            let m = choose|m: int| 0 <= m < tp.len() && (#[trigger] tp[m]).0 == i && tp[m].1@ == target.edges@[k].name_or_index@;
                            assert(root_referrer(target, tp));
                        }
                    }
                    if retention_path.len() > 0 {
                        let obj = RetainedObject { constructor, size: node.self_size, retention_path };
                        proof {
                            let q = choose|q: int| 0 <= q < top_growing_types@.len() && (#[trigger] top_growing_types@[q])@ == obj.constructor@;
                            assert(rows[q].constructor@ == obj.constructor@);
                            assert(is_top_type(rows, obj.constructor@));
                            assert(retained_from(baseline, target, rows, obj, idx as int));
                        }
                        let ghost old_objs = retained_objects@;
                        let ghost old_origins = origins;
                        retained_objects.push(obj);
                        proof {
                            origins = origins.push(idx as int);
                            assert forall|i: int| 0 <= i < retained_objects@.len()
                                implies #[trigger] retained_from(baseline, target, rows, retained_objects@[i], origins[i]) by {
                                if i < old_objs.len() {
                                    assert(retained_objects@[i] == old_objs[i]);
                                    assert(origins[i] == old_origins[i]);
                                }
                            }
                            assert forall|i: int, j: int| 0 <= i < j < origins.len() implies #[trigger] origins[i] < #[trigger] origins[j] by {
                                assert(origins[i] == old_origins[i]);
                                if j < old_origins.len() {
                                    assert(origins[j] == old_origins[j]);
                                }
                            }
                            assert forall|i: int| 0 <= i < origins.len() implies #[trigger] origins[i] < idx + 1 by {
                                if i < old_origins.len() {
                                    assert(origins[i] == old_origins[i]);
                                }
                            }
                            assert forall|i: int| 0 <= i < retained_objects@.len()
                                implies retained_ok(baseline, target, rows, #[trigger] retained_objects@[i]) by {
                                if i < old_objs.len() {
                                    assert(retained_objects@[i] == old_objs[i]);
                                }
                            }
                            assert forall|x: int| 0 <= x < idx + 1 && #[trigger] must_report(baseline, target, rows, x)
                                implies reported(baseline, target, rows, retained_objects@, x) by {
                                if x < idx {
                                    let i = choose|i: int| 0 <= i < old_objs.len() && #[trigger] retained_from(baseline, target, rows, old_objs[i], x);
                                    assert(retained_objects@[i] == old_objs[i]);
                                } else {
                                    assert(retained_objects@[old_objs.len() as int] == obj);
                                }
                            }
                        }
                    }
                } else {
                    proof {
                        if is_top_type(rows, constructor@) {
                            let t = choose|t: int| 0 <= t < top_count(rows) && (#[trigger] rows[t]).constructor@ == constructor@;
                            assert(top_growing_types@[t]@ == constructor@);
                        }
                        assert(!must_report(baseline, target, rows, idx as int));
                    }
                }
            }
            proof {
                if is_candidate(baseline, target, rows, idx as int) {
                    assert(origins.len() == origins_before.len() + 1);
                    assert(origins[origins.len() - 1] == idx as int);
                }
                assert forall|x: int| 0 <= x < idx + 1 && #[trigger] is_candidate(baseline, target, rows, x)
                    implies exists|i: int| 0 <= i < origins.len() && origins[i] == x by {
                    if x < idx {
                        let i = choose|i: int| 0 <= i < origins_before.len() && origins_before[i] == x;
                        assert(origins[i] == origins_before[i]);
                    } else {
                        assert(origins[origins.len() - 1] == x);
                    }
                }
            }
            idx += 1;
        }
        proof {
            assert(in_node_order(baseline, target, rows, retained_objects@, origins));
        }
        HeapDiff {
            baseline_path: String::from_str(baseline_path),
            target_path: String::from_str(target_path),
            type_growth,
            retained_objects,
        }
    }
}

} // verus!
