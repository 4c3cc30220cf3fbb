//! The terminal table of a whole run: the entry tree painted row by row
//! with each benchmark's records, and the column widths and name span
//! that the rows are laid out with.

use vstd::prelude::*;
use vstd::string::StrSliceExecFns;

use crate::entry::tree::{node_name, EntryTree};
use crate::output::table::{
    child_prefix, column_at, lemma_prefix_fits, column_label, column_stat, continuation_line_at, displayable,
    ignored_cells, leaf_line_at, parent_line_at, string_views, timing_cells, TableColumn,
    TablePainter, COLUMN_COUNT, COL_BUF,
};
use crate::time::fine_duration::DISPLAY_MULTIPLE;
use crate::stats::PercentileStats;
use crate::text::{dec_digits, push_decimal, push_str};
use crate::time::fine_duration::display_text;

verus! {

/// The result of one benchmark run at one thread count.
pub struct BenchRecord {
    /// Index of the benchmark.
    pub entry: usize,
    /// Thread count of the run.
    pub thread_count: u32,
    /// Timing statistics.
    pub stats: PercentileStats,
    /// The six throughput cells, when a counter was attached.
    pub throughput: Option<Vec<String>>,
}

/// Whether a record can be shown: its durations can be displayed and its
/// throughput row, if any, has six cells.
pub open spec fn record_ok(r: BenchRecord) -> bool {
    &&& displayable(r.stats)
    &&& (r.throughput matches Some(t) ==> t@.len() == COLUMN_COUNT)
}

/// Whether the record lists of `index` point into `recs`.
pub open spec fn index_ok(index: Seq<Vec<usize>>, recs: Seq<BenchRecord>) -> bool {
    forall|e: int, k: int|
        0 <= e < index.len() && 0 <= k < index[e]@.len() ==> #[trigger] index[e]@[k] < recs.len()
}

/// The indices below `k` of the records of benchmark `e`, ascending.
pub open spec fn records_with(recs: Seq<BenchRecord>, e: int, k: nat) -> Seq<usize>
    decreases k,
{
    if k == 0 {
        seq![]
    } else if recs[k - 1].entry == e {
        records_with(recs, e, (k - 1) as nat).push((k - 1) as usize)
    } else {
        records_with(recs, e, (k - 1) as nat)
    }
}

/// The records of benchmark `e`.
pub open spec fn records_of(index: Seq<Vec<usize>>, e: usize) -> Seq<usize> {
    if e < index.len() {
        index[e as int]@
    } else {
        seq![]
    }
}

/// `sorted` with `x` inserted after the last element whose thread count
/// is not larger than that of `x`.
pub open spec fn insert_by_threads(sorted: Seq<usize>, x: usize, recs: Seq<BenchRecord>) -> Seq<
    usize,
>
    decreases sorted.len(),
{
    if sorted.len() == 0 {
        seq![x]
    } else if recs[sorted.last() as int].thread_count <= recs[x as int].thread_count {
        sorted.push(x)
    } else {
        insert_by_threads(sorted.drop_last(), x, recs).push(sorted.last())
    }
}

/// The record indices `idx` ordered by thread count, keeping the order
/// of equal thread counts (insertion sort).
pub open spec fn thread_order(idx: Seq<usize>, recs: Seq<BenchRecord>) -> Seq<usize>
    decreases idx.len(),
{
    if idx.len() == 0 {
        seq![]
    } else {
        insert_by_threads(thread_order(idx.drop_last(), recs), idx.last(), recs)
    }
}

/// The label of a thread-count row: `t=` and the count.
pub open spec fn thread_label(tc: u32) -> Seq<char> {
    seq!['t', '='] + dec_digits(tc as nat)
}

/// The rows of a record shown as a leaf named `name`: its timing row and,
/// with a counter, its throughput row.
pub open spec fn record_rows(
    r: BenchRecord,
    name: Seq<char>,
    prefix: Seq<char>,
    span: nat,
    widths: Seq<usize>,
    is_last: bool,
) -> Seq<char> {
    leaf_line_at(prefix, span, widths, name, timing_cells(r.stats), is_last) + match r.throughput {
        Some(t) => continuation_line_at(prefix, span, widths, string_views(t@), is_last),
        None => seq![],
    }
}

/// The rows of the first `k` of the records `order`, each labelled with
/// its thread count.
pub open spec fn thread_rows(
    order: Seq<usize>,
    k: nat,
    recs: Seq<BenchRecord>,
    prefix: Seq<char>,
    span: nat,
    widths: Seq<usize>,
) -> Seq<char>
    decreases k,
{
    if k == 0 {
        seq![]
    } else {
        let r = recs[order[k - 1] as int];
        thread_rows(order, (k - 1) as nat, recs, prefix, span, widths) + record_rows(
            r,
            thread_label(r.thread_count),
            prefix,
            span,
            widths,
            k - 1 == order.len() - 1,
        )
    }
}

/// The rows of a benchmark leaf: the `(ignored)` placeholder without
/// records, the record's rows with one, and a parent row with one row per
/// thread count (in ascending order) with several.
pub open spec fn leaf_text(
    name: Seq<char>,
    entry: usize,
    is_last: bool,
    depth: nat,
    prefix: Seq<char>,
    span: nat,
    widths: Seq<usize>,
    recs: Seq<BenchRecord>,
    index: Seq<Vec<usize>>,
) -> Seq<char> {
    let idx = records_of(index, entry);
    if idx.len() == 0 {
        leaf_line_at(prefix, span, widths, name, ignored_cells(), is_last)
    } else if idx.len() == 1 {
        record_rows(recs[idx[0] as int], name, prefix, span, widths, is_last)
    } else {
        parent_line_at(depth, prefix, span, widths, name, is_last) + thread_rows(
            thread_order(idx, recs),
            idx.len(),
            recs,
            child_prefix(depth, prefix, is_last),
            span,
            widths,
        ) + if depth == 0 {
            seq!['\n']
        } else {
            seq![]
        }
    }
}

/// The rows of node `t` (the last of its siblings when `is_last`).
pub open spec fn node_text(
    t: EntryTree,
    is_last: bool,
    depth: nat,
    prefix: Seq<char>,
    span: nat,
    widths: Seq<usize>,
    recs: Seq<BenchRecord>,
    index: Seq<Vec<usize>>,
) -> Seq<char>
    decreases t, 0nat,
{
    match t {
        EntryTree::Parent { raw_name, children, .. } => parent_line_at(
            depth,
            prefix,
            span,
            widths,
            raw_name@,
            is_last,
        ) + forest_text(
            children@,
            children@.len(),
            depth + 1,
            child_prefix(depth, prefix, is_last),
            span,
            widths,
            recs,
            index,
        ) + if depth == 0 {
            seq!['\n']
        } else {
            seq![]
        },
        EntryTree::Leaf { raw_name, entry } => leaf_text(
            raw_name@,
            entry,
            is_last,
            depth,
            prefix,
            span,
            widths,
            recs,
            index,
        ),
    }
}

/// The rows of the first `k` nodes of `ts`.
pub open spec fn forest_text(
    ts: Seq<EntryTree>,
    k: nat,
    depth: nat,
    prefix: Seq<char>,
    span: nat,
    widths: Seq<usize>,
    recs: Seq<BenchRecord>,
    index: Seq<Vec<usize>>,
) -> Seq<char>
    decreases ts, k,
{
    if k == 0 || k > ts.len() {
        seq![]
    } else {
        forest_text(ts, (k - 1) as nat, depth, prefix, span, widths, recs, index) + node_text(
            ts[k - 1],
            is_last_of(k - 1, ts.len()),
            depth,
            prefix,
            span,
            widths,
            recs,
            index,
        )
    }
}

/// The larger of two numbers.
pub open spec fn max_nat(a: nat, b: nat) -> nat {
    if a >= b {
        a
    } else {
        b
    }
}

/// The largest thread count among the records `idx` (one for none).
pub open spec fn max_threads(idx: Seq<usize>, recs: Seq<BenchRecord>) -> u32
    decreases idx.len(),
{
    if idx.len() == 0 {
        1
    } else if idx.len() == 1 {
        recs[idx[0] as int].thread_count
    } else {
        let rest = max_threads(idx.drop_last(), recs);
        let t = recs[idx.last() as int].thread_count;
        if t > rest {
            t
        } else {
            rest
        }
    }
}

/// The widest name of node `t` and below it, counting three characters
/// of tree prefix per level of depth, and the `t=N` rows of a benchmark
/// with several thread counts.
pub open spec fn node_span(t: EntryTree, depth: nat, recs: Seq<BenchRecord>, index: Seq<Vec<usize>>) -> nat
    decreases t, 0nat,
{
    let own: nat = depth * 3 + node_name(t).len();
    match t {
        EntryTree::Parent { children, .. } => max_nat(
            own,
            forest_span(children@, children@.len(), depth + 1, recs, index),
        ),
        EntryTree::Leaf { entry, .. } => {
            let idx = records_of(index, entry);
            if idx.len() > 1 {
                max_nat(own, (depth + 1) * 3 + thread_label(max_threads(idx, recs)).len())
            } else {
                own
            }
        },
    }
}

/// The widest name among the first `k` nodes of `ts` and below them.
pub open spec fn forest_span(
    ts: Seq<EntryTree>,
    k: nat,
    depth: nat,
    recs: Seq<BenchRecord>,
    index: Seq<Vec<usize>>,
) -> nat
    decreases ts, k,
{
    if k == 0 || k > ts.len() {
        0
    } else {
        max_nat(
            forest_span(ts, (k - 1) as nat, depth, recs, index),
            node_span(ts[k - 1], depth, recs, index),
        )
    }
}

/// `x`, or `usize::MAX` when it is larger.
pub open spec fn capped(x: nat) -> nat {
    if x > usize::MAX {
        usize::MAX as nat
    } else {
        x
    }
}

/// The width of column `c` over the first `k` records: the widest of the
/// header label, the timing texts and the throughput cells.
pub open spec fn column_width(recs: Seq<BenchRecord>, c: int, k: nat) -> nat
    decreases k,
{
    if k == 0 {
        column_label(column_at(c)).len()
    } else {
        let r = recs[k - 1];
        let with_timing = max_nat(
            column_width(recs, c, (k - 1) as nat),
            display_text(column_stat(column_at(c), r.stats).picos as nat).len(),
        );
        match r.throughput {
            Some(t) => max_nat(with_timing, t@[c]@.len()),
            None => with_timing,
        }
    }
}

/// Whether position `i` is the last of `n`.
pub open spec fn is_last_of(i: int, n: nat) -> bool {
    i == n - 1
}

/// Inserting after the last element with a thread count not larger than
/// that of `x` puts `x` at position `p`.
proof fn lemma_insert_by_threads(sorted: Seq<usize>, x: usize, recs: Seq<BenchRecord>, p: int)
    requires
        0 <= p <= sorted.len(),
        forall|i: int| p <= i < sorted.len() ==> recs[#[trigger] sorted[i] as int].thread_count
            > recs[x as int].thread_count,
        p == 0 || recs[sorted[p - 1] as int].thread_count <= recs[x as int].thread_count,
    ensures
        insert_by_threads(sorted, x, recs) == sorted.take(p) + seq![x] + sorted.skip(p),
    decreases sorted.len(),
{
    if sorted.len() == 0 {
        assert(sorted.take(p) + seq![x] + sorted.skip(p) =~= seq![x]);
    } else if p == sorted.len() {
        assert(sorted.take(p) + seq![x] + sorted.skip(p) =~= sorted.push(x));
    } else {
        let rest = sorted.drop_last();
        assert forall|i: int| p <= i < rest.len() implies recs[#[trigger] rest[i] as int].thread_count
            > recs[x as int].thread_count by {
            assert(rest[i] == sorted[i]);
        }
        if p > 0 {
            assert(rest[p - 1] == sorted[p - 1]);
        }
        lemma_insert_by_threads(rest, x, recs, p);
        assert(sorted.last() == sorted[sorted.len() - 1]);
        assert((rest.take(p) + seq![x] + rest.skip(p)).push(sorted.last()) =~= sorted.take(p) + seq![
            x,
        ] + sorted.skip(p));
    }
}

/// Whether `ix` lists, for each of `n` benchmarks, the indices of its
/// records in ascending order.
pub open spec fn built_index(ix: Seq<Vec<usize>>, recs: Seq<BenchRecord>, n: nat) -> bool {
    &&& ix.len() == n
    &&& forall|e: int| 0 <= e < n ==> (#[trigger] ix[e])@ == records_with(recs, e, recs.len())
}

/// Whether every record can be shown.
pub open spec fn all_records_ok(recs: Seq<BenchRecord>) -> bool {
    forall|i: int| 0 <= i < recs.len() ==> record_ok(#[trigger] recs[i])
}

/// The column widths of a table of `recs`.
pub open spec fn table_widths(recs: Seq<BenchRecord>) -> Seq<usize> {
    Seq::new(COLUMN_COUNT as nat, |c: int| column_width(recs, c, recs.len()) as usize)
}

/// Whether two record indices hold the same lists.
pub open spec fn same_lists(a: Seq<Vec<usize>>, b: Seq<Vec<usize>>) -> bool {
    &&& a.len() == b.len()
    &&& forall|e: int| 0 <= e < a.len() ==> (#[trigger] a[e])@ == b[e]@
}

/// The rows and the name span of a node depend on the record index only
/// through the lists it holds.
proof fn lemma_node_same_lists(
    t: EntryTree,
    is_last: bool,
    depth: nat,
    prefix: Seq<char>,
    span: nat,
    widths: Seq<usize>,
    recs: Seq<BenchRecord>,
    a: Seq<Vec<usize>>,
    b: Seq<Vec<usize>>,
)
    requires
        same_lists(a, b),
    ensures
        node_text(t, is_last, depth, prefix, span, widths, recs, a) == node_text(
            t,
            is_last,
            depth,
            prefix,
            span,
            widths,
            recs,
            b,
        ),
        node_span(t, depth, recs, a) == node_span(t, depth, recs, b),
    decreases t, 0nat,
{
    match t {
        EntryTree::Parent { children, .. } => {
            assert(decreases_to!(t => children@));
            lemma_forest_same_lists(
                children@,
                children@.len(),
                depth + 1,
                child_prefix(depth, prefix, is_last),
                span,
                widths,
                recs,
                a,
                b,
            );
        },
        EntryTree::Leaf { entry, .. } => {
            assert(records_of(a, entry) == records_of(b, entry));
        },
    }
}

/// `lemma_node_same_lists` for the first `k` nodes of a forest.
proof fn lemma_forest_same_lists(
    ts: Seq<EntryTree>,
    k: nat,
    depth: nat,
    prefix: Seq<char>,
    span: nat,
    widths: Seq<usize>,
    recs: Seq<BenchRecord>,
    a: Seq<Vec<usize>>,
    b: Seq<Vec<usize>>,
)
    requires
        same_lists(a, b),
    ensures
        forest_text(ts, k, depth, prefix, span, widths, recs, a) == forest_text(
            ts,
            k,
            depth,
            prefix,
            span,
            widths,
            recs,
            b,
        ),
        forest_span(ts, k, depth, recs, a) == forest_span(ts, k, depth, recs, b),
    decreases ts, k,
{
    if k > 0 && k <= ts.len() {
        lemma_forest_same_lists(ts, (k - 1) as nat, depth, prefix, span, widths, recs, a, b);
        assert(decreases_to!(ts => ts[k - 1]));
        lemma_node_same_lists(ts[k - 1], is_last_of(k - 1, ts.len()), depth, prefix, span, widths, recs, a, b);
    }
}

/// Table rendering of a run.
pub struct TableRenderer;

impl TableRenderer {
    /// For each of `n` benchmarks, the indices of its records in order.
    pub fn build_record_index(n: usize, records: &[BenchRecord]) -> (r: Vec<Vec<usize>>)
        ensures
            r@.len() == n,
            forall|e: int| 0 <= e < n ==> (#[trigger] r@[e])@ == records_with(records@, e, records@.len()),
            index_ok(r@, records@),
            forall|e: int, k: int|
                0 <= e < n && 0 <= k < r@[e]@.len() ==> records@[#[trigger] r@[e]@[k] as int].entry
                    == e,
    {
        let mut index: Vec<Vec<usize>> = Vec::new();
        let mut e: usize = 0;
        while e < n
            invariant
                e <= n,
                index@.len() == e,
                forall|j: int| 0 <= j < e ==> (#[trigger] index@[j])@ == Seq::<usize>::empty(),
            decreases n - e,
        {
            index.push(Vec::new());
            e = e + 1;
        }
        let mut i: usize = 0;
        while i < records.len()
            invariant
                i <= records@.len(),
                index@.len() == n,
                forall|e: int, k: int|
                    0 <= e < n && 0 <= k < index@[e]@.len() ==> #[trigger] index@[e]@[k] < i,
                forall|e: int, k: int|
                    0 <= e < n && 0 <= k < index@[e]@.len() ==> records@[#[trigger] index@[e]@[k] as int].entry
                        == e,
                forall|e: int| 0 <= e < n ==> (#[trigger] index@[e])@ == records_with(records@, e, i as nat),
            decreases records@.len() - i,
        {
            let e: usize = records[i].entry;
            if e < n {
                let mut list: Vec<usize> = Vec::new();
                std::mem::swap(&mut list, &mut index[e]);
                let ghost before = list@;
                list.push(i);
                let ghost old_index = index@;
                index.set(e, list);
                proof {
                    assert forall|f: int, k: int|
                        0 <= f < n && 0 <= k < index@[f]@.len() implies #[trigger] index@[f]@[k]
                        < i + 1 && records@[index@[f]@[k] as int].entry == f by {
                        if f != e {
                            assert(index@[f] == old_index[f]);
                        } else if k < before.len() {
                            assert(index@[f]@[k] == before[k]);
                        }
                    }
                    assert forall|f: int| 0 <= f < n implies (#[trigger] index@[f])@ == records_with(
                        records@,
                        f,
                        (i + 1) as nat,
                    ) by {
                        if f != e {
                            assert(index@[f] == old_index[f]);
                        }
                    }
                }
            } else {
                proof {
                    assert forall|f: int| 0 <= f < n implies (#[trigger] index@[f])@ == records_with(
                        records@,
                        f,
                        (i + 1) as nat,
                    ) by {
                        assert(records_with(records@, f, (i + 1) as nat) == records_with(records@, f, i as nat));
                    }
                }
            }
            i = i + 1;
        }
        index
    }

    /// The record indices `idx` ordered by thread count (see
    /// [`thread_order`]).
    pub fn order_by_threads(idx: &Vec<usize>, records: &[BenchRecord]) -> (r: Vec<usize>)
        requires
            forall|k: int| 0 <= k < idx@.len() ==> #[trigger] idx@[k] < records@.len(),
        ensures
            r@ == thread_order(idx@, records@),
    {
        let ghost recs = records@;
        let mut out: Vec<usize> = Vec::new();
        let mut j: usize = 0;
        while j < idx.len()
            invariant
                j <= idx@.len(),
                recs == records@,
                forall|k: int| 0 <= k < idx@.len() ==> #[trigger] idx@[k] < records@.len(),
                out@ == thread_order(idx@.take(j as int), recs),
                forall|k: int| 0 <= k < out@.len() ==> #[trigger] out@[k] < records@.len(),
                forall|a: int, b: int|
                    0 <= a <= b < out@.len() ==> recs[out@[a] as int].thread_count <= recs[out@[
                        b
                    ] as int].thread_count,
            decreases idx@.len() - j,
        {
            let x: usize = idx[j];
            let tx: u32 = records[x].thread_count;
            let mut p: usize = out.len();
            while p > 0 && records[out[p - 1]].thread_count > tx
                invariant
                    p <= out@.len(),
                    x < records@.len(),
                    tx == recs[x as int].thread_count,
                    recs == records@,
                    forall|k: int| 0 <= k < out@.len() ==> #[trigger] out@[k] < records@.len(),
                    forall|i: int| p <= i < out@.len() ==> recs[#[trigger] out@[i] as int].thread_count
                        > tx,
                decreases p,
            {
                p = p - 1;
            }
            let ghost before = out@;
            proof {
                lemma_insert_by_threads(before, x, recs, p as int);
                let t = idx@.take(j + 1);
                assert(t.drop_last() =~= idx@.take(j as int));
                assert(t.last() == x);
            }
            out.insert(p, x);
            proof {
                assert(out@ =~= before.take(p as int) + seq![x] + before.skip(p as int));
                assert forall|a: int, b: int|
                    0 <= a <= b < out@.len() implies recs[out@[a] as int].thread_count <= recs[out@[
                    b
                ] as int].thread_count by {
                    if a < p && b < p {
                        assert(out@[a] == before[a] && out@[b] == before[b]);
                    } else if a < p && b == p {
                        assert(out@[a] == before[a]);
                        assert(recs[before[a] as int].thread_count <= recs[before[p - 1] as int].thread_count);
                    } else if a < p {
                        assert(out@[a] == before[a] && out@[b] == before[b - 1]);
                    } else if a == p && b > p {
                        assert(out@[b] == before[b - 1]);
                    } else if a > p {
                        assert(out@[a] == before[a - 1] && out@[b] == before[b - 1]);
                    }
                }
                assert forall|k: int| 0 <= k < out@.len() implies #[trigger] out@[k] < records@.len() by {
                    if k < p {
                        assert(out@[k] == before[k]);
                    } else if k > p {
                        assert(out@[k] == before[k - 1]);
                    }
                }
            }
            j = j + 1;
        }
        assert(idx@.take(idx@.len() as int) =~= idx@);
        out
    }

    /// The label of a thread-count row.
    fn thread_label(tc: u32) -> (r: String)
        ensures
            r@ == thread_label(tc),
    {
        let mut s: String = String::new();
        push_str(&mut s, "t=");
        push_decimal(&mut s, tc as u128);
        proof {
            reveal_strlit("t=");
        }
        assert(s@ =~= thread_label(tc));
        s
    }

    /// The largest thread count among the records `idx`.
    fn max_threads_of(idx: &Vec<usize>, records: &[BenchRecord]) -> (r: u32)
        requires
            forall|k: int| 0 <= k < idx@.len() ==> #[trigger] idx@[k] < records@.len(),
        ensures
            r == max_threads(idx@, records@),
    {
        if idx.len() == 0 {
            return 1;
        }
        let mut m: u32 = records[idx[0]].thread_count;
        let mut k: usize = 1;
        assert(idx@.take(1) =~= seq![idx@[0]]);
        while k < idx.len()
            invariant
                1 <= k <= idx@.len(),
                forall|j: int| 0 <= j < idx@.len() ==> #[trigger] idx@[j] < records@.len(),
                m == max_threads(idx@.take(k as int), records@),
            decreases idx@.len() - k,
        {
            let t: u32 = records[idx[k]].thread_count;
            proof {
                let s2 = idx@.take(k + 1);
                assert(s2.drop_last() =~= idx@.take(k as int));
                assert(s2.last() == idx@[k as int]);
            }
            if t > m {
                m = t;
            }
            k = k + 1;
        }
        assert(idx@.take(idx@.len() as int) =~= idx@);
        m
    }

    /// The widest name of the tree below `nodes` at `depth` (see
    /// [`forest_span`]), capped at `usize::MAX`: the name span the table
    /// is laid out with.
    pub fn compute_name_spans(
        nodes: &[EntryTree],
        depth: usize,
        records: &[BenchRecord],
        index: &Vec<Vec<usize>>,
    ) -> (r: usize)
        requires
            index_ok(index@, records@),
        ensures
            r == capped(forest_span(nodes@, nodes@.len(), depth as nat, records@, index@)),
        decreases nodes@,
    {
        let mut best: usize = 0;
        let mut i: usize = 0;
        while i < nodes.len()
            invariant
                i <= nodes@.len(),
                index_ok(index@, records@),
                best == capped(forest_span(nodes@, i as nat, depth as nat, records@, index@)),
            decreases nodes@.len() - i,
        {
            proof {
                assert(decreases_to!(nodes@ => nodes@[i as int]));
            }
            let s: usize = Self::node_name_span(&nodes[i], depth, records, index);
            if s > best {
                best = s;
            }
            i = i + 1;
        }
        best
    }

    /// `a * 3 + b`, capped at `usize::MAX`.
    fn span_of(a: usize, b: usize) -> (r: usize)
        ensures
            r == capped((a * 3 + b) as nat),
    {
        if a > (usize::MAX - b) / 3 {
            usize::MAX
        } else {
            a * 3 + b
        }
    }

    /// The widest name of `node` and below it (see [`node_span`]), capped
    /// at `usize::MAX`.
    fn node_name_span(node: &EntryTree, depth: usize, records: &[BenchRecord], index: &Vec<Vec<usize>>) -> (r:
        usize)
        requires
            index_ok(index@, records@),
        ensures
            r == capped(node_span(*node, depth as nat, records@, index@)),
        decreases *node,
    {
        let name_len: usize = node.raw_name().unicode_len();
        let own: usize = Self::span_of(depth, name_len);
        if own == usize::MAX {
            return usize::MAX;
        }
        match node {
            EntryTree::Parent { children, .. } => {
                let kids: &[EntryTree] = children.as_slice();
                assert(kids@ == children@);
                proof {
                    assert(decreases_to!(*node => children@));
                }
                let below: usize = Self::compute_name_spans(kids, depth + 1, records, index);
                if below > own {
                    below
                } else {
                    own
                }
            },
            EntryTree::Leaf { entry, .. } => {
                if *entry < index.len() && index[*entry].len() > 1 {
                    let idx: &Vec<usize> = &index[*entry];
                    let m: u32 = Self::max_threads_of(idx, records);
                    let label: String = Self::thread_label(m);
                    let t_span: usize = Self::span_of(depth + 1, label.as_str().unicode_len());
                    if t_span > own {
                        t_span
                    } else {
                        own
                    }
                } else {
                    own
                }
            },
        }
    }

    /// The width of each column: the widest of its header label, of the
    /// timing texts of all records, and of their throughput cells.
    pub fn column_widths(records: &[BenchRecord]) -> (r: [usize; 6])
        requires
            forall|i: int| 0 <= i < records@.len() ==> record_ok(#[trigger] records@[i]),
        ensures
            forall|c: int|
                0 <= c < COLUMN_COUNT ==> #[trigger] r@[c] == column_width(records@, c, records@.len()),
    {
        let mut widths: [usize; 6] = [0; 6];
        let mut c: usize = 0;
        while c < COLUMN_COUNT
            invariant
                c <= COLUMN_COUNT,
                forall|i: int| 0 <= i < records@.len() ==> record_ok(#[trigger] records@[i]),
                forall|j: int| 0 <= j < c ==> #[trigger] widths@[j] == column_width(records@, j, records@.len()),
            decreases COLUMN_COUNT - c,
        {
            let mut w: usize = TableColumn::at(c).name().unicode_len();
            let mut i: usize = 0;
            while i < records.len()
                invariant
                    c < COLUMN_COUNT,
                    i <= records@.len(),
                    forall|k: int| 0 <= k < records@.len() ==> record_ok(#[trigger] records@[k]),
                    w == column_width(records@, c as int, i as nat),
                decreases records@.len() - i,
            {
                let r: &BenchRecord = &records[i];
                assert(record_ok(records@[i as int]));
                assert(column_stat(column_at(c as int), r.stats).picos * 10_000 <= u128::MAX);
                let d = TableColumn::at(c).get_stat(&r.stats);
                let timing: usize = d.to_string().as_str().unicode_len();
                if timing > w {
                    w = timing;
                }
                match &r.throughput {
                    Some(t) => {
                        let tw: usize = t[c].as_str().unicode_len();
                        if tw > w {
                            w = tw;
                        }
                    },
                    None => {},
                }
                i = i + 1;
            }
            widths[c] = w;
            c = c + 1;
        }
        widths
    }
    /// Writes the rows of one record as a leaf named `name`.
    fn paint_record(painter: &mut TablePainter, name: &str, r: &BenchRecord, is_last: bool)
        requires
            old(painter).wf(),
            record_ok(*r),
        ensures
            final(painter).wf(),
            final(painter).output() == old(painter).output() + record_rows(
                *r,
                name@,
                old(painter).prefix(),
                old(painter).span(),
                old(painter).widths(),
                is_last,
            ),
            final(painter).depth() == old(painter).depth(),
            final(painter).prefix() == old(painter).prefix(),
            final(painter).saved() == old(painter).saved(),
            final(painter).span() == old(painter).span(),
            final(painter).widths() == old(painter).widths(),
    {
        painter.write_leaf(name, &r.stats, r.throughput.as_ref(), is_last);
    }

    /// Writes the rows of benchmark leaf `entry` named `name`.
    fn paint_leaf(
        painter: &mut TablePainter,
        name: &str,
        entry: usize,
        is_last: bool,
        records: &[BenchRecord],
        index: &Vec<Vec<usize>>,
    )
        requires
            old(painter).wf(),
            index_ok(index@, records@),
            forall|i: int| 0 <= i < records@.len() ==> record_ok(#[trigger] records@[i]),
        ensures
            final(painter).wf(),
            final(painter).output() == old(painter).output() + leaf_text(
                name@,
                entry,
                is_last,
                old(painter).depth(),
                old(painter).prefix(),
                old(painter).span(),
                old(painter).widths(),
                records@,
                index@,
            ),
            final(painter).depth() == old(painter).depth(),
            final(painter).prefix() == old(painter).prefix(),
            final(painter).saved() == old(painter).saved(),
            final(painter).span() == old(painter).span(),
            final(painter).widths() == old(painter).widths(),
    {
        let empty: Vec<usize> = Vec::new();
        let idx: &Vec<usize> = if entry < index.len() { &index[entry] } else { &empty };
        assert(idx@ == records_of(index@, entry));
        if idx.len() == 0 {
            painter.write_ignored_leaf(name, is_last);
            return;
        }
        if idx.len() == 1 {
            let r: &BenchRecord = &records[idx[0]];
            Self::paint_record(painter, name, r, is_last);
            return;
        }
        let ghost depth = painter.depth();
        let ghost prefix = painter.prefix();
        let ghost saved = painter.saved();
        let ghost start = painter.output();
        proof {
            lemma_prefix_fits(*painter);
        }
        painter.start_parent(name, is_last);
        let order: Vec<usize> = Self::order_by_threads(idx, records);
        proof {
            lemma_thread_order_in_range(idx@, records@);
        }
        let ghost inner = painter.output();
        let mut k: usize = 0;
        while k < order.len()
            invariant
                k <= order@.len(),
                order@ == thread_order(idx@, records@),
                order@.len() == idx@.len(),
                forall|j: int| 0 <= j < order@.len() ==> #[trigger] order@[j] < records@.len(),
                forall|i: int| 0 <= i < records@.len() ==> record_ok(#[trigger] records@[i]),
                painter.wf(),
                painter.depth() == depth + 1,
                painter.prefix() == child_prefix(depth, prefix, is_last),
                painter.saved() == saved.push(prefix.len() as usize),
                painter.span() == old(painter).span(),
                painter.widths() == old(painter).widths(),
                painter.output() == inner + thread_rows(
                    order@,
                    k as nat,
                    records@,
                    child_prefix(depth, prefix, is_last),
                    old(painter).span(),
                    old(painter).widths(),
                ),
            decreases order@.len() - k,
        {
            let r: &BenchRecord = &records[order[k]];
            let label: String = Self::thread_label(r.thread_count);
            Self::paint_record(painter, label.as_str(), r, k + 1 == order.len());
            k = k + 1;
        }
        let ghost rows = painter.output();
        painter.finish_parent();
        proof {
            assert(painter.prefix() =~= prefix);
            assert(painter.saved() =~= saved);
            let tail: Seq<char> = if depth == 0 { seq!['\n'] } else { seq![] };
            assert(painter.output() =~= rows + tail);
            assert(painter.output() =~= start + leaf_text(
                name@,
                entry,
                is_last,
                depth,
                prefix,
                old(painter).span(),
                old(painter).widths(),
                records@,
                index@,
            ));
        }
    }

    /// Paints node `node` and everything below it.
    fn paint_node(
        painter: &mut TablePainter,
        node: &EntryTree,
        is_last: bool,
        records: &[BenchRecord],
        index: &Vec<Vec<usize>>,
    )
        requires
            old(painter).wf(),
            index_ok(index@, records@),
            forall|i: int| 0 <= i < records@.len() ==> record_ok(#[trigger] records@[i]),
        ensures
            final(painter).wf(),
            final(painter).output() == old(painter).output() + node_text(
                *node,
                is_last,
                old(painter).depth(),
                old(painter).prefix(),
                old(painter).span(),
                old(painter).widths(),
                records@,
                index@,
            ),
            final(painter).depth() == old(painter).depth(),
            final(painter).prefix() == old(painter).prefix(),
            final(painter).saved() == old(painter).saved(),
            final(painter).span() == old(painter).span(),
            final(painter).widths() == old(painter).widths(),
        decreases *node,
    {
        let ghost depth = painter.depth();
        let ghost prefix = painter.prefix();
        let ghost saved = painter.saved();
        let ghost before = painter.output();
        match node {
            EntryTree::Parent { raw_name, children, .. } => {
                proof {
                    lemma_prefix_fits(*painter);
                }
                painter.start_parent(raw_name, is_last);
                let kids: &[EntryTree] = children.as_slice();
                assert(kids@ == children@);
                proof {
                    assert(decreases_to!(*node => children@));
                }
                Self::paint_tree(painter, kids, records, index);
                let ghost after_kids = painter.output();
                painter.finish_parent();
                proof {
                    assert(painter.prefix() =~= prefix);
                    assert(painter.saved() =~= saved);
                    let tail: Seq<char> = if depth == 0 { seq!['\n'] } else { seq![] };
                    assert(painter.output() =~= after_kids + tail);
                }
            },
            EntryTree::Leaf { raw_name, entry } => {
                Self::paint_leaf(painter, raw_name, *entry, is_last, records, index);
            },
        }
    }

    /// Paints the rows of `nodes` (siblings below the painter's current
    /// parent) and of everything below them, leaving the painter at the
    /// depth and prefix it had.
    /// Whether a record can be shown (see [`record_ok`]).
    pub fn record_fits(r: &BenchRecord) -> (b: bool)
        ensures
            b == record_ok(*r),
    {
        let mut c: usize = 0;
        while c < COLUMN_COUNT
            invariant
                c <= COLUMN_COUNT,
                forall|j: int| 0 <= j < c ==> #[trigger] column_stat(column_at(j), r.stats).picos
                    * DISPLAY_MULTIPLE <= u128::MAX,
            decreases COLUMN_COUNT - c,
        {
            let p: u128 = TableColumn::at(c).get_stat(&r.stats).picos;
            if p > u128::MAX / DISPLAY_MULTIPLE {
                assert(p * DISPLAY_MULTIPLE > u128::MAX) by (nonlinear_arith)
                    requires
                        p > u128::MAX / DISPLAY_MULTIPLE,
                        DISPLAY_MULTIPLE == 10_000,
                ;
                assert(!displayable(r.stats));
                return false;
            }
            assert(p * DISPLAY_MULTIPLE <= u128::MAX) by (nonlinear_arith)
                requires
                    p <= u128::MAX / DISPLAY_MULTIPLE,
                    DISPLAY_MULTIPLE == 10_000,
            ;
            c = c + 1;
        }
        match &r.throughput {
            Some(t) => t.len() == COLUMN_COUNT,
            None => true,
        }
    }

    /// The whole table of `records` for the benchmarks of `tree` (`n`
    /// benchmarks): the rows of the tree laid out with the widest name
    /// and the column widths of the records, or `None` when a record
    /// cannot be shown or the names are too wide to lay out.
    pub fn render(tree: &[EntryTree], records: &[BenchRecord], n: usize) -> (r: Option<String>)
        ensures
            forall|ix: Seq<Vec<usize>>|
                #[trigger] built_index(ix, records@, n as nat) ==> {
                    let span = capped(forest_span(tree@, tree@.len(), 0, records@, ix));
                    &&& (r is Some <==> all_records_ok(records@) && span <= usize::MAX - COL_BUF)
                    &&& (r matches Some(t) ==> t@ == forest_text(
                        tree@,
                        tree@.len(),
                        0,
                        seq![],
                        span,
                        table_widths(records@),
                        records@,
                        ix,
                    ))
                },
    {
        let mut i: usize = 0;
        while i < records.len()
            invariant
                i <= records@.len(),
                forall|j: int| 0 <= j < i ==> record_ok(#[trigger] records@[j]),
            decreases records@.len() - i,
        {
            if !Self::record_fits(&records[i]) {
                assert(!all_records_ok(records@));
                return None;
            }
            i = i + 1;
        }
        let index: Vec<Vec<usize>> = Self::build_record_index(n, records);
        let span: usize = Self::compute_name_spans(tree, 0, records, &index);
        assert forall|ix: Seq<Vec<usize>>| #[trigger] built_index(ix, records@, n as nat) implies same_lists(
            ix,
            index@,
        ) by {
            assert forall|e: int| 0 <= e < ix.len() implies (#[trigger] ix[e])@ == index@[e]@ by {
                assert(ix[e]@ == records_with(records@, e, records@.len()));
                assert(index@[e]@ == records_with(records@, e, records@.len()));
            }
        }
        if span > usize::MAX - COL_BUF {
            assert forall|ix: Seq<Vec<usize>>| #[trigger] built_index(ix, records@, n as nat) implies capped(
                forest_span(tree@, tree@.len(), 0, records@, ix),
            ) > usize::MAX - COL_BUF by {
                lemma_forest_same_lists(tree@, tree@.len(), 0, seq![], 0, seq![], records@, ix, index@);
            }
            return None;
        }
        let widths: [usize; 6] = Self::column_widths(records);
        let mut painter: TablePainter = TablePainter::new(span, widths);
        Self::paint_tree(&mut painter, tree, records, &index);
        let text: String = painter.take_output();
        proof {
            assert(widths@ =~= table_widths(records@));
            assert forall|ix: Seq<Vec<usize>>| #[trigger] built_index(ix, records@, n as nat) implies {
                &&& capped(forest_span(tree@, tree@.len(), 0, records@, ix)) == span
                &&& text@ == forest_text(
                    tree@,
                    tree@.len(),
                    0,
                    seq![],
                    span as nat,
                    table_widths(records@),
                    records@,
                    ix,
                )
            } by {
                lemma_forest_same_lists(
                    tree@,
                    tree@.len(),
                    0,
                    seq![],
                    span as nat,
                    table_widths(records@),
                    records@,
                    ix,
                    index@,
                );
            }
        }
        Some(text)
    }

    pub fn paint_tree(
        painter: &mut TablePainter,
        nodes: &[EntryTree],
        records: &[BenchRecord],
        index: &Vec<Vec<usize>>,
    )
        requires
            old(painter).wf(),
            index_ok(index@, records@),
            forall|i: int| 0 <= i < records@.len() ==> record_ok(#[trigger] records@[i]),
        ensures
            final(painter).wf(),
            final(painter).output() == old(painter).output() + forest_text(
                nodes@,
                nodes@.len(),
                old(painter).depth(),
                old(painter).prefix(),
                old(painter).span(),
                old(painter).widths(),
                records@,
                index@,
            ),
            final(painter).depth() == old(painter).depth(),
            final(painter).prefix() == old(painter).prefix(),
            final(painter).saved() == old(painter).saved(),
            final(painter).span() == old(painter).span(),
            final(painter).widths() == old(painter).widths(),
        decreases nodes@,
    {
        let ghost depth = painter.depth();
        let ghost prefix = painter.prefix();
        let ghost saved = painter.saved();
        let ghost start = painter.output();
        let mut i: usize = 0;
        while i < nodes.len()
            invariant
                i <= nodes@.len(),
                index_ok(index@, records@),
                forall|j: int| 0 <= j < records@.len() ==> record_ok(#[trigger] records@[j]),
                painter.wf(),
                painter.depth() == depth,
                painter.prefix() == prefix,
                painter.saved() == saved,
                painter.span() == old(painter).span(),
                painter.widths() == old(painter).widths(),
                depth == old(painter).depth(),
                prefix == old(painter).prefix(),
                saved == old(painter).saved(),
                start == old(painter).output(),
                painter.output() == start + forest_text(
                    nodes@,
                    i as nat,
                    depth,
                    prefix,
                    old(painter).span(),
                    old(painter).widths(),
                    records@,
                    index@,
                ),
            decreases nodes@.len() - i,
        {
            let is_last: bool = i + 1 == nodes.len();
            proof {
                assert(decreases_to!(nodes@ => nodes@[i as int]));
            }
            Self::paint_node(painter, &nodes[i], is_last, records, index);
            proof {
                assert(is_last_of(i as int, nodes@.len()) == is_last);
                assert(forest_text(
                    nodes@,
                    (i + 1) as nat,
                    depth,
                    prefix,
                    old(painter).span(),
                    old(painter).widths(),
                    records@,
                    index@,
                ) == forest_text(
                    nodes@,
                    i as nat,
                    depth,
                    prefix,
                    old(painter).span(),
                    old(painter).widths(),
                    records@,
                    index@,
                ) + node_text(
                    nodes@[i as int],
                    is_last,
                    depth,
                    prefix,
                    old(painter).span(),
                    old(painter).widths(),
                    records@,
                    index@,
                ));
            }
            i = i + 1;
        }
    }
}

/// The span of a forest covers the span of each of its first `k` nodes.
proof fn lemma_forest_span_covers(
    ts: Seq<EntryTree>,
    k: nat,
    depth: nat,
    recs: Seq<BenchRecord>,
    index: Seq<Vec<usize>>,
    j: int,
)
    requires
        0 <= j < k <= ts.len(),
    ensures
        node_span(ts[j], depth, recs, index) <= forest_span(ts, k, depth, recs, index),
    decreases k,
{
    if j < k - 1 {
        lemma_forest_span_covers(ts, (k - 1) as nat, depth, recs, index, j);
    }
}

/// Every index in the thread order of `idx` points into `recs` when those
/// of `idx` do, and the order has the length of `idx`.
proof fn lemma_thread_order_in_range(idx: Seq<usize>, recs: Seq<BenchRecord>)
    requires
        forall|k: int| 0 <= k < idx.len() ==> #[trigger] idx[k] < recs.len(),
    ensures
        thread_order(idx, recs).len() == idx.len(),
        forall|k: int|
            0 <= k < thread_order(idx, recs).len() ==> #[trigger] thread_order(idx, recs)[k]
                < recs.len(),
    decreases idx.len(),
{
    if idx.len() > 0 {
        let rest = idx.drop_last();
        assert forall|k: int| 0 <= k < rest.len() implies #[trigger] rest[k] < recs.len() by {
            assert(rest[k] == idx[k]);
        }
        lemma_thread_order_in_range(rest, recs);
        lemma_insert_in_range(thread_order(rest, recs), idx.last(), recs);
    }
}

/// Inserting an index that points into `recs` into indices that do keeps
/// them all pointing into `recs`, and adds one.
proof fn lemma_insert_in_range(sorted: Seq<usize>, x: usize, recs: Seq<BenchRecord>)
    requires
        forall|k: int| 0 <= k < sorted.len() ==> #[trigger] sorted[k] < recs.len(),
        x < recs.len(),
    ensures
        insert_by_threads(sorted, x, recs).len() == sorted.len() + 1,
        forall|k: int|
            0 <= k < insert_by_threads(sorted, x, recs).len() ==> #[trigger] insert_by_threads(
                sorted,
                x,
                recs,
            )[k] < recs.len(),
    decreases sorted.len(),
{
    if sorted.len() > 0 && !(recs[sorted.last() as int].thread_count <= recs[x as int].thread_count) {
        let rest = sorted.drop_last();
        assert forall|k: int| 0 <= k < rest.len() implies #[trigger] rest[k] < recs.len() by {
            assert(rest[k] == sorted[k]);
        }
        lemma_insert_in_range(rest, x, recs);
    }
}

} // verus!