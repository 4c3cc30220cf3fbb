//! Decisions of the benchmark runner: which action a command line asks
//! for, which benchmarks the filters select, how options are layered,
//! and which statistic a benchmark is sorted by.

use vstd::prelude::*;

use crate::cli::{CliArgs, SortBy};
use crate::config::{copy_threads, or_else, threads_or, threads_view, BenchOptions};
use crate::entry::tree::{extended_path, node_name, push_path_component, EntryTree};
use crate::output::render::BenchRecord;
use crate::stats::PercentileStats;
use crate::text::{char_vec, push_str};
use crate::time::FineDuration;

verus! {

/// What a run of the benchmark binary does.
#[derive(Clone, Copy, Debug, PartialEq, Eq, Structural)]
pub enum RunAction {
    /// Print benchmark names with tree structure.
    List,
    /// Print benchmark names one per line.
    ListTerse,
    /// Run each benchmark once without timing.
    Test,
    /// Run and time the benchmarks.
    Bench,
}

/// Whether `pat` occurs in `s` at position `i`.
pub open spec fn occurs_at(s: Seq<char>, pat: Seq<char>, i: int) -> bool {
    0 <= i && i + pat.len() <= s.len() && s.subrange(i, i + pat.len()) == pat
}

/// Whether `pat` occurs in `s`.
pub open spec fn contains_text(s: Seq<char>, pat: Seq<char>) -> bool {
    exists|i: int| occurs_at(s, pat, i)
}

/// Whether a benchmark path passes the filters: no skip pattern occurs
/// in it, and the filter, when there is one, does.
pub open spec fn selected(path: Seq<char>, filter: Option<Seq<char>>, skip: Seq<Seq<char>>) -> bool {
    &&& forall|k: int| 0 <= k < skip.len() ==> !contains_text(path, #[trigger] skip[k])
    &&& (filter matches Some(f) ==> contains_text(path, f))
}

/// Whether `pat` occurs in `s`.
fn contains_exec(s: &Vec<char>, pat: &Vec<char>) -> (r: bool)
    ensures
        r == contains_text(s@, pat@),
{
    if pat.len() > s.len() {
        assert forall|i: int| !occurs_at(s@, pat@, i) by {}
        return false;
    }
    let last: usize = s.len() - pat.len();
    let mut i: usize = 0;
    while i <= last
        invariant
            last == s.len() - pat.len(),
            pat.len() <= s.len(),
            i <= last + 1,
            forall|j: int| 0 <= j < i ==> !occurs_at(s@, pat@, j),
        decreases last + 1 - i,
    {
        let mut k: usize = 0;
        let mut same: bool = true;
        while k < pat.len()
            invariant
                i <= last,
                last == s.len() - pat.len(),
                k <= pat.len(),
                same == forall|m: int| 0 <= m < k ==> s@[i + m] == pat@[m],
            decreases pat.len() - k,
        {
            if s[i + k] != pat[k] {
                same = false;
            }
            k = k + 1;
        }
        if same {
            assert(s@.subrange(i as int, i + pat@.len()) =~= pat@);
            assert(occurs_at(s@, pat@, i as int));
            return true;
        }
        assert(!occurs_at(s@, pat@, i as int)) by {
            if occurs_at(s@, pat@, i as int) {
                let m = choose|m: int| 0 <= m < pat.len() && s@[i + m] != pat@[m];
                assert(s@.subrange(i as int, i + pat@.len())[m] == s@[i + m]);
            }
        }
        i = i + 1;
    }
    assert forall|j: int| !occurs_at(s@, pat@, j) by {
        if 0 <= j && j + pat@.len() <= s@.len() {
            assert(j < i);
        }
    }
    false
}

/// Which benchmarks of a run have the fastest statistic: for each of
/// `n` benchmarks, the smallest of the statistics recorded for it.
pub open spec fn fastest_of(picks: Seq<(usize, FineDuration)>, e: int) -> Option<u128>
    decreases picks.len(),
{
    if picks.len() == 0 {
        None
    } else {
        let rest = fastest_of(picks.drop_last(), e);
        let (entry, d) = picks.last();
        if entry != e {
            rest
        } else {
            match rest {
                Some(m) => if d.picos < m {
                    Some(d.picos)
                } else {
                    Some(m)
                },
                None => Some(d.picos),
            }
        }
    }
}

/// The branch drawn before a listed name below the root level.
pub open spec fn list_branch(is_last: bool) -> Seq<char> {
    if is_last {
        "\u{2570}\u{2500} "@
    } else {
        "\u{251c}\u{2500} "@
    }
}

/// The prefix of the children of a listed node.
pub open spec fn list_child_prefix(prefix: Seq<char>, is_root: bool, is_last: bool) -> Seq<char> {
    if is_root {
        seq![]
    } else if is_last {
        prefix + "   "@
    } else {
        prefix + "\u{2502}  "@
    }
}

/// The `--list` lines of node `t`: its name (after `prefix` and a branch
/// below the root level), then its children.
pub open spec fn list_node(t: EntryTree, is_last: bool, prefix: Seq<char>, is_root: bool) -> Seq<char>
    decreases t, 0nat,
{
    let line = if is_root {
        node_name(t) + "\n"@
    } else {
        prefix + list_branch(is_last) + node_name(t) + "\n"@
    };
    match t {
        EntryTree::Parent { children, .. } => line + list_forest(
            children@,
            children@.len(),
            list_child_prefix(prefix, is_root, is_last),
            false,
        ),
        EntryTree::Leaf { .. } => line,
    }
}

/// The `--list` lines of the first `k` nodes of `ts`.
pub open spec fn list_forest(ts: Seq<EntryTree>, k: nat, prefix: Seq<char>, is_root: bool) -> Seq<char>
    decreases ts, k,
{
    if k == 0 || k > ts.len() {
        seq![]
    } else {
        list_forest(ts, (k - 1) as nat, prefix, is_root) + list_node(
            ts[k - 1],
            k == ts.len(),
            prefix,
            is_root,
        )
    }
}

/// The `--list --format terse` lines of node `t` below `path`: the full
/// name of each benchmark, one per line.
pub open spec fn terse_node(t: EntryTree, path: Seq<char>) -> Seq<char>
    decreases t, 0nat,
{
    match t {
        EntryTree::Parent { raw_name, children, .. } => terse_forest(
            children@,
            children@.len(),
            extended_path(path, raw_name@),
        ),
        EntryTree::Leaf { raw_name, .. } => extended_path(path, raw_name@) + "\n"@,
    }
}

/// The terse lines of the first `k` nodes of `ts`.
pub open spec fn terse_forest(ts: Seq<EntryTree>, k: nat, path: Seq<char>) -> Seq<char>
    decreases ts, k,
{
    if k == 0 || k > ts.len() {
        seq![]
    } else {
        terse_forest(ts, (k - 1) as nat, path) + terse_node(ts[k - 1], path)
    }
}

/// The benchmarks below node `t`, in tree order, each with its full name
/// (`path` leading) and the group it inherits: that of its nearest
/// enclosing parent with a group, else `group`.
pub open spec fn node_leaves(t: EntryTree, path: Seq<char>, group: Option<usize>) -> Seq<
    (usize, Seq<char>, Option<usize>),
>
    decreases t, 0nat,
{
    match t {
        EntryTree::Parent { raw_name, group: own, children } => forest_leaves_info(
            children@,
            children@.len(),
            extended_path(path, raw_name@),
            or_else(own, group),
        ),
        EntryTree::Leaf { raw_name, entry } => seq![(entry, extended_path(path, raw_name@), group)],
    }
}

/// `node_leaves` of the first `k` nodes of `ts`.
pub open spec fn forest_leaves_info(
    ts: Seq<EntryTree>,
    k: nat,
    path: Seq<char>,
    group: Option<usize>,
) -> Seq<(usize, Seq<char>, Option<usize>)>
    decreases ts, k,
{
    if k == 0 || k > ts.len() {
        seq![]
    } else {
        forest_leaves_info(ts, (k - 1) as nat, path, group) + node_leaves(ts[k - 1], path, group)
    }
}

/// A benchmark as run: its index, full name and inherited group.
pub open spec fn leaf_view(x: (usize, String, Option<usize>)) -> (usize, Seq<char>, Option<usize>) {
    (x.0, x.1@, x.2)
}

/// The statistic a sort order looks at (the median for name order).
pub open spec fn sort_stat(sort_by: SortBy, s: PercentileStats) -> FineDuration {
    match sort_by {
        SortBy::P99 => s.percentiles.p99,
        SortBy::Mean => s.mean,
        _ => s.percentiles.p50,
    }
}

/// Benchmark runner decisions.
pub struct Runner;

impl Runner {
    /// The action a command line asks for: terse listing, then listing,
    /// then a test run take priority over timing.
    pub fn action_of(args: &CliArgs) -> (r: RunAction)
        ensures
            r == if args.list_terse {
                RunAction::ListTerse
            } else if args.list {
                RunAction::List
            } else if args.test {
                RunAction::Test
            } else {
                RunAction::Bench
            },
    {
        if args.list_terse {
            RunAction::ListTerse
        } else if args.list {
            RunAction::List
        } else if args.test {
            RunAction::Test
        } else {
            RunAction::Bench
        }
    }

    /// Whether the benchmark at `path` is selected by the command line's
    /// filter and skip patterns.
    pub fn path_selected(path: &str, filter: &Option<String>, skip: &Vec<String>) -> (r: bool)
        ensures
            r == selected(
                path@,
                match filter {
                    Some(f) => Some(f@),
                    None => None,
                },
                skip@.map_values(|s: String| s@),
            ),
    {
        let p: Vec<char> = char_vec(path);
        let ghost skips = skip@.map_values(|s: String| s@);
        let mut k: usize = 0;
        while k < skip.len()
            invariant
                p@ == path@,
                skips == skip@.map_values(|s: String| s@),
                k <= skip.len(),
                forall|j: int| 0 <= j < k ==> !contains_text(path@, #[trigger] skips[j]),
            decreases skip.len() - k,
        {
            let pat: Vec<char> = char_vec(skip[k].as_str());
            assert(skips[k as int] == pat@);
            if contains_exec(&p, &pat) {
                return false;
            }
            k = k + 1;
        }
        match filter {
            Some(f) => {
                let pat: Vec<char> = char_vec(f.as_str());
                contains_exec(&p, &pat)
            },
            None => true,
        }
    }

    /// The options the command line sets for every benchmark.
    pub fn cli_to_bench_options(args: &CliArgs) -> (r: BenchOptions)
        ensures
            r.sample_count == args.sample_count,
            r.sample_size == args.sample_size,
            r.min_time == args.min_time,
            r.max_time is None,
            r.skip_ext_time is None,
            r.ignore is None,
            threads_view(r.threads) == match args.threads {
                Some(v) => Some(v@),
                None => None,
            },
    {
        let threads: Option<Vec<u32>> = match &args.threads {
            Some(v) => Some(copy_threads(v)),
            None => None,
        };
        BenchOptions {
            sample_count: args.sample_count,
            sample_size: args.sample_size,
            min_time: args.min_time,
            max_time: None,
            skip_ext_time: None,
            ignore: None,
            threads,
        }
    }

    /// The options a benchmark runs with: the command line's over the
    /// benchmark's own over its group's.
    pub fn layered_options(cli: &BenchOptions, entry: &BenchOptions, group: &BenchOptions) -> (r:
        BenchOptions)
        ensures
            r.sample_count == or_else(cli.sample_count, or_else(entry.sample_count, group.sample_count)),
            r.sample_size == or_else(cli.sample_size, or_else(entry.sample_size, group.sample_size)),
            r.min_time == or_else(cli.min_time, or_else(entry.min_time, group.min_time)),
            r.max_time == or_else(cli.max_time, or_else(entry.max_time, group.max_time)),
            r.skip_ext_time == or_else(cli.skip_ext_time, or_else(entry.skip_ext_time, group.skip_ext_time)),
            r.ignore == or_else(cli.ignore, or_else(entry.ignore, group.ignore)),
            threads_view(r.threads) == (if cli.threads is Some {
                threads_view(cli.threads)
            } else {
                threads_or(entry.threads, group.threads)
            }),
    {
        let inner: BenchOptions = entry.overwrite(group);
        cli.overwrite(&inner)
    }

    /// The statistic each of `n` benchmarks is sorted by: the fastest of
    /// those recorded for it (a benchmark runs once per thread count),
    /// none when it has no record.
    pub fn fastest_stats(n: usize, picks: &[(usize, FineDuration)]) -> (r: Vec<Option<FineDuration>>)
        ensures
            r@.len() == n,
            forall|e: int|
                0 <= e < n ==> (match #[trigger] r@[e] {
                    Some(d) => Some(d.picos),
                    None => None,
                }) == fastest_of(picks@, e),
    {
        let mut r: Vec<Option<FineDuration>> = Vec::new();
        let mut e: usize = 0;
        while e < n
            invariant
                e <= n,
                r@.len() == e,
                forall|j: int| 0 <= j < e ==> #[trigger] r@[j] is None,
            decreases n - e,
        {
            r.push(None);
            e = e + 1;
        }
        let mut i: usize = 0;
        while i < picks.len()
            invariant
                i <= picks@.len(),
                r@.len() == n,
                forall|j: int|
                    0 <= j < n ==> (match #[trigger] r@[j] {
                        Some(d) => Some(d.picos),
                        None => None,
                    }) == fastest_of(picks@.take(i as int), j),
            decreases picks@.len() - i,
        {
            let (entry, d) = picks[i];
            proof {
                let t = picks@.take(i + 1);
                assert(t.drop_last() =~= picks@.take(i as int));
                assert(t.last() == picks@[i as int]);
            }
            if entry < n {
                let better: bool = match r[entry] {
                    Some(m) => d.picos < m.picos,
                    None => true,
                };
                if better {
                    r.set(entry, Some(d));
                }
            }
            i = i + 1;
        }
        assert(picks@.take(picks@.len() as int) =~= picks@);
        r
    }

    /// The `--list` text of the tree: each name on a line, indented below
    /// its parent (see [`list_forest`]).
    pub fn list_text(tree: &[EntryTree]) -> (r: String)
        ensures
            r@ == list_forest(tree@, tree@.len(), seq![], true),
    {
        let mut out: String = String::new();
        let no_prefix: String = String::new();
        Self::list_into(&mut out, tree, no_prefix.as_str(), true);
        assert(out@ =~= list_forest(tree@, tree@.len(), seq![], true));
        out
    }

    /// Appends the `--list` lines of `nodes` to `out`.
    fn list_into(out: &mut String, nodes: &[EntryTree], prefix: &str, is_root: bool)
        ensures
            final(out)@ == old(out)@ + list_forest(nodes@, nodes@.len(), prefix@, is_root),
        decreases nodes@,
    {
        let ghost start = out@;
        let mut i: usize = 0;
        while i < nodes.len()
            invariant
                i <= nodes@.len(),
                out@ == start + list_forest(nodes@, i as nat, prefix@, is_root),
            decreases nodes@.len() - i,
        {
            let node: &EntryTree = &nodes[i];
            let is_last: bool = i + 1 == nodes.len();
            let ghost before = out@;
            if is_root {
                push_str(out, node.raw_name());
                push_str(out, "\n");
            } else {
                push_str(out, prefix);
                if is_last {
                    push_str(out, "\u{2570}\u{2500} ");
                } else {
                    push_str(out, "\u{251c}\u{2500} ");
                }
                push_str(out, node.raw_name());
                push_str(out, "\n");
            }
            let ghost line = if is_root {
                node_name(*node) + "\n"@
            } else {
                prefix@ + list_branch(is_last) + node_name(*node) + "\n"@
            };
            assert(out@ =~= before + line);
            proof {
                assert(decreases_to!(nodes@ => nodes@[i as int]));
            }
            match node {
                EntryTree::Parent { children, .. } => {
                    let mut child_prefix: String = String::new();
                    if !is_root {
                        push_str(&mut child_prefix, prefix);
                        if is_last {
                            push_str(&mut child_prefix, "   ");
                        } else {
                            push_str(&mut child_prefix, "\u{2502}  ");
                        }
                    }
                    assert(child_prefix@ =~= list_child_prefix(prefix@, is_root, is_last));
                    proof {
                        assert(decreases_to!(*node => children@));
                    }
                    let kids: &[EntryTree] = children.as_slice();
                    assert(kids@ == children@);
                    Self::list_into(out, kids, child_prefix.as_str(), false);
                },
                EntryTree::Leaf { .. } => {},
            }
            proof {
                assert(list_node(nodes@[i as int], is_last, prefix@, is_root) == out@.subrange(
                    before.len() as int,
                    out@.len() as int,
                )) by {
                    assert(out@ =~= before + out@.subrange(before.len() as int, out@.len() as int));
                }
                assert(list_forest(nodes@, (i + 1) as nat, prefix@, is_root) == list_forest(
                    nodes@,
                    i as nat,
                    prefix@,
                    is_root,
                ) + list_node(nodes@[i as int], (i + 1) == nodes@.len(), prefix@, is_root));
                assert(out@ =~= start + list_forest(nodes@, (i + 1) as nat, prefix@, is_root));
            }
            i = i + 1;
        }
    }

    /// The `--list --format terse` text of the tree: the full name of
    /// each benchmark on a line of its own (see [`terse_forest`]).
    pub fn terse_text(tree: &[EntryTree]) -> (r: String)
        ensures
            r@ == terse_forest(tree@, tree@.len(), seq![]),
    {
        let mut out: String = String::new();
        let root: String = String::new();
        Self::terse_into(&mut out, tree, root.as_str());
        assert(out@ =~= terse_forest(tree@, tree@.len(), seq![]));
        out
    }

    /// Appends the terse lines of `nodes`, below `path`, to `out`.
    fn terse_into(out: &mut String, nodes: &[EntryTree], path: &str)
        ensures
            final(out)@ == old(out)@ + terse_forest(nodes@, nodes@.len(), path@),
        decreases nodes@,
    {
        let ghost start = out@;
        let mut i: usize = 0;
        while i < nodes.len()
            invariant
                i <= nodes@.len(),
                out@ == start + terse_forest(nodes@, i as nat, path@),
            decreases nodes@.len() - i,
        {
            let node: &EntryTree = &nodes[i];
            let ghost before = out@;
            let mut full: String = String::new();
            push_str(&mut full, path);
            push_path_component(&mut full, node.raw_name());
            proof {
                assert(decreases_to!(nodes@ => nodes@[i as int]));
            }
            match node {
                EntryTree::Parent { children, .. } => {
                    proof {
                        assert(decreases_to!(*node => children@));
                    }
                    let kids: &[EntryTree] = children.as_slice();
                    assert(kids@ == children@);
                    Self::terse_into(out, kids, full.as_str());
                },
                EntryTree::Leaf { .. } => {
                    push_str(out, full.as_str());
                    push_str(out, "\n");
                },
            }
            proof {
                assert(full@ == extended_path(path@, node_name(nodes@[i as int])));
                assert(out@ =~= before + terse_node(nodes@[i as int], path@));
                assert(out@ =~= start + terse_forest(nodes@, (i + 1) as nat, path@));
            }
            i = i + 1;
        }
    }

    /// For each record, its benchmark and the statistic `sort_by` orders
    /// by.
    pub fn sort_picks(sort_by: SortBy, records: &[BenchRecord]) -> (r: Vec<(usize, FineDuration)>)
        ensures
            r@.len() == records@.len(),
            forall|i: int|
                0 <= i < records@.len() ==> #[trigger] r@[i] == (
                    records@[i].entry,
                    sort_stat(sort_by, records@[i].stats),
                ),
    {
        let mut picks: Vec<(usize, FineDuration)> = Vec::new();
        let mut i: usize = 0;
        while i < records.len()
            invariant
                i <= records@.len(),
                picks@.len() == i,
                forall|j: int|
                    0 <= j < i ==> #[trigger] picks@[j] == (
                        records@[j].entry,
                        sort_stat(sort_by, records@[j].stats),
                    ),
            decreases records@.len() - i,
        {
            let st: &PercentileStats = &records[i].stats;
            let d: FineDuration = match sort_by {
                SortBy::P99 => st.percentiles.p99,
                SortBy::Mean => st.mean,
                _ => st.percentiles.p50,
            };
            picks.push((records[i].entry, d));
            i = i + 1;
        }
        picks
    }

    /// The benchmarks of the tree in the order they run, each with its
    /// full name and the group whose options it inherits (see
    /// [`forest_leaves_info`]).
    pub fn leaves_in_order(tree: &[EntryTree]) -> (r: Vec<(usize, String, Option<usize>)>)
        ensures
            r@.map_values(|x: (usize, String, Option<usize>)| leaf_view(x)) == forest_leaves_info(
                tree@,
                tree@.len(),
                seq![],
                None,
            ),
    {
        let mut out: Vec<(usize, String, Option<usize>)> = Vec::new();
        let root: String = String::new();
        Self::leaves_into(&mut out, tree, root.as_str(), None);
        assert(out@.map_values(|x: (usize, String, Option<usize>)| leaf_view(x)) =~= Seq::<
            (usize, Seq<char>, Option<usize>),
        >::empty() + forest_leaves_info(tree@, tree@.len(), seq![], None));
        out
    }

    /// Appends the benchmarks below `nodes` (at `path`, inheriting
    /// `group`) to `out`.
    fn leaves_into(
        out: &mut Vec<(usize, String, Option<usize>)>,
        nodes: &[EntryTree],
        path: &str,
        group: Option<usize>,
    )
        ensures
            final(out)@.map_values(|x: (usize, String, Option<usize>)| leaf_view(x)) == old(
                out,
            )@.map_values(|x: (usize, String, Option<usize>)| leaf_view(x)) + forest_leaves_info(
                nodes@,
                nodes@.len(),
                path@,
                group,
            ),
        decreases nodes@,
    {
        let ghost start = out@.map_values(|x: (usize, String, Option<usize>)| leaf_view(x));
        let mut i: usize = 0;
        while i < nodes.len()
            invariant
                i <= nodes@.len(),
                out@.map_values(|x: (usize, String, Option<usize>)| leaf_view(x)) == start
                    + forest_leaves_info(nodes@, i as nat, path@, group),
            decreases nodes@.len() - i,
        {
            let node: &EntryTree = &nodes[i];
            let ghost before = out@;
            let mut full: String = String::new();
            push_str(&mut full, path);
            push_path_component(&mut full, node.raw_name());
            proof {
                assert(decreases_to!(nodes@ => nodes@[i as int]));
            }
            match node {
                EntryTree::Parent { children, group: own, .. } => {
                    proof {
                        assert(decreases_to!(*node => children@));
                    }
                    let inherited: Option<usize> = match own {
                        Some(g) => Some(*g),
                        None => group,
                    };
                    let kids: &[EntryTree] = children.as_slice();
                    assert(kids@ == children@);
                    assert(inherited == or_else(*own, group));
                    assert(full@ == extended_path(path@, node_name(nodes@[i as int])));
                    Self::leaves_into(out, kids, full.as_str(), inherited);
                    proof {
                        assert(out@.map_values(|x: (usize, String, Option<usize>)| leaf_view(x))
                            == before.map_values(|x: (usize, String, Option<usize>)| leaf_view(x))
                            + node_leaves(nodes@[i as int], path@, group));
                    }
                },
                EntryTree::Leaf { entry, .. } => {
                    let ghost full_view = full@;
                    assert(full_view == extended_path(path@, node_name(nodes@[i as int])));
                    out.push((*entry, full, group));
                    proof {
                        assert(out@.map_values(|x: (usize, String, Option<usize>)| leaf_view(x))
                            =~= before.map_values(|x: (usize, String, Option<usize>)| leaf_view(x)).push(
                            leaf_view(out@[out@.len() - 1]),
                        ));
                        assert(leaf_view(out@[out@.len() - 1]) == (*entry, full_view, group));
                        assert(out@.map_values(|x: (usize, String, Option<usize>)| leaf_view(x))
                            =~= before.map_values(|x: (usize, String, Option<usize>)| leaf_view(x))
                            + node_leaves(nodes@[i as int], path@, group));
                    }
                },
            }
            proof {
                assert(forest_leaves_info(nodes@, (i + 1) as nat, path@, group) == forest_leaves_info(
                    nodes@,
                    i as nat,
                    path@,
                    group,
                ) + node_leaves(nodes@[i as int], path@, group));
                assert(out@.map_values(|x: (usize, String, Option<usize>)| leaf_view(x)) =~= start
                    + forest_leaves_info(nodes@, (i + 1) as nat, path@, group));
            }
            i = i + 1;
        }
    }
}

} // verus!
