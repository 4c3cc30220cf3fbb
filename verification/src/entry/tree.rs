//! The tree of benchmark entries, grouped by module path: parents are
//! modules (or groups), leaves are benchmarks.
//!
//! Leaves refer to benchmarks by their index in the list the tree was
//! built from, parents to their group entry by its index in the list of
//! groups.

use vstd::multiset::Multiset;
use vstd::prelude::*;

use crate::cli::values::text_eq;
use crate::entry::meta::{piece_views, split_path, EntryMeta};
use crate::text::{char_vec, push_str};
use vstd::string::StrSliceExecFns;
use crate::time::FineDuration;
use crate::util::natural::{
    lemma_natural_order_antisym, lemma_natural_order_trans, natural_order, natural_order_of,
};
use crate::cli::SortBy;

verus! {

broadcast use {
    vstd::seq_lib::group_to_multiset_ensures,
    vstd::seq_lib::lemma_multiset_commutative,
    vstd::multiset::group_multiset_axioms,
};

/// A node of the entry tree.
#[derive(Debug)]
pub enum EntryTree {
    /// A module or benchmark group.
    Parent {
        /// Module or group name (a single path component).
        raw_name: &'static str,
        /// Index of the group entry attached to this node, if any.
        group: Option<usize>,
        /// Child benchmarks and sub-groups.
        children: Vec<EntryTree>,
    },
    /// A benchmark.
    Leaf {
        /// The benchmark's name.
        raw_name: &'static str,
        /// Index of the benchmark.
        entry: usize,
    },
}

/// The benchmark indices of the leaves below `t`, left to right.
pub open spec fn tree_leaves(t: EntryTree) -> Seq<usize>
    decreases t,
{
    match t {
        EntryTree::Leaf { entry, .. } => seq![entry],
        EntryTree::Parent { children, .. } => forest_leaves(children@),
    }
}

/// The benchmark indices of the leaves of a forest, left to right.
pub open spec fn forest_leaves(ts: Seq<EntryTree>) -> Seq<usize>
    decreases ts,
{
    if ts.len() == 0 {
        seq![]
    } else {
        forest_leaves(ts.subrange(0, ts.len() - 1)) + tree_leaves(ts[ts.len() - 1])
    }
}

/// Whether every leaf below `t` is a benchmark whose module path is
/// `prefix` and whose name the leaf carries, `prefix` being the names of
/// the parents above it.
pub open spec fn placed_tree(
    t: EntryTree,
    prefix: Seq<Seq<char>>,
    paths: Seq<Seq<Seq<char>>>,
    names: Seq<Seq<char>>,
) -> bool
    decreases t,
{
    match t {
        EntryTree::Leaf { raw_name, entry } => entry < paths.len() && paths[entry as int] == prefix
            && entry < names.len() && names[entry as int] == raw_name@,
        EntryTree::Parent { raw_name, children, .. } => placed_forest(
            children@,
            prefix.push(raw_name@),
            paths,
            names,
        ),
    }
}

/// `placed_tree` for every tree of a forest.
pub open spec fn placed_forest(
    ts: Seq<EntryTree>,
    prefix: Seq<Seq<char>>,
    paths: Seq<Seq<Seq<char>>>,
    names: Seq<Seq<char>>,
) -> bool
    decreases ts,
{
    forall|i: int| 0 <= i < ts.len() ==> placed_tree(#[trigger] ts[i], prefix, paths, names)
}

/// The name of a node.
pub open spec fn node_name(t: EntryTree) -> Seq<char> {
    match t {
        EntryTree::Parent { raw_name, .. } => raw_name@,
        EntryTree::Leaf { raw_name, .. } => raw_name@,
    }
}

/// Whether no two parents among `ts` share a name.
pub open spec fn distinct_parents(ts: Seq<EntryTree>) -> bool {
    forall|i: int, j: int|
        0 <= i < j < ts.len() && ts[i] is Parent && ts[j] is Parent ==> node_name(#[trigger] ts[i])
            != node_name(#[trigger] ts[j])
}

/// Whether no two parents of one level share a name, at every level of
/// the forest.
pub open spec fn distinct_forest(ts: Seq<EntryTree>) -> bool
    decreases ts,
{
    &&& distinct_parents(ts)
    &&& forall|i: int| 0 <= i < ts.len() ==> distinct_tree(#[trigger] ts[i])
}

/// `distinct_forest` for the children of a parent.
pub open spec fn distinct_tree(t: EntryTree) -> bool
    decreases t,
{
    match t {
        EntryTree::Leaf { .. } => true,
        EntryTree::Parent { children, .. } => distinct_forest(children@),
    }
}

/// Whether every group attached below `t` belongs there: its module path
/// is `prefix` (the names of the parents above its node) and its name is
/// the node's name.
pub open spec fn groups_placed_tree(
    t: EntryTree,
    prefix: Seq<Seq<char>>,
    gpaths: Seq<Seq<Seq<char>>>,
    gnames: Seq<Seq<char>>,
) -> bool
    decreases t,
{
    match t {
        EntryTree::Leaf { .. } => true,
        EntryTree::Parent { raw_name, group, children } => (group matches Some(g) ==> g
            < gpaths.len() && gpaths[g as int] == prefix && g < gnames.len() && gnames[g as int]
            == raw_name@) && groups_placed_forest(children@, prefix.push(raw_name@), gpaths, gnames),
    }
}

/// `groups_placed_tree` for every tree of a forest.
pub open spec fn groups_placed_forest(
    ts: Seq<EntryTree>,
    prefix: Seq<Seq<char>>,
    gpaths: Seq<Seq<Seq<char>>>,
    gnames: Seq<Seq<char>>,
) -> bool
    decreases ts,
{
    forall|i: int|
        0 <= i < ts.len() ==> groups_placed_tree(#[trigger] ts[i], prefix, gpaths, gnames)
}

/// The module paths of entries, split into components.
pub open spec fn entry_paths(es: Seq<EntryMeta>) -> Seq<Seq<Seq<char>>> {
    es.map_values(|m: EntryMeta| split_path(m.mod_path@))
}

/// The names of entries.
pub open spec fn entry_names(es: Seq<EntryMeta>) -> Seq<Seq<char>> {
    es.map_values(|m: EntryMeta| m.raw_name@)
}

/// The indices `0..n`.
pub open spec fn indices(n: nat) -> Seq<usize> {
    Seq::new(n, |i: int| i as usize)
}

/// The entries of `s` that `keep` marks, in order.
pub open spec fn kept_entries(s: Seq<usize>, keep: Seq<bool>) -> Seq<usize>
    decreases s.len(),
{
    if s.len() == 0 {
        seq![]
    } else {
        let rest = kept_entries(s.drop_last(), keep);
        if keep[s.last() as int] {
            rest.push(s.last())
        } else {
            rest
        }
    }
}

/// Keeping entries distributes over concatenation.
pub proof fn lemma_kept_entries_append(a: Seq<usize>, b: Seq<usize>, keep: Seq<bool>)
    ensures
        kept_entries(a + b, keep) == kept_entries(a, keep) + kept_entries(b, keep),
    decreases b.len(),
{
    if b.len() == 0 {
        assert(a + b =~= a);
        assert(kept_entries(a, keep) + Seq::<usize>::empty() =~= kept_entries(a, keep));
    } else {
        assert((a + b).drop_last() =~= a + b.drop_last());
        lemma_kept_entries_append(a, b.drop_last(), keep);
        assert((a + b).last() == b.last());
        if keep[b.last() as int] {
            assert((kept_entries(a, keep) + kept_entries(b.drop_last(), keep)).push(b.last())
                =~= kept_entries(a, keep) + kept_entries(b.drop_last(), keep).push(b.last()));
        }
    }
}

/// Whether every parent below `t` (and `t` itself) has children.
pub open spec fn pruned_tree(t: EntryTree) -> bool
    decreases t,
{
    match t {
        EntryTree::Leaf { .. } => true,
        EntryTree::Parent { children, .. } => children@.len() > 0 && pruned_forest(children@),
    }
}

/// `pruned_tree` for every tree of a forest.
pub open spec fn pruned_forest(ts: Seq<EntryTree>) -> bool
    decreases ts,
{
    forall|i: int| 0 <= i < ts.len() ==> pruned_tree(#[trigger] ts[i])
}

/// Whether every leaf entry of `s` has a mark in `keep`.
pub open spec fn all_marked(s: Seq<usize>, keep: Seq<bool>) -> bool {
    forall|i: int| 0 <= i < s.len() ==> #[trigger] s[i] < keep.len()
}

/// The statistic a node is sorted by: a leaf's entry in `stats` when
/// sorting by statistics, nothing otherwise.
pub open spec fn stat_of(t: EntryTree, by_stats: bool, stats: Seq<Option<FineDuration>>) -> Option<
    u128,
> {
    match t {
        EntryTree::Leaf { entry, .. } => if by_stats && entry < stats.len() {
            match stats[entry as int] {
                Some(d) => Some(d.picos),
                None => None,
            }
        } else {
            None
        },
        EntryTree::Parent { .. } => None,
    }
}

/// Whether `a` may come before `b`: leaves before parents; nodes with a
/// statistic before those without, smaller statistics first; otherwise
/// (and on equal statistics) by natural order of their names.
pub open spec fn node_le(
    a: EntryTree,
    b: EntryTree,
    by_stats: bool,
    stats: Seq<Option<FineDuration>>,
) -> bool {
    if (a is Leaf) != (b is Leaf) {
        a is Leaf
    } else {
        match (stat_of(a, by_stats, stats), stat_of(b, by_stats, stats)) {
            (Some(x), Some(y)) => x < y || (x == y && natural_order(node_name(a), node_name(b))
                <= 0),
            (Some(_), None) => true,
            (None, Some(_)) => false,
            (None, None) => natural_order(node_name(a), node_name(b)) <= 0,
        }
    }
}

/// Any two nodes are ordered one way or the other.
pub proof fn lemma_node_le_total(
    a: EntryTree,
    b: EntryTree,
    by_stats: bool,
    stats: Seq<Option<FineDuration>>,
)
    ensures
        node_le(a, b, by_stats, stats) || node_le(b, a, by_stats, stats),
{
    lemma_natural_order_antisym(node_name(a), node_name(b));
}

/// Whether each node of `ts` may come before the next.
pub open spec fn sorted_level(ts: Seq<EntryTree>, by_stats: bool, stats: Seq<Option<FineDuration>>) -> bool {
    forall|i: int| 0 <= i < ts.len() - 1 ==> node_le(#[trigger] ts[i], ts[i + 1], by_stats, stats)
}

/// Whether the children of every parent below `t` are in order.
pub open spec fn sorted_tree(t: EntryTree, by_stats: bool, stats: Seq<Option<FineDuration>>) -> bool
    decreases t,
{
    match t {
        EntryTree::Leaf { .. } => true,
        EntryTree::Parent { children, .. } => sorted_forest(children@, by_stats, stats),
    }
}

/// A forest in order at every level.
pub open spec fn sorted_forest(ts: Seq<EntryTree>, by_stats: bool, stats: Seq<Option<FineDuration>>) -> bool
    decreases ts,
{
    &&& sorted_level(ts, by_stats, stats)
    &&& forall|i: int| 0 <= i < ts.len() ==> sorted_tree(#[trigger] ts[i], by_stats, stats)
}

/// The statistics a sort order sorts by: none for the name order.
pub open spec fn sort_stats(sort_by: SortBy, stats: Seq<Option<FineDuration>>) -> Seq<
    Option<FineDuration>,
> {
    if sort_by == SortBy::Name {
        seq![]
    } else {
        stats
    }
}

/// Whether `a` and `b` may each come before the other (equal kind,
/// statistic and name): such siblings keep their order when sorted.
pub open spec fn node_tied(
    a: EntryTree,
    b: EntryTree,
    by_stats: bool,
    stats: Seq<Option<FineDuration>>,
) -> bool {
    node_le(a, b, by_stats, stats) && node_le(b, a, by_stats, stats)
}

/// Whether `new` rearranges the level `old`, `new[k]` standing for
/// `old[pi[k]]`, with tied nodes in their old order.
pub open spec fn stable_level(
    old: Seq<EntryTree>,
    new: Seq<EntryTree>,
    pi: Seq<int>,
    by_stats: bool,
    stats: Seq<Option<FineDuration>>,
) -> bool {
    &&& new.len() == old.len()
    &&& pi.len() == old.len()
    &&& forall|k: int| 0 <= k < pi.len() ==> 0 <= #[trigger] pi[k] < old.len()
    &&& forall|k: int, l: int| 0 <= k < l < pi.len() ==> #[trigger] pi[k] != #[trigger] pi[l]
    &&& forall|i: int| 0 <= i < old.len() ==> #[trigger] pi.contains(i)
    &&& forall|k: int, l: int|
        0 <= k < l < new.len() && node_tied(#[trigger] new[k], #[trigger] new[l], by_stats, stats)
            ==> pi[k] < pi[l]
}

/// Whether `new` is the tree `old` with every level below it stably
/// rearranged: a leaf stays as it is, a parent keeps its name and group.
pub open spec fn stably_sorted_tree(
    old: EntryTree,
    new: EntryTree,
    by_stats: bool,
    stats: Seq<Option<FineDuration>>,
) -> bool
    decreases old,
{
    match old {
        EntryTree::Leaf { .. } => new == old,
        EntryTree::Parent { raw_name, group, children } => match new {
            EntryTree::Parent { raw_name: new_name, group: new_group, children: new_children } => {
                &&& new_name@ == raw_name@
                &&& new_group == group
                &&& stably_sorted_forest(children@, new_children@, by_stats, stats)
            },
            EntryTree::Leaf { .. } => false,
        },
    }
}

/// Whether `new` is the forest `old` with every level stably rearranged.
pub open spec fn stably_sorted_forest(
    old: Seq<EntryTree>,
    new: Seq<EntryTree>,
    by_stats: bool,
    stats: Seq<Option<FineDuration>>,
) -> bool
    decreases old,
{
    exists|pi: Seq<int>|
        #[trigger] stable_level(old, new, pi, by_stats, stats) && forall|k: int|
            0 <= k < new.len() ==> stably_sorted_tree(old[pi[k]], #[trigger] new[k], by_stats, stats)
}

/// Inserting the sorted image of `orig[done]` at `p`, after every node
/// that may come before it, keeps the arrangement of the level stable.
proof fn lemma_insert_keeps_stable(
    orig: Seq<EntryTree>,
    before: Seq<EntryTree>,
    pi: Seq<int>,
    x: EntryTree,
    p: int,
    done: int,
    by_stats: bool,
    stats: Seq<Option<FineDuration>>,
)
    requires
        0 <= done < orig.len(),
        before.len() == done,
        pi.len() == done,
        0 <= p <= done,
        forall|k: int| 0 <= k < pi.len() ==> 0 <= #[trigger] pi[k] < done,
        forall|k: int, l: int| 0 <= k < l < pi.len() ==> #[trigger] pi[k] != #[trigger] pi[l],
        forall|i: int| 0 <= i < done ==> #[trigger] pi.contains(i),
        forall|k: int, l: int|
            0 <= k < l < before.len() && node_tied(#[trigger] before[k], #[trigger] before[l], by_stats, stats)
                ==> pi[k] < pi[l],
        forall|k: int|
            0 <= k < before.len() ==> stably_sorted_tree(orig[pi[k]], #[trigger] before[k], by_stats, stats),
        stably_sorted_tree(orig[done], x, by_stats, stats),
        forall|i: int| p <= i < before.len() ==> !node_le(#[trigger] before[i], x, by_stats, stats),
    ensures
        ({
            let nt = before.insert(p, x);
            let npi = pi.insert(p, done);
            &&& forall|k: int| 0 <= k < npi.len() ==> 0 <= #[trigger] npi[k] < done + 1
            &&& forall|k: int, l: int| 0 <= k < l < npi.len() ==> #[trigger] npi[k] != #[trigger] npi[l]
            &&& forall|i: int| 0 <= i < done + 1 ==> #[trigger] npi.contains(i)
            &&& forall|k: int, l: int|
                0 <= k < l < nt.len() && node_tied(#[trigger] nt[k], #[trigger] nt[l], by_stats, stats)
                    ==> npi[k] < npi[l]
            &&& forall|k: int|
                0 <= k < nt.len() ==> stably_sorted_tree(orig[npi[k]], #[trigger] nt[k], by_stats, stats)
        }),
{
    let nt = before.insert(p, x);
    let npi = pi.insert(p, done);
    assert forall|k: int| 0 <= k < nt.len() implies #[trigger] nt[k] == if k < p {
        before[k]
    } else if k == p {
        x
    } else {
        before[k - 1]
    } by {}
    assert forall|k: int| 0 <= k < npi.len() implies #[trigger] npi[k] == if k < p {
        pi[k]
    } else if k == p {
        done
    } else {
        pi[k - 1]
    } by {}
    assert forall|k: int| 0 <= k < nt.len() implies stably_sorted_tree(
        orig[npi[k]],
        #[trigger] nt[k],
        by_stats,
        stats,
    ) by {
        if k < p {
            assert(nt[k] == before[k] && npi[k] == pi[k]);
        } else if k > p {
            assert(nt[k] == before[k - 1] && npi[k] == pi[k - 1]);
        } else {
            assert(nt[k] == x && npi[k] == done);
        }
    }
    assert forall|i: int| 0 <= i < done + 1 implies #[trigger] npi.contains(i) by {
        if i == done {
            assert(npi[p] == done);
        } else {
            assert(pi.contains(i));
            let k = choose|k: int| 0 <= k < pi.len() && pi[k] == i;
            if k < p {
                assert(npi[k] == i);
            } else {
                assert(npi[k + 1] == i);
            }
        }
    }
    assert forall|k: int, l: int| 0 <= k < l < npi.len() implies #[trigger] npi[k]
        != #[trigger] npi[l] by {
        if k != p && l != p {
            let qk = if k < p { k } else { k - 1 };
            let ql = if l < p { l } else { l - 1 };
            assert(pi[qk] != pi[ql]);
        } else if k == p {
            let ql = if l < p { l } else { l - 1 };
            assert(pi[ql] < done);
        } else {
            let qk = if k < p { k } else { k - 1 };
            assert(pi[qk] < done);
        }
    }
    assert forall|k: int, l: int|
        0 <= k < l < nt.len() && node_tied(#[trigger] nt[k], #[trigger] nt[l], by_stats, stats)
            implies npi[k] < npi[l] by {
        if k != p && l != p {
            let qk = if k < p { k } else { k - 1 };
            let ql = if l < p { l } else { l - 1 };
            assert(nt[k] == before[qk] && nt[l] == before[ql]);
            assert(pi[qk] < pi[ql]);
        } else if k == p {
            assert(nt[l] == before[l - 1]);
            assert(!node_le(before[l - 1], x, by_stats, stats));
        } else {
            assert(pi[k] < done);
        }
    }
}

/// Whether `a` and `b` are the same tree: equal leaves, and parents with
/// equal names, groups and children.
pub open spec fn same_tree(a: EntryTree, b: EntryTree) -> bool
    decreases a,
{
    match a {
        EntryTree::Leaf { .. } => b == a,
        EntryTree::Parent { raw_name, group, children } => match b {
            EntryTree::Parent { raw_name: b_name, group: b_group, children: b_children } => {
                &&& b_name@ == raw_name@
                &&& b_group == group
                &&& same_forest(children@, b_children@)
            },
            EntryTree::Leaf { .. } => false,
        },
    }
}

/// Whether `a` and `b` are the same forest, tree by tree.
pub open spec fn same_forest(a: Seq<EntryTree>, b: Seq<EntryTree>) -> bool
    decreases a,
{
    &&& a.len() == b.len()
    &&& forall|k: int| 0 <= k < a.len() ==> same_tree(#[trigger] a[k], b[k])
}

/// The order of nodes is transitive.
pub proof fn lemma_node_le_trans(
    a: EntryTree,
    b: EntryTree,
    c: EntryTree,
    by_stats: bool,
    stats: Seq<Option<FineDuration>>,
)
    requires
        node_le(a, b, by_stats, stats),
        node_le(b, c, by_stats, stats),
    ensures
        node_le(a, c, by_stats, stats),
{
    lemma_natural_order_antisym(node_name(a), node_name(b));
    lemma_natural_order_antisym(node_name(b), node_name(c));
    lemma_natural_order_antisym(node_name(a), node_name(c));
    if natural_order(node_name(a), node_name(b)) <= 0 && natural_order(node_name(b), node_name(c))
        <= 0 {
        lemma_natural_order_trans(node_name(a), node_name(b), node_name(c));
    }
}

/// In an ordered level, every node may come before every later one.
proof fn lemma_sorted_level_pair(
    ts: Seq<EntryTree>,
    k: int,
    l: int,
    by_stats: bool,
    stats: Seq<Option<FineDuration>>,
)
    requires
        sorted_level(ts, by_stats, stats),
        0 <= k < l < ts.len(),
    ensures
        node_le(ts[k], ts[l], by_stats, stats),
    decreases l - k,
{
    if l > k + 1 {
        lemma_sorted_level_pair(ts, k, l - 1, by_stats, stats);
        assert(node_le(ts[l - 1], ts[l], by_stats, stats));
        lemma_node_le_trans(ts[k], ts[l - 1], ts[l], by_stats, stats);
    } else {
        assert(node_le(ts[k], ts[k + 1], by_stats, stats));
    }
}

/// A stably sorted image of a node sorts where the node does.
proof fn lemma_image_keys(
    old: EntryTree,
    new: EntryTree,
    by_stats: bool,
    stats: Seq<Option<FineDuration>>,
)
    requires
        stably_sorted_tree(old, new, by_stats, stats),
    ensures
        (new is Leaf) == (old is Leaf),
        node_name(new) == node_name(old),
        stat_of(new, by_stats, stats) == stat_of(old, by_stats, stats),
{
}

/// Whether `pi` lists the indices of `old` in the order in which a
/// stable sort puts them: each may come before every later one, and tied
/// ones in increasing order.
spec fn arranged_in_order(
    old: Seq<EntryTree>,
    pi: Seq<int>,
    by_stats: bool,
    stats: Seq<Option<FineDuration>>,
) -> bool {
    &&& pi.len() == old.len()
    &&& forall|k: int| 0 <= k < pi.len() ==> 0 <= #[trigger] pi[k] < old.len()
    &&& forall|k: int, l: int| 0 <= k < l < pi.len() ==> #[trigger] pi[k] != #[trigger] pi[l]
    &&& forall|i: int| 0 <= i < old.len() ==> #[trigger] pi.contains(i)
    &&& forall|k: int, l: int|
        0 <= k < l < pi.len() ==> node_le(old[#[trigger] pi[k]], old[#[trigger] pi[l]], by_stats, stats)
            && (node_le(old[pi[l]], old[pi[k]], by_stats, stats) ==> pi[k] < pi[l])
}

/// The level of a stable sort is ordered as [`arranged_in_order`] says.
proof fn lemma_arranged_in_order(
    old: Seq<EntryTree>,
    new: Seq<EntryTree>,
    pi: Seq<int>,
    by_stats: bool,
    stats: Seq<Option<FineDuration>>,
)
    requires
        stable_level(old, new, pi, by_stats, stats),
        sorted_level(new, by_stats, stats),
        forall|k: int|
            0 <= k < new.len() ==> stably_sorted_tree(old[pi[k]], #[trigger] new[k], by_stats, stats),
    ensures
        arranged_in_order(old, pi, by_stats, stats),
{
    assert forall|k: int, l: int| 0 <= k < l < pi.len() implies node_le(
        old[#[trigger] pi[k]],
        old[#[trigger] pi[l]],
        by_stats,
        stats,
    ) && (node_le(old[pi[l]], old[pi[k]], by_stats, stats) ==> pi[k] < pi[l]) by {
        lemma_sorted_level_pair(new, k, l, by_stats, stats);
        lemma_image_keys(old[pi[k]], new[k], by_stats, stats);
        lemma_image_keys(old[pi[l]], new[l], by_stats, stats);
        assert(node_le(new[k], new[l], by_stats, stats) == node_le(old[pi[k]], old[pi[l]], by_stats, stats));
        assert(node_le(new[l], new[k], by_stats, stats) == node_le(old[pi[l]], old[pi[k]], by_stats, stats));
    }
}

/// Two index lists in stable-sort order agree on their first `n` places.
proof fn lemma_arranged_agree(
    old: Seq<EntryTree>,
    pi: Seq<int>,
    sigma: Seq<int>,
    n: int,
    by_stats: bool,
    stats: Seq<Option<FineDuration>>,
)
    requires
        arranged_in_order(old, pi, by_stats, stats),
        arranged_in_order(old, sigma, by_stats, stats),
        0 <= n <= pi.len(),
    ensures
        forall|k: int| 0 <= k < n ==> #[trigger] pi[k] == sigma[k],
    decreases n,
{
    if n > 0 {
        lemma_arranged_agree(old, pi, sigma, n - 1, by_stats, stats);
        let k = n - 1;
        let i = pi[k];
        let j = sigma[k];
        if i != j {
            assert(sigma.contains(i));
            let l = choose|l: int| 0 <= l < sigma.len() && sigma[l] == i;
            if l < k {
                assert(pi[l] == sigma[l]);
            }
            assert(l > k);
            assert(pi.contains(j));
            let m = choose|m: int| 0 <= m < pi.len() && pi[m] == j;
            if m < k {
                assert(pi[m] == sigma[m]);
                assert(sigma[m] != sigma[k]);
            }
            assert(m > k);
            assert(node_le(old[pi[k]], old[pi[m]], by_stats, stats));
            assert(node_le(old[sigma[k]], old[sigma[l]], by_stats, stats));
            assert(i < j);
            assert(j < i);
        }
    }
}

/// Stable sorts of one tree that order every level agree.
proof fn lemma_stable_sort_tree_unique(
    old: EntryTree,
    a: EntryTree,
    b: EntryTree,
    by_stats: bool,
    stats: Seq<Option<FineDuration>>,
)
    requires
        sorted_tree(a, by_stats, stats),
        sorted_tree(b, by_stats, stats),
        stably_sorted_tree(old, a, by_stats, stats),
        stably_sorted_tree(old, b, by_stats, stats),
    ensures
        same_tree(a, b),
    decreases old,
{
    match old {
        EntryTree::Leaf { .. } => {},
        EntryTree::Parent { raw_name, group, children } => {
            match a {
                EntryTree::Parent { children: a_children, .. } => {
                    match b {
                        EntryTree::Parent { children: b_children, .. } => {
                            assert(decreases_to!(old => children));
                            lemma_stable_sort_unique(
                                children@,
                                a_children@,
                                b_children@,
                                by_stats,
                                stats,
                            );
                        },
                        EntryTree::Leaf { .. } => {},
                    }
                },
                EntryTree::Leaf { .. } => {},
            }
        },
    }
}

/// Any two stable sorts of one forest that put every level in the same
/// order give the same forest: the sort's result is determined by the
/// forest and the order alone. So [`EntryTree::sort_by_stats`] by
/// [`SortBy::Name`] gives what [`EntryTree::sort`] gives.
pub proof fn lemma_stable_sort_unique(
    old: Seq<EntryTree>,
    a: Seq<EntryTree>,
    b: Seq<EntryTree>,
    by_stats: bool,
    stats: Seq<Option<FineDuration>>,
)
    requires
        sorted_forest(a, by_stats, stats),
        sorted_forest(b, by_stats, stats),
        stably_sorted_forest(old, a, by_stats, stats),
        stably_sorted_forest(old, b, by_stats, stats),
    ensures
        same_forest(a, b),
    decreases old,
{
    let pi = choose|pi: Seq<int>|
        #[trigger] stable_level(old, a, pi, by_stats, stats) && forall|k: int|
            0 <= k < a.len() ==> stably_sorted_tree(old[pi[k]], #[trigger] a[k], by_stats, stats);
    let sigma = choose|pi: Seq<int>|
        #[trigger] stable_level(old, b, pi, by_stats, stats) && forall|k: int|
            0 <= k < b.len() ==> stably_sorted_tree(old[pi[k]], #[trigger] b[k], by_stats, stats);
    lemma_arranged_in_order(old, a, pi, by_stats, stats);
    lemma_arranged_in_order(old, b, sigma, by_stats, stats);
    lemma_arranged_agree(old, pi, sigma, pi.len() as int, by_stats, stats);
    assert forall|k: int| 0 <= k < a.len() implies same_tree(#[trigger] a[k], b[k]) by {
        assert(pi[k] == sigma[k]);
        assert(sorted_tree(a[k], by_stats, stats));
        assert(sorted_tree(b[k], by_stats, stats));
        lemma_stable_sort_tree_unique(old[pi[k]], a[k], b[k], by_stats, stats);
    }
}

/// The leaves of a concatenation are those of the parts.
pub proof fn lemma_forest_leaves_append(a: Seq<EntryTree>, b: Seq<EntryTree>)
    ensures
        forest_leaves(a + b) == forest_leaves(a) + forest_leaves(b),
    decreases b.len(),
{
    if b.len() == 0 {
        assert(a + b =~= a);
    } else {
        let ab = a + b;
        assert(ab.subrange(0, ab.len() - 1) =~= a + b.subrange(0, b.len() - 1));
        lemma_forest_leaves_append(a, b.subrange(0, b.len() - 1));
        assert(ab[ab.len() - 1] == b[b.len() - 1]);
    }
}

/// The leaves of a single tree as a forest.
pub proof fn lemma_forest_leaves_single(t: EntryTree)
    ensures
        forest_leaves(seq![t]) == tree_leaves(t),
{
    assert(seq![t].subrange(0, 0) =~= Seq::<EntryTree>::empty());
    assert(forest_leaves(Seq::<EntryTree>::empty()) == Seq::<usize>::empty());
    assert(seq![t][0] == t);
    assert(Seq::<usize>::empty() + tree_leaves(t) =~= tree_leaves(t));
}

/// Replacing the tree at `j` replaces its leaves.
pub proof fn lemma_forest_leaves_update(ts: Seq<EntryTree>, j: int, t: EntryTree)
    requires
        0 <= j < ts.len(),
    ensures
        forest_leaves(ts) == forest_leaves(ts.take(j)) + tree_leaves(ts[j]) + forest_leaves(
            ts.skip(j + 1),
        ),
        forest_leaves(ts.update(j, t)) == forest_leaves(ts.take(j)) + tree_leaves(t)
            + forest_leaves(ts.skip(j + 1)),
{
    assert(ts =~= ts.take(j) + seq![ts[j]] + ts.skip(j + 1));
    assert(ts.update(j, t) =~= ts.take(j) + seq![t] + ts.skip(j + 1));
    lemma_forest_leaves_append(ts.take(j) + seq![ts[j]], ts.skip(j + 1));
    lemma_forest_leaves_append(ts.take(j), seq![ts[j]]);
    lemma_forest_leaves_append(ts.take(j) + seq![t], ts.skip(j + 1));
    lemma_forest_leaves_append(ts.take(j), seq![t]);
    lemma_forest_leaves_single(ts[j]);
    lemma_forest_leaves_single(t);
}

/// Pushing a tree adds its leaves at the end.
pub proof fn lemma_forest_leaves_push(ts: Seq<EntryTree>, t: EntryTree)
    ensures
        forest_leaves(ts.push(t)) == forest_leaves(ts) + tree_leaves(t),
{
    assert(ts.push(t).subrange(0, ts.len() as int) =~= ts);
}

/// The parents below `t` (and `t` itself when it is one), each as its
/// path of names from the root level, `prefix` leading, and its group.
pub open spec fn tree_groups(t: EntryTree, prefix: Seq<Seq<char>>) -> Seq<
    (Seq<Seq<char>>, Option<usize>),
>
    decreases t,
{
    match t {
        EntryTree::Leaf { .. } => seq![],
        EntryTree::Parent { raw_name, group, children } => seq![(prefix.push(raw_name@), group)]
            + forest_groups(children@, prefix.push(raw_name@)),
    }
}

/// `tree_groups` of the trees of a forest, in order.
pub open spec fn forest_groups(ts: Seq<EntryTree>, prefix: Seq<Seq<char>>) -> Seq<
    (Seq<Seq<char>>, Option<usize>),
>
    decreases ts,
{
    if ts.len() == 0 {
        seq![]
    } else {
        forest_groups(ts.subrange(0, ts.len() - 1), prefix) + tree_groups(ts[ts.len() - 1], prefix)
    }
}

/// The parents of a concatenation of forests.
pub proof fn lemma_forest_groups_append(a: Seq<EntryTree>, b: Seq<EntryTree>, prefix: Seq<Seq<char>>)
    ensures
        forest_groups(a + b, prefix) == forest_groups(a, prefix) + forest_groups(b, prefix),
    decreases b.len(),
{
    if b.len() == 0 {
        assert(a + b =~= a);
        assert(forest_groups(a, prefix) + forest_groups(b, prefix) =~= forest_groups(a, prefix));
    } else {
        let ab = a + b;
        assert(ab.subrange(0, ab.len() - 1) =~= a + b.subrange(0, b.len() - 1));
        lemma_forest_groups_append(a, b.subrange(0, b.len() - 1), prefix);
        assert(ab[ab.len() - 1] == b[b.len() - 1]);
        assert(forest_groups(a, prefix) + forest_groups(b.subrange(0, b.len() - 1), prefix)
            + tree_groups(b[b.len() - 1], prefix) =~= forest_groups(a, prefix) + (forest_groups(
            b.subrange(0, b.len() - 1),
            prefix,
        ) + tree_groups(b[b.len() - 1], prefix)));
    }
}

/// The parents of a single tree as a forest.
pub proof fn lemma_forest_groups_single(t: EntryTree, prefix: Seq<Seq<char>>)
    ensures
        forest_groups(seq![t], prefix) == tree_groups(t, prefix),
{
    assert(seq![t].subrange(0, 0) =~= Seq::<EntryTree>::empty());
    assert(forest_groups(Seq::<EntryTree>::empty(), prefix) == Seq::<(Seq<Seq<char>>, Option<usize>)>::empty());
    assert(seq![t][0] == t);
    assert(Seq::<(Seq<Seq<char>>, Option<usize>)>::empty() + tree_groups(t, prefix) =~= tree_groups(
        t,
        prefix,
    ));
}

/// Pushing a tree adds its parents at the end.
pub proof fn lemma_forest_groups_push(ts: Seq<EntryTree>, t: EntryTree, prefix: Seq<Seq<char>>)
    ensures
        forest_groups(ts.push(t), prefix) == forest_groups(ts, prefix) + tree_groups(t, prefix),
{
    assert(ts.push(t).subrange(0, ts.len() as int) =~= ts);
}

/// The path `buf` extended by the component `name`: joined with `::`
/// unless `buf` is empty.
pub open spec fn extended_path(buf: Seq<char>, name: Seq<char>) -> Seq<char> {
    if buf.len() == 0 {
        name
    } else {
        buf + "::"@ + name
    }
}

/// Appends a path component to `buf`, separated by `::` unless `buf` is
/// empty.
pub fn push_path_component(buf: &mut String, name: &str)
    ensures
        final(buf)@ == extended_path(old(buf)@, name@),
{
    if buf.as_str().unicode_len() > 0 {
        push_str(buf, "::");
    }
    push_str(buf, name);
    assert(old(buf)@.len() == 0 ==> buf@ =~= name@);
}

/// Whether two names are equal.
fn same_name(a: &str, b: &str) -> (r: bool)
    ensures
        r == (a@ == b@),
{
    text_eq(&char_vec(a), b)
}

/// Index of the first parent named `name` among `ts`, or `ts.len()` when
/// there is none.
pub open spec fn parent_index(ts: Seq<EntryTree>, name: Seq<char>) -> int
    decreases ts.len(),
{
    if ts.len() == 0 {
        0
    } else if ts[0] is Parent && node_name(ts[0]) == name {
        0
    } else {
        1 + parent_index(ts.drop_first(), name)
    }
}

/// The group attachment of the parent reached from `ts` by following the
/// parent names `path`: `Some` of the parent's group when that parent
/// exists, `None` when it does not.
pub open spec fn group_at(ts: Seq<EntryTree>, path: Seq<Seq<char>>) -> Option<Option<usize>>
    decreases path.len(),
{
    if path.len() == 0 {
        None
    } else {
        let i = parent_index(ts, path[0]);
        if 0 <= i < ts.len() {
            match ts[i] {
                EntryTree::Parent { group, children, .. } => if path.len() == 1 {
                    Some(group)
                } else {
                    group_at(children@, path.drop_first())
                },
                EntryTree::Leaf { .. } => None,
            }
        } else {
            None
        }
    }
}

/// The path of the parent that a group entry names: its module path
/// components and its own name.
pub open spec fn group_path(groups: Seq<EntryMeta>, g: int) -> Seq<Seq<char>> {
    split_path(groups[g].mod_path@).push(groups[g].raw_name@)
}

/// `parent_index` is the first index of a parent named `name`, if any.
proof fn lemma_parent_index(ts: Seq<EntryTree>, name: Seq<char>, j: int)
    requires
        0 <= j <= ts.len(),
        j < ts.len() ==> ts[j] is Parent && node_name(ts[j]) == name,
        forall|i: int| 0 <= i < j ==> !((#[trigger] ts[i]) is Parent && node_name(ts[i]) == name),
    ensures
        parent_index(ts, name) == j,
    decreases ts.len(),
{
    if ts.len() > 0 && j > 0 {
        assert(!(ts[0] is Parent && node_name(ts[0]) == name));
        assert forall|i: int| 0 <= i < j - 1 implies !((#[trigger] ts.drop_first()[i]) is Parent
            && node_name(ts.drop_first()[i]) == name) by {
            assert(ts.drop_first()[i] == ts[i + 1]);
        }
        lemma_parent_index(ts.drop_first(), name, j - 1);
    }
}

/// `parent_index` lies within `0..=ts.len()` and points at a parent of
/// that name when below `ts.len()`, with none before it.
proof fn lemma_parent_index_bounds(ts: Seq<EntryTree>, name: Seq<char>)
    ensures
        0 <= parent_index(ts, name) <= ts.len(),
        parent_index(ts, name) < ts.len() ==> ts[parent_index(ts, name)] is Parent && node_name(
            ts[parent_index(ts, name)],
        ) == name,
        forall|i: int|
            0 <= i < parent_index(ts, name) ==> !((#[trigger] ts[i]) is Parent && node_name(ts[i])
                == name),
    decreases ts.len(),
{
    if ts.len() > 0 && !(ts[0] is Parent && node_name(ts[0]) == name) {
        lemma_parent_index_bounds(ts.drop_first(), name);
        assert forall|i: int| 0 <= i < parent_index(ts, name) implies !((#[trigger] ts[i]) is Parent
            && node_name(ts[i]) == name) by {
            if i > 0 {
                assert(ts[i] == ts.drop_first()[i - 1]);
            }
        }
    }
}

/// Replacing a node by one of the same name and kind keeps every
/// `parent_index`.
proof fn lemma_parent_index_update(ts: Seq<EntryTree>, j: int, node: EntryTree, name: Seq<char>)
    requires
        0 <= j < ts.len(),
        node_name(node) == node_name(ts[j]),
        (node is Parent) == (ts[j] is Parent),
    ensures
        parent_index(ts.update(j, node), name) == parent_index(ts, name),
{
    let nt = ts.update(j, node);
    lemma_parent_index_bounds(ts, name);
    let k = parent_index(ts, name);
    assert forall|i: int| 0 <= i < k implies !((#[trigger] nt[i]) is Parent && node_name(nt[i]) == name) by {
        assert(!(ts[i] is Parent && node_name(ts[i]) == name));
    }
    lemma_parent_index(nt, name, k);
}

/// How `group_at` sees the replacement of the parent at `j`, the first
/// parent named `head`, by a parent of the same name with group
/// `new_node->group` and children `new_node->children`.
proof fn lemma_group_at_replace(ts: Seq<EntryTree>, j: int, head: Seq<char>, new_node: EntryTree)
    requires
        0 <= j < ts.len(),
        parent_index(ts, head) == j,
        ts[j] is Parent,
        node_name(ts[j]) == head,
        new_node is Parent,
        node_name(new_node) == head,
    ensures
        forall|p: Seq<Seq<char>>|
            p.len() > 0 && p[0] != head ==> #[trigger] group_at(ts.update(j, new_node), p) == group_at(
                ts,
                p,
            ),
        forall|p: Seq<Seq<char>>|
            p.len() == 1 && p[0] == head ==> #[trigger] group_at(ts.update(j, new_node), p) == Some(
                new_node->group,
            ) && group_at(ts, p) == Some(ts[j]->group),
        forall|p: Seq<Seq<char>>|
            p.len() > 1 && p[0] == head ==> #[trigger] group_at(ts.update(j, new_node), p) == group_at(
                new_node->children@,
                p.drop_first(),
            ) && group_at(ts, p) == group_at(ts[j]->children@, p.drop_first()),
{
    let nt = ts.update(j, new_node);
    assert forall|p: Seq<Seq<char>>| p.len() > 0 && p[0] != head implies #[trigger] group_at(nt, p)
        == group_at(ts, p) by {
        lemma_parent_index_update(ts, j, new_node, p[0]);
        lemma_parent_index_bounds(ts, p[0]);
        let i = parent_index(ts, p[0]);
        if i < ts.len() {
            assert(i != j);
            assert(nt[i] == ts[i]);
        }
    }
    assert forall|p: Seq<Seq<char>>| p.len() >= 1 && p[0] == head implies parent_index(nt, p[0]) == j by {
        lemma_parent_index_update(ts, j, new_node, p[0]);
    }
}

/// Index of the parent named `name` among `ts`, or `ts.len()` when there
/// is none.
fn find_parent(ts: &Vec<EntryTree>, name: &str) -> (j: usize)
    ensures
        j <= ts.len(),
        j < ts.len() ==> ts@[j as int] is Parent && node_name(ts@[j as int]) == name@,
        j == ts.len() ==> forall|i: int|
            0 <= i < ts.len() && (#[trigger] ts@[i]) is Parent ==> node_name(ts@[i]) != name@,
        j == parent_index(ts@, name@),
{
    let mut j: usize = 0;
    while j < ts.len()
        invariant
            j <= ts.len(),
            forall|i: int|
                0 <= i < j && (#[trigger] ts@[i]) is Parent ==> node_name(ts@[i]) != name@,
        decreases ts.len() - j,
    {
        match &ts[j] {
            EntryTree::Parent { raw_name, .. } => {
                if same_name(raw_name, name) {
                    proof {
                        lemma_parent_index(ts@, name@, j as int);
                    }
                    return j;
                }
            },
            EntryTree::Leaf { .. } => {},
        }
        j = j + 1;
    }
    proof {
        lemma_parent_index(ts@, name@, j as int);
    }
    j
}

impl EntryTree {
    /// The name of this node.
    pub fn raw_name(&self) -> (r: &'static str)
        ensures
            r@ == node_name(*self),
    {
        match self {
            EntryTree::Parent { raw_name, .. } => raw_name,
            EntryTree::Leaf { raw_name, .. } => raw_name,
        }
    }

    /// Sort rank of a node: leaves (benchmarks) come before parents.
    pub fn kind(&self) -> (r: u8)
        ensures
            r == if self is Leaf { 0u8 } else { 1u8 },
    {
        match self {
            EntryTree::Leaf { .. } => 0,
            EntryTree::Parent { .. } => 1,
        }
    }

    /// The children of this node (none for a leaf).
    pub fn children(&self) -> (r: &[EntryTree])
        ensures
            match self {
                EntryTree::Parent { children, .. } => r@ == children@,
                EntryTree::Leaf { .. } => r@.len() == 0,
            },
    {
        match self {
            EntryTree::Parent { children, .. } => children.as_slice(),
            EntryTree::Leaf { .. } => &[],
        }
    }

    /// The group entry attached to this node, if any.
    pub fn group(&self) -> (r: Option<usize>)
        ensures
            match self {
                EntryTree::Parent { group, .. } => r == *group,
                EntryTree::Leaf { .. } => r is None,
            },
    {
        match self {
            EntryTree::Parent { group, .. } => *group,
            EntryTree::Leaf { .. } => None,
        }
    }

    /// A chain of parents named by `comps[k..]`, ending in the leaf of
    /// benchmark `entry`.
    fn from_path(comps: &Vec<&'static str>, k: usize, name: &'static str, entry: usize) -> (r:
        EntryTree)
        requires
            k < comps.len(),
        ensures
            r is Parent,
            node_name(r) == comps@[k as int]@,
            tree_leaves(r) == seq![entry],
            pruned_tree(r),
            distinct_tree(r),
            forall|prefix: Seq<Seq<char>>, paths: Seq<Seq<Seq<char>>>, names: Seq<Seq<char>>|
                entry < paths.len() && paths[entry as int] == prefix + piece_views(comps@).skip(
                    k as int,
                ) && entry < names.len() && names[entry as int] == name@ ==> #[trigger] placed_tree(
                    r,
                    prefix,
                    paths,
                    names,
                ),
            forall|prefix: Seq<Seq<char>>, gpaths: Seq<Seq<Seq<char>>>, gnames: Seq<Seq<char>>|
                #[trigger] groups_placed_tree(r, prefix, gpaths, gnames),
        decreases comps.len() - k,
    {
        let child: EntryTree = if k + 1 < comps.len() {
            Self::from_path(comps, k + 1, name, entry)
        } else {
            EntryTree::Leaf { raw_name: name, entry }
        };
        let mut children: Vec<EntryTree> = Vec::new();
        children.push(child);
        let r = EntryTree::Parent { raw_name: comps[k], group: None, children };
        proof {
            lemma_forest_leaves_single(child);
            assert(children@ =~= seq![child]);
            assert(pruned_tree(child));
            assert(pruned_forest(children@));
            assert(distinct_tree(child));
            assert(distinct_forest(children@));
            assert forall|prefix: Seq<Seq<char>>, paths: Seq<Seq<Seq<char>>>, names: Seq<Seq<char>>|
                entry < paths.len() && paths[entry as int] == prefix + piece_views(comps@).skip(
                    k as int,
                ) && entry < names.len() && names[entry as int] == name@ implies #[trigger] placed_tree(
                r,
                prefix,
                paths,
                names,
            ) by {
                let p2 = prefix.push(comps@[k as int]@);
                assert(prefix + piece_views(comps@).skip(k as int) =~= p2 + piece_views(
                    comps@,
                ).skip(k + 1));
                if k + 1 >= comps.len() {
                    assert(piece_views(comps@).skip(k + 1) =~= Seq::<Seq<char>>::empty());
                    assert(p2 + Seq::<Seq<char>>::empty() =~= p2);
                }
                assert(placed_tree(child, p2, paths, names));
                assert(children@[0] == child);
            }
            assert forall|prefix: Seq<Seq<char>>, gpaths: Seq<Seq<Seq<char>>>, gnames: Seq<Seq<char>>|
                #[trigger] groups_placed_tree(r, prefix, gpaths, gnames) by {
                assert(groups_placed_tree(child, prefix.push(comps@[k as int]@), gpaths, gnames));
                assert(children@[0] == child);
            }
        }
        r
    }

    /// Inserts the leaf of benchmark `entry` below the parents named by
    /// `comps[k..]`, reusing parents that exist and creating the rest.
    fn insert_entry(
        tree: &mut Vec<EntryTree>,
        comps: &Vec<&'static str>,
        k: usize,
        name: &'static str,
        entry: usize,
    )
        requires
            k <= comps.len(),
        ensures
            forest_leaves(final(tree)@).to_multiset() == forest_leaves(old(tree)@).to_multiset().insert(
                entry,
            ),
            forall|prefix: Seq<Seq<char>>, paths: Seq<Seq<Seq<char>>>, names: Seq<Seq<char>>|
                placed_forest(old(tree)@, prefix, paths, names) && entry < paths.len()
                    && paths[entry as int] == prefix + piece_views(comps@).skip(k as int) && entry
                    < names.len() && names[entry as int] == name@ ==> #[trigger] placed_forest(
                    final(tree)@,
                    prefix,
                    paths,
                    names,
                ),
            distinct_parents(old(tree)@) ==> distinct_parents(final(tree)@),
            forall|prefix: Seq<Seq<char>>, gpaths: Seq<Seq<Seq<char>>>, gnames: Seq<Seq<char>>|
                groups_placed_forest(old(tree)@, prefix, gpaths, gnames) ==> #[trigger] groups_placed_forest(
                    final(tree)@,
                    prefix,
                    gpaths,
                    gnames,
                ),
            final(tree)@.len() >= old(tree)@.len(),
            pruned_forest(old(tree)@) ==> pruned_forest(final(tree)@),
            distinct_forest(old(tree)@) ==> distinct_forest(final(tree)@),
        decreases comps.len() - k,
    {
        let ghost old_ts = tree@;
        if k == comps.len() {
            let leaf = EntryTree::Leaf { raw_name: name, entry };
            tree.push(leaf);
            proof {
                lemma_forest_leaves_push(old_ts, leaf);
                assert(tree_leaves(leaf) =~= seq![entry]);
                assert(forest_leaves(old_ts) + seq![entry] =~= forest_leaves(old_ts).push(entry));
                assert forall|prefix: Seq<Seq<char>>, paths: Seq<Seq<Seq<char>>>, names: Seq<Seq<char>>|
                    placed_forest(old_ts, prefix, paths, names) && entry < paths.len()
                        && paths[entry as int] == prefix + piece_views(comps@).skip(k as int)
                        && entry < names.len() && names[entry as int] == name@ implies #[trigger] placed_forest(
                    tree@,
                    prefix,
                    paths,
                    names,
                ) by {
                    assert(piece_views(comps@).skip(k as int) =~= Seq::<Seq<char>>::empty());
                    assert(prefix + Seq::<Seq<char>>::empty() =~= prefix);
                    assert forall|i: int| 0 <= i < tree@.len() implies placed_tree(
                        #[trigger] tree@[i],
                        prefix,
                        paths,
                        names,
                    ) by {
                        if i < old_ts.len() {
                            assert(placed_tree(old_ts[i], prefix, paths, names));
                        }
                    }
                }
                assert(seq![entry].to_multiset() =~= Multiset::<usize>::empty().insert(entry));
            }
            return;
        }
        let comp: &'static str = comps[k];
        let j: usize = find_parent(tree, comp);
        if j < tree.len() {
            let node: EntryTree = tree.remove(j);
            match node {
                EntryTree::Parent { raw_name, group, mut children } => {
                    let ghost old_children = children@;
                    Self::insert_entry(&mut children, comps, k + 1, name, entry);
                    let new_node = EntryTree::Parent { raw_name, group, children };
                    tree.insert(j, new_node);
                    proof {
                        assert(tree@ =~= old_ts.update(j as int, new_node));
                        lemma_forest_leaves_update(old_ts, j as int, new_node);
                        assert(tree_leaves(old_ts[j as int]) == forest_leaves(old_children));
                        assert(tree_leaves(new_node) == forest_leaves(children@));
                        let a = forest_leaves(old_ts.take(j as int));
                        let c = forest_leaves(old_ts.skip(j + 1));
                        let lo = forest_leaves(old_children);
                        let ln = forest_leaves(children@);
                        assert((a + ln + c).to_multiset() =~= (a + lo + c).to_multiset().insert(
                            entry,
                        ));
                        assert forall|prefix: Seq<Seq<char>>, paths: Seq<Seq<Seq<char>>>, names: Seq<Seq<char>>|
                            placed_forest(old_ts, prefix, paths, names) && entry < paths.len()
                                && paths[entry as int] == prefix + piece_views(comps@).skip(
                                k as int,
                            ) && entry < names.len() && names[entry as int]
                                == name@ implies #[trigger] placed_forest(
                            tree@,
                            prefix,
                            paths,
                            names,
                        ) by {
                            let p2 = prefix.push(raw_name@);
                            assert(prefix + piece_views(comps@).skip(k as int) =~= p2 + piece_views(
                                comps@,
                            ).skip(k + 1));
                            assert(placed_tree(old_ts[j as int], prefix, paths, names));
                            assert(placed_forest(old_children, p2, paths, names));
                            assert(placed_forest(children@, p2, paths, names));
                            assert forall|i: int| 0 <= i < tree@.len() implies placed_tree(
                                #[trigger] tree@[i],
                                prefix,
                                paths,
                                names,
                            ) by {
                                if i != j {
                                    assert(placed_tree(old_ts[i], prefix, paths, names));
                                }
                            }
                        }
                        assert forall|a: int, b: int|
                            0 <= a < b < tree@.len() && tree@[a] is Parent && tree@[b] is Parent
                                && distinct_parents(old_ts) implies node_name(#[trigger] tree@[a])
                            != node_name(#[trigger] tree@[b]) by {
                            assert(node_name(tree@[a]) == node_name(old_ts[a]));
                            assert(node_name(tree@[b]) == node_name(old_ts[b]));
                        }
                        assert forall|prefix: Seq<Seq<char>>, gpaths: Seq<Seq<Seq<char>>>, gnames: Seq<Seq<char>>|
                            groups_placed_forest(old_ts, prefix, gpaths, gnames) implies #[trigger] groups_placed_forest(
                            tree@,
                            prefix,
                            gpaths,
                            gnames,
                        ) by {
                            assert(groups_placed_tree(old_ts[j as int], prefix, gpaths, gnames));
                            assert(groups_placed_forest(
                                old_children,
                                prefix.push(raw_name@),
                                gpaths,
                                gnames,
                            ));
                            assert(groups_placed_forest(
                                children@,
                                prefix.push(raw_name@),
                                gpaths,
                                gnames,
                            ));
                            assert forall|i: int| 0 <= i < tree@.len() implies groups_placed_tree(
                                #[trigger] tree@[i],
                                prefix,
                                gpaths,
                                gnames,
                            ) by {
                                if i != j {
                                    assert(groups_placed_tree(old_ts[i], prefix, gpaths, gnames));
                                }
                            }
                        }
                    }
                },
                EntryTree::Leaf { .. } => {
                    // find_parent only returns parents
                    assert(false);
                },
            }
        } else {
            let fresh: EntryTree = Self::from_path(comps, k, name, entry);
            tree.push(fresh);
            proof {
                lemma_forest_leaves_push(old_ts, fresh);
                assert(forest_leaves(old_ts) + seq![entry] =~= forest_leaves(old_ts).push(entry));
                assert(seq![entry].to_multiset() =~= Multiset::<usize>::empty().insert(entry));
                assert forall|prefix: Seq<Seq<char>>, paths: Seq<Seq<Seq<char>>>, names: Seq<Seq<char>>|
                    placed_forest(old_ts, prefix, paths, names) && entry < paths.len()
                        && paths[entry as int] == prefix + piece_views(comps@).skip(k as int)
                        && entry < names.len() && names[entry as int] == name@ implies #[trigger] placed_forest(
                    tree@,
                    prefix,
                    paths,
                    names,
                ) by {
                    assert(placed_tree(fresh, prefix, paths, names));
                    assert forall|i: int| 0 <= i < tree@.len() implies placed_tree(
                        #[trigger] tree@[i],
                        prefix,
                        paths,
                        names,
                    ) by {
                        if i < old_ts.len() {
                            assert(placed_tree(old_ts[i], prefix, paths, names));
                        }
                    }
                }
                assert forall|a: int, b: int|
                    0 <= a < b < tree@.len() && tree@[a] is Parent && tree@[b] is Parent
                        && distinct_parents(old_ts) implies node_name(#[trigger] tree@[a])
                    != node_name(#[trigger] tree@[b]) by {
                    if b == old_ts.len() {
                        assert(old_ts[a] is Parent);
                    }
                }
                assert forall|prefix: Seq<Seq<char>>, gpaths: Seq<Seq<Seq<char>>>, gnames: Seq<Seq<char>>|
                    groups_placed_forest(old_ts, prefix, gpaths, gnames) implies #[trigger] groups_placed_forest(
                    tree@,
                    prefix,
                    gpaths,
                    gnames,
                ) by {
                    assert(groups_placed_tree(fresh, prefix, gpaths, gnames));
                    assert forall|i: int| 0 <= i < tree@.len() implies groups_placed_tree(
                        #[trigger] tree@[i],
                        prefix,
                        gpaths,
                        gnames,
                    ) by {
                        if i < old_ts.len() {
                            assert(groups_placed_tree(old_ts[i], prefix, gpaths, gnames));
                        }
                    }
                }
            }
        }
    }

    /// Attaches group `g`, named `name` with module path `comps[k..]`
    /// below the current level, to the parent it names: the parents named
    /// by `comps[k..]` are followed, then the one named `name` gets the
    /// group. Where a parent on the way is missing the tree is left as it
    /// is, so that groups without benchmarks create no nodes.
    fn insert_group(
        tree: &mut Vec<EntryTree>,
        comps: &Vec<&'static str>,
        k: usize,
        name: &'static str,
        g: usize,
    )
        requires
            k <= comps.len(),
        ensures
            forest_leaves(final(tree)@) == forest_leaves(old(tree)@),
            forall|prefix: Seq<Seq<char>>, paths: Seq<Seq<Seq<char>>>, names: Seq<Seq<char>>|
                placed_forest(old(tree)@, prefix, paths, names) ==> #[trigger] placed_forest(
                    final(tree)@,
                    prefix,
                    paths,
                    names,
                ),
            distinct_parents(old(tree)@) ==> distinct_parents(final(tree)@),
            forall|prefix: Seq<Seq<char>>, gpaths: Seq<Seq<Seq<char>>>, gnames: Seq<Seq<char>>|
                groups_placed_forest(old(tree)@, prefix, gpaths, gnames) && g < gpaths.len()
                    && gpaths[g as int] == prefix + piece_views(comps@).skip(k as int) && g
                    < gnames.len() && gnames[g as int] == name@ ==> #[trigger] groups_placed_forest(
                    final(tree)@,
                    prefix,
                    gpaths,
                    gnames,
                ),
            final(tree)@.len() == old(tree)@.len(),
            pruned_forest(old(tree)@) ==> pruned_forest(final(tree)@),
            distinct_forest(old(tree)@) ==> distinct_forest(final(tree)@),
            forall|p: Seq<Seq<char>>|
                p != piece_views(comps@).skip(k as int).push(name@) ==> #[trigger] group_at(
                    final(tree)@,
                    p,
                ) == group_at(old(tree)@, p),
            group_at(final(tree)@, piece_views(comps@).skip(k as int).push(name@)) == if group_at(
                old(tree)@,
                piece_views(comps@).skip(k as int).push(name@),
            ) is Some {
                Some(Some(g))
            } else {
                None
            },
        decreases comps.len() - k,
    {
        let ghost old_ts = tree@;
        let ghost tp = piece_views(comps@).skip(k as int).push(name@);
        let target: &'static str = if k < comps.len() { comps[k] } else { name };
        proof {
            if k < comps.len() {
                assert(tp[0] == piece_views(comps@)[k as int]);
            } else {
                assert(tp =~= seq![name@]);
            }
            assert(tp.len() > 0 && tp[0] == target@);
        }
        let j: usize = find_parent(tree, target);
        if j == tree.len() {
            return;
        }
        let node: EntryTree = tree.remove(j);
        match node {
            EntryTree::Parent { raw_name, group, mut children } => {
                let ghost old_children = children@;
                let new_group: Option<usize> = if k < comps.len() {
                    Self::insert_group(&mut children, comps, k + 1, name, g);
                    group
                } else {
                    Some(g)
                };
                let new_node = EntryTree::Parent { raw_name, group: new_group, children };
                tree.insert(j, new_node);
                proof {
                    assert(tree@ =~= old_ts.update(j as int, new_node));
                    lemma_forest_leaves_update(old_ts, j as int, new_node);
                    assert forall|prefix: Seq<Seq<char>>, paths: Seq<Seq<Seq<char>>>, names: Seq<Seq<char>>|
                        placed_forest(old_ts, prefix, paths, names) implies #[trigger] placed_forest(
                        tree@,
                        prefix,
                        paths,
                        names,
                    ) by {
                        assert(placed_tree(old_ts[j as int], prefix, paths, names));
                        assert(placed_forest(old_children, prefix.push(raw_name@), paths, names));
                        assert(placed_forest(children@, prefix.push(raw_name@), paths, names));
                        assert(placed_tree(new_node, prefix, paths, names));
                        assert forall|i: int| 0 <= i < tree@.len() implies placed_tree(
                            #[trigger] tree@[i],
                            prefix,
                            paths,
                            names,
                        ) by {
                            if i != j {
                                assert(placed_tree(old_ts[i], prefix, paths, names));
                            }
                        }
                    }
                    assert forall|a: int, b: int|
                        0 <= a < b < tree@.len() && tree@[a] is Parent && tree@[b] is Parent
                            && distinct_parents(old_ts) implies node_name(#[trigger] tree@[a])
                        != node_name(#[trigger] tree@[b]) by {
                        assert(node_name(tree@[a]) == node_name(old_ts[a]));
                        assert(node_name(tree@[b]) == node_name(old_ts[b]));
                    }
                    assert forall|prefix: Seq<Seq<char>>, gpaths: Seq<Seq<Seq<char>>>, gnames: Seq<Seq<char>>|
                        groups_placed_forest(old_ts, prefix, gpaths, gnames) && g < gpaths.len()
                            && gpaths[g as int] == prefix + piece_views(comps@).skip(k as int) && g
                            < gnames.len() && gnames[g as int]
                            == name@ implies #[trigger] groups_placed_forest(
                        tree@,
                        prefix,
                        gpaths,
                        gnames,
                    ) by {
                        assert(groups_placed_tree(old_ts[j as int], prefix, gpaths, gnames));
                        let p2 = prefix.push(raw_name@);
                        if k < comps.len() {
                            assert(prefix + piece_views(comps@).skip(k as int) =~= p2
                                + piece_views(comps@).skip(k + 1));
                            assert(groups_placed_forest(old_children, p2, gpaths, gnames));
                            assert(groups_placed_forest(children@, p2, gpaths, gnames));
                        } else {
                            assert(node_name(old_ts[j as int]) == raw_name@);
                            assert(piece_views(comps@).skip(k as int) =~= Seq::<
                                Seq<char>,
                            >::empty());
                            assert(prefix + Seq::<Seq<char>>::empty() =~= prefix);
                        }
                        assert(groups_placed_tree(new_node, prefix, gpaths, gnames));
                        assert forall|i: int| 0 <= i < tree@.len() implies groups_placed_tree(
                            #[trigger] tree@[i],
                            prefix,
                            gpaths,
                            gnames,
                        ) by {
                            if i != j {
                                assert(groups_placed_tree(old_ts[i], prefix, gpaths, gnames));
                            }
                        }
                    }
                    lemma_group_at_replace(old_ts, j as int, target@, new_node);
                    let tp2 = piece_views(comps@).skip(k + 1).push(name@);
                    if k < comps.len() {
                        assert(tp =~= seq![target@] + tp2);
                    }
                    assert forall|p: Seq<Seq<char>>| p != tp implies #[trigger] group_at(tree@, p)
                        == group_at(old_ts, p) by {
                        if p.len() == 1 && p[0] == target@ {
                            if k == comps.len() {
                                assert(p =~= tp);
                            }
                        } else if p.len() > 1 && p[0] == target@ {
                            if k < comps.len() {
                                assert(p =~= seq![p[0]] + p.drop_first());
                                assert(p.drop_first() != tp2);
                            }
                        }
                    }
                    if k < comps.len() {
                        assert(tp.drop_first() =~= tp2);
                        assert(tp.len() > 1);
                        assert(group_at(tree@, tp) == group_at(children@, tp2));
                        assert(group_at(old_ts, tp) == group_at(old_children, tp2));
                    } else {
                        assert(tp.len() == 1);
                        assert(group_at(tree@, tp) == Some(new_group));
                    }
                }
            },
            EntryTree::Leaf { .. } => {
                assert(false);
            },
        }
    }

    /// Builds the tree of benchmarks `benches` and attaches `groups` to
    /// the parents they name: each benchmark becomes a leaf below parents
    /// named by its module path components, siblings of one name sharing
    /// one parent, and every parent holds at least one benchmark. Each
    /// group is attached to the parent its module path and name lead to,
    /// where that parent exists (a later group of the same path replaces
    /// an earlier one); groups create no nodes.
    pub fn from_entries(benches: &[EntryMeta], groups: &[EntryMeta]) -> (r: Vec<EntryTree>)
        ensures
            forest_leaves(r@).to_multiset() == indices(benches@.len()).to_multiset(),
            placed_forest(r@, seq![], entry_paths(benches@), entry_names(benches@)),
            groups_placed_forest(r@, seq![], entry_paths(groups@), entry_names(groups@)),
            distinct_forest(r@),
            pruned_forest(r@),
            forall|g: int|
                0 <= g < groups@.len() ==> (#[trigger] group_at(r@, group_path(groups@, g)) matches Some(
                    attached,
                ) ==> attached is Some),
    {
        let ghost paths = entry_paths(benches@);
        let ghost names = entry_names(benches@);
        let ghost gpaths = entry_paths(groups@);
        let ghost gnames = entry_names(groups@);
        let mut tree: Vec<EntryTree> = Vec::new();
        let mut i: usize = 0;
        assert(indices(0) =~= Seq::<usize>::empty());
        while i < benches.len()
            invariant
                i <= benches@.len(),
                paths == entry_paths(benches@),
                names == entry_names(benches@),
                gpaths == entry_paths(groups@),
                gnames == entry_names(groups@),
                forest_leaves(tree@).to_multiset() == indices(i as nat).to_multiset(),
                placed_forest(tree@, seq![], paths, names),
                groups_placed_forest(tree@, seq![], gpaths, gnames),
                distinct_forest(tree@),
                pruned_forest(tree@),
            decreases benches@.len() - i,
        {
            let meta: EntryMeta = benches[i];
            let comps: Vec<&'static str> = meta.module_path_components();
            proof {
                assert(paths[i as int] == split_path(meta.mod_path@));
                assert(names[i as int] == meta.raw_name@);
                assert(piece_views(comps@).skip(0) =~= piece_views(comps@));
                assert(Seq::<Seq<char>>::empty() + piece_views(comps@) =~= piece_views(comps@));
                assert(indices((i + 1) as nat) =~= indices(i as nat).push(i));
            }
            Self::insert_entry(&mut tree, &comps, 0, meta.raw_name, i);
            i = i + 1;
        }
        let mut k: usize = 0;
        while k < groups.len()
            invariant
                k <= groups@.len(),
                paths == entry_paths(benches@),
                names == entry_names(benches@),
                gpaths == entry_paths(groups@),
                gnames == entry_names(groups@),
                forest_leaves(tree@).to_multiset() == indices(benches@.len()).to_multiset(),
                placed_forest(tree@, seq![], paths, names),
                groups_placed_forest(tree@, seq![], gpaths, gnames),
                distinct_forest(tree@),
                pruned_forest(tree@),
                forall|h: int|
                    0 <= h < k ==> (#[trigger] group_at(tree@, group_path(groups@, h)) matches Some(
                        attached,
                    ) ==> attached is Some),
            decreases groups@.len() - k,
        {
            let meta: EntryMeta = groups[k];
            let comps: Vec<&'static str> = meta.module_path_components();
            proof {
                assert(gpaths[k as int] == split_path(meta.mod_path@));
                assert(gnames[k as int] == meta.raw_name@);
                assert(piece_views(comps@).skip(0) =~= piece_views(comps@));
                assert(Seq::<Seq<char>>::empty() + piece_views(comps@) =~= piece_views(comps@));
                assert(piece_views(comps@).skip(0).push(meta.raw_name@) == group_path(groups@, k as int));
            }
            let ghost before = tree@;
            Self::insert_group(&mut tree, &comps, 0, meta.raw_name, k);
            proof {
                assert forall|h: int|
                    0 <= h < k + 1 implies (#[trigger] group_at(tree@, group_path(groups@, h)) matches Some(
                        attached,
                    ) ==> attached is Some) by {
                    if group_path(groups@, h) != group_path(groups@, k as int) {
                        assert(group_at(tree@, group_path(groups@, h)) == group_at(before, group_path(groups@, h)));
                    }
                }
            }
            k = k + 1;
        }
        tree
    }

    /// Removes the leaves whose benchmark `keep` does not mark, and the
    /// parents left without children; the parents that stay keep their
    /// places and groups.
    pub fn retain(tree: &mut Vec<EntryTree>, keep: &[bool])
        requires
            all_marked(forest_leaves(old(tree)@), keep@),
        ensures
            forest_leaves(final(tree)@) == kept_entries(forest_leaves(old(tree)@), keep@),
            pruned_forest(final(tree)@),
            forall|prefix: Seq<Seq<char>>, paths: Seq<Seq<Seq<char>>>, names: Seq<Seq<char>>|
                placed_forest(old(tree)@, prefix, paths, names) ==> #[trigger] placed_forest(
                    final(tree)@,
                    prefix,
                    paths,
                    names,
                ),
            forall|prefix: Seq<Seq<char>>, gpaths: Seq<Seq<Seq<char>>>, gnames: Seq<Seq<char>>|
                groups_placed_forest(old(tree)@, prefix, gpaths, gnames) ==> #[trigger] groups_placed_forest(
                    final(tree)@,
                    prefix,
                    gpaths,
                    gnames,
                ),
            forall|prefix: Seq<Seq<char>>|
                (#[trigger] forest_groups(final(tree)@, prefix)).to_multiset().subset_of(
                    forest_groups(old(tree)@, prefix).to_multiset(),
                ),
            distinct_forest(old(tree)@) ==> distinct_forest(final(tree)@),
        decreases old(tree)@,
    {
        let ghost orig = tree@;
        let n0: usize = tree.len();
        let mut rest: Vec<EntryTree> = Vec::new();
        std::mem::swap(&mut rest, tree);
        assert(orig.skip(0) =~= orig);
        assert(orig.take(0) =~= Seq::<EntryTree>::empty());
        let mut done: usize = 0;
        while rest.len() > 0
            invariant
                orig == old(tree)@,
                orig.len() == n0,
                done <= orig.len(),
                rest@ == orig.skip(done as int),
                all_marked(forest_leaves(orig), keep@),
                forest_leaves(tree@) == kept_entries(forest_leaves(orig.take(done as int)), keep@),
                pruned_forest(tree@),
                forall|prefix: Seq<Seq<char>>, paths: Seq<Seq<Seq<char>>>, names: Seq<Seq<char>>|
                    placed_forest(orig, prefix, paths, names) ==> #[trigger] placed_forest(
                        tree@,
                        prefix,
                        paths,
                        names,
                    ),
                forall|prefix: Seq<Seq<char>>, gpaths: Seq<Seq<Seq<char>>>, gnames: Seq<Seq<char>>|
                    groups_placed_forest(orig, prefix, gpaths, gnames) ==> #[trigger] groups_placed_forest(
                        tree@,
                        prefix,
                        gpaths,
                        gnames,
                    ),
                forall|prefix: Seq<Seq<char>>|
                    (#[trigger] forest_groups(tree@, prefix)).to_multiset().subset_of(
                        forest_groups(orig.take(done as int), prefix).to_multiset(),
                    ),
                forall|k: int|
                    0 <= k < tree@.len() && (#[trigger] tree@[k]) is Parent ==> exists|m: int|
                        0 <= m < done && orig[m] is Parent && node_name(orig[m]) == node_name(tree@[k]),
                distinct_forest(orig) ==> distinct_forest(tree@),
            decreases rest@.len(),
        {
            let ghost before = tree@;
            let node: EntryTree = rest.remove(0);
            assert(node == orig[done as int]);
            proof {
                lemma_forest_leaves_update(orig, done as int, node);
                let t1 = orig.take(done + 1);
                assert(t1 =~= orig.take(done as int).push(node));
                lemma_forest_leaves_push(orig.take(done as int), node);
                lemma_kept_entries_append(
                    forest_leaves(orig.take(done as int)),
                    tree_leaves(node),
                    keep@,
                );
                assert forall|i: int| 0 <= i < tree_leaves(node).len() implies #[trigger] tree_leaves(
                    node,
                )[i] < keep@.len() by {
                    let a = forest_leaves(orig.take(done as int));
                    assert(forest_leaves(orig)[a.len() + i] == tree_leaves(node)[i]);
                }
            }
            let ghost node_kept = kept_entries(tree_leaves(node), keep@);
            let ghost gnode = node;
            let ghost mut pushed: Option<EntryTree> = None;
            proof {
                assert(kept_entries(Seq::<usize>::empty(), keep@) == Seq::<usize>::empty());
            }
            match node {
                EntryTree::Leaf { raw_name, entry } => {
                    proof {
                        assert(tree_leaves(gnode) =~= seq![entry]);
                        assert(tree_leaves(gnode)[0] == entry);
                        assert(seq![entry].drop_last() =~= Seq::<usize>::empty());
                    }
                    if keep[entry] {
                        let leaf = EntryTree::Leaf { raw_name, entry };
                        assert(leaf == gnode);
                        tree.push(leaf);
                        proof {
                            lemma_forest_leaves_push(before, leaf);
                            assert(node_kept =~= seq![entry]);
                            pushed = Some(leaf);
                        }
                    } else {
                        assert(node_kept =~= Seq::<usize>::empty());
                        assert(forest_leaves(tree@) + node_kept =~= forest_leaves(tree@));
                    }
                },
                EntryTree::Parent { raw_name, group, mut children } => {
                    let ghost old_children = children@;
                    assert(tree_leaves(gnode) == forest_leaves(old_children));
                    proof {
                        assert(decreases_to!(orig => gnode));
                        assert(decreases_to!(gnode => old_children));
                    }
                    Self::retain(&mut children, keep);
                    let ghost new_children = children@;
                    if children.len() > 0 {
                        let parent = EntryTree::Parent { raw_name, group, children };
                        tree.push(parent);
                        proof {
                            pushed = Some(parent);
                            assert forall|prefix: Seq<Seq<char>>|
                                (#[trigger] tree_groups(parent, prefix)).to_multiset().subset_of(
                                    tree_groups(gnode, prefix).to_multiset(),
                                ) by {
                                let path = prefix.push(raw_name@);
                                let e = seq![(path, group)];
                                assert(forest_groups(new_children, path).to_multiset().subset_of(
                                    forest_groups(old_children, path).to_multiset(),
                                ));
                                assert((e + forest_groups(new_children, path)).to_multiset() =~= e.to_multiset().add(
                                    forest_groups(new_children, path).to_multiset(),
                                ));
                                assert((e + forest_groups(old_children, path)).to_multiset() =~= e.to_multiset().add(
                                    forest_groups(old_children, path).to_multiset(),
                                ));
                            }
                            lemma_forest_leaves_push(before, parent);
                            assert forall|prefix: Seq<Seq<char>>, paths: Seq<Seq<Seq<char>>>, names: Seq<Seq<char>>|
                                placed_tree(gnode, prefix, paths, names) implies #[trigger] placed_tree(
                                parent,
                                prefix,
                                paths,
                                names,
                            ) by {
                                assert(placed_forest(old_children, prefix.push(raw_name@), paths, names));
                                assert(placed_forest(new_children, prefix.push(raw_name@), paths, names));
                            }
                            assert forall|prefix: Seq<Seq<char>>, gpaths: Seq<Seq<Seq<char>>>, gnames: Seq<Seq<char>>|
                                groups_placed_tree(gnode, prefix, gpaths, gnames) implies #[trigger] groups_placed_tree(
                                parent,
                                prefix,
                                gpaths,
                                gnames,
                            ) by {
                                assert(groups_placed_forest(
                                    old_children,
                                    prefix.push(raw_name@),
                                    gpaths,
                                    gnames,
                                ));
                                assert(groups_placed_forest(
                                    new_children,
                                    prefix.push(raw_name@),
                                    gpaths,
                                    gnames,
                                ));
                            }
                        }
                    } else {
                        proof {
                            assert(forest_leaves(new_children) =~= Seq::<usize>::empty());
                            assert(forest_leaves(before) + node_kept =~= forest_leaves(before));
                        }
                    }
                },
            }
            proof {
                match pushed {
                    Some(x) => {
                        assert(tree@ == before.push(x));
                        assert(node_name(x) == node_name(gnode));
                        assert((x is Parent) == (gnode is Parent));
                        assert(distinct_forest(orig) ==> distinct_tree(x));
                        assert forall|k: int|
                            0 <= k < tree@.len() && (#[trigger] tree@[k]) is Parent implies exists|m: int|
                                0 <= m < done + 1 && orig[m] is Parent && node_name(orig[m]) == node_name(
                                    tree@[k],
                                ) by {
                            if k == before.len() {
                                assert(orig[done as int] is Parent && node_name(orig[done as int])
                                    == node_name(tree@[k]));
                            } else {
                                assert(tree@[k] == before[k]);
                            }
                        }
                        if distinct_forest(orig) {
                            assert forall|a: int, b: int|
                                0 <= a < b < tree@.len() && tree@[a] is Parent && tree@[b] is Parent implies node_name(
                                    #[trigger] tree@[a],
                                ) != node_name(#[trigger] tree@[b]) by {
                                if b < before.len() {
                                    assert(tree@[a] == before[a] && tree@[b] == before[b]);
                                } else {
                                    assert(tree@[a] == before[a]);
                                    let m = choose|m: int|
                                        0 <= m < done && orig[m] is Parent && node_name(orig[m])
                                            == node_name(before[a]);
                                    assert(node_name(orig[m]) != node_name(orig[done as int]));
                                }
                            }
                            assert forall|k: int| 0 <= k < tree@.len() implies distinct_tree(
                                #[trigger] tree@[k],
                            ) by {
                                if k < before.len() {
                                    assert(tree@[k] == before[k]);
                                }
                            }
                        }
                    },
                    None => {
                        assert(tree@ == before);
                    },
                }
                assert forall|prefix: Seq<Seq<char>>|
                    (#[trigger] forest_groups(tree@, prefix)).to_multiset().subset_of(
                        forest_groups(orig.take(done + 1), prefix).to_multiset(),
                    ) by {
                    assert(orig.take(done + 1) =~= orig.take(done as int).push(gnode));
                    lemma_forest_groups_push(orig.take(done as int), gnode, prefix);
                    let a = forest_groups(orig.take(done as int), prefix);
                    let b = tree_groups(gnode, prefix);
                    assert((a + b).to_multiset() =~= a.to_multiset().add(b.to_multiset()));
                    assert(forest_groups(before, prefix).to_multiset().subset_of(a.to_multiset()));
                    match pushed {
                        Some(x) => {
                            assert(tree@ == before.push(x));
                            lemma_forest_groups_push(before, x, prefix);
                            let c = forest_groups(before, prefix);
                            let d = tree_groups(x, prefix);
                            assert((c + d).to_multiset() =~= c.to_multiset().add(d.to_multiset()));
                            if gnode is Leaf {
                                assert(d =~= Seq::<(Seq<Seq<char>>, Option<usize>)>::empty());
                            }
                            assert(d.to_multiset().subset_of(b.to_multiset()));
                        },
                        None => {
                            assert(tree@ == before);
                        },
                    }
                }
                assert forall|i: int| 0 <= i < tree@.len() implies pruned_tree(#[trigger] tree@[i]) by {
                    if i < before.len() {
                        assert(pruned_tree(before[i]));
                    }
                }
                assert forall|prefix: Seq<Seq<char>>, paths: Seq<Seq<Seq<char>>>, names: Seq<Seq<char>>|
                    placed_forest(orig, prefix, paths, names) implies #[trigger] placed_forest(
                    tree@,
                    prefix,
                    paths,
                    names,
                ) by {
                    assert(placed_forest(before, prefix, paths, names));
                    assert(placed_tree(orig[done as int], prefix, paths, names));
                    assert forall|i: int| 0 <= i < tree@.len() implies placed_tree(
                        #[trigger] tree@[i],
                        prefix,
                        paths,
                        names,
                    ) by {
                        if i < before.len() {
                            assert(placed_tree(before[i], prefix, paths, names));
                        }
                    }
                }
                assert forall|prefix: Seq<Seq<char>>, gpaths: Seq<Seq<Seq<char>>>, gnames: Seq<Seq<char>>|
                    groups_placed_forest(orig, prefix, gpaths, gnames) implies #[trigger] groups_placed_forest(
                    tree@,
                    prefix,
                    gpaths,
                    gnames,
                ) by {
                    assert(groups_placed_forest(before, prefix, gpaths, gnames));
                    assert(groups_placed_tree(orig[done as int], prefix, gpaths, gnames));
                    assert forall|i: int| 0 <= i < tree@.len() implies groups_placed_tree(
                        #[trigger] tree@[i],
                        prefix,
                        gpaths,
                        gnames,
                    ) by {
                        if i < before.len() {
                            assert(groups_placed_tree(before[i], prefix, gpaths, gnames));
                        }
                    }
                }
                assert(rest@ =~= orig.skip(done + 1));
            }
            done = done + 1;
        }
        assert(orig.take(done as int) =~= orig);
    }

    /// Whether `a` may come before `b` (see [`node_le`]).
    fn le(a: &EntryTree, b: &EntryTree, by_stats: bool, stats: &[Option<FineDuration>]) -> (r: bool)
        ensures
            r == node_le(*a, *b, by_stats, stats@),
    {
        let a_leaf: bool = a.kind() == 0;
        let b_leaf: bool = b.kind() == 0;
        if a_leaf != b_leaf {
            return a_leaf;
        }
        let sa: Option<u128> = Self::stat(a, by_stats, stats);
        let sb: Option<u128> = Self::stat(b, by_stats, stats);
        match (sa, sb) {
            (Some(x), Some(y)) => x < y || (x == y && natural_order_of(a.raw_name(), b.raw_name()) <= 0),
            (Some(_), None) => true,
            (None, Some(_)) => false,
            (None, None) => natural_order_of(a.raw_name(), b.raw_name()) <= 0,
        }
    }

    /// The statistic a node is sorted by (see [`stat_of`]).
    fn stat(t: &EntryTree, by_stats: bool, stats: &[Option<FineDuration>]) -> (r: Option<u128>)
        ensures
            r == stat_of(*t, by_stats, stats@),
    {
        match t {
            EntryTree::Leaf { entry, .. } => {
                if by_stats && *entry < stats.len() {
                    match stats[*entry] {
                        Some(d) => Some(d.picos),
                        None => None,
                    }
                } else {
                    None
                }
            },
            EntryTree::Parent { .. } => None,
        }
    }

    /// Puts every level of the tree in order (see [`node_le`]), keeping
    /// the leaves, where they are placed and the groups.
    fn sort_with(tree: &mut Vec<EntryTree>, by_stats: bool, stats: &[Option<FineDuration>])
        ensures
            forest_leaves(final(tree)@).to_multiset() == forest_leaves(old(tree)@).to_multiset(),
            sorted_forest(final(tree)@, by_stats, stats@),
            forall|prefix: Seq<Seq<char>>, paths: Seq<Seq<Seq<char>>>, names: Seq<Seq<char>>|
                placed_forest(old(tree)@, prefix, paths, names) ==> #[trigger] placed_forest(
                    final(tree)@,
                    prefix,
                    paths,
                    names,
                ),
            forall|prefix: Seq<Seq<char>>, gpaths: Seq<Seq<Seq<char>>>, gnames: Seq<Seq<char>>|
                groups_placed_forest(old(tree)@, prefix, gpaths, gnames) ==> #[trigger] groups_placed_forest(
                    final(tree)@,
                    prefix,
                    gpaths,
                    gnames,
                ),
            forall|prefix: Seq<Seq<char>>|
                (#[trigger] forest_groups(final(tree)@, prefix)).to_multiset() == forest_groups(
                    old(tree)@,
                    prefix,
                ).to_multiset(),
            distinct_forest(old(tree)@) ==> distinct_forest(final(tree)@),
            stably_sorted_forest(old(tree)@, final(tree)@, by_stats, stats@),
        decreases old(tree)@,
    {
        let ghost orig = tree@;
        let n0: usize = tree.len();
        let mut rest: Vec<EntryTree> = Vec::new();
        std::mem::swap(&mut rest, tree);
        assert(orig.skip(0) =~= orig);
        assert(orig.take(0) =~= Seq::<EntryTree>::empty());
        let mut done: usize = 0;
        let ghost mut pi: Seq<int> = Seq::empty();
        while rest.len() > 0
            invariant
                orig == old(tree)@,
                tree@.len() == done,
                pi.len() == done,
                forall|k: int| 0 <= k < pi.len() ==> 0 <= #[trigger] pi[k] < done,
                forall|k: int, l: int| 0 <= k < l < pi.len() ==> #[trigger] pi[k] != #[trigger] pi[l],
                forall|i: int| 0 <= i < done ==> #[trigger] pi.contains(i),
                forall|k: int, l: int|
                    0 <= k < l < tree@.len() && node_tied(
                        #[trigger] tree@[k],
                        #[trigger] tree@[l],
                        by_stats,
                        stats@,
                    ) ==> pi[k] < pi[l],
                forall|k: int|
                    0 <= k < tree@.len() ==> stably_sorted_tree(
                        orig[pi[k]],
                        #[trigger] tree@[k],
                        by_stats,
                        stats@,
                    ),
                orig.len() == n0,
                done <= orig.len(),
                rest@ == orig.skip(done as int),
                forest_leaves(tree@).to_multiset() == forest_leaves(orig.take(done as int)).to_multiset(),
                sorted_forest(tree@, by_stats, stats@),
                forall|prefix: Seq<Seq<char>>, paths: Seq<Seq<Seq<char>>>, names: Seq<Seq<char>>|
                    placed_forest(orig, prefix, paths, names) ==> #[trigger] placed_forest(
                        tree@,
                        prefix,
                        paths,
                        names,
                    ),
                forall|prefix: Seq<Seq<char>>, gpaths: Seq<Seq<Seq<char>>>, gnames: Seq<Seq<char>>|
                    groups_placed_forest(orig, prefix, gpaths, gnames) ==> #[trigger] groups_placed_forest(
                        tree@,
                        prefix,
                        gpaths,
                        gnames,
                    ),
                forall|prefix: Seq<Seq<char>>|
                    (#[trigger] forest_groups(tree@, prefix)).to_multiset() == forest_groups(
                        orig.take(done as int),
                        prefix,
                    ).to_multiset(),
                forall|k: int|
                    0 <= k < tree@.len() && (#[trigger] tree@[k]) is Parent ==> exists|m: int|
                        0 <= m < done && orig[m] is Parent && node_name(orig[m]) == node_name(tree@[k]),
                distinct_forest(orig) ==> distinct_forest(tree@),
            decreases rest@.len(),
        {
            let node: EntryTree = rest.remove(0);
            let ghost gnode = node;
            assert(gnode == orig[done as int]);
            let sorted: EntryTree = match node {
                EntryTree::Leaf { raw_name, entry } => EntryTree::Leaf { raw_name, entry },
                EntryTree::Parent { raw_name, group, mut children } => {
                    let ghost old_children = children@;
                    proof {
                        assert(decreases_to!(orig => gnode));
                        assert(decreases_to!(gnode => old_children));
                    }
                    Self::sort_with(&mut children, by_stats, stats);
                    let ghost new_children = children@;
                    let p = EntryTree::Parent { raw_name, group, children };
                    proof {
                        assert forall|prefix: Seq<Seq<char>>|
                            (#[trigger] tree_groups(p, prefix)).to_multiset() == tree_groups(
                                gnode,
                                prefix,
                            ).to_multiset() by {
                            let path = prefix.push(raw_name@);
                            let e = seq![(path, group)];
                            assert(forest_groups(new_children, path).to_multiset() == forest_groups(
                                old_children,
                                path,
                            ).to_multiset());
                            assert((e + forest_groups(new_children, path)).to_multiset() =~= e.to_multiset().add(
                                forest_groups(new_children, path).to_multiset(),
                            ));
                            assert((e + forest_groups(old_children, path)).to_multiset() =~= e.to_multiset().add(
                                forest_groups(old_children, path).to_multiset(),
                            ));
                        }
                        assert(tree_leaves(gnode) == forest_leaves(old_children));
                        assert(tree_leaves(p) == forest_leaves(new_children));
                        assert(stably_sorted_tree(gnode, p, by_stats, stats@));
                        assert forall|prefix: Seq<Seq<char>>, paths: Seq<Seq<Seq<char>>>, names: Seq<Seq<char>>|
                            placed_tree(gnode, prefix, paths, names) implies #[trigger] placed_tree(
                            p,
                            prefix,
                            paths,
                            names,
                        ) by {
                            assert(placed_forest(old_children, prefix.push(raw_name@), paths, names));
                            assert(placed_forest(new_children, prefix.push(raw_name@), paths, names));
                        }
                        assert forall|prefix: Seq<Seq<char>>, gpaths: Seq<Seq<Seq<char>>>, gnames: Seq<Seq<char>>|
                            groups_placed_tree(gnode, prefix, gpaths, gnames) implies #[trigger] groups_placed_tree(
                            p,
                            prefix,
                            gpaths,
                            gnames,
                        ) by {
                            assert(groups_placed_forest(
                                old_children,
                                prefix.push(raw_name@),
                                gpaths,
                                gnames,
                            ));
                            assert(groups_placed_forest(
                                new_children,
                                prefix.push(raw_name@),
                                gpaths,
                                gnames,
                            ));
                        }
                    }
                    p
                },
            };
            proof {
                assert(tree_leaves(sorted).to_multiset() == tree_leaves(gnode).to_multiset());
                assert(sorted_tree(sorted, by_stats, stats@));
                assert(node_name(sorted) == node_name(gnode));
                assert((sorted is Leaf) == (gnode is Leaf));
                assert(stat_of(sorted, by_stats, stats@) == stat_of(gnode, by_stats, stats@));
                if gnode is Leaf {
                    assert(sorted == gnode);
                }
                assert(stably_sorted_tree(gnode, sorted, by_stats, stats@));
            }
            proof {
                assert forall|prefix: Seq<Seq<char>>|
                    (#[trigger] tree_groups(sorted, prefix)).to_multiset() == tree_groups(
                        gnode,
                        prefix,
                    ).to_multiset() by {
                    if gnode is Leaf {
                        assert(sorted == gnode);
                    }
                }
            }
            proof {
                if distinct_forest(orig) {
                    assert(distinct_tree(orig[done as int]));
                    assert(distinct_tree(sorted));
                }
            }
            let ghost before = tree@;
            let pos: usize = Self::insert_sorted(tree, sorted, by_stats, stats);
            proof {
                let p = pos as int;
                let old_pi = pi;
                pi = old_pi.insert(p, done as int);
                assert(tree@.len() == before.len() + 1);
                lemma_insert_keeps_stable(orig, before, old_pi, sorted, p, done as int, by_stats, stats@);
                assert forall|k: int| 0 <= k < tree@.len() implies #[trigger] tree@[k] == if k < p {
                    before[k]
                } else if k == p {
                    sorted
                } else {
                    before[k - 1]
                } by {}
                assert forall|k: int|
                    0 <= k < tree@.len() && (#[trigger] tree@[k]) is Parent implies exists|m: int|
                        0 <= m < done + 1 && orig[m] is Parent && node_name(orig[m]) == node_name(
                            tree@[k],
                        ) by {
                    if k == p {
                        assert(orig[done as int] is Parent && node_name(orig[done as int]) == node_name(tree@[k]));
                    } else {
                        let q = if k < p { k } else { k - 1 };
                        assert(before[q] is Parent);
                    }
                }
                if distinct_forest(orig) {
                    assert forall|a: int, b: int|
                        0 <= a < b < tree@.len() && tree@[a] is Parent && tree@[b] is Parent implies node_name(
                            #[trigger] tree@[a],
                        ) != node_name(#[trigger] tree@[b]) by {
                        if a != p && b != p {
                            let qa = if a < p { a } else { a - 1 };
                            let qb = if b < p { b } else { b - 1 };
                            assert(qa < qb);
                            assert(before[qa] is Parent && before[qb] is Parent);
                        } else {
                            let other = if a == p { b } else { a };
                            let q = if other < p { other } else { other - 1 };
                            assert(before[q] is Parent);
                            let m = choose|m: int|
                                0 <= m < done && orig[m] is Parent && node_name(orig[m]) == node_name(
                                    before[q],
                                );
                            assert(orig[m] is Parent && orig[done as int] is Parent);
                            assert(node_name(orig[m]) != node_name(orig[done as int]));
                        }
                    }
                    assert forall|k: int| 0 <= k < tree@.len() implies distinct_tree(#[trigger] tree@[k]) by {
                        if k != p {
                            let q = if k < p { k } else { k - 1 };
                            assert(distinct_tree(before[q]));
                        }
                    }
                }
                let t1 = orig.take(done + 1);
                assert(t1 =~= orig.take(done as int).push(gnode));
                assert forall|prefix: Seq<Seq<char>>|
                    (#[trigger] forest_groups(tree@, prefix)).to_multiset() == forest_groups(
                        t1,
                        prefix,
                    ).to_multiset() by {
                    lemma_forest_groups_push(orig.take(done as int), gnode, prefix);
                    assert(forest_groups(before, prefix).to_multiset() == forest_groups(
                        orig.take(done as int),
                        prefix,
                    ).to_multiset());
                    assert((forest_groups(orig.take(done as int), prefix) + tree_groups(gnode, prefix)).to_multiset()
                        =~= forest_groups(orig.take(done as int), prefix).to_multiset().add(
                        tree_groups(gnode, prefix).to_multiset(),
                    ));
                }
                lemma_forest_leaves_push(orig.take(done as int), gnode);
                assert forall|prefix: Seq<Seq<char>>, paths: Seq<Seq<Seq<char>>>, names: Seq<Seq<char>>|
                    placed_forest(orig, prefix, paths, names) implies #[trigger] placed_forest(
                    tree@,
                    prefix,
                    paths,
                    names,
                ) by {
                    assert(placed_tree(orig[done as int], prefix, paths, names));
                    assert(placed_tree(sorted, prefix, paths, names));
                }
                assert forall|prefix: Seq<Seq<char>>, gpaths: Seq<Seq<Seq<char>>>, gnames: Seq<Seq<char>>|
                    groups_placed_forest(orig, prefix, gpaths, gnames) implies #[trigger] groups_placed_forest(
                    tree@,
                    prefix,
                    gpaths,
                    gnames,
                ) by {
                    assert(groups_placed_tree(orig[done as int], prefix, gpaths, gnames));
                    assert(groups_placed_tree(sorted, prefix, gpaths, gnames));
                }
                assert(rest@ =~= orig.skip(done + 1));
            }
            done = done + 1;
        }
        assert(orig.take(done as int) =~= orig);
        assert(stable_level(orig, tree@, pi, by_stats, stats@));
    }

    /// Inserts `x` into the ordered level `tree` after the last node that
    /// may come before it.
    fn insert_sorted(
        tree: &mut Vec<EntryTree>,
        x: EntryTree,
        by_stats: bool,
        stats: &[Option<FineDuration>],
    ) -> (p: usize)
        requires
            sorted_forest(old(tree)@, by_stats, stats@),
            sorted_tree(x, by_stats, stats@),
        ensures
            forest_leaves(final(tree)@).to_multiset() == forest_leaves(old(tree)@).to_multiset().add(
                tree_leaves(x).to_multiset(),
            ),
            sorted_forest(final(tree)@, by_stats, stats@),
            forall|prefix: Seq<Seq<char>>, paths: Seq<Seq<Seq<char>>>, names: Seq<Seq<char>>|
                placed_forest(old(tree)@, prefix, paths, names) && placed_tree(x, prefix, paths, names)
                    ==> #[trigger] placed_forest(final(tree)@, prefix, paths, names),
            forall|prefix: Seq<Seq<char>>, gpaths: Seq<Seq<Seq<char>>>, gnames: Seq<Seq<char>>|
                groups_placed_forest(old(tree)@, prefix, gpaths, gnames) && groups_placed_tree(
                    x,
                    prefix,
                    gpaths,
                    gnames,
                ) ==> #[trigger] groups_placed_forest(final(tree)@, prefix, gpaths, gnames),
            forall|prefix: Seq<Seq<char>>|
                (#[trigger] forest_groups(final(tree)@, prefix)).to_multiset() == forest_groups(
                    old(tree)@,
                    prefix,
                ).to_multiset().add(tree_groups(x, prefix).to_multiset()),
            p <= old(tree)@.len(),
            final(tree)@ == old(tree)@.insert(p as int, x),
            forall|i: int| p <= i < old(tree)@.len() ==> !node_le(#[trigger] old(tree)@[i], x, by_stats, stats@),
    {
        let ghost ts = tree@;
        let mut p: usize = tree.len();
        while p > 0 && !Self::le(&tree[p - 1], &x, by_stats, stats)
            invariant
                tree@ == ts,
                p <= ts.len(),
                forall|i: int| p <= i < ts.len() ==> !node_le(#[trigger] ts[i], x, by_stats, stats@),
            decreases p,
        {
            p = p - 1;
        }
        tree.insert(p, x);
        proof {
            let nt = tree@;
            assert(nt =~= ts.take(p as int) + seq![x] + ts.skip(p as int));
            assert(nt == ts.insert(p as int, x));
            lemma_forest_leaves_append(ts.take(p as int) + seq![x], ts.skip(p as int));
            lemma_forest_leaves_append(ts.take(p as int), seq![x]);
            lemma_forest_leaves_single(x);
            assert(ts =~= ts.take(p as int) + ts.skip(p as int));
            lemma_forest_leaves_append(ts.take(p as int), ts.skip(p as int));
            assert forall|prefix: Seq<Seq<char>>|
                (#[trigger] forest_groups(nt, prefix)).to_multiset() == forest_groups(ts, prefix).to_multiset().add(
                    tree_groups(x, prefix).to_multiset(),
                ) by {
                lemma_forest_groups_append(ts.take(p as int) + seq![x], ts.skip(p as int), prefix);
                lemma_forest_groups_append(ts.take(p as int), seq![x], prefix);
                lemma_forest_groups_single(x, prefix);
                lemma_forest_groups_append(ts.take(p as int), ts.skip(p as int), prefix);
                let a = forest_groups(ts.take(p as int), prefix);
                let b = forest_groups(ts.skip(p as int), prefix);
                let c = tree_groups(x, prefix);
                assert((a + c + b).to_multiset() =~= (a + b).to_multiset().add(c.to_multiset()));
            }
            if p < ts.len() {
                lemma_node_le_total(ts[p as int], x, by_stats, stats@);
            }
            assert forall|i: int| 0 <= i < nt.len() - 1 implies node_le(
                #[trigger] nt[i],
                nt[i + 1],
                by_stats,
                stats@,
            ) by {
                if i < p - 1 {
                    assert(nt[i] == ts[i] && nt[i + 1] == ts[i + 1]);
                } else if i == p - 1 {
                    assert(nt[i] == ts[i] && nt[i + 1] == x);
                } else if i == p {
                    assert(nt[i] == x && nt[i + 1] == ts[p as int]);
                } else {
                    assert(nt[i] == ts[i - 1] && nt[i + 1] == ts[i]);
                }
            }
            assert forall|i: int| 0 <= i < nt.len() implies sorted_tree(#[trigger] nt[i], by_stats, stats@) by {
                if i < p {
                    assert(nt[i] == ts[i]);
                } else if i > p {
                    assert(nt[i] == ts[i - 1]);
                }
            }
            assert forall|prefix: Seq<Seq<char>>, paths: Seq<Seq<Seq<char>>>, names: Seq<Seq<char>>|
                placed_forest(ts, prefix, paths, names) && placed_tree(x, prefix, paths, names) implies #[trigger] placed_forest(
                nt,
                prefix,
                paths,
                names,
            ) by {
                assert forall|i: int| 0 <= i < nt.len() implies placed_tree(#[trigger] nt[i], prefix, paths, names) by {
                    if i < p {
                        assert(nt[i] == ts[i]);
                    } else if i > p {
                        assert(nt[i] == ts[i - 1]);
                    }
                }
            }
            assert forall|prefix: Seq<Seq<char>>, gpaths: Seq<Seq<Seq<char>>>, gnames: Seq<Seq<char>>|
                groups_placed_forest(ts, prefix, gpaths, gnames) && groups_placed_tree(x, prefix, gpaths, gnames) implies #[trigger] groups_placed_forest(
                nt,
                prefix,
                gpaths,
                gnames,
            ) by {
                assert forall|i: int| 0 <= i < nt.len() implies groups_placed_tree(#[trigger] nt[i], prefix, gpaths, gnames) by {
                    if i < p {
                        assert(nt[i] == ts[i]);
                    } else if i > p {
                        assert(nt[i] == ts[i - 1]);
                    }
                }
            }
        }
        p
    }

    /// Puts every level in name order (natural order), benchmarks before
    /// sub-groups; siblings with equal names keep their order. Only the
    /// order of siblings changes: every leaf and every parent, with its
    /// group, stays at its path.
    pub fn sort(tree: &mut Vec<EntryTree>, sort_by: SortBy)
        ensures
            forest_leaves(final(tree)@).to_multiset() == forest_leaves(old(tree)@).to_multiset(),
            sorted_forest(final(tree)@, false, seq![]),
            forall|prefix: Seq<Seq<char>>, paths: Seq<Seq<Seq<char>>>, names: Seq<Seq<char>>|
                placed_forest(old(tree)@, prefix, paths, names) ==> #[trigger] placed_forest(
                    final(tree)@,
                    prefix,
                    paths,
                    names,
                ),
            forall|prefix: Seq<Seq<char>>, gpaths: Seq<Seq<Seq<char>>>, gnames: Seq<Seq<char>>|
                groups_placed_forest(old(tree)@, prefix, gpaths, gnames) ==> #[trigger] groups_placed_forest(
                    final(tree)@,
                    prefix,
                    gpaths,
                    gnames,
                ),
            forall|prefix: Seq<Seq<char>>|
                (#[trigger] forest_groups(final(tree)@, prefix)).to_multiset() == forest_groups(
                    old(tree)@,
                    prefix,
                ).to_multiset(),
            distinct_forest(old(tree)@) ==> distinct_forest(final(tree)@),
            stably_sorted_forest(old(tree)@, final(tree)@, false, seq![]),
    {
        let none: Vec<Option<FineDuration>> = Vec::new();
        assert(none@ =~= Seq::<Option<FineDuration>>::empty());
        Self::sort_with(tree, false, none.as_slice());
    }

    /// Puts every level in order of the benchmarks' statistics: for a
    /// statistics sort order, benchmarks with a statistic in `stats`
    /// (indexed by benchmark) come first, fastest first, ties and the
    /// rest by name; sub-groups follow by name. Siblings that tie keep
    /// their order. For [`SortBy::Name`] this is [`EntryTree::sort`], and
    /// the contract is the same as that of [`EntryTree::sort`].
    pub fn sort_by_stats(tree: &mut Vec<EntryTree>, sort_by: SortBy, stats: &[Option<FineDuration>])
        ensures
            forest_leaves(final(tree)@).to_multiset() == forest_leaves(old(tree)@).to_multiset(),
            sorted_forest(final(tree)@, sort_by != SortBy::Name, sort_stats(sort_by, stats@)),
            forall|prefix: Seq<Seq<char>>, paths: Seq<Seq<Seq<char>>>, names: Seq<Seq<char>>|
                placed_forest(old(tree)@, prefix, paths, names) ==> #[trigger] placed_forest(
                    final(tree)@,
                    prefix,
                    paths,
                    names,
                ),
            forall|prefix: Seq<Seq<char>>, gpaths: Seq<Seq<Seq<char>>>, gnames: Seq<Seq<char>>|
                groups_placed_forest(old(tree)@, prefix, gpaths, gnames) ==> #[trigger] groups_placed_forest(
                    final(tree)@,
                    prefix,
                    gpaths,
                    gnames,
                ),
            forall|prefix: Seq<Seq<char>>|
                (#[trigger] forest_groups(final(tree)@, prefix)).to_multiset() == forest_groups(
                    old(tree)@,
                    prefix,
                ).to_multiset(),
            distinct_forest(old(tree)@) ==> distinct_forest(final(tree)@),
            stably_sorted_forest(
                old(tree)@,
                final(tree)@,
                sort_by != SortBy::Name,
                sort_stats(sort_by, stats@),
            ),
    {
        if sort_by == SortBy::Name {
            Self::sort(tree, sort_by);
        } else {
            Self::sort_with(tree, true, stats);
        }
    }
}

} // verus!