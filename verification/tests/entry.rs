use pbench::cli::SortBy;
use pbench::entry::meta::{EntryLocation, EntryMeta};
use pbench::entry::tree::EntryTree;
use pbench::time::FineDuration;
use pbench::util::natural::NaturalCmp;
use std::cmp::Ordering;

const LOC: EntryLocation = EntryLocation { file: "test.rs", line: 0, col: 0 };

fn meta(raw_name: &'static str, mod_path: &'static str) -> EntryMeta {
    EntryMeta { raw_name, mod_path, location: LOC }
}

#[test]
fn entry_tree_grouping() {
    let benches = vec![meta("bench1", "mod_a"), meta("bench2", "mod_a"), meta("bench1", "mod_b")];
    let tree: Vec<EntryTree> = EntryTree::from_entries(&benches, &[]);
    assert_eq!(tree.len(), 2);
    let mod_a: &EntryTree = &tree[0];
    assert_eq!(mod_a.raw_name(), "mod_a");
    assert_eq!(mod_a.children().len(), 2);
    let mod_b: &EntryTree = &tree[1];
    assert_eq!(mod_b.raw_name(), "mod_b");
    assert_eq!(mod_b.children().len(), 1);
}

#[test]
fn entry_tree_group_options() {
    let benches = vec![meta("bench1", "root::mod_a")];
    let groups = vec![meta("mod_a", "root")];
    let tree: Vec<EntryTree> = EntryTree::from_entries(&benches, &groups);
    assert_eq!(tree.len(), 1);
    let root: &EntryTree = &tree[0];
    assert_eq!(root.raw_name(), "root");
    assert_eq!(root.children().len(), 1);
    let mod_a: &EntryTree = &root.children()[0];
    assert_eq!(mod_a.raw_name(), "mod_a");
    let group: usize = mod_a.group().expect("mod_a should have a group entry");
    assert_eq!(group, 0);
    assert_eq!(root.group(), None);
}

#[test]
fn entry_tree_group_without_benches_creates_nothing() {
    let benches = vec![meta("bench1", "root")];
    let groups = vec![meta("other", "root")];
    let tree: Vec<EntryTree> = EntryTree::from_entries(&benches, &groups);
    assert_eq!(tree.len(), 1);
    assert_eq!(tree[0].children().len(), 1);
    assert_eq!(tree[0].children()[0].kind(), 0);
}

#[test]
fn entry_tree_retain() {
    let benches = vec![meta("bench1", "mod_a"), meta("bench2", "mod_a"), meta("bench1", "mod_b")];
    let mut tree: Vec<EntryTree> = EntryTree::from_entries(&benches, &[]);
    // Keep only entries whose path contains "bench1".
    let keep: Vec<bool> = benches
        .iter()
        .map(|m| format!("{}::{}", m.mod_path, m.raw_name).contains("bench1"))
        .collect();
    EntryTree::retain(&mut tree, &keep);
    assert_eq!(tree.len(), 2);
    assert_eq!(tree[0].raw_name(), "mod_a");
    assert_eq!(tree[0].children().len(), 1);
    assert_eq!(tree[1].raw_name(), "mod_b");
    assert_eq!(tree[1].children().len(), 1);
}

#[test]
fn entry_tree_retain_drops_empty_parents() {
    let benches = vec![meta("a", "m1"), meta("b", "m2")];
    let mut tree: Vec<EntryTree> = EntryTree::from_entries(&benches, &[]);
    EntryTree::retain(&mut tree, &[false, true]);
    assert_eq!(tree.len(), 1);
    assert_eq!(tree[0].raw_name(), "m2");
}

#[test]
fn natural_cmp_ordering() {
    assert_eq!(NaturalCmp::compare("bench_2", "bench_10"), Ordering::Less);
    assert_eq!(NaturalCmp::compare("a1b", "a2b"), Ordering::Less);
    assert_eq!(NaturalCmp::compare("a2b", "a10b"), Ordering::Less);
    assert_eq!(NaturalCmp::compare("bench_1", "bench_1"), Ordering::Equal);
    assert_eq!(NaturalCmp::compare("alpha", "beta"), Ordering::Less);
}

#[test]
fn natural_cmp_more_cases() {
    assert_eq!(NaturalCmp::compare("bench_10", "bench_2"), Ordering::Greater);
    assert_eq!(NaturalCmp::compare("x007", "x7"), Ordering::Greater);
    assert_eq!(NaturalCmp::compare("x7", "x007"), Ordering::Less);
    assert_eq!(NaturalCmp::compare("abc", "abcd"), Ordering::Less);
    assert_eq!(NaturalCmp::compare("", ""), Ordering::Equal);
    assert_eq!(NaturalCmp::compare("9", "a"), Ordering::Less);
}

#[test]
fn natural_cmp_is_transitive_on_a_chain() {
    let chain: [&str; 6] = ["a9", "a10", "a10b", "a010", "a11", "b"];
    for i in 0..chain.len() {
        for j in (i + 1)..chain.len() {
            assert_eq!(NaturalCmp::compare(chain[i], chain[j]), Ordering::Less, "{} < {}", chain[i], chain[j]);
            assert_eq!(NaturalCmp::compare(chain[j], chain[i]), Ordering::Greater);
        }
    }
}

#[test]
fn entry_tree_sort_by_name() {
    let benches = vec![
        meta("bench_10", "m"),
        meta("bench_2", "m"),
        meta("z", "m::inner"),
        meta("bench_1", "m"),
    ];
    let mut tree: Vec<EntryTree> = EntryTree::from_entries(&benches, &[]);
    EntryTree::sort(&mut tree, SortBy::Name);
    let names: Vec<&str> = tree[0].children().iter().map(|n| n.raw_name()).collect();
    assert_eq!(names, vec!["bench_1", "bench_2", "bench_10", "inner"]);
}

#[test]
fn entry_tree_sort_by_stats() {
    let benches = vec![meta("a", "m"), meta("b", "m"), meta("c", "m"), meta("d", "m")];
    let mut tree: Vec<EntryTree> = EntryTree::from_entries(&benches, &[]);
    let stats = vec![
        Some(FineDuration { picos: 300 }),
        None,
        Some(FineDuration { picos: 100 }),
        Some(FineDuration { picos: 300 }),
    ];
    EntryTree::sort_by_stats(&mut tree, SortBy::P50, &stats);
    let names: Vec<&str> = tree[0].children().iter().map(|n| n.raw_name()).collect();
    assert_eq!(names, vec!["c", "a", "d", "b"]);
}

#[test]
fn module_path_components_split() {
    let m = meta("x", "crate::mod_a::mod_b");
    assert_eq!(m.module_path_components(), vec!["crate", "mod_a", "mod_b"]);
    assert_eq!(meta("x", "single").module_path_components(), vec!["single"]);
    assert_eq!(meta("x", "").module_path_components(), vec![""]);
}

fn leaf_entries(level: &[EntryTree]) -> Vec<usize> {
    level
        .iter()
        .map(|n| match n {
            EntryTree::Leaf { entry, .. } => *entry,
            EntryTree::Parent { .. } => usize::MAX,
        })
        .collect()
}

#[test]
fn entry_tree_sort_keeps_equal_names_in_order() {
    let benches = vec![meta("same", "m"), meta("a", "m"), meta("same", "m"), meta("same", "m")];
    let mut tree: Vec<EntryTree> = EntryTree::from_entries(&benches, &[]);
    let before: Vec<usize> = leaf_entries(tree[0].children());
    EntryTree::sort(&mut tree, SortBy::Name);
    let names: Vec<&str> = tree[0].children().iter().map(|n| n.raw_name()).collect();
    assert_eq!(names, vec!["a", "same", "same", "same"]);
    let same_before: Vec<usize> = before.iter().copied().filter(|e| *e != 1).collect();
    let after: Vec<usize> = leaf_entries(tree[0].children());
    assert_eq!(after[0], 1);
    assert_eq!(after[1..].to_vec(), same_before);
}

#[test]
fn entry_tree_sort_by_stats_keeps_ties_in_order() {
    let benches = vec![meta("x", "m"), meta("x", "m"), meta("a", "m")];
    let mut tree: Vec<EntryTree> = EntryTree::from_entries(&benches, &[]);
    let before: Vec<usize> = leaf_entries(tree[0].children());
    let stats = vec![Some(FineDuration { picos: 5 }), Some(FineDuration { picos: 5 }), None];
    EntryTree::sort_by_stats(&mut tree, SortBy::Mean, &stats);
    let after: Vec<usize> = leaf_entries(tree[0].children());
    let tied_before: Vec<usize> = before.iter().copied().filter(|e| *e != 2).collect();
    assert_eq!(after[..2].to_vec(), tied_before);
    assert_eq!(after[2], 2);
}

#[test]
fn entry_tree_sort_by_stats_by_name_matches_sort() {
    let benches = vec![meta("b", "m"), meta("a", "m::g"), meta("b", "m"), meta("a", "m")];
    let stats = vec![Some(FineDuration { picos: 1 }), None, Some(FineDuration { picos: 0 }), None];
    let mut by_name: Vec<EntryTree> = EntryTree::from_entries(&benches, &[]);
    let mut plain: Vec<EntryTree> = EntryTree::from_entries(&benches, &[]);
    EntryTree::sort_by_stats(&mut by_name, SortBy::Name, &stats);
    EntryTree::sort(&mut plain, SortBy::Name);
    assert_eq!(leaf_entries(by_name[0].children()), leaf_entries(plain[0].children()));
    let names_a: Vec<&str> = by_name[0].children().iter().map(|n| n.raw_name()).collect();
    let names_b: Vec<&str> = plain[0].children().iter().map(|n| n.raw_name()).collect();
    assert_eq!(names_a, names_b);
    assert_eq!(names_a, vec!["a", "b", "b", "g"]);
}
