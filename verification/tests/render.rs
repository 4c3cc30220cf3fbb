use pbench::cli::SortBy;
use pbench::runner::Runner;
use pbench::entry::meta::{EntryLocation, EntryMeta};
use pbench::entry::tree::EntryTree;
use pbench::output::render::{BenchRecord, TableRenderer};
use pbench::output::table::TablePainter;
use pbench::stats::{PercentileSet, PercentileStats};
use pbench::time::FineDuration;

const LOC: EntryLocation = EntryLocation { file: "t.rs", line: 1, col: 1 };

fn meta(raw_name: &'static str, mod_path: &'static str) -> EntryMeta {
    EntryMeta { raw_name, mod_path, location: LOC }
}

fn stats(ns: u128) -> PercentileStats {
    let d = FineDuration { picos: ns * 1_000 };
    PercentileStats {
        sample_count: 10,
        iter_count: 10,
        min: d,
        max: d,
        mean: d,
        std_dev: FineDuration::zero(),
        percentiles: PercentileSet { p50: d, p95: d, p99: d, p99_9: d, p99_99: d },
    }
}

fn record(entry: usize, thread_count: u32, ns: u128) -> BenchRecord {
    BenchRecord { entry, thread_count, stats: stats(ns), throughput: None }
}

#[test]
fn record_index_and_thread_order() {
    let records = vec![record(1, 4, 10), record(0, 1, 20), record(1, 1, 30), record(1, 2, 40)];
    let index = TableRenderer::build_record_index(3, &records);
    assert_eq!(index, vec![vec![1], vec![0, 2, 3], vec![]]);
    let order = TableRenderer::order_by_threads(&index[1], &records);
    assert_eq!(order, vec![2, 3, 0]);
}

#[test]
fn paint_tree_rows() {
    let benches = vec![meta("alpha", "grp"), meta("beta", "grp"), meta("gamma", "grp")];
    let tree = EntryTree::from_entries(&benches, &[]);
    let records = vec![record(0, 1, 125), record(1, 2, 300), record(1, 1, 200)];
    let index = TableRenderer::build_record_index(benches.len(), &records);
    let span = TableRenderer::compute_name_spans(&tree, 0, &records, &index);
    assert_eq!(span, 9);
    let widths = TableRenderer::column_widths(&records);
    assert_eq!(widths, [6, 6, 6, 6, 6, 6]);
    let mut painter = TablePainter::new(span, widths);
    TableRenderer::paint_tree(&mut painter, &tree, &records, &index);
    let out = painter.take_output();
    let lines: Vec<&str> = out.lines().collect();
    assert!(lines[0].starts_with("grp"));
    assert!(lines[0].contains("p99.99"));
    assert!(lines[1].starts_with("├─ alpha"));
    assert!(lines[1].contains("125 ns"));
    assert!(lines[2].starts_with("├─ beta"));
    assert!(lines[3].starts_with("│  ├─ t=1"));
    assert!(lines[3].contains("200 ns"));
    assert!(lines[4].starts_with("│  ╰─ t=2"));
    assert!(lines[4].contains("300 ns"));
    assert!(lines[5].starts_with("╰─ gamma"));
    assert!(lines[5].contains("(ignored)"));
    assert_eq!(lines.len(), 7);
    assert_eq!(lines[6], "");
}

#[test]
fn render_whole_table() {
    let benches = vec![meta("alpha", "grp"), meta("beta", "grp"), meta("gamma", "grp")];
    let tree = EntryTree::from_entries(&benches, &[]);
    let records = vec![record(0, 1, 125), record(1, 2, 300), record(1, 1, 200)];
    let index = TableRenderer::build_record_index(benches.len(), &records);
    let span = TableRenderer::compute_name_spans(&tree, 0, &records, &index);
    let mut painter = TablePainter::new(span, TableRenderer::column_widths(&records));
    TableRenderer::paint_tree(&mut painter, &tree, &records, &index);
    let painted = painter.take_output();
    assert_eq!(TableRenderer::render(&tree, &records, benches.len()), Some(painted));

    let mut huge = record(0, 1, 1);
    huge.stats.percentiles.p99 = FineDuration { picos: u128::MAX };
    assert!(!TableRenderer::record_fits(&huge));
    assert_eq!(TableRenderer::render(&tree, &[huge], benches.len()), None);
}

#[test]
fn list_texts_pretty_and_terse() {
    let benches = vec![
        meta("b1", "crate_a::m1"),
        meta("b2", "crate_a::m1"),
        meta("top", "crate_a"),
        meta("solo", "crate_b"),
    ];
    let mut tree = EntryTree::from_entries(&benches, &[]);
    EntryTree::sort(&mut tree, SortBy::Name);
    assert_eq!(
        Runner::list_text(&tree),
        "crate_a\n├─ top\n╰─ m1\n   ├─ b1\n   ╰─ b2\ncrate_b\n╰─ solo\n"
    );
    assert_eq!(
        Runner::terse_text(&tree),
        "crate_a::top\ncrate_a::m1::b1\ncrate_a::m1::b2\ncrate_b::solo\n"
    );
}

#[test]
fn sort_picks_follow_the_sort_order() {
    let mut slow = record(1, 2, 300);
    slow.stats.mean = FineDuration { picos: 7 };
    slow.stats.percentiles.p99 = FineDuration { picos: 9 };
    let records = vec![record(0, 1, 125), slow];
    let p50 = Runner::sort_picks(SortBy::P50, &records);
    assert_eq!(p50, vec![(0, FineDuration { picos: 125_000 }), (1, FineDuration { picos: 300_000 })]);
    assert_eq!(Runner::sort_picks(SortBy::P99, &records)[1], (1, FineDuration { picos: 9 }));
    assert_eq!(Runner::sort_picks(SortBy::Mean, &records)[1], (1, FineDuration { picos: 7 }));
    assert_eq!(Runner::sort_picks(SortBy::Name, &records), p50);
}

#[test]
fn leaves_in_order_with_inherited_groups() {
    let benches = vec![meta("b1", "crate_a::m1"), meta("top", "crate_a"), meta("deep", "crate_a::m1::inner")];
    let groups = vec![meta("m1", "crate_a")];
    let mut tree = EntryTree::from_entries(&benches, &groups);
    EntryTree::sort(&mut tree, SortBy::Name);
    let leaves = Runner::leaves_in_order(&tree);
    assert_eq!(
        leaves,
        vec![
            (1, "crate_a::top".to_owned(), None),
            (0, "crate_a::m1::b1".to_owned(), Some(0)),
            (2, "crate_a::m1::inner::deep".to_owned(), Some(0)),
        ]
    );
}
