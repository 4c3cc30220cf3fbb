use std::f64::consts::PI;
use pbench::cli::BytesFormat;
use pbench::counter::CounterKind;
use pbench::output::csv::CsvRenderer;
use pbench::output::fmt::{Fmt, Scale, ScaleFormat};
use pbench::output::table::{TableColumn, TablePainter, COLUMN_COUNT};
use pbench::stats::{PercentileSet, PercentileStats};
use pbench::time::FineDuration;

fn stats_of(sample_count: u32, iter_count: u64, values: [u128; 9]) -> PercentileStats {
    PercentileStats {
        sample_count,
        iter_count,
        min: FineDuration { picos: values[0] },
        max: FineDuration { picos: values[1] },
        mean: FineDuration { picos: values[2] },
        std_dev: FineDuration { picos: values[3] },
        percentiles: PercentileSet {
            p50: FineDuration { picos: values[4] },
            p95: FineDuration { picos: values[5] },
            p99: FineDuration { picos: values[6] },
            p99_9: FineDuration { picos: values[7] },
            p99_99: FineDuration { picos: values[8] },
        },
    }
}

#[test]
fn csv_output_header_and_row() {
    let stats = stats_of(
        1000,
        10_000,
        [100_500, 620_800, 142_100, 15_300, 125_200, 180_300, 250_100, 410_500, 620_800],
    );
    let csv_str: String = CsvRenderer::render(&[("bench_a", 1, &stats)]);
    let lines: Vec<&str> = csv_str.lines().collect();
    assert_eq!(lines.len(), 2);
    assert!(lines[0].starts_with("name,threads,"));
    assert!(lines[0].contains("p50_picos"));
    assert!(lines[0].contains("p99_99_picos"));
    assert!(lines[0].contains("iter_count"));
    let cols: Vec<&str> = lines[1].split(',').collect();
    assert_eq!(cols[0], "bench_a");
    assert_eq!(cols[1], "1");
    assert_eq!(cols[2], "1000");
    assert_eq!(cols[3], "10000");
    assert_eq!(cols[4], "100500");
    assert_eq!(cols[5], "620800");
    assert_eq!(cols[6], "142100");
    assert_eq!(cols[7], "15300");
    assert_eq!(cols[8], "125200");
    assert_eq!(cols[9], "180300");
    assert_eq!(cols[10], "250100");
    assert_eq!(cols[11], "410500");
    assert_eq!(cols[12], "620800");
}

#[test]
fn csv_multiple_rows() {
    let stats_a = stats_of(100, 1_000, [50_000, 200_000, 100_000, 10_000, 90_000, 150_000, 180_000, 195_000, 200_000]);
    let stats_b = stats_of(
        200,
        2_000,
        [1_000_000, 5_000_000, 2_500_000, 500_000, 2_000_000, 4_000_000, 4_500_000, 4_800_000, 5_000_000],
    );
    let csv_str: String = CsvRenderer::render(&[("bench_a", 1, &stats_a), ("bench_b", 1, &stats_b)]);
    let lines: Vec<&str> = csv_str.lines().collect();
    assert_eq!(lines.len(), 3);
    assert!(lines[1].starts_with("bench_a,"));
    assert!(lines[2].starts_with("bench_b,"));
}

#[test]
fn csv_empty_results() {
    let csv_str: String = CsvRenderer::render(&[]);
    let lines: Vec<&str> = csv_str.lines().collect();
    assert_eq!(lines.len(), 1);
    assert!(lines[0].starts_with("name,threads,"));
}

#[test]
fn csv_threads_column_header_present() {
    let csv_str: String = CsvRenderer::render(&[]);
    let header: &str = csv_str.lines().next().unwrap();
    let cols: Vec<&str> = header.split(',').collect();
    assert_eq!(cols[0], "name");
    assert_eq!(cols[1], "threads");
    assert_eq!(cols[2], "sample_count");
}

#[test]
fn csv_threads_column_values() {
    let stats = stats_of(100, 1_000, [50_000, 200_000, 100_000, 10_000, 90_000, 150_000, 180_000, 195_000, 200_000]);
    let csv_str: String = CsvRenderer::render(&[("insert_1k", 1, &stats), ("insert_1k", 4, &stats)]);
    let lines: Vec<&str> = csv_str.lines().collect();
    assert_eq!(lines.len(), 3);
    let row1_cols: Vec<&str> = lines[1].split(',').collect();
    assert_eq!(row1_cols[0], "insert_1k");
    assert_eq!(row1_cols[1], "1");
    let row2_cols: Vec<&str> = lines[2].split(',').collect();
    assert_eq!(row2_cols[0], "insert_1k");
    assert_eq!(row2_cols[1], "4");
}

#[test]
fn scale_format_bytes_format() {
    let sf: ScaleFormat = ScaleFormat::Bytes(BytesFormat::Binary);
    assert!(matches!(sf.bytes_format(), BytesFormat::Binary));
    let sf: ScaleFormat = ScaleFormat::BytesThroughput(BytesFormat::Decimal);
    assert!(matches!(sf.bytes_format(), BytesFormat::Decimal));
    let sf: ScaleFormat = ScaleFormat::CharsThroughput;
    assert!(matches!(sf.bytes_format(), BytesFormat::Decimal));
    let sf: ScaleFormat = ScaleFormat::CyclesThroughput;
    assert!(matches!(sf.bytes_format(), BytesFormat::Decimal));
    let sf: ScaleFormat = ScaleFormat::ItemsThroughput;
    assert!(matches!(sf.bytes_format(), BytesFormat::Decimal));
}

#[test]
fn scale_format_throughput() {
    assert!(matches!(
        ScaleFormat::throughput(CounterKind::Bytes, BytesFormat::Binary),
        ScaleFormat::BytesThroughput(BytesFormat::Binary)
    ));
    assert!(matches!(
        ScaleFormat::throughput(CounterKind::Chars, BytesFormat::Decimal),
        ScaleFormat::CharsThroughput
    ));
    assert!(matches!(
        ScaleFormat::throughput(CounterKind::Cycles, BytesFormat::Decimal),
        ScaleFormat::CyclesThroughput
    ));
    assert!(matches!(
        ScaleFormat::throughput(CounterKind::Items, BytesFormat::Decimal),
        ScaleFormat::ItemsThroughput
    ));
}

#[test]
fn scale_suffixes() {
    assert_eq!(Scale::One.suffix(ScaleFormat::Bytes(BytesFormat::Decimal)), "B");
    assert_eq!(Scale::Kilo.suffix(ScaleFormat::Bytes(BytesFormat::Decimal)), "KB");
    assert_eq!(Scale::Mega.suffix(ScaleFormat::Bytes(BytesFormat::Binary)), "MiB");
    assert_eq!(Scale::Giga.suffix(ScaleFormat::BytesThroughput(BytesFormat::Binary)), "GiB/s");
    assert_eq!(Scale::Tera.suffix(ScaleFormat::BytesThroughput(BytesFormat::Decimal)), "TB/s");
    assert_eq!(Scale::Peta.suffix(ScaleFormat::CharsThroughput), "Pchar/s");
    assert_eq!(Scale::Mega.suffix(ScaleFormat::CyclesThroughput), "MHz");
    assert_eq!(Scale::One.suffix(ScaleFormat::ItemsThroughput), "item/s");
    assert_eq!(Scale::One.suffix(ScaleFormat::BytesThroughput(BytesFormat::Binary)), "B/s");
}

#[test]
fn format_f64_texts() {
    assert_eq!(Fmt::format_f64("1.5", 4), "1.5");
    assert_eq!(Fmt::format_f64("100", 4), "100");
    assert_eq!(Fmt::format_f64("1.234567", 4), "1.234");
    assert_eq!(Fmt::format_f64("1.999", 3), "1.99");
    assert_eq!(Fmt::format_f64("0.5", 4), "0.5");
    assert_eq!(Fmt::format_f64("0.001234", 4), "0.001234");
    assert_eq!(Fmt::format_f64("0.001234", 2), "0.0012");
    assert_eq!(Fmt::format_f64("-3.141592653589793", 4), "-3.141");
    assert_eq!(Fmt::format_f64("-0.001234", 4), "-0.001234");
    assert_eq!(Fmt::format_f64("NaN", 4), "NaN");
    assert_eq!(Fmt::format_f64("inf", 4), "inf");
    assert_eq!(Fmt::format_f64("-inf", 4), "-inf");
    assert_eq!(Fmt::format_f64("12345.678", 4), "12345");
    assert_eq!(Fmt::format_f64("1.000", 4), "1");
}

#[test]
fn format_scaled_bytes() {
    assert_eq!(Fmt::format_scaled("1", 4, Scale::Kilo, ScaleFormat::Bytes(BytesFormat::Decimal)), "1 KB");
    assert_eq!(Fmt::format_scaled("1", 4, Scale::Kilo, ScaleFormat::Bytes(BytesFormat::Binary)), "1 KiB");
}

fn make_stats(p50_ns: u64, p95_ns: u64, p99_ns: u64, p99_9_ns: u64, p99_99_ns: u64, mean_ns: u64) -> PercentileStats {
    let to_fd = |ns: u64| -> FineDuration { FineDuration { picos: u128::from(ns) * 1_000 } };
    PercentileStats {
        sample_count: 100,
        iter_count: 10_000,
        min: to_fd(p50_ns),
        max: to_fd(p99_99_ns),
        mean: to_fd(mean_ns),
        std_dev: FineDuration::zero(),
        percentiles: PercentileSet {
            p50: to_fd(p50_ns),
            p95: to_fd(p95_ns),
            p99: to_fd(p99_ns),
            p99_9: to_fd(p99_9_ns),
            p99_99: to_fd(p99_99_ns),
        },
    }
}

fn render<F: FnOnce(&mut TablePainter)>(max_name_span: usize, f: F) -> String {
    let widths: [usize; 6] = [10; 6];
    let mut painter: TablePainter = TablePainter::new(max_name_span, widths);
    f(&mut painter);
    painter.take_output()
}

#[test]
fn table_renders_header() {
    let output: String = render(20, |p: &mut TablePainter| {
        p.start_parent("my_benches", false);
        p.finish_parent();
    });
    for label in ["p50", "p95", "p99", "p99.9", "p99.99", "mean"] {
        assert!(output.contains(label), "expected '{label}' in header:\n{output}");
    }
}

#[test]
fn table_renders_row() {
    let stats: PercentileStats = make_stats(125, 180, 250, 411, 621, 142);
    let output: String = render(20, |p: &mut TablePainter| {
        p.start_parent("group", false);
        p.write_leaf("bench_1", &stats, None, true);
        p.finish_parent();
    });
    assert!(output.contains("bench_1"), "expected 'bench_1' in output:\n{output}");
    assert!(output.contains("125 ns"), "expected '125 ns' in output:\n{output}");
}

#[test]
fn table_tree_structure() {
    let stats: PercentileStats = make_stats(125, 180, 250, 411, 621, 142);
    let output: String = render(20, |p: &mut TablePainter| {
        p.start_parent("group", false);
        p.write_leaf("bench_1", &stats, None, false);
        p.write_leaf("bench_2", &stats, None, true);
        p.finish_parent();
    });
    assert!(output.contains("\u{251c}\u{2500} bench_1"), "output:\n{output}");
    assert!(output.contains("\u{2570}\u{2500} bench_2"), "output:\n{output}");
}

#[test]
fn ignored_leaf_placeholder() {
    let output: String = render(20, |p: &mut TablePainter| {
        p.start_parent("group", false);
        p.write_ignored_leaf("skipped_bench", true);
        p.finish_parent();
    });
    assert!(output.contains("(ignored)"), "output:\n{output}");
    assert!(output.contains("skipped_bench"), "output:\n{output}");
}

#[test]
fn nested_group_tree_structure() {
    let stats: PercentileStats = make_stats(125, 180, 250, 411, 621, 142);
    let output: String = render(30, |p: &mut TablePainter| {
        p.start_parent("top", false);
        p.start_parent("nested", true);
        p.write_leaf("inner_bench", &stats, None, true);
        p.finish_parent();
        p.finish_parent();
    });
    assert!(output.contains("top"), "output:\n{output}");
    assert!(output.contains("nested"), "output:\n{output}");
    assert!(output.contains("inner_bench"), "output:\n{output}");
    assert!(output.contains("\u{2570}\u{2500} inner_bench"), "output:\n{output}");
}

#[test]
fn write_leaf_with_throughput() {
    let stats: PercentileStats = make_stats(1_000_000, 1_200_000, 1_500_000, 2_000_000, 3_000_000, 1_100_000);
    let format: ScaleFormat = ScaleFormat::throughput(CounterKind::Bytes, BytesFormat::Decimal);
    // 1_000_000 bytes per iteration at 1 ms per iteration: 1 GB/s.
    let cells: Vec<String> = (0..COLUMN_COUNT)
        .map(|_| Fmt::format_scaled("1", 4, Scale::Giga, format))
        .collect();
    let output: String = render(20, |p: &mut TablePainter| {
        p.start_parent("group", false);
        p.write_leaf("io_bench", &stats, Some(&cells), true);
        p.finish_parent();
    });
    assert!(output.contains("io_bench"), "output:\n{output}");
    assert!(output.contains("B/s"), "output:\n{output}");
}

#[test]
fn prefix_restores_after_nested_groups() {
    let stats: PercentileStats = make_stats(100, 200, 300, 400, 500, 150);
    let output: String = render(30, |p: &mut TablePainter| {
        p.start_parent("root", false);
        p.start_parent("group_a", false);
        p.write_leaf("a_bench", &stats, None, true);
        p.finish_parent();
        p.start_parent("group_b", true);
        p.write_leaf("b_bench", &stats, None, true);
        p.finish_parent();
        p.finish_parent();
    });
    assert!(output.contains("a_bench"), "output:\n{output}");
    assert!(output.contains("b_bench"), "output:\n{output}");
    // Both nested groups' leaves sit under the same restored prefix.
    assert!(output.contains("\u{2502}  \u{2570}\u{2500} a_bench"), "output:\n{output}");
    assert!(output.contains("   \u{2570}\u{2500} b_bench"), "output:\n{output}");
}

#[test]
fn table_exact_lines() {
    let widths: [usize; 6] = [3, 3, 3, 5, 6, 4];
    let mut p: TablePainter = TablePainter::new(5, widths);
    p.start_parent("g", true);
    p.write_ignored_leaf("x", true);
    p.finish_parent();
    let out: String = p.take_output();
    let lines: Vec<&str> = out.split('\n').collect();
    assert_eq!(lines[0], "g      p50 │ p95 │ p99 │ p99.9 │ p99.99 │ mean");
    assert_eq!(lines[1], "╰─ x   (ignored) │     │     │       │        │");
    assert_eq!(lines[2], "");
    assert_eq!(TableColumn::P99_9.name(), "p99.9");
}

#[test]
fn format_f64_trims_trailing_zeros() {
    let result: String = Fmt::format_f64(&f64::to_string(&1.500), 4);
    assert_eq!(result, "1.5");
}

#[test]
fn format_f64_whole_number() {
    let result: String = Fmt::format_f64(&f64::to_string(&100.0), 4);
    assert_eq!(result, "100");
}

#[test]
fn format_f64_preserves_significant_digits() {
    let result: String = Fmt::format_f64(&f64::to_string(&1.234_567), 4);
    assert_eq!(result, "1.234");
}

#[test]
fn format_f64_truncates_not_rounds() {
    // 1.999 with sig_figs=3 → 1 int digit + 2 frac → "1.99" (not "2.0")
    let result: String = Fmt::format_f64(&f64::to_string(&1.999), 3);
    assert_eq!(result, "1.99");
}

#[test]
fn format_f64_sub_one() {
    // 0.5 → int_sig=0, no leading zeros, fract_digits=4 → "0.5"
    let result: String = Fmt::format_f64(&f64::to_string(&0.5), 4);
    assert_eq!(result, "0.5");
}

#[test]
fn format_f64_sub_one_with_leading_zeros() {
    // 0.001234 → int_sig=0, leading_zeros=2, fract_digits=4+2=6 → "0.001234"
    let result: String = Fmt::format_f64(&f64::to_string(&0.001_234), 4);
    assert_eq!(result, "0.001234");
}

#[test]
fn format_f64_sub_one_two_sig_figs() {
    // 0.001234 with sig_figs=2 → leading_zeros=2, fract_digits=2+2=4 → "0.0012"
    let result: String = Fmt::format_f64(&f64::to_string(&0.001_234), 2);
    assert_eq!(result, "0.0012");
}

#[test]
fn format_f64_negative() {
    // -3.14159 → abs_int="3", int_sig=1, fract_digits=3 → "-3.141"
    let result: String = Fmt::format_f64(&f64::to_string(&-PI), 4);
    assert_eq!(result, "-3.141");
}

#[test]
fn format_f64_negative_sub_one() {
    // -0.001234 → abs_int="0", int_sig=0, leading_zeros=2,
    // fract_digits=4+2=6 → "-0.001234"
    let result: String = Fmt::format_f64(&f64::to_string(&-0.001_234), 4);
    assert_eq!(result, "-0.001234");
}

#[test]
fn format_f64_nan_passthrough() {
    let result: String = Fmt::format_f64(&f64::to_string(&f64::NAN), 4);
    assert_eq!(result, "NaN");
}

#[test]
fn format_f64_infinity_passthrough() {
    let result: String = Fmt::format_f64(&f64::to_string(&f64::INFINITY), 4);
    assert_eq!(result, "inf");
}

#[test]
fn format_f64_neg_infinity_passthrough() {
    let result: String = Fmt::format_f64(&f64::to_string(&f64::NEG_INFINITY), 4);
    assert_eq!(result, "-inf");
}
