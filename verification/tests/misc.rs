use pbench::baseline::{check_schema_version, find_entry, BaselineEntry, IncompatibleVersion, SerializableStats, SCHEMA_VERSION};
use pbench::bencher::{CollectState, SamplingLoop, TuneStep};
use pbench::cli::{CliArgs, BytesFormat, OutputFormat, ParseError, RunIgnored, SortBy};
use pbench::stats::{PercentileSet, PercentileStats};
use pbench::thread::AtomicFlag;
use pbench::time::timer::{OverheadSearch, PrecisionSearch, PrecisionStep, TscTimer, TscUnavailable};
use pbench::time::FineDuration;
use std::time::Duration;

#[test]
fn atomic_flag_default_false() {
    let flag: AtomicFlag = AtomicFlag::new(false);
    assert!(!flag.get());
}

#[test]
fn atomic_flag_default_true() {
    let flag: AtomicFlag = AtomicFlag::new(true);
    assert!(flag.get());
}

#[test]
fn atomic_flag_roundtrip() {
    let flag: AtomicFlag = AtomicFlag::new(false);
    flag.set(true);
    assert!(flag.get());
    flag.set(false);
    assert!(!flag.get());
}

#[test]
fn should_run_cases() {
    assert!(RunIgnored::No.should_run(false));
    assert!(!RunIgnored::No.should_run(true));
    assert!(RunIgnored::Yes.should_run(true));
    assert!(RunIgnored::Yes.should_run(false));
    assert!(RunIgnored::Only.should_run(true));
    assert!(!RunIgnored::Only.should_run(false));
}

#[test]
fn parse_values() {
    let args = CliArgs::parse_from(&["--filter", "hashmap"]).unwrap();
    assert_eq!(args.filter, Some("hashmap".to_owned()));
    let args = CliArgs::parse_from(&["--save-baseline", "main"]).unwrap();
    assert_eq!(args.save_baseline, Some("main".to_owned()));
    let args = CliArgs::parse_from(&["--output", "json"]).unwrap();
    assert_eq!(args.output_format, OutputFormat::Json);
    let args = CliArgs::parse_from(&["--threshold", "10"]).unwrap();
    assert_eq!(args.threshold.parse::<f64>().unwrap(), 10.0);
    let args = CliArgs::parse_from(&["--sort", "p99"]).unwrap();
    assert_eq!(args.sort, SortBy::P99);
    let args = CliArgs::parse_from(&["--list", "--format", "terse"]).unwrap();
    assert!(args.list && args.list_terse);
    let args = CliArgs::parse_from(&["--bytes-format", "binary"]).unwrap();
    assert_eq!(args.bytes_format, BytesFormat::Binary);
    let args = CliArgs::parse_from(&["--filter", "bench", "--skip", "bench_slow"]).unwrap();
    assert_eq!(args.filter, Some("bench".to_owned()));
    assert_eq!(args.skip, vec!["bench_slow".to_owned()]);
    let args = CliArgs::parse_from(&["--ignored"]).unwrap();
    assert_eq!(args.run_ignored, RunIgnored::Only);
    let args = CliArgs::parse_from(&["--include-ignored"]).unwrap();
    assert_eq!(args.run_ignored, RunIgnored::Yes);
    let args = CliArgs::parse_from(&["--sample-count", "+250", "--sample-size", "8"]).unwrap();
    assert_eq!(args.sample_count, Some(250));
    assert_eq!(args.sample_size, Some(8));
    let args = CliArgs::parse_from(&["positional", "second"]).unwrap();
    assert_eq!(args.filter, Some("positional".to_owned()));
    let args = CliArgs::parse_from(&["--bench", "--test", "--help", "--bogus"]).unwrap();
    assert!(args.test && args.help);
}

#[test]
fn parse_errors() {
    let err: ParseError = CliArgs::parse_from(&["--output", "xml"]).unwrap_err();
    assert_eq!(err.message, "invalid output format 'xml'. Valid formats: table, json, csv");
    let err = CliArgs::parse_from(&["--sort", "invalid"]).unwrap_err();
    assert!(err.message.contains("invalid sort option"));
    let err = CliArgs::parse_from(&["--threshold", "abc"]).unwrap_err();
    assert!(err.message.contains("invalid threshold"));
    let err = CliArgs::parse_from(&["--unknown"]).unwrap_err();
    assert!(err.message.contains("unknown flag") && err.message.contains("--filter"));
    let err = CliArgs::parse_from(&["--filter"]).unwrap_err();
    assert_eq!(err.message, "flag '--filter' requires a value");
    let err = CliArgs::parse_from(&["--sample-count", "4294967296"]).unwrap_err();
    assert!(err.message.contains("invalid sample count"));
}

#[test]
fn parse_threads_and_min_time() {
    assert_eq!(CliArgs::parse_from(&["--threads", "1"]).unwrap().threads, Some(vec![1]));
    assert_eq!(CliArgs::parse_from(&["--threads", "1,2,4,8"]).unwrap().threads, Some(vec![1, 2, 4, 8]));
    assert_eq!(CliArgs::parse_from(&["--threads", "0,1,4"]).unwrap().threads, Some(vec![0, 1, 4]));
    let err = CliArgs::parse_from(&["--threads", "abc"]).unwrap_err();
    assert!(err.message.contains("invalid thread count"));
    let err = CliArgs::parse_from(&["--threads", "1,,2"]).unwrap_err();
    assert!(err.message.contains("invalid thread count"));
    assert_eq!(CliArgs::parse_from(&["--min-time", "500ms"]).unwrap().min_time, Some(Duration::from_millis(500)));
    assert_eq!(CliArgs::parse_from(&["--min-time", "2s"]).unwrap().min_time, Some(Duration::from_secs(2)));
    assert_eq!(CliArgs::parse_from(&["--min-time", "1500us"]).unwrap().min_time, Some(Duration::from_micros(1500)));
    assert_eq!(CliArgs::parse_from(&["--min-time", "100ns"]).unwrap().min_time, Some(Duration::from_nanos(100)));
    assert!(CliArgs::parse_from(&["--min-time", "500"]).unwrap_err().message.contains("missing unit"));
    assert!(CliArgs::parse_from(&["--min-time", "500xyz"]).unwrap_err().message.contains("unknown duration unit"));
    assert!(CliArgs::parse_from(&["--min-time", "ms"]).unwrap_err().message.contains("invalid duration"));
}

#[test]
fn parse_threshold_float_shapes() {
    for ok in ["5", "5.0", ".5", "5.", "-1e3", "+2.5E-2", "inf", "-Infinity", "NaN"] {
        let args = CliArgs::parse_from(&["--threshold", ok]).unwrap();
        assert_eq!(args.threshold, ok);
        assert!(ok.parse::<f64>().is_ok());
    }
    for bad in [".", "", "1e", "e5", "1.2.3", "--5", "infx"] {
        assert!(CliArgs::parse_from(&["--threshold", bad]).is_err(), "{bad} accepted");
        assert!(bad.parse::<f64>().is_err());
    }
}

#[test]
fn tuning_and_collection_decisions() {
    assert_eq!(SamplingLoop::tuning_threshold(FineDuration { picos: 20 }), 2_000);
    assert_eq!(SamplingLoop::tuning_threshold(FineDuration { picos: u128::MAX }), u128::MAX);
    let zero = FineDuration::zero();
    let budget = FineDuration { picos: 1_000 };
    assert_eq!(SamplingLoop::tune_step(4, FineDuration { picos: 2_000 }, 2_000, zero, budget), TuneStep::Done(4));
    assert_eq!(SamplingLoop::tune_step(4, FineDuration { picos: 10 }, 2_000, zero, budget), TuneStep::Again(8));
    assert_eq!(SamplingLoop::tune_step(4, FineDuration { picos: 10 }, 2_000, budget, budget), TuneStep::Done(8));
    assert_eq!(SamplingLoop::tune_step(600_000, FineDuration { picos: 10 }, 2_000, zero, budget), TuneStep::Done(1_200_000));
    assert_eq!(SamplingLoop::fixed_sample_size(Some(0)), Some(1));
    assert_eq!(SamplingLoop::fixed_sample_size(None), None);
    assert_eq!(SamplingLoop::per_iteration(FineDuration { picos: 1_000 }, 10, FineDuration { picos: 30 }).picos, 70);
    assert_eq!(SamplingLoop::per_iteration(FineDuration { picos: 100 }, 10, FineDuration { picos: 30 }).picos, 0);
    assert_eq!(SamplingLoop::round_count(10, 4), 3);
    assert_eq!(SamplingLoop::round_count(8, 4), 2);
    assert_eq!(SamplingLoop::round_count(0, 4), 0);
    let mut state = CollectState::new(2);
    let min = FineDuration { picos: 50 };
    let max = FineDuration { picos: 1_000 };
    assert!(state.should_continue(min, max));
    state.record_sample(FineDuration { picos: 40 }, FineDuration { picos: 45 }, 2, zero, false);
    state.record_sample(FineDuration { picos: 40 }, FineDuration { picos: 45 }, 2, zero, false);
    assert_eq!(state.remaining, 0);
    assert_eq!(state.elapsed_total.picos, 90);
    assert!(!state.should_continue(min, max));
    assert_eq!(state.samples.raw_picos(), vec![20, 20]);
    let mut round = CollectState::new(1);
    round.record_round(&[FineDuration { picos: 10 }, FineDuration { picos: 30 }], FineDuration { picos: 99 }, 1, zero, true);
    assert_eq!(round.elapsed_total.picos, 30);
    assert_eq!(round.samples.len(), 2);
}

#[test]
fn timer_decisions() {
    assert_eq!(TscTimer::with_frequency(0).unwrap_err(), TscUnavailable::ZeroFrequency);
    let t = TscTimer::with_frequency(1_000_000_000).unwrap();
    assert_eq!(t.elapsed(100, 350).picos, 250_000);
    assert_eq!(t.elapsed(350, 100).picos, 0);
    assert_eq!(TscUnavailable::VariableFrequency.message(), "variable TSC frequency");
    let mut search = PrecisionSearch::new();
    assert_eq!(search.observe(FineDuration::zero()), PrecisionStep::Continue);
    assert_eq!(search.observe(FineDuration { picos: 40 }), PrecisionStep::Continue);
    for _ in 0..99 {
        assert_eq!(search.observe(FineDuration { picos: 40 }), PrecisionStep::Continue);
    }
    assert_eq!(search.observe(FineDuration { picos: 40 }), PrecisionStep::Done(FineDuration { picos: 40 }));
    let mut overhead = OverheadSearch::new();
    assert_eq!(overhead.result().picos, 0);
    overhead.observe(FineDuration { picos: 50_000 }, 10_000);
    overhead.observe(FineDuration { picos: 30_000 }, 10_000);
    overhead.observe(FineDuration { picos: 5_000 }, 10_000);
    assert_eq!(overhead.result().picos, 3);
}

#[test]
fn baseline_conversions() {
    let stats = PercentileStats {
        sample_count: 3,
        iter_count: 30,
        min: FineDuration { picos: 1 },
        max: FineDuration { picos: 9 },
        mean: FineDuration { picos: 5 },
        std_dev: FineDuration { picos: 2 },
        percentiles: PercentileSet {
            p50: FineDuration { picos: 5 },
            p95: FineDuration { picos: 8 },
            p99: FineDuration { picos: 9 },
            p99_9: FineDuration { picos: 9 },
            p99_99: FineDuration { picos: 9 },
        },
    };
    let stored = SerializableStats::from_percentile_stats(&stats);
    assert_eq!(stored.p95_picos, 8);
    assert_eq!(stored.to_percentile_stats(), stats);
    let big = PercentileStats { max: FineDuration { picos: u128::from(u64::MAX) + 5 }, ..stats };
    assert_eq!(SerializableStats::from_percentile_stats(&big).max_picos, 4);
    assert_eq!(check_schema_version(1), Ok(()));
    assert_eq!(check_schema_version(SCHEMA_VERSION), Ok(()));
    assert_eq!(check_schema_version(99), Err(IncompatibleVersion { found: 99, expected: 2 }));
}

#[test]
fn baseline_entry_lookup_by_name_and_threads() {
    let stats: SerializableStats = SerializableStats::from_percentile_stats(&PercentileStats {
        sample_count: 1,
        iter_count: 1,
        min: FineDuration::zero(),
        max: FineDuration::zero(),
        mean: FineDuration::zero(),
        std_dev: FineDuration::zero(),
        percentiles: PercentileSet {
            p50: FineDuration::zero(),
            p95: FineDuration::zero(),
            p99: FineDuration::zero(),
            p99_9: FineDuration::zero(),
            p99_99: FineDuration::zero(),
        },
    });
    let entries: Vec<BaselineEntry> = vec![
        BaselineEntry { name: "m::a".to_owned(), thread_count: 1, stats },
        BaselineEntry { name: "m::a".to_owned(), thread_count: 4, stats },
        BaselineEntry { name: "m::b".to_owned(), thread_count: 4, stats },
    ];
    assert_eq!(find_entry(&entries, "m::a", 4), Some(1));
    assert_eq!(find_entry(&entries, "m::a", 1), Some(0));
    assert_eq!(find_entry(&entries, "m::b", 1), None);
    assert_eq!(find_entry(&entries, "m::c", 4), None);
}
