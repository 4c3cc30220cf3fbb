//! Command-line options of the benchmark runner.

pub mod values;

use std::time::Duration;
use vstd::prelude::*;

use crate::cli::values::{
    float_text_ok, float_text_ok_exec, parse_duration, parse_duration_exec, parse_u32_list,
    parse_u32_list_exec, parse_unsigned, parse_unsigned_range, starts_with, text_eq,
    DurationError,
};
use crate::text::{char_vec, push_str};
use crate::time::duration::duration_as_nanos;

verus! {

/// Output format for benchmark results.
#[derive(Clone, Copy, Debug, Default, PartialEq, Eq, Structural)]
pub enum OutputFormat {
    /// Human-readable terminal table with tree structure.
    #[default]
    Table,
    /// Machine-readable JSON.
    Json,
    /// Machine-readable CSV.
    Csv,
}

/// Sort order for benchmark entries.
#[derive(Clone, Copy, Debug, Default, PartialEq, Eq, Structural)]
pub enum SortBy {
    /// By name in natural order (`bench_2` before `bench_10`).
    #[default]
    Name,
    /// By median duration, fastest first.
    P50,
    /// By 99th-percentile duration, fastest first.
    P99,
    /// By mean duration, fastest first.
    Mean,
}

/// Which benchmarks run with respect to their `ignore` flag.
#[derive(Clone, Copy, Debug, Default, PartialEq, Eq, Structural)]
pub enum RunIgnored {
    /// Skip ignored benchmarks.
    #[default]
    No,
    /// Run ignored and non-ignored benchmarks.
    Yes,
    /// Run only ignored benchmarks.
    Only,
}

impl RunIgnored {
    /// Whether a benchmark with the given `ignored` flag runs.
    pub fn should_run(self, ignored: bool) -> (r: bool)
        ensures
            self == RunIgnored::No ==> r == !ignored,
            self == RunIgnored::Yes ==> r,
            self == RunIgnored::Only ==> r == ignored,
    {
        match self {
            RunIgnored::No => !ignored,
            RunIgnored::Yes => true,
            RunIgnored::Only => ignored,
        }
    }
}

/// Display of byte quantities.
#[derive(Clone, Copy, Debug, Default, PartialEq, Eq, Structural)]
pub enum BytesFormat {
    /// Powers of 1000 (KB, MB, GB).
    #[default]
    Decimal,
    /// Powers of 1024 (KiB, MiB, GiB).
    Binary,
}

/// Parsed command-line options of the benchmark runner.
#[derive(Clone, Debug)]
pub struct CliArgs {
    /// Inclusive filter: only run benchmarks matching this pattern.
    pub filter: Option<String>,
    /// Exclusive filters: skip benchmarks matching these patterns; they
    /// take priority over `filter`.
    pub skip: Vec<String>,
    /// Print benchmark names with tree structure, then exit.
    pub list: bool,
    /// Print benchmark names one per line.
    pub list_terse: bool,
    /// Run benchmarks once without timing.
    pub test: bool,
    /// Whether to run ignored benchmarks.
    pub run_ignored: RunIgnored,
    /// Output format for results.
    pub output_format: OutputFormat,
    /// Bytes display format for throughput counters.
    pub bytes_format: BytesFormat,
    /// Save results as a named baseline.
    pub save_baseline: Option<String>,
    /// Compare results against a named baseline.
    pub baseline: Option<String>,
    /// Regression threshold percentage, as the number text given (it
    /// always parses as an `f64`).
    pub threshold: String,
    /// Sort order for benchmark entries.
    pub sort: SortBy,
    /// Override of the sample count.
    pub sample_count: Option<u32>,
    /// Override of the sample size (iterations per sample).
    pub sample_size: Option<u32>,
    /// Thread counts to run each benchmark with (`0`: all available).
    pub threads: Option<Vec<u32>>,
    /// Minimum run time of each benchmark.
    pub min_time: Option<Duration>,
    /// Help was asked for; parsing stopped there.
    pub help: bool,
}

/// What a command line sets, as plain values.
pub struct CliModel {
    pub filter: Option<Seq<char>>,
    pub skip: Seq<Seq<char>>,
    pub list: bool,
    pub list_terse: bool,
    pub test: bool,
    pub run_ignored: RunIgnored,
    pub output_format: OutputFormat,
    pub bytes_format: BytesFormat,
    pub save_baseline: Option<Seq<char>>,
    pub baseline: Option<Seq<char>>,
    pub threshold: Seq<char>,
    pub sort: SortBy,
    pub sample_count: Option<u32>,
    pub sample_size: Option<u32>,
    pub threads: Option<Seq<u32>>,
    /// The minimum time in nanoseconds.
    pub min_time: Option<nat>,
    pub help: bool,
}

/// The view of an optional string.
pub open spec fn opt_view(o: Option<String>) -> Option<Seq<char>> {
    match o {
        Some(s) => Some(s@),
        None => None,
    }
}

impl View for CliArgs {
    type V = CliModel;

    open spec fn view(&self) -> CliModel {
        CliModel {
            filter: opt_view(self.filter),
            skip: self.skip@.map_values(|s: String| s@),
            list: self.list,
            list_terse: self.list_terse,
            test: self.test,
            run_ignored: self.run_ignored,
            output_format: self.output_format,
            bytes_format: self.bytes_format,
            save_baseline: opt_view(self.save_baseline),
            baseline: opt_view(self.baseline),
            threshold: self.threshold@,
            sort: self.sort,
            sample_count: self.sample_count,
            sample_size: self.sample_size,
            threads: match self.threads {
                Some(v) => Some(v@),
                None => None,
            },
            min_time: match self.min_time {
                Some(d) => Some(duration_as_nanos(d) as nat),
                None => None,
            },
            help: self.help,
        }
    }
}

/// The options before any argument is read: everything off or empty,
/// the default enums, and a threshold of `5.0` percent.
pub open spec fn default_model() -> CliModel {
    CliModel {
        filter: None,
        skip: seq![],
        list: false,
        list_terse: false,
        test: false,
        run_ignored: RunIgnored::No,
        output_format: OutputFormat::Table,
        bytes_format: BytesFormat::Decimal,
        save_baseline: None,
        baseline: None,
        threshold: "5.0"@,
        sort: SortBy::Name,
        sample_count: None,
        sample_size: None,
        threads: None,
        min_time: None,
        help: false,
    }
}

impl Default for CliArgs {
    fn default() -> (r: Self)
        ensures
            r@ == default_model(),
    {
        let mut threshold: String = String::new();
        push_str(&mut threshold, "5.0");
        let r = CliArgs {
            filter: None,
            skip: Vec::new(),
            list: false,
            list_terse: false,
            test: false,
            run_ignored: RunIgnored::No,
            output_format: OutputFormat::Table,
            bytes_format: BytesFormat::Decimal,
            save_baseline: None,
            baseline: None,
            threshold,
            sort: SortBy::Name,
            sample_count: None,
            sample_size: None,
            threads: None,
            min_time: None,
            help: false,
        };
        assert(r@.skip =~= Seq::<Seq<char>>::empty());
        r
    }
}

/// A command-line error with a human-readable message.
#[derive(Debug)]
pub struct ParseError {
    /// Error message to display.
    pub message: String,
}

impl ParseError {
    /// An error with the given message.
    pub fn new(message: String) -> (r: Self)
        ensures
            r.message@ == message@,
    {
        ParseError { message }
    }
}

/// Kinds of command-line arguments.
#[derive(Clone, Copy, Debug, PartialEq, Eq, Structural)]
pub enum Flag {
    Filter,
    Skip,
    Output,
    BytesFormat,
    SaveBaseline,
    Baseline,
    Threshold,
    Sort,
    SampleCount,
    SampleSize,
    Format,
    Threads,
    MinTime,
    List,
    Test,
    Ignored,
    IncludeIgnored,
    Help,
    /// Flags of the cargo test harness, accepted and ignored.
    Harness,
    /// Any other argument starting with `--`.
    Unknown,
    /// An argument not starting with `--`: a filter.
    Positional,
}

/// The kind of the argument `a`.
pub open spec fn flag_of(a: Seq<char>) -> Flag {
    if a == "--filter"@ {
        Flag::Filter
    } else if a == "--skip"@ {
        Flag::Skip
    } else if a == "--output"@ {
        Flag::Output
    } else if a == "--bytes-format"@ {
        Flag::BytesFormat
    } else if a == "--save-baseline"@ {
        Flag::SaveBaseline
    } else if a == "--baseline"@ {
        Flag::Baseline
    } else if a == "--threshold"@ {
        Flag::Threshold
    } else if a == "--sort"@ {
        Flag::Sort
    } else if a == "--sample-count"@ {
        Flag::SampleCount
    } else if a == "--sample-size"@ {
        Flag::SampleSize
    } else if a == "--format"@ {
        Flag::Format
    } else if a == "--threads"@ {
        Flag::Threads
    } else if a == "--min-time"@ {
        Flag::MinTime
    } else if a == "--list"@ {
        Flag::List
    } else if a == "--test"@ {
        Flag::Test
    } else if a == "--ignored"@ {
        Flag::Ignored
    } else if a == "--include-ignored"@ {
        Flag::IncludeIgnored
    } else if a == "--help"@ || a == "-h"@ {
        Flag::Help
    } else if a == "--bench"@ || a == "--nocapture"@ || a == "--show-output"@ {
        Flag::Harness
    } else if a.len() >= 2 && a.take(2) == "--"@ {
        Flag::Unknown
    } else {
        Flag::Positional
    }
}

/// Whether a flag takes the next argument as its value.
pub open spec fn takes_value(f: Flag) -> bool {
    match f {
        Flag::Filter | Flag::Skip | Flag::Output | Flag::BytesFormat | Flag::SaveBaseline
        | Flag::Baseline | Flag::Threshold | Flag::Sort | Flag::SampleCount | Flag::SampleSize
        | Flag::Format | Flag::Threads | Flag::MinTime => true,
        _ => false,
    }
}

/// The kind of an argument.
pub fn classify(a: &Vec<char>) -> (r: Flag)
    ensures
        r == flag_of(a@),
{
    if text_eq(a, "--filter") {
        Flag::Filter
    } else if text_eq(a, "--skip") {
        Flag::Skip
    } else if text_eq(a, "--output") {
        Flag::Output
    } else if text_eq(a, "--bytes-format") {
        Flag::BytesFormat
    } else if text_eq(a, "--save-baseline") {
        Flag::SaveBaseline
    } else if text_eq(a, "--baseline") {
        Flag::Baseline
    } else if text_eq(a, "--threshold") {
        Flag::Threshold
    } else if text_eq(a, "--sort") {
        Flag::Sort
    } else if text_eq(a, "--sample-count") {
        Flag::SampleCount
    } else if text_eq(a, "--sample-size") {
        Flag::SampleSize
    } else if text_eq(a, "--format") {
        Flag::Format
    } else if text_eq(a, "--threads") {
        Flag::Threads
    } else if text_eq(a, "--min-time") {
        Flag::MinTime
    } else if text_eq(a, "--list") {
        Flag::List
    } else if text_eq(a, "--test") {
        Flag::Test
    } else if text_eq(a, "--ignored") {
        Flag::Ignored
    } else if text_eq(a, "--include-ignored") {
        Flag::IncludeIgnored
    } else if text_eq(a, "--help") || text_eq(a, "-h") {
        Flag::Help
    } else if text_eq(a, "--bench") || text_eq(a, "--nocapture") || text_eq(a, "--show-output") {
        Flag::Harness
    } else if starts_with(a, "--") {
        proof {
            reveal_strlit("--");
        }
        Flag::Unknown
    } else {
        proof {
            reveal_strlit("--");
        }
        Flag::Positional
    }
}

/// `pre`, then `v`, then `post`.
pub open spec fn framed(pre: Seq<char>, v: Seq<char>, post: Seq<char>) -> Seq<char> {
    pre + v + post
}

/// The error for a value flag given last, with no value after it.
pub open spec fn missing_value_message(flag: Seq<char>) -> Seq<char> {
    framed("flag '"@, flag, "' requires a value"@)
}

/// The error for an unknown flag.
pub open spec fn unknown_flag_message(flag: Seq<char>) -> Seq<char> {
    framed(
        "unknown flag '"@,
        flag,
        "'. Available flags: --filter, --skip, --list, --test, --output, --sort, --threshold, --save-baseline, --baseline, --sample-count, --sample-size, --threads, --min-time, --ignored, --include-ignored, --bytes-format, --format, --help"@,
    )
}

/// The error for a duration text that does not parse.
pub open spec fn duration_message(e: DurationError, v: Seq<char>) -> Seq<char> {
    match e {
        DurationError::InvalidNumber => framed(
            "invalid duration '"@,
            v,
            "'. Expected a number followed by a unit (ns, us, ms, s)"@,
        ),
        DurationError::MissingUnit => framed(
            "missing unit in duration '"@,
            v,
            "'. Expected one of: ns, us, ms, s"@,
        ),
        DurationError::UnknownUnit => framed(
            "unknown duration unit in '"@,
            v,
            "'. Expected one of: ns, us, ms, s"@,
        ),
    }
}

/// The options after the value flag `f` is given the value `v`, or the
/// error that refuses `v`.
pub open spec fn apply_value(f: Flag, v: Seq<char>, m: CliModel) -> Result<CliModel, Seq<char>> {
    match f {
        Flag::Filter => Ok(CliModel { filter: Some(v), ..m }),
        Flag::Skip => Ok(CliModel { skip: m.skip.push(v), ..m }),
        Flag::SaveBaseline => Ok(CliModel { save_baseline: Some(v), ..m }),
        Flag::Baseline => Ok(CliModel { baseline: Some(v), ..m }),
        Flag::Output => if v == "table"@ {
            Ok(CliModel { output_format: OutputFormat::Table, ..m })
        } else if v == "json"@ {
            Ok(CliModel { output_format: OutputFormat::Json, ..m })
        } else if v == "csv"@ {
            Ok(CliModel { output_format: OutputFormat::Csv, ..m })
        } else {
            Err(framed("invalid output format '"@, v, "'. Valid formats: table, json, csv"@))
        },
        Flag::BytesFormat => if v == "decimal"@ {
            Ok(CliModel { bytes_format: BytesFormat::Decimal, ..m })
        } else if v == "binary"@ {
            Ok(CliModel { bytes_format: BytesFormat::Binary, ..m })
        } else {
            Err(framed("invalid bytes format '"@, v, "'. Valid formats: decimal, binary"@))
        },
        Flag::Sort => if v == "name"@ {
            Ok(CliModel { sort: SortBy::Name, ..m })
        } else if v == "p50"@ {
            Ok(CliModel { sort: SortBy::P50, ..m })
        } else if v == "p99"@ {
            Ok(CliModel { sort: SortBy::P99, ..m })
        } else if v == "mean"@ {
            Ok(CliModel { sort: SortBy::Mean, ..m })
        } else {
            Err(framed("invalid sort option '"@, v, "'. Valid options: name, p50, p99, mean"@))
        },
        Flag::Format => if v == "terse"@ {
            Ok(CliModel { list_terse: true, ..m })
        } else if v == "pretty"@ {
            Ok(m)
        } else {
            Err(framed("invalid format '"@, v, "'. Valid formats: pretty, terse"@))
        },
        Flag::Threshold => if float_text_ok(v) {
            Ok(CliModel { threshold: v, ..m })
        } else {
            Err(framed("invalid threshold '"@, v, "'. Expected a number (e.g. 5.0)"@))
        },
        Flag::SampleCount => match parse_unsigned(v, u32::MAX as nat) {
            Some(n) => Ok(CliModel { sample_count: Some(n as u32), ..m }),
            None => Err(
                framed("invalid sample count '"@, v, "'. Expected a positive integer"@),
            ),
        },
        Flag::SampleSize => match parse_unsigned(v, u32::MAX as nat) {
            Some(n) => Ok(CliModel { sample_size: Some(n as u32), ..m }),
            None => Err(framed("invalid sample size '"@, v, "'. Expected a positive integer"@)),
        },
        Flag::Threads => match parse_u32_list(v) {
            Some(ts) => Ok(CliModel { threads: Some(ts), ..m }),
            None => Err(
                framed(
                    "invalid thread count '"@,
                    v,
                    "'. Expected comma-separated non-negative integers"@,
                ),
            ),
        },
        Flag::MinTime => match parse_duration(v) {
            Ok(n) => Ok(CliModel { min_time: Some(n), ..m }),
            Err(e) => Err(duration_message(e, v)),
        },
        _ => Ok(m),
    }
}

/// One step of parsing at argument `i`.
pub enum Step {
    /// Go on at argument `next` with these options.
    Next(int, CliModel),
    /// Stop here with these options.
    Stop(CliModel),
    /// Refuse the command line with this message.
    Fail(Seq<char>),
}

/// The step that argument `i` takes from options `m`.
pub open spec fn parse_step(args: Seq<Seq<char>>, i: int, m: CliModel) -> Step {
    let a = args[i];
    let f = flag_of(a);
    if takes_value(f) {
        if i + 1 >= args.len() {
            Step::Fail(missing_value_message(a))
        } else {
            match apply_value(f, args[i + 1], m) {
                Ok(m2) => Step::Next(i + 2, m2),
                Err(e) => Step::Fail(e),
            }
        }
    } else {
        match f {
            Flag::List => Step::Next(i + 1, CliModel { list: true, ..m }),
            Flag::Test => Step::Next(i + 1, CliModel { test: true, ..m }),
            Flag::Ignored => Step::Next(i + 1, CliModel { run_ignored: RunIgnored::Only, ..m }),
            Flag::IncludeIgnored => Step::Next(
                i + 1,
                CliModel { run_ignored: RunIgnored::Yes, ..m },
            ),
            Flag::Help => Step::Stop(CliModel { help: true, ..m }),
            Flag::Unknown => Step::Fail(unknown_flag_message(a)),
            Flag::Positional => Step::Next(
                i + 1,
                if m.filter is None {
                    CliModel { filter: Some(a), ..m }
                } else {
                    m
                },
            ),
            _ => Step::Next(i + 1, m),
        }
    }
}

/// The result of parsing `args` from argument `i` on, with options `m`
/// set by the arguments before it.
pub open spec fn parse_from_index(args: Seq<Seq<char>>, i: int, m: CliModel) -> Result<
    CliModel,
    Seq<char>,
>
    decreases args.len() - i,
{
    if i < 0 || i >= args.len() {
        Ok(m)
    } else {
        match parse_step(args, i, m) {
            Step::Next(j, m2) => if j > i {
                parse_from_index(args, j, m2)
            } else {
                Ok(m2)
            },
            Step::Stop(m2) => Ok(m2),
            Step::Fail(e) => Err(e),
        }
    }
}

/// The result of parsing a whole command line.
pub open spec fn parse_args(args: Seq<Seq<char>>) -> Result<CliModel, Seq<char>> {
    parse_from_index(args, 0, default_model())
}

/// The values given to `--skip` in `args` from argument `i` on, in
/// order: each flag that takes a value consumes the argument after it,
/// and `--help` (or `-h`) ends the command line.
pub open spec fn skip_values(args: Seq<Seq<char>>, i: int) -> Seq<Seq<char>>
    decreases args.len() + 1 - i,
{
    if i < 0 || i >= args.len() || flag_of(args[i]) == Flag::Help {
        seq![]
    } else if takes_value(flag_of(args[i])) {
        if args[i] == "--skip"@ && i + 1 < args.len() {
            seq![args[i + 1]] + skip_values(args, i + 2)
        } else {
            skip_values(args, i + 2)
        }
    } else {
        skip_values(args, i + 1)
    }
}

/// An argument is the `--skip` flag exactly when it reads `--skip`.
pub proof fn lemma_skip_flag(a: Seq<char>)
    ensures
        flag_of(a) == Flag::Skip <==> a == "--skip"@,
{
    reveal_strlit("--skip");
    reveal_strlit("--filter");
    if a == "--skip"@ {
        assert(a[2] != "--filter"@[2]);
    }
}

/// Parsing from argument `i` on adds to the skip patterns exactly the
/// values given to `--skip` there, in order.
pub proof fn lemma_parse_skips_from(args: Seq<Seq<char>>, i: int, m: CliModel)
    requires
        i >= 0,
        parse_from_index(args, i, m) is Ok,
    ensures
        parse_from_index(args, i, m)->Ok_0.skip == m.skip + skip_values(args, i),
    decreases args.len() + 1 - i,
{
    lemma_skip_flag(args[i]);
    if i >= args.len() {
        assert(m.skip + Seq::<Seq<char>>::empty() =~= m.skip);
    } else {
        let a = args[i];
        let f = flag_of(a);
        if takes_value(f) {
            let m2 = apply_value(f, args[i + 1], m)->Ok_0;
            lemma_parse_skips_from(args, i + 2, m2);
            if f == Flag::Skip {
                assert(a == "--skip"@);
                assert(m.skip.push(args[i + 1]) + skip_values(args, i + 2) =~= m.skip + (seq![
                    args[i + 1],
                ] + skip_values(args, i + 2)));
            } else {
                assert(a != "--skip"@);
                assert(m2.skip == m.skip);
            }
        } else if f == Flag::Help {
            assert(m.skip + Seq::<Seq<char>>::empty() =~= m.skip);
        } else {
            match parse_step(args, i, m) {
                Step::Next(j, m2) => {
                    assert(j == i + 1);
                    assert(m2.skip == m.skip);
                    lemma_parse_skips_from(args, i + 1, m2);
                },
                _ => {},
            }
        }
    }
}

/// A command line that parses skips exactly the values given to
/// `--skip`, in order: every `--skip` value is kept.
pub proof fn lemma_parse_skips(args: Seq<Seq<char>>)
    requires
        parse_args(args) is Ok,
    ensures
        parse_args(args)->Ok_0.skip == skip_values(args, 0),
{
    lemma_parse_skips_from(args, 0, default_model());
    assert(default_model().skip + skip_values(args, 0) =~= skip_values(args, 0));
}

/// The text views of the arguments.
pub open spec fn arg_views(args: Seq<&str>) -> Seq<Seq<char>> {
    args.map_values(|a: &str| a@)
}

/// A parse error whose message is `pre`, then `v`, then `post`.
fn framed_error(pre: &str, v: &str, post: &str) -> (r: ParseError)
    ensures
        r.message@ == framed(pre@, v@, post@),
{
    let mut m: String = String::new();
    push_str(&mut m, pre);
    push_str(&mut m, v);
    push_str(&mut m, post);
    ParseError::new(m)
}

/// An owned copy of a string slice.
fn owned(v: &str) -> (r: String)
    ensures
        r@ == v@,
{
    let mut r: String = String::new();
    push_str(&mut r, v);
    r
}

impl CliArgs {
    /// Gives a text-valued flag its value.
    fn apply_text(&mut self, f: Flag, v: &str)
        requires
            f == Flag::Filter || f == Flag::Skip || f == Flag::SaveBaseline || f == Flag::Baseline,
        ensures
            apply_value(f, v@, old(self)@) == Ok::<CliModel, Seq<char>>(final(self)@),
    {
        let ghost before = self.skip@;
        match f {
            Flag::Filter => {
                self.filter = Some(owned(v));
            },
            Flag::Skip => {
                self.skip.push(owned(v));
                assert(self.skip@.map_values(|s: String| s@) =~= before.map_values(
                    |s: String| s@,
                ).push(v@));
            },
            Flag::SaveBaseline => {
                self.save_baseline = Some(owned(v));
            },
            _ => {
                self.baseline = Some(owned(v));
            },
        }
        assert(self@.skip =~= apply_value(f, v@, old(self)@)->Ok_0.skip);
    }

    /// Gives a flag with a fixed set of values its value.
    fn apply_choice(&mut self, f: Flag, v: &str) -> (r: Result<(), ParseError>)
        requires
            f == Flag::Output || f == Flag::BytesFormat || f == Flag::Sort || f == Flag::Format,
        ensures
            match apply_value(f, v@, old(self)@) {
                Ok(m) => r is Ok && final(self)@ == m,
                Err(e) => r matches Err(pe) && pe.message@ == e,
            },
    {
        let cs: Vec<char> = char_vec(v);
        match f {
            Flag::Output => {
                if text_eq(&cs, "table") {
                    self.output_format = OutputFormat::Table;
                } else if text_eq(&cs, "json") {
                    self.output_format = OutputFormat::Json;
                } else if text_eq(&cs, "csv") {
                    self.output_format = OutputFormat::Csv;
                } else {
                    return Err(
                        framed_error(
                            "invalid output format '",
                            v,
                            "'. Valid formats: table, json, csv",
                        ),
                    );
                }
            },
            Flag::BytesFormat => {
                if text_eq(&cs, "decimal") {
                    self.bytes_format = BytesFormat::Decimal;
                } else if text_eq(&cs, "binary") {
                    self.bytes_format = BytesFormat::Binary;
                } else {
                    return Err(
                        framed_error(
                            "invalid bytes format '",
                            v,
                            "'. Valid formats: decimal, binary",
                        ),
                    );
                }
            },
            Flag::Sort => {
                if text_eq(&cs, "name") {
                    self.sort = SortBy::Name;
                } else if text_eq(&cs, "p50") {
                    self.sort = SortBy::P50;
                } else if text_eq(&cs, "p99") {
                    self.sort = SortBy::P99;
                } else if text_eq(&cs, "mean") {
                    self.sort = SortBy::Mean;
                } else {
                    return Err(
                        framed_error(
                            "invalid sort option '",
                            v,
                            "'. Valid options: name, p50, p99, mean",
                        ),
                    );
                }
            },
            _ => {
                if text_eq(&cs, "terse") {
                    self.list_terse = true;
                } else if text_eq(&cs, "pretty") {
                } else {
                    return Err(
                        framed_error("invalid format '", v, "'. Valid formats: pretty, terse"),
                    );
                }
            },
        }
        assert(self@.skip =~= old(self)@.skip);
        Ok(())
    }

    /// Gives a numeric flag its value.
    fn apply_number(&mut self, f: Flag, v: &str) -> (r: Result<(), ParseError>)
        requires
            f == Flag::Threshold || f == Flag::SampleCount || f == Flag::SampleSize || f
                == Flag::Threads || f == Flag::MinTime,
        ensures
            match apply_value(f, v@, old(self)@) {
                Ok(m) => r is Ok && final(self)@ == m,
                Err(e) => r matches Err(pe) && pe.message@ == e,
            },
    {
        let cs: Vec<char> = char_vec(v);
        assert(cs@.subrange(0, cs@.len() as int) =~= cs@);
        match f {
            Flag::Threshold => {
                if float_text_ok_exec(&cs) {
                    self.threshold = owned(v);
                } else {
                    return Err(
                        framed_error("invalid threshold '", v, "'. Expected a number (e.g. 5.0)"),
                    );
                }
            },
            Flag::SampleCount => {
                match parse_unsigned_range(&cs, 0, cs.len(), 0xffff_ffff) {
                    Some(n) => {
                        self.sample_count = Some(n as u32);
                    },
                    None => {
                        return Err(
                            framed_error(
                                "invalid sample count '",
                                v,
                                "'. Expected a positive integer",
                            ),
                        );
                    },
                }
            },
            Flag::SampleSize => {
                match parse_unsigned_range(&cs, 0, cs.len(), 0xffff_ffff) {
                    Some(n) => {
                        self.sample_size = Some(n as u32);
                    },
                    None => {
                        return Err(
                            framed_error(
                                "invalid sample size '",
                                v,
                                "'. Expected a positive integer",
                            ),
                        );
                    },
                }
            },
            Flag::Threads => {
                match parse_u32_list_exec(&cs) {
                    Some(ts) => {
                        self.threads = Some(ts);
                    },
                    None => {
                        return Err(
                            framed_error(
                                "invalid thread count '",
                                v,
                                "'. Expected comma-separated non-negative integers",
                            ),
                        );
                    },
                }
            },
            _ => {
                match parse_duration_exec(&cs) {
                    Ok(d) => {
                        self.min_time = Some(d);
                    },
                    Err(DurationError::InvalidNumber) => {
                        return Err(
                            framed_error(
                                "invalid duration '",
                                v,
                                "'. Expected a number followed by a unit (ns, us, ms, s)",
                            ),
                        );
                    },
                    Err(DurationError::MissingUnit) => {
                        return Err(
                            framed_error(
                                "missing unit in duration '",
                                v,
                                "'. Expected one of: ns, us, ms, s",
                            ),
                        );
                    },
                    Err(DurationError::UnknownUnit) => {
                        return Err(
                            framed_error(
                                "unknown duration unit in '",
                                v,
                                "'. Expected one of: ns, us, ms, s",
                            ),
                        );
                    },
                }
            },
        }
        assert(self@.skip =~= old(self)@.skip);
        Ok(())
    }

    /// Gives the value flag `f` its value `v`.
    fn apply(&mut self, f: Flag, v: &str) -> (r: Result<(), ParseError>)
        requires
            takes_value(f),
        ensures
            match apply_value(f, v@, old(self)@) {
                Ok(m) => r is Ok && final(self)@ == m,
                Err(e) => r matches Err(pe) && pe.message@ == e,
            },
    {
        if f == Flag::Filter || f == Flag::Skip || f == Flag::SaveBaseline || f == Flag::Baseline {
            self.apply_text(f, v);
            Ok(())
        } else if f == Flag::Output || f == Flag::BytesFormat || f == Flag::Sort || f
            == Flag::Format {
            self.apply_choice(f, v)
        } else {
            self.apply_number(f, v)
        }
    }

    /// Parses the runner's arguments (without the program name).
    ///
    /// Flags taking a value consume the next argument; `--help` (or `-h`)
    /// stops parsing with `help` set; the cargo harness flags `--bench`,
    /// `--nocapture` and `--show-output` are ignored; any other argument
    /// starting with `--` is an error; and the first argument that is not
    /// a flag becomes the filter unless one is set already.
    pub fn parse_from(args: &[&str]) -> (r: Result<Self, ParseError>)
        ensures
            match parse_args(arg_views(args@)) {
                Ok(m) => r matches Ok(c) && c@ == m,
                Err(e) => r matches Err(pe) && pe.message@ == e,
            },
    {
        let ghost sargs = arg_views(args@);
        let mut result: CliArgs = CliArgs::default();
        let mut i: usize = 0;
        while i < args.len()
            invariant
                sargs == arg_views(args@),
                sargs.len() == args@.len(),
                i <= args.len(),
                parse_args(sargs) == parse_from_index(sargs, i as int, result@),
            decreases args.len() - i,
        {
            let arg: &str = args[i];
            assert(sargs[i as int] == arg@);
            let cs: Vec<char> = char_vec(arg);
            let f: Flag = classify(&cs);
            let ghost m = result@;
            if f == Flag::Filter || f == Flag::Skip || f == Flag::Output || f == Flag::BytesFormat
                || f == Flag::SaveBaseline || f == Flag::Baseline || f == Flag::Threshold || f
                == Flag::Sort || f == Flag::SampleCount || f == Flag::SampleSize || f
                == Flag::Format || f == Flag::Threads || f == Flag::MinTime {
                if i + 1 >= args.len() {
                    return Err(framed_error("flag '", arg, "' requires a value"));
                }
                let v: &str = args[i + 1];
                assert(sargs[i + 1] == v@);
                match result.apply(f, v) {
                    Ok(()) => {},
                    Err(e) => {
                        return Err(e);
                    },
                }
                i = i + 2;
            } else {
                match f {
                    Flag::List => {
                        result.list = true;
                    },
                    Flag::Test => {
                        result.test = true;
                    },
                    Flag::Ignored => {
                        result.run_ignored = RunIgnored::Only;
                    },
                    Flag::IncludeIgnored => {
                        result.run_ignored = RunIgnored::Yes;
                    },
                    Flag::Help => {
                        result.help = true;
                        assert(result@ == CliModel { help: true, ..m });
                        return Ok(result);
                    },
                    Flag::Unknown => {
                        return Err(
                            framed_error(
                                "unknown flag '",
                                arg,
                                "'. Available flags: --filter, --skip, --list, --test, --output, --sort, --threshold, --save-baseline, --baseline, --sample-count, --sample-size, --threads, --min-time, --ignored, --include-ignored, --bytes-format, --format, --help",
                            ),
                        );
                    },
                    Flag::Positional => {
                        if result.filter.is_none() {
                            result.filter = Some(owned(arg));
                        }
                    },
                    _ => {},
                }
                assert(result@.skip =~= m.skip);
                i = i + 1;
            }
        }
        Ok(result)
    }
}

} // verus!
