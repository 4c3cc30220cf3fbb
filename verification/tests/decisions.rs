use pbench::attr::{AttrOption, AttrOptionsCheck, Macro, OptionValue};
use pbench::cli::CliArgs;
use pbench::config::BenchOptions;
use pbench::entry::tree::push_path_component;
use pbench::runner::{RunAction, Runner};
use pbench::time::FineDuration;
use std::time::Duration;

#[test]
fn attr_options_decisions() {
    let mut c = AttrOptionsCheck::new(Macro::Bench { param_count: 1 });
    assert_eq!(
        c.accept(Some("sample_count"), OptionValue::Other),
        Ok(AttrOption::BenchOption { defaults_to_true: false })
    );
    assert_eq!(
        c.accept(Some("ignore"), OptionValue::Missing),
        Ok(AttrOption::BenchOption { defaults_to_true: true })
    );
    assert_eq!(
        c.accept(Some("sample_count"), OptionValue::Other),
        Err("repeated 'bench' option 'sample_count'".to_string())
    );
    assert_eq!(
        c.accept(Some("args"), OptionValue::Other),
        Err("'args' must be an array literal (e.g. args = [1, 2, 3])".to_string())
    );
    assert_eq!(c.accept(Some("args"), OptionValue::Array), Ok(AttrOption::Args));
    assert_eq!(
        c.accept(Some("args"), OptionValue::Array),
        Err("repeated 'bench' option 'args'".to_string())
    );
    assert_eq!(c.accept(Some("r#crate"), OptionValue::Other), Ok(AttrOption::Crate));
    assert_eq!(
        c.accept(Some("crate"), OptionValue::Other),
        Err("repeated 'bench' option 'crate'".to_string())
    );
    assert_eq!(c.accept(None, OptionValue::Other), Err("unsupported 'bench' option".to_string()));
    let mut g = AttrOptionsCheck::new(Macro::Group);
    assert_eq!(
        g.accept(Some("args"), OptionValue::Array),
        Err("unsupported 'bench_group' option 'args'".to_string())
    );
    let mut none = AttrOptionsCheck::new(Macro::Bench { param_count: 0 });
    assert_eq!(
        none.accept(Some("args"), OptionValue::Array),
        Err("function argument required for 'bench' option 'args'".to_string())
    );
    assert_eq!(Macro::Group.name(), "bench_group");
}

#[test]
fn runner_actions() {
    let action = |args: &[&str]| Runner::action_of(&CliArgs::parse_from(args).unwrap());
    assert_eq!(action(&[]), RunAction::Bench);
    assert_eq!(action(&["--list"]), RunAction::List);
    assert_eq!(action(&["--list", "--format", "terse"]), RunAction::ListTerse);
    assert_eq!(action(&["--test"]), RunAction::Test);
    assert_eq!(action(&["--test", "--list"]), RunAction::List);
}

#[test]
fn runner_path_selection() {
    let skip = vec!["slow".to_string()];
    assert!(Runner::path_selected("m::fast_bench", &Some("bench".to_string()), &skip));
    assert!(!Runner::path_selected("m::slow_bench", &Some("bench".to_string()), &skip));
    assert!(!Runner::path_selected("m::other", &Some("bench".to_string()), &Vec::new()));
    assert!(Runner::path_selected("m::other", &None, &Vec::new()));
    assert!(Runner::path_selected("", &Some(String::new()), &Vec::new()));
}

#[test]
fn runner_layered_options_and_stats() {
    let cli = BenchOptions { sample_count: Some(10), ..BenchOptions::default() };
    let entry = BenchOptions { sample_count: Some(20), sample_size: Some(3), ..BenchOptions::default() };
    let group = BenchOptions {
        sample_size: Some(4),
        max_time: Some(Duration::from_secs(1)),
        threads: Some(vec![2]),
        ..BenchOptions::default()
    };
    let merged = Runner::layered_options(&cli, &entry, &group);
    assert_eq!(merged.sample_count, Some(10));
    assert_eq!(merged.sample_size, Some(3));
    assert_eq!(merged.max_time, Some(Duration::from_secs(1)));
    assert_eq!(merged.threads, Some(vec![2]));
    let args = CliArgs::parse_from(&["--threads", "1,4", "--sample-size", "9"]).unwrap();
    let from_cli = Runner::cli_to_bench_options(&args);
    assert_eq!(from_cli.threads, Some(vec![1, 4]));
    assert_eq!(from_cli.sample_size, Some(9));
    let picks = vec![
        (0usize, FineDuration { picos: 30 }),
        (2usize, FineDuration { picos: 7 }),
        (0usize, FineDuration { picos: 10 }),
        (0usize, FineDuration { picos: 20 }),
    ];
    let fastest = Runner::fastest_stats(3, &picks);
    assert_eq!(fastest, vec![Some(FineDuration { picos: 10 }), None, Some(FineDuration { picos: 7 })]);
}

#[test]
fn path_components_join() {
    let mut buf = String::new();
    push_path_component(&mut buf, "root");
    push_path_component(&mut buf, "mod_a");
    push_path_component(&mut buf, "bench");
    assert_eq!(buf, "root::mod_a::bench");
}
