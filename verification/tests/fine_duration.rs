use pbench::time::utils::Formatter;
use pbench::time::fine_duration::TimeScale;
use pbench::time::FineDuration;
use std::time::Duration;

#[test]
fn from_duration_nanos() {
    let d: FineDuration = FineDuration::from(Duration::from_nanos(1));
    assert_eq!(d.picos, 1_000);
}

#[test]
fn from_duration_micros() {
    let d: FineDuration = FineDuration::from(Duration::from_micros(1));
    assert_eq!(d.picos, 1_000_000);
}

#[test]
fn from_duration_millis() {
    let d = FineDuration::from(Duration::from_millis(1));
    assert_eq!(d.picos, 1_000_000_000);
}

#[test]
fn ordering() {
    let a: FineDuration = FineDuration { picos: 100 };
    let b: FineDuration = FineDuration { picos: 200 };
    assert!(a < b);
}

#[test]
fn display_nanoseconds() {
    let d: FineDuration = FineDuration { picos: 125_200 };
    let s: String = d.to_string();
    assert!(s.contains("ns"), "expected ns unit, got: {s}");
}

#[test]
fn display_microseconds() {
    let d: FineDuration = FineDuration { picos: 1_500_000_000 };
    let s: String = d.to_string();
    assert!(s.contains("ms") || s.contains("µs"), "expected µs or ms unit, got: {s}");
}

#[test]
fn arithmetic_add() {
    let a: FineDuration = FineDuration { picos: 100 };
    let b: FineDuration = FineDuration { picos: 200 };
    assert_eq!((a + b).picos, 300);
}

#[test]
fn arithmetic_div_u64() {
    let d: FineDuration = FineDuration { picos: 1000 };
    assert_eq!(d.div_u64(4).picos, 250);
}

#[test]
fn zero() {
    assert_eq!(FineDuration::zero().picos, 0);
}

#[test]
fn arithmetic_sub() {
    let a: FineDuration = FineDuration { picos: 300 };
    let b: FineDuration = FineDuration { picos: 100 };
    assert_eq!((a - b).picos, 200);
}

#[test]
fn arithmetic_mul_u64() {
    let d: FineDuration = FineDuration { picos: 100 };
    assert_eq!(d.mul_u64(5).picos, 500);
}

#[test]
fn checked_sub_some() {
    let a: FineDuration = FineDuration { picos: 300 };
    let b: FineDuration = FineDuration { picos: 100 };
    assert_eq!(a.checked_sub(b), Some(FineDuration { picos: 200 }));
}

#[test]
fn checked_sub_none() {
    let a: FineDuration = FineDuration { picos: 100 };
    let b: FineDuration = FineDuration { picos: 300 };
    assert_eq!(a.checked_sub(b), None);
}

#[test]
fn add_assign() {
    let mut a: FineDuration = FineDuration { picos: 100 };
    a.add_assign(FineDuration { picos: 50 });
    assert_eq!(a.picos, 150);
}

#[test]
fn display_picoseconds() {
    let d: FineDuration = FineDuration { picos: 500 };
    let s: String = d.to_string();
    assert!(s.contains("ns"), "expected ns unit, got: {s}");
}

#[test]
fn display_milliseconds() {
    let d: FineDuration = FineDuration { picos: 5_000_000_000 };
    let s: String = d.to_string();
    assert!(s.contains("ms"), "expected ms unit, got: {s}");
}

#[test]
fn display_seconds() {
    let d: FineDuration = FineDuration { picos: 2_500_000_000_000 };
    let s: String = d.to_string();
    assert!(s.contains('s'), "expected s unit, got: {s}");
    assert!(!s.contains("ms"), "should not be ms, got: {s}");
}

#[test]
fn display_exact_texts() {
    assert_eq!(FineDuration { picos: 125_200 }.to_string(), "125.2 ns");
    assert_eq!(FineDuration { picos: 500 }.to_string(), "0.5 ns");
    assert_eq!(FineDuration { picos: 1_500_000_000 }.to_string(), "1.5 ms");
    assert_eq!(FineDuration { picos: 2_500_000_000_000 }.to_string(), "2.5 s");
    assert_eq!(FineDuration { picos: 123_456_789 }.to_string(), "123.4 µs");
    assert_eq!(FineDuration { picos: 1_000 }.to_string(), "1 ns");
    assert_eq!(FineDuration { picos: 0 }.to_string(), "0 ns");
}

#[test]
fn time_scale_from_picos() {
    assert_eq!(TimeScale::from_picos(999), TimeScale::PicoSec);
    assert_eq!(TimeScale::from_picos(1_000), TimeScale::NanoSec);
    assert_eq!(TimeScale::from_picos(1_000_000), TimeScale::MicroSec);
    assert_eq!(TimeScale::from_picos(1_000_000_000), TimeScale::MilliSec);
    assert_eq!(TimeScale::from_picos(1_000_000_000_000), TimeScale::Sec);
    assert_eq!(TimeScale::MilliSec.picos(), 1_000_000_000);
    assert_eq!(TimeScale::MicroSec.suffix(), "µs");
}

#[test]
fn add_then_sub_gives_back() {
    let a = FineDuration { picos: 12_345 };
    let b = FineDuration { picos: 678 };
    assert_eq!((a + b) - b, a);
    assert_eq!((a + b).checked_sub(b), Some(a));
}

#[test]
fn point_cut_formatter_texts() {
    assert_eq!(Formatter::format_f64(&f64::to_string(&3.14159), 4), "3.141");
    assert_eq!(Formatter::format_f64("1.500", 4), "1.5");
    assert_eq!(Formatter::format_f64(&f64::to_string(&100.25), 4), "100.2");
    assert_eq!(Formatter::format_f64("100.0", 4), "100");
    assert_eq!(Formatter::format_f64(&f64::to_string(&12345.6), 4), "12345");
    assert_eq!(Formatter::format_f64("1.5", 4), "1.5");
    assert_eq!(Formatter::format_f64("42", 4), "42");
    assert_eq!(Formatter::format_f64("2.000", 4), "2");
}
