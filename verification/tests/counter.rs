use pbench::counter::collection::CounterCollection;
use pbench::counter::{BytesCount, CharsCount, Counter, CounterKind, CyclesCount, ItemsCount};

#[test]
fn bytes_count_new() {
    let bc: BytesCount = BytesCount::new(1024);
    assert_eq!(bc.count(), 1024);
    assert_eq!(bc.kind(), CounterKind::Bytes);
}

#[test]
fn bytes_count_of_slice_u8() {
    let data: [u8; 256] = [0u8; 256];
    let bc: BytesCount = BytesCount::of_slice(&data);
    assert_eq!(bc.count(), 256);
}

#[test]
fn bytes_count_of_slice_u32() {
    let data: [u32; 10] = [0u32; 10];
    let bc: BytesCount = BytesCount::of_slice(&data);
    assert_eq!(bc.count(), 40);
}

#[test]
fn bytes_count_of_str() {
    let bc: BytesCount = BytesCount::of_str("hello");
    assert_eq!(bc.count(), 5);
}

#[test]
fn bytes_count_of_str_multibyte() {
    let bc: BytesCount = BytesCount::of_str("café");
    assert_eq!(bc.count(), 5);
}

#[test]
fn bytes_count_zero() {
    let bc: BytesCount = BytesCount::new(0);
    assert_eq!(bc.count(), 0);
}

#[test]
fn bytes_count_of_slice_zst() {
    let data: [(); 100] = [(); 100];
    let bc: BytesCount = BytesCount::of_slice(&data);
    assert_eq!(bc.count(), 0);
}

#[test]
fn items_count_new() {
    let ic: ItemsCount = ItemsCount::new(500);
    assert_eq!(ic.count(), 500);
    assert_eq!(ic.kind(), CounterKind::Items);
}

#[test]
fn chars_count_new() {
    let cc: CharsCount = CharsCount::new(42);
    assert_eq!(cc.count(), 42);
    assert_eq!(cc.kind(), CounterKind::Chars);
}

#[test]
fn chars_count_of_str_ascii() {
    let cc: CharsCount = CharsCount::of_str("hello");
    assert_eq!(cc.count(), 5);
}

#[test]
fn chars_count_of_str_unicode() {
    let cc: CharsCount = CharsCount::of_str("café");
    assert_eq!(cc.count(), 4);
}

#[test]
fn chars_count_of_str_emoji() {
    let cc: CharsCount = CharsCount::of_str("👋🌍");
    assert_eq!(cc.count(), 2);
}

#[test]
fn cycles_count_new() {
    let cc: CyclesCount = CyclesCount::new(1_000_000);
    assert_eq!(cc.count(), 1_000_000);
    assert_eq!(cc.kind(), CounterKind::Cycles);
}

#[test]
fn counter_kind_eq() {
    assert_eq!(CounterKind::Bytes, CounterKind::Bytes);
    assert_ne!(CounterKind::Bytes, CounterKind::Items);
    assert_ne!(CounterKind::Chars, CounterKind::Cycles);
}

#[test]
fn counter_trait_dynamic_dispatch() {
    let counters: Vec<Box<dyn Counter>> = vec![
        Box::new(BytesCount::new(100)),
        Box::new(ItemsCount::new(200)),
        Box::new(CharsCount::new(300)),
        Box::new(CyclesCount::new(400)),
    ];
    let counts: Vec<u64> = counters.iter().map(|c| c.count()).collect();
    assert_eq!(counts, vec![100, 200, 300, 400]);
    let kinds: Vec<CounterKind> = counters.iter().map(|c| c.kind()).collect();
    assert_eq!(
        kinds,
        vec![CounterKind::Bytes, CounterKind::Items, CounterKind::Chars, CounterKind::Cycles]
    );
}

#[test]
fn new_is_empty() {
    let coll: CounterCollection = CounterCollection::new(CounterKind::Bytes);
    assert!(coll.is_empty());
    assert_eq!(coll.len(), 0);
    assert_eq!(coll.kind(), CounterKind::Bytes);
}

#[test]
fn push_increments_len() {
    let mut coll: CounterCollection = CounterCollection::new(CounterKind::Items);
    coll.push(100);
    coll.push(200);
    coll.push(300);
    assert_eq!(coll.len(), 3);
    assert!(!coll.is_empty());
}

#[test]
fn with_capacity_starts_empty() {
    let coll: CounterCollection = CounterCollection::with_capacity(CounterKind::Cycles, 64);
    assert!(coll.is_empty());
    assert_eq!(coll.kind(), CounterKind::Cycles);
}

#[test]
fn counts_returns_raw_values() {
    let mut coll: CounterCollection = CounterCollection::new(CounterKind::Bytes);
    coll.push(10);
    coll.push(20);
    coll.push(30);
    assert_eq!(coll.counts(), &[10, 20, 30]);
}

#[test]
fn mean_count_parts_exact() {
    let empty: CounterCollection = CounterCollection::new(CounterKind::Bytes);
    assert_eq!(empty.mean_count_parts(), None);
    let mut coll: CounterCollection = CounterCollection::new(CounterKind::Items);
    coll.push(100);
    coll.push(201);
    assert_eq!(coll.mean_count_parts(), Some((301, 2)));
    let mut big: CounterCollection = CounterCollection::new(CounterKind::Bytes);
    big.push(u64::MAX);
    big.push(u64::MAX);
    assert_eq!(big.mean_count_parts(), Some((2 * u128::from(u64::MAX), 2)));
}

#[test]
fn uniform_repeats_count() {
    let coll: CounterCollection = CounterCollection::uniform(CounterKind::Items, 7, 3);
    assert_eq!(coll.counts(), &[7, 7, 7]);
    assert_eq!(coll.kind(), CounterKind::Items);
}

/// The mean per-iteration count, as a float.
#[allow(clippy::cast_precision_loss)]
fn mean_count(coll: &CounterCollection) -> Option<f64> {
    coll.mean_count_parts().map(|(sum, n): (u128, usize)| sum as f64 / n as f64)
}

#[test]
fn mean_count_empty() {
    let coll: CounterCollection = CounterCollection::new(CounterKind::Bytes);

    assert!(mean_count(&coll).is_none());
}

#[test]
fn mean_count_single() {
    let mut coll: CounterCollection = CounterCollection::new(CounterKind::Bytes);
    coll.push(1024);

    let mean: f64 = mean_count(&coll).unwrap();
    assert!((mean - 1024.0).abs() < f64::EPSILON);
}

#[test]
fn mean_count_multiple() {
    let mut coll: CounterCollection = CounterCollection::new(CounterKind::Items);
    coll.push(100);
    coll.push(200);
    coll.push(300);

    let mean: f64 = mean_count(&coll).unwrap();
    assert!((mean - 200.0).abs() < f64::EPSILON);
}

#[test]
fn mean_count_non_integer() {
    let mut coll: CounterCollection = CounterCollection::new(CounterKind::Items);
    coll.push(100);
    coll.push(201);

    let mean: f64 = mean_count(&coll).unwrap();
    assert!((mean - 150.5).abs() < f64::EPSILON);
}

#[test]
fn mean_count_large_values_no_overflow() {
    let mut coll: CounterCollection = CounterCollection::new(CounterKind::Bytes);

    // Push values near u64::MAX — sum would overflow u64 but not u128.
    coll.push(u64::MAX);
    coll.push(u64::MAX);

    let mean: f64 = mean_count(&coll).unwrap();

    // Mean should be approximately u64::MAX.
    let expected: f64 = u64::MAX as f64;
    let relative_error: f64 = ((mean - expected) / expected).abs();

    assert!(
        relative_error < 1e-10,
        "mean {mean} too far from expected {expected}"
    );
}
