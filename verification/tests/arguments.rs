use pbench::arg::Arg;

#[test]
fn arg_conversions() {
    let v: u32 = 7;
    let by_value: u32 = Arg::<u32>::get(v);
    let by_ref: u32 = Arg::<u32>::get(&v);
    let by_ref_ref: u32 = Arg::<u32>::get(&&v);
    assert_eq!((by_value, by_ref, by_ref_ref), (7, 7, 7));
    let s: String = "size_10".to_owned();
    let text: &str = Arg::<&str>::get(&s);
    assert_eq!(text, "size_10");
}
