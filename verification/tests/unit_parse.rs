use bf::parse::filter_ops;

#[test]
fn filters_only_ops() {
    let input = b"ab+<>-.,[]xyz\n";
    let output = filter_ops(input);
    assert_eq!(output, b"+<>-.,[]");
}

#[test]
fn filter_keeps_empty_input_empty() {
    assert_eq!(filter_ops(b""), Vec::<u8>::new());
}

#[test]
fn filter_is_idempotent_on_sample() {
    let once = filter_ops(b"a[b]c+d-e>f<g.h,i\xff\x00");
    let twice = filter_ops(&once);
    assert_eq!(once, b"[]+-><.,");
    assert_eq!(twice, once);
}
