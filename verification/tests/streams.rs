use bf::io::{Input, Output};

#[test]
fn input_yields_bytes_then_zero() {
    let mut input = Input::new(vec![7, 0, 9]);
    assert_eq!(input.read_byte().unwrap(), 7);
    assert_eq!(input.read_byte().unwrap(), 0);
    assert_eq!(input.read_byte().unwrap(), 9);
    assert_eq!(input.read_byte().unwrap(), 0);
    assert_eq!(input.read_byte().unwrap(), 0);
}

#[test]
fn output_keeps_order_across_flushes() {
    let mut output = Output::new();
    output.write_byte(1).unwrap();
    output.write_byte(2).unwrap();
    output.flush().unwrap();
    output.write_byte(3).unwrap();
    assert_eq!(output.into_inner(), vec![1, 2, 3]);
}

#[test]
fn debug_keeps_order_across_flushes() {
    let mut dbg = bf::io::Debug::new();
    dbg.write_fmt("a").unwrap();
    dbg.writer().push_str("b");
    dbg.flush().unwrap();
    dbg.writer().push('c');
    dbg.write_fmt("d").unwrap();
    assert_eq!(dbg.into_inner(), "abcd");
}
