use bf::brackets::build_jumps;

#[test]
fn builds_nested_jumps() {
    let ops = b"[[]]";
    let jumps = build_jumps(ops).unwrap();
    assert_eq!(jumps, vec![3, 2, 1, 0]);
}

#[test]
fn errors_on_unmatched_right() {
    let ops = b"]";
    let err = build_jumps(ops).unwrap_err();
    assert_eq!(err, "syntax error: unmatched ']' at 0");
}

#[test]
fn errors_on_unmatched_left() {
    let ops = b"[";
    let err = build_jumps(ops).unwrap_err();
    assert_eq!(err, "syntax error: unmatched '[' at 0");
}

#[test]
fn non_brackets_have_no_partner() {
    let jumps = build_jumps(b"+[-]>").unwrap();
    assert_eq!(jumps, vec![usize::MAX, 3, usize::MAX, 1, usize::MAX]);
}

#[test]
fn reports_first_stray_close_with_its_index() {
    let err = build_jumps(b"[]+++++++++]]").unwrap_err();
    assert_eq!(err, "syntax error: unmatched ']' at 11");
}

#[test]
fn reports_innermost_unclosed_open() {
    let err = build_jumps(b"[+[-[]").unwrap_err();
    assert_eq!(err, "syntax error: unmatched '[' at 2");
}

#[test]
fn stray_close_wins_over_unclosed_open() {
    let err = build_jumps(b"[]][").unwrap_err();
    assert_eq!(err, "syntax error: unmatched ']' at 2");
}
