use bf::ir::Instr;
use bf::opt;

#[test]
fn merges_add_and_move() {
    let mut ir = vec![Instr::Add(1), Instr::Add(2), Instr::Move(1), Instr::Move(2)];
    opt::merge_ops(&mut ir);
    assert_eq!(ir, vec![Instr::Add(3), Instr::Move(3)]);
}

#[test]
fn removes_no_ops() {
    let mut ir = vec![
        Instr::Add(1),
        Instr::Add(-1),
        Instr::Move(1),
        Instr::Move(-1),
        Instr::Output,
    ];
    opt::merge_ops(&mut ir);
    assert_eq!(ir, vec![Instr::Output]);
}

#[test]
fn detects_setzero() {
    let mut ir = vec![Instr::Jz(2), Instr::Add(-1), Instr::Jnz(0)];
    opt::loop_analysis(&mut ir);
    assert_eq!(ir, vec![Instr::SetZero]);
}

#[test]
fn merge_splits_sums_beyond_32_bits() {
    let mut ir = vec![Instr::Add(i32::MAX), Instr::Add(i32::MAX), Instr::Add(5)];
    opt::merge_ops(&mut ir);
    assert_eq!(ir, vec![Instr::Add(i32::MAX), Instr::Add(i32::MAX), Instr::Add(5)]);

    let mut ir = vec![Instr::Move(i32::MIN), Instr::Move(-7), Instr::Move(3)];
    opt::merge_ops(&mut ir);
    assert_eq!(ir, vec![Instr::Move(i32::MIN), Instr::Move(-4)]);
}

#[test]
fn merge_leaves_jump_targets_stale() {
    let mut ir = vec![
        Instr::Add(1),
        Instr::Add(1),
        Instr::Jz(5),
        Instr::Move(1),
        Instr::Move(1),
        Instr::Jnz(2),
    ];
    opt::merge_ops(&mut ir);
    assert_eq!(ir, vec![Instr::Add(2), Instr::Jz(5), Instr::Move(2), Instr::Jnz(2)]);
}

#[test]
fn merge_can_leave_equal_kinds_adjacent() {
    let mut ir = vec![Instr::Add(1), Instr::Move(1), Instr::Move(-1), Instr::Add(2)];
    opt::merge_ops(&mut ir);
    assert_eq!(ir, vec![Instr::Add(1), Instr::Add(2)]);
    opt::peephole(&mut ir);
    assert_eq!(ir, vec![Instr::Add(3)]);
}

#[test]
fn rebuild_relinks_stale_targets() {
    let mut ir = vec![
        Instr::Add(2),
        Instr::Jz(99),
        Instr::Jz(0),
        Instr::Move(2),
        Instr::Jnz(7),
        Instr::Jnz(3),
    ];
    opt::rebuild_jumps(&mut ir).unwrap();
    assert_eq!(
        ir,
        vec![
            Instr::Add(2),
            Instr::Jz(5),
            Instr::Jz(4),
            Instr::Move(2),
            Instr::Jnz(2),
            Instr::Jnz(1),
        ]
    );
}

#[test]
fn rebuild_reports_stray_close() {
    let mut ir = vec![Instr::Jz(0), Instr::Jnz(0), Instr::Add(1), Instr::Jnz(0), Instr::Jz(7)];
    let err = opt::rebuild_jumps(&mut ir).unwrap_err();
    assert_eq!(err, "unmatched ']' at 3");
    assert_eq!(
        ir,
        vec![Instr::Jz(1), Instr::Jnz(0), Instr::Add(1), Instr::Jnz(0), Instr::Jz(7)]
    );
}

#[test]
fn rebuild_reports_innermost_open() {
    let mut ir = vec![Instr::Jz(9), Instr::Jz(9), Instr::Jz(9), Instr::Jnz(9)];
    let err = opt::rebuild_jumps(&mut ir).unwrap_err();
    assert_eq!(err, "unmatched '[' at 1");
    assert_eq!(ir, vec![Instr::Jz(9), Instr::Jz(9), Instr::Jz(3), Instr::Jnz(2)]);
}

#[test]
fn detects_scan_in_both_directions() {
    let mut ir = vec![
        Instr::Jz(2),
        Instr::Move(1),
        Instr::Jnz(0),
        Instr::Jz(5),
        Instr::Move(-1),
        Instr::Jnz(3),
    ];
    opt::loop_analysis(&mut ir);
    assert_eq!(ir, vec![Instr::Scan(1), Instr::Scan(-1)]);
}

#[test]
fn detects_setzero_by_increment() {
    let mut ir = vec![Instr::Jz(2), Instr::Add(1), Instr::Jnz(0)];
    opt::loop_analysis(&mut ir);
    assert_eq!(ir, vec![Instr::SetZero]);
}

#[test]
fn detects_addto_in_both_signs() {
    let mut ir = vec![
        Instr::Jz(5),
        Instr::Add(-1),
        Instr::Move(3),
        Instr::Add(1),
        Instr::Move(-3),
        Instr::Jnz(0),
        Instr::Jz(11),
        Instr::Add(-1),
        Instr::Move(-2),
        Instr::Add(-1),
        Instr::Move(2),
        Instr::Jnz(6),
    ];
    opt::loop_analysis(&mut ir);
    assert_eq!(ir, vec![Instr::AddTo(3, 1), Instr::AddTo(-2, -1)]);
}

#[test]
fn addto_needs_an_offset() {
    let given = vec![
        Instr::Jz(5),
        Instr::Add(-1),
        Instr::Move(0),
        Instr::Add(1),
        Instr::Move(0),
        Instr::Jnz(0),
    ];
    let mut ir = given.clone();
    opt::loop_analysis(&mut ir);
    assert_eq!(ir, given);
}

#[test]
fn detects_addmul_with_sorted_edits() {
    // [ - >> +++ <<< -- > ]
    let mut ir = vec![
        Instr::Jz(7),
        Instr::Add(-1),
        Instr::Move(2),
        Instr::Add(3),
        Instr::Move(-3),
        Instr::Add(-2),
        Instr::Move(1),
        Instr::Jnz(0),
    ];
    opt::loop_analysis(&mut ir);
    assert_eq!(ir, vec![Instr::AddMul(vec![(-1, -2), (2, 3)])]);
}

#[test]
fn addmul_drops_offsets_with_no_net_change() {
    let mut ir = vec![
        Instr::Jz(8),
        Instr::Move(1),
        Instr::Add(4),
        Instr::Add(-4),
        Instr::Move(-1),
        Instr::Add(2),
        Instr::Add(-3),
        Instr::Move(0),
        Instr::Jnz(0),
    ];
    opt::loop_analysis(&mut ir);
    assert_eq!(ir, vec![Instr::AddMul(vec![])]);
}

#[test]
fn leaves_other_loops_alone() {
    let not_back = vec![Instr::Jz(3), Instr::Add(-1), Instr::Move(1), Instr::Jnz(0)];
    let mut ir = not_back.clone();
    opt::loop_analysis(&mut ir);
    assert_eq!(ir, not_back);

    let takes_two = vec![Instr::Jz(2), Instr::Add(-2), Instr::Jnz(0)];
    let mut ir = takes_two.clone();
    opt::loop_analysis(&mut ir);
    assert_eq!(ir, takes_two);

    let with_output = vec![Instr::Jz(3), Instr::Add(-1), Instr::Output, Instr::Jnz(0)];
    let mut ir = with_output.clone();
    opt::loop_analysis(&mut ir);
    assert_eq!(ir, with_output);

    let stale = vec![Instr::Jz(1), Instr::Add(-1), Instr::Jnz(0)];
    let mut ir = stale.clone();
    opt::loop_analysis(&mut ir);
    assert_eq!(ir, stale);
}

#[test]
fn inner_loop_is_recognized_inside_outer() {
    let mut ir = vec![
        Instr::Jz(5),
        Instr::Move(1),
        Instr::Jz(4),
        Instr::Add(-1),
        Instr::Jnz(2),
        Instr::Jnz(0),
    ];
    opt::loop_analysis(&mut ir);
    assert_eq!(ir, vec![Instr::Jz(5), Instr::Move(1), Instr::SetZero, Instr::Jnz(0)]);
    opt::rebuild_jumps(&mut ir).unwrap();
    assert_eq!(ir, vec![Instr::Jz(3), Instr::Move(1), Instr::SetZero, Instr::Jnz(0)]);
}

#[test]
fn merged_runs_of_a_tidy_program_alternate() {
    let mut ir = vec![
        Instr::Add(1),
        Instr::Add(1),
        Instr::Move(1),
        Instr::Move(1),
        Instr::Move(-1),
        Instr::Add(-3),
        Instr::Output,
        Instr::Add(4),
        Instr::Add(-4),
        Instr::Move(2),
    ];
    opt::merge_ops(&mut ir);
    assert_eq!(
        ir,
        vec![Instr::Add(2), Instr::Move(1), Instr::Add(-3), Instr::Output, Instr::Move(2)]
    );
    for pair in ir.windows(2) {
        let both_adds = matches!(pair, [Instr::Add(_), Instr::Add(_)]);
        let both_moves = matches!(pair, [Instr::Move(_), Instr::Move(_)]);
        assert!(!both_adds && !both_moves);
    }
    for instr in &ir {
        assert!(!matches!(instr, Instr::Add(0) | Instr::Move(0)));
    }
}
