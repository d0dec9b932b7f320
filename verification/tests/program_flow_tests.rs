use bml::program_flow::{Flow, FragmentDriver, ProgramDriver};
use bml::rpn::RpnOp;

fn flow(ops: &[RpnOp]) -> Vec<Flow> {
    let mut d = ProgramDriver::new(ops);
    let mut out = Vec::new();
    while let Some(s) = d.next_step(ops) {
        out.push(s);
    }
    out
}

fn ex(op: RpnOp) -> Flow {
    Flow::Exec(op)
}

fn lp(op: RpnOp) -> Flow {
    Flow::ExecInLoop(op)
}

#[test]
fn straight_line_program() {
    assert_eq!(flow(&[RpnOp::One, RpnOp::One, RpnOp::Bml]), vec![ex(RpnOp::One), ex(RpnOp::One), ex(RpnOp::Bml)]);
    assert!(flow(&[]).is_empty());
}

#[test]
fn loop_repeats_body_without_counter() {
    let ops = [RpnOp::One, RpnOp::Loop { count: 3, body_len: 2 }, RpnOp::Dup, RpnOp::Bml];
    assert_eq!(
        flow(&ops),
        vec![
            ex(RpnOp::One),
            lp(RpnOp::Dup),
            lp(RpnOp::Bml),
            lp(RpnOp::Dup),
            lp(RpnOp::Bml),
            lp(RpnOp::Dup),
            lp(RpnOp::Bml),
        ]
    );
}

#[test]
fn loop_count_zero_skips_body() {
    let ops = [RpnOp::One, RpnOp::Loop { count: 0, body_len: 2 }, RpnOp::Dup, RpnOp::Bml];
    assert_eq!(flow(&ops), vec![ex(RpnOp::One)]);
}

#[test]
fn loop_equivalent_to_unrolled() {
    let body = [RpnOp::Dup, RpnOp::FAdd];
    let looped = [RpnOp::One, RpnOp::Loop { count: 4, body_len: 2 }, body[0], body[1]];
    let mut unrolled = vec![RpnOp::One];
    for _ in 0..4 {
        unrolled.extend_from_slice(&body);
    }
    let expected: Vec<Flow> = flow(&unrolled)
        .into_iter()
        .enumerate()
        .map(|(i, f)| match f {
            Flow::Exec(op) if i > 0 => Flow::ExecInLoop(op),
            other => other,
        })
        .collect();
    assert_eq!(flow(&looped), expected);
}

#[test]
fn nested_loops_two_levels() {
    let ops = [
        RpnOp::Loop { count: 2, body_len: 3 },
        RpnOp::Loop { count: 2, body_len: 1 },
        RpnOp::One,
        RpnOp::Drop,
    ];
    assert_eq!(
        flow(&ops),
        vec![lp(RpnOp::One), lp(RpnOp::One), lp(RpnOp::Drop), lp(RpnOp::One), lp(RpnOp::One), lp(RpnOp::Drop)]
    );
}

#[test]
fn third_level_aborts() {
    let ops = [
        RpnOp::Loop { count: 1, body_len: 3 },
        RpnOp::Loop { count: 1, body_len: 2 },
        RpnOp::Loop { count: 1, body_len: 1 },
        RpnOp::One,
    ];
    assert_eq!(flow(&ops), vec![Flow::Abort]);
}

#[test]
fn body_past_end_aborts_only_when_run() {
    assert_eq!(flow(&[RpnOp::One, RpnOp::Loop { count: 1, body_len: 3 }, RpnOp::Zero]), vec![
        ex(RpnOp::One),
        lp(RpnOp::Zero),
        Flow::Abort,
    ]);
    assert_eq!(flow(&[RpnOp::One, RpnOp::Loop { count: 0, body_len: 3 }]), vec![ex(RpnOp::One)]);
    assert_eq!(flow(&[RpnOp::Loop { count: 2, body_len: 0 }, RpnOp::Zero]), vec![ex(RpnOp::Zero)]);
}

fn fragment_flow(ops: &[RpnOp]) -> Vec<Flow> {
    let mut d = FragmentDriver::new(ops);
    let mut out = Vec::new();
    while let Some(s) = d.next_step(ops) {
        out.push(s);
    }
    out
}

#[test]
fn fragment_loop_repeats_body() {
    let ops = [RpnOp::One, RpnOp::Loop { count: 2, body_len: 2 }, RpnOp::Dup, RpnOp::Bml, RpnOp::One];
    assert_eq!(
        fragment_flow(&ops),
        vec![ex(RpnOp::One), lp(RpnOp::Dup), lp(RpnOp::Bml), lp(RpnOp::Dup), lp(RpnOp::Bml), ex(RpnOp::One)]
    );
}

#[test]
fn fragment_nested_loop_stops() {
    let ops = [
        RpnOp::One,
        RpnOp::Loop { count: 2, body_len: 3 },
        RpnOp::Dup,
        RpnOp::Loop { count: 2, body_len: 1 },
        RpnOp::Dup,
    ];
    assert_eq!(fragment_flow(&ops), vec![ex(RpnOp::One), lp(RpnOp::Dup), Flow::Abort]);
    // The reference evaluator runs two levels of loops.
    assert!(!flow(&ops).contains(&Flow::Abort));
}

#[test]
fn fragment_body_past_the_end_stops_unless_skipped() {
    let ops = [RpnOp::One, RpnOp::Loop { count: 1, body_len: 3 }, RpnOp::Dup];
    assert_eq!(fragment_flow(&ops), vec![ex(RpnOp::One), lp(RpnOp::Dup), Flow::Abort]);
    let skipped = [RpnOp::One, RpnOp::Loop { count: 0, body_len: 3 }, RpnOp::Dup];
    assert_eq!(fragment_flow(&skipped), vec![ex(RpnOp::One)]);
}

#[test]
fn fragment_loop_equivalent_to_unrolled() {
    let body = [RpnOp::Dup, RpnOp::Bml, RpnOp::Swap];
    let looped = [RpnOp::Loop { count: 3, body_len: 3 }, body[0], body[1], body[2]];
    let mut unrolled = Vec::new();
    for _ in 0..3 {
        unrolled.extend_from_slice(&body);
    }
    let expected: Vec<Flow> = fragment_flow(&unrolled)
        .into_iter()
        .map(|f| match f {
            Flow::Exec(op) => Flow::ExecInLoop(op),
            other => other,
        })
        .collect();
    assert_eq!(fragment_flow(&looped), expected);
    assert_eq!(expected.len(), 9);
}

#[test]
fn fragments_run_as_program() {
    let ops = [RpnOp::One, RpnOp::Dup, RpnOp::Bml, RpnOp::One, RpnOp::Bml];
    let mut joined = fragment_flow(&ops[..2]);
    joined.extend(fragment_flow(&ops[2..]));
    assert_eq!(joined, flow(&ops));
    // A loop cut off from its body does not run as the program does.
    let looped = [RpnOp::Loop { count: 2, body_len: 1 }, RpnOp::One];
    let mut cut = fragment_flow(&looped[..1]);
    cut.extend(fragment_flow(&looped[1..]));
    assert_ne!(cut, flow(&looped));
}
