use bml::hot_loop::{LoopDriver, Step};
use bml::rpn::RpnOp;

fn steps(ops: &[RpnOp]) -> Vec<Step> {
    let mut d = LoopDriver::new(ops);
    let mut out = Vec::new();
    while let Some(s) = d.next_step(ops) {
        out.push(s);
    }
    out
}

#[test]
fn straight_line_runs_in_order() {
    let ops = [RpnOp::One, RpnOp::One, RpnOp::Bml];
    assert_eq!(steps(&ops), vec![Step::Exec(RpnOp::One), Step::Exec(RpnOp::One), Step::Exec(RpnOp::Bml)]);
    assert!(steps(&[]).is_empty());
}

#[test]
fn loop_pushes_pass_number_then_body() {
    let ops = [RpnOp::Loop { count: 3, body_len: 1 }, RpnOp::FAdd, RpnOp::Drop];
    assert_eq!(
        steps(&ops),
        vec![
            Step::Counter(0),
            Step::Exec(RpnOp::FAdd),
            Step::Counter(1),
            Step::Exec(RpnOp::FAdd),
            Step::Counter(2),
            Step::Exec(RpnOp::FAdd),
            Step::Exec(RpnOp::Drop),
        ]
    );
}

#[test]
fn nested_loops() {
    let ops = [
        RpnOp::Loop { count: 2, body_len: 3 },
        RpnOp::Loop { count: 2, body_len: 1 },
        RpnOp::One,
        RpnOp::Swap,
    ];
    assert_eq!(
        steps(&ops),
        vec![
            Step::Counter(0),
            Step::Counter(0),
            Step::Exec(RpnOp::One),
            Step::Counter(1),
            Step::Exec(RpnOp::One),
            Step::Exec(RpnOp::Swap),
            Step::Counter(1),
            Step::Counter(0),
            Step::Exec(RpnOp::One),
            Step::Counter(1),
            Step::Exec(RpnOp::One),
            Step::Exec(RpnOp::Swap),
        ]
    );
}

#[test]
fn zero_count_skips_body() {
    let ops = [RpnOp::Loop { count: 0, body_len: 2 }, RpnOp::One, RpnOp::One, RpnOp::Zero];
    assert_eq!(steps(&ops), vec![Step::Exec(RpnOp::Zero)]);
}

#[test]
fn body_past_the_end_stops_the_block() {
    let ops = [RpnOp::One, RpnOp::Loop { count: 2, body_len: 5 }, RpnOp::Zero];
    assert_eq!(steps(&ops), vec![Step::Exec(RpnOp::One)]);
    let inner = [
        RpnOp::Loop { count: 2, body_len: 2 },
        RpnOp::Loop { count: 1, body_len: 4 },
        RpnOp::Zero,
        RpnOp::One,
    ];
    assert_eq!(
        steps(&inner),
        vec![Step::Counter(0), Step::Counter(1), Step::Exec(RpnOp::One)]
    );
}
