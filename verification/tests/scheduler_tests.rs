use bml::rpn::RpnOp;
use bml::scheduler::{SubFragment, WaveScheduler};

fn make_sub(sub_id: u32, depends_on: Vec<u32>) -> SubFragment {
    SubFragment {
        fragment_id: 0,
        sub_id,
        layer_start: 0,
        layer_end: 1,
        ops: vec![RpnOp::One],
        weight_refs: vec![],
        depends_on,
    }
}

#[test]
fn wave_serial_chain() {
    let subs = vec![make_sub(0, vec![]), make_sub(1, vec![0]), make_sub(2, vec![1])];
    let sched = WaveScheduler::new(subs);
    let waves = sched.compute_waves();
    assert_eq!(waves.len(), 3);
    assert_eq!(waves[0], vec![0]);
    assert_eq!(waves[1], vec![1]);
    assert_eq!(waves[2], vec![2]);
}

#[test]
fn wave_parallel() {
    let subs = vec![make_sub(0, vec![]), make_sub(1, vec![]), make_sub(2, vec![0, 1])];
    let sched = WaveScheduler::new(subs);
    let waves = sched.compute_waves();
    assert_eq!(waves.len(), 2);
    assert!(waves[0].contains(&0));
    assert!(waves[0].contains(&1));
    assert_eq!(waves[1], vec![2]);
}

#[test]
fn wave_all_parallel() {
    let subs = vec![make_sub(0, vec![]), make_sub(1, vec![]), make_sub(2, vec![]), make_sub(3, vec![])];
    let sched = WaveScheduler::new(subs);
    let waves = sched.compute_waves();
    assert_eq!(waves.len(), 1);
    assert_eq!(waves[0].len(), 4);
    assert_eq!(sched.max_parallelism(), 4);
}

#[test]
fn wave_diamond() {
    let subs = vec![make_sub(0, vec![]), make_sub(1, vec![0]), make_sub(2, vec![0]), make_sub(3, vec![1, 2])];
    let sched = WaveScheduler::new(subs);
    let waves = sched.compute_waves();
    assert_eq!(waves.len(), 3);
    assert_eq!(waves[0], vec![0]);
    assert_eq!(waves[1].len(), 2);
    assert_eq!(waves[2], vec![3]);
    assert_eq!(sched.max_parallelism(), 2);
}

#[test]
fn wave_num_waves() {
    let subs = vec![make_sub(0, vec![]), make_sub(1, vec![0]), make_sub(2, vec![0]), make_sub(3, vec![1, 2])];
    let sched = WaveScheduler::new(subs);
    assert_eq!(sched.num_waves(), 3);
}

#[test]
fn waves_keep_first_order_and_later_duplicates_win() {
    // Id 5 appears twice: the later entry (no dependency) is the one used.
    let subs = vec![make_sub(5, vec![9]), make_sub(7, vec![]), make_sub(9, vec![7]), make_sub(5, vec![])];
    let sched = WaveScheduler::new(subs);
    assert_eq!(sched.compute_waves(), vec![vec![5, 7], vec![9]]);
    let empty = WaveScheduler::new(vec![]);
    assert!(empty.compute_waves().is_empty());
    assert_eq!(empty.max_parallelism(), 0);
}

#[test]
fn cycles_and_unknown_dependencies_get_stuck() {
    let sched = WaveScheduler::new(vec![make_sub(0, vec![]), make_sub(1, vec![2]), make_sub(2, vec![1])]);
    assert_eq!(sched.try_compute_waves(), Err(vec![1, 2]));
    let unknown = WaveScheduler::new(vec![make_sub(0, vec![]), make_sub(1, vec![0, 9])]);
    assert_eq!(unknown.try_compute_waves(), Err(vec![1]));
    let fine = WaveScheduler::new(vec![make_sub(0, vec![]), make_sub(1, vec![0])]);
    assert_eq!(fine.try_compute_waves(), Ok(vec![vec![0], vec![1]]));
}
