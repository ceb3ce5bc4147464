use shared_objects::process::{ProcessId, View};
use shared_objects::snapshot::{unchanged, DoubleCollect, RegisterValue, ScanStep};

fn value(data: i32, sn: usize) -> RegisterValue<i32> {
    let help = if sn == 0 { None } else { Some(View::from_vec(vec![data; 3])) };
    RegisterValue::new(data, sn, help)
}

fn scan(entries: &[(i32, usize)]) -> Vec<RegisterValue<i32>> {
    entries.iter().map(|&(d, s)| value(d, s)).collect()
}

#[test]
fn register_value_holds_its_parts() {
    let v = RegisterValue::new(4, 2, None);
    assert_eq!(v.data, 4);
    assert_eq!(v.sn, 2);
    assert!(v.help.is_none());
}

#[test]
fn following_value_counts_one_more_update() {
    let help = View::from_vec(vec![1, 2]);
    let v = RegisterValue::following(9, 4, help);
    assert_eq!(v.data, 9);
    assert_eq!(v.sn, 5);
    assert_eq!(v.help.unwrap().as_slice(), &[1, 2]);
}

#[test]
fn unchanged_compares_sequence_numbers_only() {
    let a = scan(&[(1, 0), (2, 3)]);
    let b = scan(&[(7, 0), (8, 3)]);
    assert!(unchanged(&a, &b));
    let c = scan(&[(1, 0), (2, 4)]);
    assert!(!unchanged(&a, &c));
    let d = scan(&[(1, 0)]);
    assert!(!unchanged(&a, &d));
    assert!(unchanged(&d, &d));
}

#[test]
fn agreeing_scans_return_the_first_scan() {
    let state = DoubleCollect::new(scan(&[(1, 1), (2, 1), (3, 0)]));
    assert_eq!(state.scanned(), 3);
    match state.step(scan(&[(5, 1), (6, 1), (7, 0)])) {
        ScanStep::Finished(view) => assert_eq!(view.as_slice(), &[1, 2, 3]),
        ScanStep::Rescan(_) => panic!("the scans agree"),
    }
}

#[test]
fn moving_once_forces_a_rescan() {
    let state = DoubleCollect::new(scan(&[(1, 1), (2, 1), (3, 0)]));
    let second = scan(&[(1, 1), (4, 2), (3, 0)]);
    assert_eq!(state.helper(&second), None);
    let state = match state.step(second) {
        ScanStep::Rescan(next) => next,
        ScanStep::Finished(_) => panic!("register 1 moved"),
    };
    // The third scan agrees with the second one.
    match state.step(scan(&[(1, 1), (4, 2), (3, 0)])) {
        ScanStep::Finished(view) => assert_eq!(view.as_slice(), &[1, 4, 3]),
        ScanStep::Rescan(_) => panic!("the scans agree"),
    }
}

#[test]
fn moving_twice_lends_its_view() {
    let state = DoubleCollect::new(scan(&[(1, 0), (2, 1), (3, 0)]));
    let state = match state.step(scan(&[(1, 0), (4, 2), (3, 0)])) {
        ScanStep::Rescan(next) => next,
        ScanStep::Finished(_) => panic!("register 1 moved"),
    };
    let mut third = scan(&[(1, 0), (5, 3), (3, 0)]);
    third[1].help = Some(View::from_vec(vec![11, 12, 13]));
    assert_eq!(state.helper(&third), Some(1));
    match state.step(third) {
        ScanStep::Finished(view) => assert_eq!(view.as_slice(), &[11, 12, 13]),
        ScanStep::Rescan(_) => panic!("register 1 moved twice"),
    }
}

#[test]
fn lowest_register_that_moved_twice_lends_its_view() {
    let state = DoubleCollect::new(scan(&[(0, 1), (0, 1), (0, 1)]));
    let state = match state.step(scan(&[(0, 2), (0, 1), (0, 2)])) {
        ScanStep::Rescan(next) => next,
        ScanStep::Finished(_) => panic!("registers 0 and 2 moved"),
    };
    let mut third = scan(&[(0, 2), (0, 2), (0, 3)]);
    third[2].help = Some(View::from_vec(vec![7, 7, 7]));
    // Register 1 moved for the first time; register 2 moved again.
    assert_eq!(state.helper(&third), Some(2));
    match state.step(third) {
        ScanStep::Finished(view) => assert_eq!(view.as_slice(), &[7, 7, 7]),
        ScanStep::Rescan(_) => panic!("register 2 moved twice"),
    }
}

#[test]
fn rescans_are_bounded_by_the_number_of_registers() {
    // Each round a different register moves, so none moves twice, until
    // every register has been seen; the next movement must lend a view.
    let n = 4;
    let mut sns = vec![0usize; n];
    let mut state = DoubleCollect::new(scan(&sns.iter().map(|&s| (0, s)).collect::<Vec<_>>()));
    let mut rescans = 0;
    let mut round = 0;
    let view = loop {
        sns[round % n] += 1;
        round += 1;
        let next = scan(&sns.iter().map(|&s| (0, s)).collect::<Vec<_>>());
        match state.step(next) {
            ScanStep::Finished(view) => break view,
            ScanStep::Rescan(s) => {
                rescans += 1;
                state = s;
            }
        }
    };
    assert_eq!(rescans, n);
    assert_eq!(view.len(), 3);
    let pid = ProcessId::new(0);
    assert_eq!(view[pid], 0);
}
