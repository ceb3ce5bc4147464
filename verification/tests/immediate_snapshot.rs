use shared_objects::immediate_snapshot::{initial_level, lower_level, merge_viewed, view_at_level};

#[test]
fn settles_when_enough_processes_are_at_or_below() {
    assert!(view_at_level(&[3, 2, 4], 3).is_none());
    let viewed = view_at_level(&[2, 1, 4], 2).expect("two processes are at or below level 2");
    let mut members: Vec<usize> = viewed.into_iter().collect();
    members.sort();
    assert_eq!(members, vec![0, 1]);
}

#[test]
fn descends_when_too_few_processes_are_at_or_below() {
    assert!(view_at_level(&[3, 5, 5], 3).is_none());
}

#[test]
fn settles_on_every_process_at_the_top_level() {
    let viewed = view_at_level(&[3, 3, 3], 3).unwrap();
    assert_eq!(viewed.len(), 3);
}

#[test]
fn view_includes_the_process_itself() {
    // Process 2 published level 1 and reads it back.
    let viewed = view_at_level(&[4, 4, 1, 4], 1).unwrap();
    assert!(viewed.contains(&2));
    assert_eq!(viewed.len(), 1);
}

#[test]
fn level_zero_always_settles() {
    let viewed = view_at_level(&[2, 2], 0).unwrap();
    assert!(viewed.is_empty());
}

#[test]
fn solo_descent_settles_at_level_one() {
    // A process alone in a system of 3 starts above level 3 and descends.
    let n = 3;
    let me = 1;
    let mut levels = vec![n + 1; n];
    let mut floor = n + 1;
    let viewed = loop {
        floor -= 1;
        levels[me] = floor;
        if let Some(viewed) = view_at_level(&levels, floor) {
            break viewed;
        }
    };
    assert_eq!(floor, 1);
    assert_eq!(viewed.into_iter().collect::<Vec<_>>(), vec![me]);
}

#[test]
fn lower_level_goes_one_down() {
    assert_eq!(lower_level(4), 3);
    assert_eq!(lower_level(1), 0);
}

#[test]
fn merge_replaces_exactly_the_viewed_values() {
    let mut local = vec![-1, -1, -1, -1];
    let viewed = view_at_level(&[1, 3, 2, 2], 2).unwrap();
    let fresh: Vec<Option<i32>> = (0..4).map(|j| if viewed.contains(&j) { Some(j as i32 * 10) } else { None }).collect();
    merge_viewed(&mut local[..], &viewed, fresh);
    assert_eq!(local, vec![0, -1, 20, 30]);
}

#[test]
fn own_read_value_is_in_the_view() {
    // Process 1 published level 2 and settles at level 2 with process 3.
    let me = 1;
    let mut local = vec![0, 0, 0, 0];
    let viewed = view_at_level(&[4, 2, 4, 1], 2).unwrap();
    let fresh: Vec<Option<i32>> = (0..4).map(|j| if viewed.contains(&j) { Some(100 + j as i32) } else { None }).collect();
    merge_viewed(&mut local[..], &viewed, fresh);
    assert_eq!(local[me], 101);
    assert_eq!(local, vec![0, 101, 0, 103]);
}

#[test]
fn initial_level_is_one_above_the_top() {
    assert_eq!(initial_level(16), 17);
    assert_eq!(lower_level(initial_level(16)), 16);
    assert_eq!(initial_level(0), 1);
}
