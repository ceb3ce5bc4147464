use shared_objects::process::{ProcessId, View, System};

#[test]
fn system_numbers_its_processes() {
    let sys = System::with_procs(16);
    assert_eq!(sys.num_procs(), 16);
    assert_eq!(sys.procs().len(), 16);
    for (i, proc) in sys.procs().iter().enumerate() {
        assert_eq!(proc.pid().as_usize(), i);
    }
}

#[test]
fn empty_system_has_no_processes() {
    let sys = System::with_procs(0);
    assert_eq!(sys.num_procs(), 0);
    assert!(sys.procs().is_empty());
}

#[test]
fn process_id_keeps_its_number() {
    assert_eq!(ProcessId::new(7).as_usize(), 7);
    assert_eq!(ProcessId::new(0).as_usize(), 0);
}

#[test]
fn view_reads_by_process() {
    let view = View::from_boxed_slice(vec![10, 20, 30].into_boxed_slice());
    let pid = ProcessId::new(1);
    assert_eq!(*view.get(pid), 20);
    assert_eq!(view[ProcessId::new(2)], 30);
    assert_eq!(view.as_slice(), &[10, 20, 30]);
    assert_eq!(&*view, &[10, 20, 30]);
    assert_eq!(view.len(), 3);
}

#[test]
fn view_changes_in_place() {
    let mut view = View::from_vec(vec![1, 2, 3]);
    *view.get_mut(ProcessId::new(0)) = 5;
    view.as_mut_slice()[2] = 9;
    assert_eq!(&*view.into_inner(), &[5, 2, 9]);
}

#[test]
fn view_clone_is_equal() {
    let view = View::from_vec(vec![String::from("a"), String::from("b")]);
    let copy = view.clone();
    assert_eq!(copy.as_slice(), view.as_slice());
}

#[test]
fn view_index_mut_writes_one_value() {
    let mut view = View::from_vec(vec![1, 2, 3]);
    view[ProcessId::new(1)] = 7;
    assert_eq!(view.as_slice(), &[1, 7, 3]);
}

#[test]
fn view_mut_slice_keeps_length() {
    let mut view = View::from_vec(vec![1, 2, 3]);
    view.as_mut_slice().reverse();
    assert_eq!(view.len(), 3);
    assert_eq!(view.as_slice(), &[3, 2, 1]);
}
