use std::sync::atomic::{AtomicUsize, Ordering};
use std::sync::Arc;

use shared_objects::process::System;
use shared_objects::process_local::ProcessLocal;

#[test]
fn lib_basic_usage() {
    const NUM_PROCESS: usize = 100;
    let sys = System::with_procs(NUM_PROCESS);
    let pls = Arc::new(ProcessLocal::new(&sys, || AtomicUsize::new(0)));

    for proc in sys.procs() {
        let pid = proc.pid();
        pls.get(pid).store(pid.as_usize(), Ordering::SeqCst);
    }

    let sum: usize = Arc::try_unwrap(pls)
        .unwrap()
        .as_mut_slice()
        .iter_mut()
        .map(|value| *value.get_mut())
        .sum();

    assert_eq!(sum, (0..NUM_PROCESS).sum());
}

#[test]
fn factory_is_called_once_per_process() {
    let sys = System::with_procs(5);
    let calls = AtomicUsize::new(0);
    let local = ProcessLocal::new(&sys, || calls.fetch_add(1, Ordering::SeqCst));
    assert_eq!(calls.load(Ordering::SeqCst), 5);
    let mut seen: Vec<usize> = local.as_slice().to_vec();
    seen.sort();
    assert_eq!(seen, vec![0, 1, 2, 3, 4]);
}

#[test]
fn local_values_are_per_process() {
    let sys = System::with_procs(3);
    let mut local = ProcessLocal::new(&sys, || 0u32);
    local.as_mut_slice()[1] = 4;
    let pid = sys.procs()[1].pid();
    assert_eq!(*local.get(pid), 4);
    assert_eq!(local.as_slice(), &[0, 4, 0]);
}

#[test]
fn local_keeps_one_value_per_process() {
    let sys = System::with_procs(4);
    let mut local = ProcessLocal::new(&sys, || 1u8);
    local.as_mut_slice().reverse();
    local.as_mut_slice()[0] = 9;
    assert_eq!(local.as_slice().len(), sys.num_procs());
    assert_eq!(local.as_slice(), &[9, 1, 1, 1]);
}
