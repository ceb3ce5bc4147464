//! Storage that holds one value for each process of a system.

use vstd::prelude::*;

use crate::process::{ProcessId, System};
use crate::std_wrappers::{boxed_slice_as_mut, vec_into_boxed_slice};

verus! {

/// One value of type `T` per process, the value of process `i` at index `i`.
#[derive(Debug)]
pub struct ProcessLocal<T> {
    num_procs: usize,
    data: Box<[T]>,
}

impl<T> ProcessLocal<T> {
    /// The storage holds one value for each process it was made for.
    #[verifier::type_invariant]
    spec fn one_per_process(&self) -> bool {
        self.num_procs == self.data@.len()
    }
}

impl<T> View for ProcessLocal<T> {
    type V = Seq<T>;

    closed spec fn view(&self) -> Seq<T> {
        self.data@
    }
}

impl<T> ProcessLocal<T> {
    /// The number of processes the storage was made for; no operation changes it.
    pub closed spec fn num_procs(&self) -> nat {
        self.num_procs as nat
    }

    /// The value of process `pid`.
    pub fn get(&self, pid: ProcessId) -> (value: &T)
        requires
            pid@ < self@.len(),
        ensures
            *value == self@[pid@ as int],
            self@.len() == self.num_procs(),
    {
        proof {
            use_type_invariant(self);
        }
        &self.data[pid.as_usize()]
    }

    /// All values, the value of process `i` at index `i`.
    pub fn as_slice(&self) -> (values: &[T])
        ensures
            values@ == self@,
            values@.len() == self.num_procs(),
    {
        proof {
            use_type_invariant(self);
        }
        &*self.data
    }

    /// All values, for change in place.
    pub fn as_mut_slice(&mut self) -> (values: &mut [T])
        ensures
            values@ == old(self)@,
            final(self)@ == final(values)@,
            final(self)@.len() == old(self)@.len(),
            final(self).num_procs() == old(self).num_procs(),
            values@.len() == old(self).num_procs(),
    {
        proof {
            use_type_invariant(&*self);
        }
        boxed_slice_as_mut(&mut self.data)
    }

    /// Storage for the processes of `sys`, each value made by a call of `factory`.
    pub fn new<F>(sys: &System, factory: F) -> (local: ProcessLocal<T>)
        where
            F: Fn() -> T,
        requires
            factory.requires(()),
        ensures
            local@.len() == sys@,
            local.num_procs() == sys@,
            forall|i: int| 0 <= i < local@.len() ==> factory.ensures((), #[trigger] local@[i]),
    {
        let num_procs = sys.num_procs();
        let mut data: Vec<T> = Vec::new();
        let mut i: usize = 0;
        while i < num_procs
            invariant
                i <= num_procs,
                data@.len() == i,
                factory.requires(()),
                forall|k: int| 0 <= k < i ==> factory.ensures((), #[trigger] data@[k]),
            decreases num_procs - i,
        {
            data.push(factory());
            i = i + 1;
        }
        ProcessLocal { num_procs, data: vec_into_boxed_slice(data) }
    }
}

} // verus!
