//! Processes of a shared-memory system, their identifiers, and per-process views.

use vstd::prelude::*;
use vstd::view::View as _;
use std::marker::PhantomData;
use std::rc::Rc;
use std::sync::{Arc, Mutex};

use crate::std_wrappers::{boxed_slice_as_mut, new_unit_mutex, vec_into_boxed_slice};

verus! {

/// A system of a fixed number of processes, numbered `0..n`.
#[derive(Debug)]
pub struct System {
    procs: Vec<Process>,
}

impl System {
    /// Process `i` of the system carries the identifier `i`.
    #[verifier::type_invariant]
    spec fn wf(&self) -> bool {
        forall|i: int| 0 <= i < self.procs@.len() ==> (#[trigger] self.procs@[i]).id == i
    }
}

impl vstd::view::View for System {
    /// The number of processes.
    type V = nat;

    closed spec fn view(&self) -> nat {
        self.procs@.len()
    }
}

impl System {
    /// Creates a system of `n` processes with identifiers `0..n`.
    pub fn with_procs(n: usize) -> (sys: System)
        ensures
            sys@ == n,
    {
        let mut procs: Vec<Process> = Vec::new();
        let mut i: usize = 0;
        while i < n
            invariant
                i <= n,
                procs@.len() == i,
                forall|k: int| 0 <= k < i ==> (#[trigger] procs@[k]).id == k,
            decreases n - i,
        {
            procs.push(Process::new(i));
            i = i + 1;
        }
        System { procs }
    }

    /// The number of processes.
    pub fn num_procs(&self) -> (n: usize)
        ensures
            n == self@,
    {
        self.procs.len()
    }

    /// The processes, in the order of their identifiers.
    pub fn procs(&self) -> (procs: &[Process])
        ensures
            procs@.len() == self@,
            forall|i: int| 0 <= i < procs@.len() ==> (#[trigger] procs@[i])@ == i,
    {
        proof {
            use_type_invariant(self);
        }
        self.procs.as_slice()
    }
}

/// One process of a [`System`].
#[derive(Debug)]
pub struct Process {
    id: usize,
    running: Arc<Mutex<()>>,
}

impl vstd::view::View for Process {
    /// The identifier of the process.
    type V = usize;

    closed spec fn view(&self) -> usize {
        self.id
    }
}

impl Process {
    fn new(id: usize) -> (p: Process)
        ensures
            p.id == id,
    {
        let running = Arc::new(new_unit_mutex());
        Process { id, running }
    }

    /// The identifier under which this process runs.
    pub fn pid(&self) -> (pid: ProcessId)
        ensures
            pid@ == self@,
    {
        ProcessId::new(self.id)
    }

    /// The lock this process holds while it runs.
    pub closed spec fn running_lock(&self) -> Arc<Mutex<()>> {
        self.running
    }

    /// The lock that is held while the process runs, so that it never runs twice at once.
    pub fn running(&self) -> (lock: &Arc<Mutex<()>>)
        ensures
            *lock == self.running_lock(),
    {
        &self.running
    }
}

/// The identifier of the process that is running the current code.
///
/// It cannot be sent to another thread.
#[derive(Debug, Clone, Copy)]
pub struct ProcessId {
    id: usize,
    _marker: PhantomData<Rc<()>>,
}

impl vstd::view::View for ProcessId {
    type V = usize;

    closed spec fn view(&self) -> usize {
        self.id
    }
}

impl ProcessId {
    /// The identifier of process `id`. The caller vouches that `id` is the
    /// identifier of the process on which the code that receives it runs.
    pub fn new(id: usize) -> (pid: ProcessId)
        ensures
            pid@ == id,
    {
        ProcessId { id, _marker: PhantomData }
    }

    /// The identifier as an index into per-process data.
    pub fn as_usize(&self) -> (id: usize)
        ensures
            id == self@,
    {
        self.id
    }
}

/// One value per process, indexed by [`ProcessId`].
#[derive(Debug)]
pub struct View<T> {
    values: Box<[T]>,
}

impl<T> vstd::view::View for View<T> {
    type V = Seq<T>;

    closed spec fn view(&self) -> Seq<T> {
        self.values@
    }
}

impl<T> View<T> {
    /// A view holding `values`, the value of process `i` at index `i`.
    pub fn from_boxed_slice(values: Box<[T]>) -> (view: View<T>)
        ensures
            view@ == values@,
    {
        View { values }
    }

    /// A view holding the elements of `values`, in order.
    pub fn from_vec(values: Vec<T>) -> (view: View<T>)
        ensures
            view@ == values@,
    {
        View { values: vec_into_boxed_slice(values) }
    }

    /// All values, the value of process `i` at index `i`.
    pub fn as_slice(&self) -> (values: &[T])
        ensures
            values@ == self@,
    {
        &*self.values
    }

    /// All values, for change in place.
    pub fn as_mut_slice(&mut self) -> (values: &mut [T])
        ensures
            values@ == old(self)@,
            final(self)@ == final(values)@,
            final(self)@.len() == old(self)@.len(),
    {
        boxed_slice_as_mut(&mut self.values)
    }

    /// The value of process `pid`.
    pub fn get(&self, pid: ProcessId) -> (value: &T)
        requires
            pid@ < self@.len(),
        ensures
            *value == self@[pid@ as int],
    {
        &self.values[pid.as_usize()]
    }

    /// The value of process `pid`, for change in place.
    pub fn get_mut(&mut self, pid: ProcessId) -> (value: &mut T)
        requires
            pid@ < old(self)@.len(),
        ensures
            *value == old(self)@[pid@ as int],
            final(self)@ == old(self)@.update(pid@ as int, *final(value)),
    {
        &mut self.values[pid.as_usize()]
    }

    /// The values, taken out of the view.
    pub fn into_inner(self) -> (values: Box<[T]>)
        ensures
            values@ == self@,
    {
        self.values
    }
}

impl<T> std::ops::Index<ProcessId> for View<T> {
    type Output = T;

    /// The value of process `pid`.
    fn index(&self, pid: ProcessId) -> (value: &T)
        ensures
            *value == self@[pid@ as int],
    {
        self.get(pid)
    }
}

impl<T> std::ops::IndexMut<ProcessId> for View<T> {
    /// The value of process `pid`, for change in place.
    fn index_mut(&mut self, pid: ProcessId) -> (value: &mut T)
        requires
            pid@ < old(self)@.len(),
        ensures
            *value == old(self)@[pid@ as int],
            final(self)@ == old(self)@.update(pid@ as int, *final(value)),
    {
        self.get_mut(pid)
    }
}

impl<T> vstd::std_specs::core::IndexSpecImpl<ProcessId> for View<T> {
    /// Indexing is defined for the processes the view holds a value for.
    open spec fn index_req(&self, pid: &ProcessId) -> bool {
        pid@ < self@.len()
    }
}

impl<T> std::ops::Deref for View<T> {
    type Target = [T];

    /// All values, the value of process `i` at index `i`.
    fn deref(&self) -> (values: &[T])
        ensures
            values@ == self@,
    {
        &*self.values
    }
}

impl<T: Clone> Clone for View<T> {
    /// A view of the same length whose values are clones of this view's values.
    fn clone(&self) -> (copy: Self)
        ensures
            copy@.len() == self@.len(),
            forall|i: int| 0 <= i < self@.len() ==> cloned::<T>(self@[i], #[trigger] copy@[i]),
    {
        let mut values: Vec<T> = Vec::new();
        let mut i: usize = 0;
        while i < self.values.len()
            invariant
                i <= self@.len(),
                values@.len() == i,
                forall|k: int| 0 <= k < i ==> cloned::<T>(self@[k], #[trigger] values@[k]),
            decreases self@.len() - i,
        {
            values.push(self.values[i].clone());
            i = i + 1;
        }
        View::from_vec(values)
    }
}

} // verus!
