//! The decisions of the wait-free atomic snapshot: the values its registers
//! hold, the double-collect comparison, and the choice between returning a
//! scan, borrowing the view of a process that moved twice, and scanning again.

use vstd::prelude::*;
use vstd::view::View as _;
use std::collections::HashSet;

use crate::indices::{lemma_bounded_indices, lemma_proper_subset_len};
use crate::process::View;

verus! {

broadcast use vstd::std_specs::hash::group_hash_axioms;

/// What one process's register of a snapshot object holds: the process's
/// latest value, the number of updates it has made, and the view it took
/// during its latest update (none before the first update).
#[derive(Debug, Clone)]
pub struct RegisterValue<T> {
    pub data: T,
    pub sn: usize,
    pub help: Option<View<T>>,
}

impl<T> RegisterValue<T> {
    /// A register value made of its three parts.
    pub fn new(data: T, sn: usize, help: Option<View<T>>) -> (value: RegisterValue<T>)
        ensures
            value.data == data,
            value.sn == sn,
            value.help == help,
    {
        RegisterValue { data, sn, help }
    }

    /// The value an update publishes: the new data, the next sequence number
    /// after `previous_sn`, and the view the update took first.
    pub fn following(data: T, previous_sn: usize, help: View<T>) -> (value: RegisterValue<T>)
        requires
            previous_sn < usize::MAX,
        ensures
            value.data == data,
            value.sn == previous_sn + 1,
            value.help == Some(help),
    {
        RegisterValue::new(data, previous_sn + 1, Some(help))
    }
}

/// The two scans have the same length and the same sequence number at every position.
pub open spec fn sequence_numbers_agree<T>(
    aa: Seq<RegisterValue<T>>,
    bb: Seq<RegisterValue<T>>,
) -> bool {
    &&& aa.len() == bb.len()
    &&& forall|j: int| 0 <= j < aa.len() ==> aa[j].sn == bb[j].sn
}

/// The data of each register value of a scan, in order.
pub open spec fn data_of<T>(scan: Seq<RegisterValue<T>>) -> Seq<T> {
    scan.map_values(|value: RegisterValue<T>| value.data)
}

/// Register `j` was updated between the scans `aa` and `bb`.
pub open spec fn moved<T>(aa: Seq<RegisterValue<T>>, bb: Seq<RegisterValue<T>>, j: int) -> bool {
    &&& 0 <= j < aa.len()
    &&& j < bb.len()
    &&& aa[j].sn != bb[j].sn
}

/// The registers updated between the scans `aa` and `bb`.
pub open spec fn moved_set<T>(aa: Seq<RegisterValue<T>>, bb: Seq<RegisterValue<T>>) -> Set<usize> {
    Set::new(|j: usize| moved(aa, bb, j as int))
}

/// Register `j` was updated between `aa` and `bb`, and had been seen moving in an earlier round.
pub open spec fn moved_again<T>(
    aa: Seq<RegisterValue<T>>,
    bb: Seq<RegisterValue<T>>,
    seen: Set<usize>,
    j: int,
) -> bool {
    moved(aa, bb, j) && seen.contains(j as usize)
}

/// `j` is the lowest register that moved again.
pub open spec fn first_moved_again<T>(
    aa: Seq<RegisterValue<T>>,
    bb: Seq<RegisterValue<T>>,
    seen: Set<usize>,
    j: int,
) -> bool {
    &&& moved_again(aa, bb, seen, j)
    &&& forall|k: int| 0 <= k < j ==> !moved_again(aa, bb, seen, k)
}

/// The register whose view would be borrowed carries one.
pub open spec fn helper_carries_view<T>(
    aa: Seq<RegisterValue<T>>,
    bb: Seq<RegisterValue<T>>,
    seen: Set<usize>,
) -> bool {
    forall|j: int| first_moved_again(aa, bb, seen, j) ==> (#[trigger] bb[j]).help is Some
}

/// Whether two scans saw the same sequence numbers everywhere (the double collect succeeded).
pub fn unchanged<T>(aa: &[RegisterValue<T>], bb: &[RegisterValue<T>]) -> (same: bool)
    ensures
        same == sequence_numbers_agree(aa@, bb@),
        same <==> (aa@.len() == bb@.len() && forall|k: int|
            #![trigger aa@[k], bb@[k]]
            0 <= k < aa@.len() ==> aa@[k].sn == bb@[k].sn),
{
    if aa.len() != bb.len() {
        return false;
    }
    let mut j: usize = 0;
    while j < aa.len()
        invariant
            aa@.len() == bb@.len(),
            j <= aa@.len(),
            forall|k: int| 0 <= k < j ==> aa@[k].sn == bb@[k].sn,
        decreases aa@.len() - j,
    {
        if aa[j].sn != bb[j].sn {
            return false;
        }
        j = j + 1;
    }
    true
}

/// The data of a scan, in order, taken out of the register values.
fn into_data<T>(scan: Vec<RegisterValue<T>>) -> (data: Vec<T>)
    ensures
        data@ == data_of(scan@),
{
    let ghost whole = scan@;
    let mut rest = scan;
    let mut data: Vec<T> = Vec::new();
    while rest.len() > 0
        invariant
            data@.len() + rest@.len() == whole.len(),
            rest@ == whole.subrange(data@.len() as int, whole.len() as int),
            forall|k: int| 0 <= k < data@.len() ==> data@[k] == (#[trigger] whole[k]).data,
        decreases rest@.len(),
    {
        let value = rest.remove(0);
        data.push(value.data);
    }
    assert(data@ =~= data_of(whole));
    data
}

/// The state of one snapshot operation between two scans: the latest scan,
/// and the registers seen moving in earlier rounds.
pub struct DoubleCollect<T> {
    last: Vec<RegisterValue<T>>,
    seen: HashSet<usize>,
}

/// What a snapshot operation does after a scan.
pub enum ScanStep<T> {
    /// The operation returns this view.
    Finished(View<T>),
    /// The operation scans again from this state.
    Rescan(DoubleCollect<T>),
}

impl<T> DoubleCollect<T> {
    /// The latest scan.
    pub closed spec fn last_scan(&self) -> Seq<RegisterValue<T>> {
        self.last@
    }

    /// The registers seen moving in earlier rounds.
    pub closed spec fn seen(&self) -> Set<usize> {
        self.seen@
    }

    /// Every register seen moving is one of the scanned registers.
    pub open spec fn wf(&self) -> bool {
        forall|j: usize| #[trigger] self.seen().contains(j) ==> j < self.last_scan().len()
    }

    /// The state after the first scan of a snapshot operation.
    pub fn new(first: Vec<RegisterValue<T>>) -> (state: DoubleCollect<T>)
        ensures
            state.last_scan() == first@,
            state.seen() == Set::<usize>::empty(),
            state.wf(),
    {
        DoubleCollect { last: first, seen: HashSet::new() }
    }

    /// The number of registers the latest scan read.
    pub fn scanned(&self) -> (n: usize)
        ensures
            n == self.last_scan().len(),
    {
        self.last.len()
    }

    /// The register whose view a step after scan `bb` would borrow, if any:
    /// the lowest one that moved between the latest scan and `bb` and had
    /// been seen moving before.
    pub fn helper(&self, bb: &[RegisterValue<T>]) -> (helper: Option<usize>)
        ensures
            match helper {
                Some(j) => first_moved_again(self.last_scan(), bb@, self.seen(), j as int),
                None => forall|j: int| !moved_again(self.last_scan(), bb@, self.seen(), j),
            },
            // Only a register already seen moving in an earlier round that moved
            // again now is named, and the lowest such one.
            match helper {
                Some(j) => {
                    &&& j < self.last_scan().len()
                    &&& j < bb@.len()
                    &&& self.last_scan()[j as int].sn != bb@[j as int].sn
                    &&& self.seen().contains(j)
                    &&& forall|k: int|
                        #![trigger bb@[k]]
                        0 <= k < j ==> !(self.last_scan()[k].sn != bb@[k].sn && self.seen().contains(
                            k as usize,
                        ))
                },
                None => forall|k: int|
                    #![trigger bb@[k]]
                    0 <= k < self.last_scan().len() && k < bb@.len() ==> !(self.last_scan()[k].sn
                        != bb@[k].sn && self.seen().contains(k as usize)),
            },
    {
        let n = if self.last.len() < bb.len() { self.last.len() } else { bb.len() };
        let mut j: usize = 0;
        while j < n
            invariant
                n <= self.last@.len(),
                n <= bb@.len(),
                n == self.last@.len() || n == bb@.len(),
                j <= n,
                forall|k: int| 0 <= k < j ==> !moved_again(self.last_scan(), bb@, self.seen(), k),
                forall|k: int|
                    #![trigger bb@[k]]
                    0 <= k < j ==> !(self.last_scan()[k].sn != bb@[k].sn && self.seen().contains(
                        k as usize,
                    )),
            decreases n - j,
        {
            if self.last[j].sn != bb[j].sn && self.seen.contains(&j) {
                return Some(j);
            }
            assert(!(self.last_scan()[j as int].sn != bb@[j as int].sn && self.seen().contains(j)));
            j = j + 1;
        }
        None
    }

    /// One round of the snapshot after scan `bb`: when `bb` agrees with the
    /// latest scan on every sequence number, the data of the latest scan;
    /// otherwise, when a register moved again, the view that register carries;
    /// otherwise a new state whose latest scan is `bb` and which has also seen
    /// the registers that moved now.
    pub fn step(self, bb: Vec<RegisterValue<T>>) -> (next: ScanStep<T>)
        requires
            self.wf(),
            bb@.len() == self.last_scan().len(),
            helper_carries_view(self.last_scan(), bb@, self.seen()),
        ensures
            sequence_numbers_agree(self.last_scan(), bb@) ==> (next matches ScanStep::Finished(view)
                && view@ == data_of(self.last_scan())),
            forall|j: int|
                first_moved_again(self.last_scan(), bb@, self.seen(), j) ==> next == ScanStep::Finished(
                    (#[trigger] bb@[j]).help.unwrap(),
                ),
            !sequence_numbers_agree(self.last_scan(), bb@) && (forall|j: int|
                !moved_again(self.last_scan(), bb@, self.seen(), j)) ==> (next matches ScanStep::Rescan(
                state) && state.last_scan() == bb@ && state.seen() == self.seen().union(
                moved_set(self.last_scan(), bb@),
            )),
            next matches ScanStep::Rescan(state) ==> rescan_follows(self, state),
            // When the scans differ, the operation finishes exactly when some
            // register that had already moved in an earlier round of this
            // operation moved again; a register that moved only once never lends
            // its view.
            !(self.last_scan().len() == bb@.len() && forall|k: int|
                #![trigger bb@[k]]
                0 <= k < bb@.len() ==> self.last_scan()[k].sn == bb@[k].sn) ==> ((next is Finished)
                <==> exists|j: int|
                #![trigger bb@[j]]
                0 <= j < bb@.len() && self.last_scan()[j].sn != bb@[j].sn && self.seen().contains(
                    j as usize,
                )),
            // The view it then returns is the one carried by the lowest such register.
            forall|j: int|
                #![trigger bb@[j]]
                0 <= j < bb@.len() && self.last_scan()[j].sn != bb@[j].sn && self.seen().contains(
                    j as usize,
                ) && (forall|k: int|
                    #![trigger bb@[k]]
                    0 <= k < j ==> !(self.last_scan()[k].sn != bb@[k].sn && self.seen().contains(
                        k as usize,
                    ))) ==> next == ScanStep::Finished(bb@[j].help.unwrap()),
            // When the scans agree, the operation returns the data of the latest scan.
            (self.last_scan().len() == bb@.len() && forall|k: int|
                #![trigger bb@[k]]
                0 <= k < bb@.len() ==> self.last_scan()[k].sn == bb@[k].sn) ==> (next matches ScanStep::Finished(view)
                && view@.len() == bb@.len() && forall|k: int|
                #![trigger view@[k]]
                0 <= k < bb@.len() ==> view@[k] == self.last_scan()[k].data),
    {
        if unchanged(self.last.as_slice(), bb.as_slice()) {
            return ScanStep::Finished(View::from_vec(into_data(self.last)));
        }
        let ghost aa = self.last@;
        let ghost seen0 = self.seen@;
        let n = self.last.len();
        let DoubleCollect { last, mut seen } = self;
        let mut j: usize = 0;
        while j < n
            invariant
                n == aa.len(),
                aa == self.last_scan(),
                seen0 == self.seen(),
                !sequence_numbers_agree(aa, bb@),
                bb@.len() == n,
                last@ == aa,
                j <= n,
                seen@ == seen0.union(Set::new(|k: usize| k < j && moved(aa, bb@, k as int))),
                forall|k: int| 0 <= k < j ==> !moved_again(aa, bb@, seen0, k),
                forall|k: int|
                    #![trigger bb@[k]]
                    0 <= k < j ==> !(aa[k].sn != bb@[k].sn && seen0.contains(k as usize)),
                helper_carries_view(aa, bb@, seen0),
            decreases n - j,
        {
            if last[j].sn != bb[j].sn {
                let fresh = seen.insert(j);
                if !fresh {
                    assert(first_moved_again(aa, bb@, seen0, j as int));
                    assert(aa[j as int].sn != bb@[j as int].sn && seen0.contains(j));
                    assert forall|j1: int|
                        #![trigger bb@[j1]]
                        0 <= j1 < bb@.len() && aa[j1].sn != bb@[j1].sn && seen0.contains(j1 as usize)
                            && (forall|k: int|
                            #![trigger bb@[k]]
                            0 <= k < j1 ==> !(aa[k].sn != bb@[k].sn && seen0.contains(k as usize)))
                        implies j1 == j as int by {
                        if j1 > j as int {
                            assert(!(aa[j as int].sn != bb@[j as int].sn && seen0.contains(j)));
                        }
                    }
                    let mut bb = bb;
                    let value = bb.swap_remove(j);
                    return ScanStep::Finished(value.help.unwrap());
                }
            }
            assert(seen@ =~= seen0.union(Set::new(|k: usize| k < j + 1 && moved(aa, bb@, k as int))));
            assert(!(aa[j as int].sn != bb@[j as int].sn && seen0.contains(j)));
            j = j + 1;
        }
        assert(Set::new(|k: usize| k < n && moved(aa, bb@, k as int)) =~= moved_set(aa, bb@));
        assert(exists|k: int| 0 <= k < n && aa[k].sn != bb@[k].sn);
        let ghost witness = choose|k: int| 0 <= k < n && aa[k].sn != bb@[k].sn;
        assert(!moved_again(aa, bb@, seen0, witness));
        assert(moved_set(aa, bb@).contains(witness as usize));
        ScanStep::Rescan(DoubleCollect { last: bb, seen })
    }
}

/// An update changes only its own entry: publishing `following(value, ..)`
/// in register `p` changes the data the registers hold at `p` alone, to `value`.
pub proof fn lemma_update_changes_only_own_entry<T>(
    registers: Seq<RegisterValue<T>>,
    p: int,
    value: T,
    previous_sn: usize,
    help: View<T>,
)
    requires
        0 <= p < registers.len(),
        previous_sn < usize::MAX,
    ensures
        data_of(
            registers.update(
                p,
                RegisterValue { data: value, sn: (previous_sn + 1) as usize, help: Some(help) },
            ),
        ) == data_of(registers).update(p, value),
{
    let after = registers.update(
        p,
        RegisterValue { data: value, sn: (previous_sn + 1) as usize, help: Some(help) },
    );
    assert(data_of(after) =~= data_of(registers).update(p, value));
}

/// The history of the registers: `history(j, t)` is what register `j` holds
/// at time `t`. Each write by the register's process raises its sequence
/// number, so the sequence number never goes down and stays the same only
/// while the register does not change.
pub open spec fn history_wf<T>(history: spec_fn(int, int) -> RegisterValue<T>, n: int) -> bool {
    forall|j: int, t1: int, t2: int|
        0 <= j < n && t1 <= t2 ==> {
            &&& (#[trigger] history(j, t1)).sn <= (#[trigger] history(j, t2)).sn
            &&& history(j, t1).sn == history(j, t2).sn ==> history(j, t1) == history(j, t2)
        }
}

/// Linearizability of a successful double collect: when the first scan read
/// register `j` at `first(j)` and the second at `second(j)`, the first scan
/// ended before the second began (at some time `t` between them), and the
/// scans agree on every sequence number, then the data returned is the data
/// all registers held at the single instant `t`. In particular an update
/// that finished before the first scan, with no later update of its process,
/// is in the result.
pub proof fn lemma_double_collect_linearizes<T>(
    history: spec_fn(int, int) -> RegisterValue<T>,
    aa: Seq<RegisterValue<T>>,
    bb: Seq<RegisterValue<T>>,
    first: spec_fn(int) -> int,
    second: spec_fn(int) -> int,
    t: int,
)
    requires
        history_wf(history, aa.len() as int),
        forall|j: int| 0 <= j < aa.len() ==> #[trigger] aa[j] == history(j, first(j)),
        forall|j: int| 0 <= j < bb.len() ==> #[trigger] bb[j] == history(j, second(j)),
        forall|j: int| 0 <= j < aa.len() ==> #[trigger] first(j) <= t && t <= second(j),
        sequence_numbers_agree(aa, bb),
    ensures
        data_of(aa) == crate::snapshot_run::register_data(history, aa.len(), t),
{
    assert forall|j: int| 0 <= j < aa.len() implies #[trigger] history(j, t) == aa[j] by {
        assert(first(j) <= t && t <= second(j));
        assert(history(j, first(j)).sn <= history(j, t).sn);
        assert(history(j, t).sn <= history(j, second(j)).sn);
        assert(aa[j].sn == bb[j].sn);
    }
    assert(data_of(aa) =~= crate::snapshot_run::register_data(history, aa.len(), t));
}

/// `post` is a rescan state that follows `pre`: it is well formed, scans as
/// many registers, and has seen strictly more registers moving.
pub open spec fn rescan_follows<T>(pre: DoubleCollect<T>, post: DoubleCollect<T>) -> bool {
    &&& post.wf()
    &&& post.last_scan().len() == pre.last_scan().len()
    &&& pre.seen().subset_of(post.seen())
    &&& pre.seen() != post.seen()
}

/// After `k` consecutive rescans, at least `k` registers have been seen
/// moving, among the `n` scanned ones.
proof fn lemma_seen_grows<T>(run: Seq<DoubleCollect<T>>, k: int)
    requires
        0 <= k < run.len(),
        run[0].wf(),
        forall|i: int| 0 <= i < run.len() - 1 ==> rescan_follows(#[trigger] run[i], run[i + 1]),
    ensures
        run[k].wf(),
        run[k].last_scan().len() == run[0].last_scan().len(),
        run[k].seen().finite(),
        run[k].seen().len() >= k,
    decreases k,
{
    if k > 0 {
        lemma_seen_grows(run, k - 1);
        assert(rescan_follows(run[k - 1], run[(k - 1) + 1]));
        assert(run[k].wf());
        lemma_bounded_indices(run[k].seen(), run[k].last_scan().len());
        lemma_proper_subset_len(run[k - 1].seen(), run[k].seen());
    } else {
        lemma_bounded_indices(run[k].seen(), run[k].last_scan().len());
    }
}

/// The snapshot operation is wait-free: over `n` registers, a run of states
/// each of which a rescan led to from the one before has at most `n + 1`
/// states, so an operation scans again at most `n` times before it returns.
pub proof fn lemma_rescans_bounded<T>(run: Seq<DoubleCollect<T>>)
    requires
        run.len() >= 1,
        run[0].wf(),
        forall|i: int| 0 <= i < run.len() - 1 ==> rescan_follows(#[trigger] run[i], run[i + 1]),
    ensures
        run.len() <= run[0].last_scan().len() + 1,
{
    let last = run.len() - 1;
    lemma_seen_grows(run, last);
    lemma_bounded_indices(run[last].seen(), run[last].last_scan().len());
}

} // verus!
