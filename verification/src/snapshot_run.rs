//! The atomic snapshot's guarantees over a run of concurrent processes.
//!
//! Register `j` holds `history(j, t)` at time `t`. Process `j` performs its
//! updates one at a time: its `k`-th update takes a snapshot during
//! `[begin(j, k), end(j, k)]`, whose result is `taken(j, k)`, and then
//! publishes, at `write_at(j, k)`, a value with sequence number `k` that
//! carries that result as its help.

use vstd::prelude::*;

use crate::process::View;
use crate::snapshot::{history_wf, RegisterValue};

verus! {

/// What the updates of process `j`, which makes `performed` updates in the
/// run, satisfy in every run.
pub open spec fn updates_wf<T>(
    history: spec_fn(int, int) -> RegisterValue<T>,
    j: int,
    performed: int,
    begin: spec_fn(int, int) -> int,
    end: spec_fn(int, int) -> int,
    write_at: spec_fn(int, int) -> int,
    taken: spec_fn(int, int) -> View<T>,
) -> bool {
    // An update's snapshot ends before the update publishes its value.
    &&& forall|k: int|
        1 <= k <= performed ==> #[trigger] begin(j, k) <= end(j, k) && end(j, k) < write_at(j, k)
    // The next update begins after the previous one published.
    &&& forall|k: int| 1 <= k < performed ==> #[trigger] write_at(j, k) < begin(j, k + 1)
    // The register shows the sequence number of the latest update that
    // published: that update published by then, and the next one has not yet.
    &&& forall|t: int|
        (#[trigger] history(j, t)).sn >= 1 ==> history(j, t).sn <= performed && write_at(
            j,
            history(j, t).sn as int,
        ) <= t
    &&& forall|t: int|
        (#[trigger] history(j, t)).sn < performed ==> t < write_at(j, history(j, t).sn + 1)
    // The value published by the `k`-th update carries the snapshot it took.
    &&& forall|t: int|
        (#[trigger] history(j, t)).sn >= 1 ==> history(j, t).help == Some(
            taken(j, history(j, t).sn as int),
        )
}

/// The updates of a process publish in order.
proof fn lemma_writes_in_order<T>(
    history: spec_fn(int, int) -> RegisterValue<T>,
    j: int,
    begin: spec_fn(int, int) -> int,
    end: spec_fn(int, int) -> int,
    write_at: spec_fn(int, int) -> int,
    taken: spec_fn(int, int) -> View<T>,
    performed: int,
    k1: int,
    k2: int,
)
    requires
        updates_wf(history, j, performed, begin, end, write_at, taken),
        1 <= k1 <= k2 <= performed,
    ensures
        write_at(j, k1) <= write_at(j, k2),
    decreases k2 - k1,
{
    if k1 < k2 {
        lemma_writes_in_order(history, j, begin, end, write_at, taken, performed, k1, k2 - 1);
        assert(write_at(j, k2 - 1) < begin(j, k2));
        assert(begin(j, k2) <= end(j, k2));
    }
}

/// Helping: when, during a snapshot that runs within `[start, finish]`,
/// register `j` was seen moving between reads at `t1` and `t2` and moved
/// again between later reads at `t3` and `t4`, the view it carries at `t4`
/// was taken by an update of `j` whose snapshot ran strictly within
/// `[start, finish]`.
pub proof fn lemma_borrowed_view_within<T>(
    history: spec_fn(int, int) -> RegisterValue<T>,
    n: int,
    j: int,
    performed: int,
    begin: spec_fn(int, int) -> int,
    end: spec_fn(int, int) -> int,
    write_at: spec_fn(int, int) -> int,
    taken: spec_fn(int, int) -> View<T>,
    start: int,
    t1: int,
    t2: int,
    t3: int,
    t4: int,
    finish: int,
)
    requires
        history_wf(history, n),
        0 <= j < n,
        updates_wf(history, j, performed, begin, end, write_at, taken),
        start <= t1 <= t2 <= t3 <= t4 <= finish,
        history(j, t1).sn != history(j, t2).sn,
        history(j, t3).sn != history(j, t4).sn,
    ensures
        ({
            let k = history(j, t4).sn as int;
            &&& k >= 1
            &&& history(j, t4).help == Some(taken(j, k))
            &&& start < begin(j, k)
            &&& end(j, k) < finish
        }),
{
    let s1 = history(j, t1).sn as int;
    let s2 = history(j, t2).sn as int;
    let s3 = history(j, t3).sn as int;
    let k = history(j, t4).sn as int;
    assert(s1 <= s2 && s2 <= s3 && s3 <= k);
    assert(k >= s1 + 2);
    assert(k <= performed && write_at(j, k) <= t4);
    assert(t1 < write_at(j, s1 + 1));
    assert(k <= performed && write_at(j, k) <= t4);
    lemma_writes_in_order(history, j, begin, end, write_at, taken, performed, s1 + 1, k - 1);
    assert(write_at(j, k - 1) < begin(j, k));
    assert(write_at(j, k) <= t4);
}

/// Snapshot operation `x` returned what the registers held at some instant of its run.
pub open spec fn linearized<T>(
    contents: spec_fn(int) -> Seq<T>,
    start: spec_fn(int) -> int,
    finish: spec_fn(int) -> int,
    result: spec_fn(int) -> Seq<T>,
    x: int,
) -> bool {
    exists|t: int| start(x) <= t <= finish(x) && result(x) == #[trigger] contents(t)
}

/// Snapshot operation `x` returned the result of another snapshot operation
/// that ran strictly within its own run.
pub open spec fn borrowed<T>(
    start: spec_fn(int) -> int,
    finish: spec_fn(int) -> int,
    result: spec_fn(int) -> Seq<T>,
    x: int,
) -> bool {
    exists|y: int| start(x) < #[trigger] start(y) && finish(y) < finish(x) && result(x) == result(y)
}

/// Linearizability, by induction on nesting (the two cases are what
/// `lemma_double_collect_linearizes` and `lemma_borrowed_view_within` give
/// for the two ways `DoubleCollect::step` finishes): if every snapshot operation,
/// running within `[start(x), finish(x)]`, either returns what the registers
/// held at some instant of its run (a successful double collect) or returns
/// the result of another snapshot operation that ran strictly within its own
/// (a borrowed view), then every snapshot operation returns what the
/// registers held at some instant of its run.
pub proof fn lemma_snapshots_linearize<T>(
    contents: spec_fn(int) -> Seq<T>,
    start: spec_fn(int) -> int,
    finish: spec_fn(int) -> int,
    result: spec_fn(int) -> Seq<T>,
    o: int,
)
    requires
        forall|x: int| #[trigger] start(x) <= finish(x),
        forall|x: int|
            #[trigger] linearized(contents, start, finish, result, x) || borrowed(
                start,
                finish,
                result,
                x,
            ),
    ensures
        linearized(contents, start, finish, result, o),
    decreases finish(o) - start(o),
{
    assert(start(o) <= finish(o));
    if !linearized(contents, start, finish, result, o) {
        assert(borrowed(start, finish, result, o));
        let y = choose|y: int|
            start(o) < #[trigger] start(y) && finish(y) < finish(o) && result(o) == result(y);
        assert(start(y) <= finish(y));
        lemma_snapshots_linearize(contents, start, finish, result, y);
        let t = choose|t: int| start(y) <= t <= finish(y) && result(y) == #[trigger] contents(t);
        assert(start(o) <= t <= finish(o) && result(o) == contents(t));
    }
}

/// The data the `n` registers hold at time `t`.
pub open spec fn register_data<T>(history: spec_fn(int, int) -> RegisterValue<T>, n: nat, t: int) -> Seq<T> {
    Seq::new(n, |j: int| history(j, t).data)
}

/// A finished update is seen: when register `p` holds data `value` from
/// `written` on, an update that published before the snapshot started, and the
/// snapshot returned what the registers held at an instant of its run, then
/// the snapshot holds `value` at position `p`.
pub proof fn lemma_finished_update_seen<T>(
    history: spec_fn(int, int) -> RegisterValue<T>,
    n: nat,
    start: int,
    finish: int,
    result: Seq<T>,
    p: int,
    value: T,
    written: int,
)
    requires
        0 <= p < n,
        written <= start,
        forall|t: int| written <= t ==> (#[trigger] history(p, t)).data == value,
        exists|t: int| start <= t <= finish && result == #[trigger] register_data(history, n, t),
    ensures
        result[p] == value,
{
    let t = choose|t: int| start <= t <= finish && result == #[trigger] register_data(history, n, t);
    assert(history(p, t).data == value);
}

} // verus!
