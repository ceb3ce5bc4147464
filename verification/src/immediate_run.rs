//! The immediate snapshot's guarantees over a run of concurrent processes.
//!
//! A run of `n` processes is given by the events on the level registers:
//! `reached(p, f)` says process `p` published level `f`, at time
//! `write_time(p, f)`; in its round at level `f`, `p` read the register of
//! process `j` at time `read_time(p, f, j)` and saw the levels
//! `observed(p, f)`, on which it decided with `view_at_level`.

use vstd::prelude::*;

use crate::immediate_snapshot::at_or_below;
use crate::indices::{lemma_bounded_indices, lemma_proper_subset_len};

verus! {

/// What every run of the immediate snapshot by `n` processes satisfies.
pub open spec fn run_wf(
    n: usize,
    reached: spec_fn(usize, usize) -> bool,
    write_time: spec_fn(usize, usize) -> int,
    read_time: spec_fn(usize, usize, usize) -> int,
    observed: spec_fn(usize, usize) -> Seq<usize>,
) -> bool {
    // Processes are numbered below `n` and levels go from `n` down.
    &&& forall|p: usize, f: usize| #[trigger] reached(p, f) ==> p < n && f <= n
    // A process publishes each level below `n` only after the level above it.
    &&& forall|p: usize, f: usize|
        #[trigger] reached(p, f) && f < n ==> reached(p, (f + 1) as usize) && write_time(
            p,
            (f + 1) as usize,
        ) < write_time(p, f)
    // In a round, a process reads every register after publishing its level.
    &&& forall|p: usize, f: usize, j: usize|
        reached(p, f) && j < n ==> write_time(p, f) < #[trigger] read_time(p, f, j)
    // A round reads one level per process.
    &&& forall|p: usize, f: usize| #[trigger] reached(p, f) ==> observed(p, f).len() == n
    // A register read sees a level at or below `f` exactly when its process
    // published such a level before the read (levels only go down, and a
    // register starts above every level).
    &&& forall|p: usize, f: usize, j: usize|
        reached(p, f) && j < n ==> ((#[trigger] observed(p, f)[j as int] <= f) <==> exists|g: usize|
            g <= f && #[trigger] reached(j, g) && write_time(j, g) < read_time(p, f, j))
    // A process goes one level down only when its round did not settle.
    &&& forall|p: usize, f: usize|
        #[trigger] reached(p, f) && f >= 1 && reached(p, (f - 1) as usize) ==> at_or_below(
            observed(p, f),
            f,
        ).len() < f
}

/// The view of process `p` when it settles at level `f`.
pub open spec fn view_of(observed: spec_fn(usize, usize) -> Seq<usize>, p: usize, f: usize) -> Set<
    usize,
> {
    at_or_below(observed(p, f), f)
}

/// Process `p` settled at level `f`: it published `f` and its round there settled.
pub open spec fn settled(
    reached: spec_fn(usize, usize) -> bool,
    observed: spec_fn(usize, usize) -> Seq<usize>,
    p: usize,
    f: usize,
) -> bool {
    reached(p, f) && view_of(observed, p, f).len() >= f
}

/// The processes that published level `f`.
pub open spec fn reached_level(reached: spec_fn(usize, usize) -> bool, f: usize) -> Set<usize> {
    Set::new(|p: usize| reached(p, f))
}

/// A process that published a level also published every level above it, up to `n`.
proof fn lemma_passed_above(
    n: usize,
    reached: spec_fn(usize, usize) -> bool,
    write_time: spec_fn(usize, usize) -> int,
    read_time: spec_fn(usize, usize, usize) -> int,
    observed: spec_fn(usize, usize) -> Seq<usize>,
    p: usize,
    g: usize,
    f: usize,
)
    requires
        run_wf(n, reached, write_time, read_time, observed),
        reached(p, g),
        g <= f <= n,
    ensures
        reached(p, f),
    decreases f - g,
{
    if g < f {
        assert(reached(p, (g + 1) as usize));
        lemma_passed_above(n, reached, write_time, read_time, observed, p, (g + 1) as usize, f);
    }
}

/// A finite non-empty set has a member on which `w` is largest.
proof fn lemma_latest(s: Set<usize>, w: spec_fn(usize) -> int) -> (top: usize)
    requires
        s.finite(),
        s.len() > 0,
    ensures
        s.contains(top),
        forall|x: usize| #[trigger] s.contains(x) ==> w(x) <= w(top),
    decreases s.len(),
{
    let a = s.choose();
    let rest = s.remove(a);
    if rest.len() == 0 {
        assert forall|x: usize| #[trigger] s.contains(x) implies w(x) <= w(a) by {
            if x != a {
                assert(rest.contains(x));
            }
        }
        a
    } else {
        let b = lemma_latest(rest, w);
        if w(a) <= w(b) {
            assert forall|x: usize| #[trigger] s.contains(x) implies w(x) <= w(b) by {
                if x != a {
                    assert(rest.contains(x));
                }
            }
            b
        } else {
            assert forall|x: usize| #[trigger] s.contains(x) implies w(x) <= w(a) by {
                if x != a {
                    assert(rest.contains(x));
                }
            }
            a
        }
    }
}

/// At most `f` processes ever publish level `f`: of `f + 1` of them, the last
/// to publish `f + 1` would have seen them all at or below `f + 1` and settled there.
pub proof fn lemma_level_occupancy(
    n: usize,
    reached: spec_fn(usize, usize) -> bool,
    write_time: spec_fn(usize, usize) -> int,
    read_time: spec_fn(usize, usize, usize) -> int,
    observed: spec_fn(usize, usize) -> Seq<usize>,
    f: usize,
)
    requires
        run_wf(n, reached, write_time, read_time, observed),
        f <= n,
    ensures
        reached_level(reached, f).finite(),
        reached_level(reached, f).len() <= f,
{
    let at_f = reached_level(reached, f);
    lemma_bounded_indices(at_f, n as nat);
    if f < n && at_f.len() > f {
        let above = (f + 1) as usize;
        let last = lemma_latest(at_f, |p: usize| write_time(p, above));
        assert(reached(last, above));
        let seen = at_or_below(observed(last, above), above);
        assert forall|q: usize| #[trigger] at_f.contains(q) implies seen.contains(q) by {
            assert(reached(q, above));
            assert(write_time(q, above) <= write_time(last, above));
            assert(write_time(last, above) < read_time(last, above, q));
            assert(observed(last, above)[q as int] <= above);
        }
        crate::immediate_snapshot::lemma_at_or_below_finite(observed(last, above), above);
        vstd::set_lib::lemma_len_subset(at_f, seen);
        assert(reached(last, (above - 1) as usize));
    }
}

/// The view a process settles on at level `f` is exactly the set of processes
/// that published level `f`.
pub proof fn lemma_view_is_level(
    n: usize,
    reached: spec_fn(usize, usize) -> bool,
    write_time: spec_fn(usize, usize) -> int,
    read_time: spec_fn(usize, usize, usize) -> int,
    observed: spec_fn(usize, usize) -> Seq<usize>,
    p: usize,
    f: usize,
)
    requires
        run_wf(n, reached, write_time, read_time, observed),
        settled(reached, observed, p, f),
    ensures
        view_of(observed, p, f) == reached_level(reached, f),
{
    let view = view_of(observed, p, f);
    let at_f = reached_level(reached, f);
    assert(f <= n);
    lemma_level_occupancy(n, reached, write_time, read_time, observed, f);
    crate::immediate_snapshot::lemma_at_or_below_finite(observed(p, f), f);
    assert forall|j: usize| #[trigger] view.contains(j) implies at_f.contains(j) by {
        assert(j < observed(p, f).len());
        let g = choose|g: usize|
            g <= f && #[trigger] reached(j, g) && write_time(j, g) < read_time(p, f, j);
        lemma_passed_above(n, reached, write_time, read_time, observed, j, g, f);
    }
    if view != at_f {
        lemma_proper_subset_len(view, at_f);
    }
}

/// Self-inclusion: a process is in the view it settles on.
pub proof fn lemma_run_self_inclusion(
    n: usize,
    reached: spec_fn(usize, usize) -> bool,
    write_time: spec_fn(usize, usize) -> int,
    read_time: spec_fn(usize, usize, usize) -> int,
    observed: spec_fn(usize, usize) -> Seq<usize>,
    p: usize,
    f: usize,
)
    requires
        run_wf(n, reached, write_time, read_time, observed),
        settled(reached, observed, p, f),
    ensures
        view_of(observed, p, f).contains(p),
{
    assert(write_time(p, f) < read_time(p, f, p));
    assert(observed(p, f)[p as int] <= f);
}

/// Containment: the views that processes settle on are ordered by inclusion;
/// a process that settles at a lower level has the smaller view.
pub proof fn lemma_run_containment(
    n: usize,
    reached: spec_fn(usize, usize) -> bool,
    write_time: spec_fn(usize, usize) -> int,
    read_time: spec_fn(usize, usize, usize) -> int,
    observed: spec_fn(usize, usize) -> Seq<usize>,
    p: usize,
    fp: usize,
    q: usize,
    fq: usize,
)
    requires
        run_wf(n, reached, write_time, read_time, observed),
        settled(reached, observed, p, fp),
        settled(reached, observed, q, fq),
        fp <= fq,
    ensures
        view_of(observed, p, fp).subset_of(view_of(observed, q, fq)),
{
    lemma_view_is_level(n, reached, write_time, read_time, observed, p, fp);
    lemma_view_is_level(n, reached, write_time, read_time, observed, q, fq);
    assert forall|j: usize| #[trigger] reached_level(reached, fp).contains(j) implies reached_level(
        reached,
        fq,
    ).contains(j) by {
        lemma_passed_above(n, reached, write_time, read_time, observed, j, fp, fq);
    }
}

/// Immediacy: when process `q` is in the view of process `p`, the whole view
/// of `q` is in the view of `p`.
pub proof fn lemma_run_immediacy(
    n: usize,
    reached: spec_fn(usize, usize) -> bool,
    write_time: spec_fn(usize, usize) -> int,
    read_time: spec_fn(usize, usize, usize) -> int,
    observed: spec_fn(usize, usize) -> Seq<usize>,
    p: usize,
    fp: usize,
    q: usize,
    fq: usize,
)
    requires
        run_wf(n, reached, write_time, read_time, observed),
        settled(reached, observed, p, fp),
        settled(reached, observed, q, fq),
        view_of(observed, p, fp).contains(q),
    ensures
        view_of(observed, q, fq).subset_of(view_of(observed, p, fp)),
{
    lemma_view_is_level(n, reached, write_time, read_time, observed, p, fp);
    assert(reached(q, fp));
    if fp < fq {
        assert(fq <= n);
        lemma_passed_above(n, reached, write_time, read_time, observed, q, fp, (fq - 1) as usize);
        assert(reached(q, (fq - 1) as usize));
        assert(false);
    }
    lemma_run_containment(n, reached, write_time, read_time, observed, q, fq, p, fp);
}

/// The values a process returns when it settles at level `f`: the value
/// `values(j)` that process `j` wrote before publishing any level, at each
/// position of its view, and `init` elsewhere (what `merge_viewed` leaves in
/// local values that start at `init`).
pub open spec fn returned<T>(
    n: usize,
    observed: spec_fn(usize, usize) -> Seq<usize>,
    values: spec_fn(usize) -> T,
    init: T,
    p: usize,
    f: usize,
) -> Seq<T> {
    Seq::new(
        n as nat,
        |j: int| if view_of(observed, p, f).contains(j as usize) { values(j as usize) } else { init },
    )
}

/// The returned values of any two processes are related by inclusion: one of
/// them holds, at each position, either `init` or the other's value there.
/// Every returned value is `init` or the value of the process at its position.
pub proof fn lemma_returned_values_ordered<T>(
    n: usize,
    reached: spec_fn(usize, usize) -> bool,
    write_time: spec_fn(usize, usize) -> int,
    read_time: spec_fn(usize, usize, usize) -> int,
    observed: spec_fn(usize, usize) -> Seq<usize>,
    values: spec_fn(usize) -> T,
    init: T,
    p: usize,
    fp: usize,
    q: usize,
    fq: usize,
)
    requires
        run_wf(n, reached, write_time, read_time, observed),
        settled(reached, observed, p, fp),
        settled(reached, observed, q, fq),
    ensures
        ({
            let a = returned(n, observed, values, init, p, fp);
            let b = returned(n, observed, values, init, q, fq);
            (forall|j: int| 0 <= j < n ==> #[trigger] a[j] == init || a[j] == b[j]) || (forall|
                j: int,
            |
                0 <= j < n ==> #[trigger] b[j] == init || b[j] == a[j])
        }),
        forall|j: int|
            0 <= j < n ==> #[trigger] returned(n, observed, values, init, p, fp)[j] == init
                || returned(n, observed, values, init, p, fp)[j] == values(j as usize),
{
    if fp <= fq {
        lemma_run_containment(n, reached, write_time, read_time, observed, p, fp, q, fq);
    } else {
        lemma_run_containment(n, reached, write_time, read_time, observed, q, fq, p, fp);
    }
}

/// Immediacy of the returned values: when the values process `p` returns
/// hold a value other than `init` at position `q`, every value process `q`
/// returns is `init` or the value `p` returns at the same position.
pub proof fn lemma_returned_values_immediate<T>(
    n: usize,
    reached: spec_fn(usize, usize) -> bool,
    write_time: spec_fn(usize, usize) -> int,
    read_time: spec_fn(usize, usize, usize) -> int,
    observed: spec_fn(usize, usize) -> Seq<usize>,
    values: spec_fn(usize) -> T,
    init: T,
    p: usize,
    fp: usize,
    q: usize,
    fq: usize,
)
    requires
        run_wf(n, reached, write_time, read_time, observed),
        settled(reached, observed, p, fp),
        settled(reached, observed, q, fq),
        q < n,
        returned(n, observed, values, init, p, fp)[q as int] != init,
    ensures
        forall|j: int|
            0 <= j < n ==> #[trigger] returned(n, observed, values, init, q, fq)[j] == init
                || returned(n, observed, values, init, q, fq)[j] == returned(
                n,
                observed,
                values,
                init,
                p,
                fp,
            )[j],
{
    assert(view_of(observed, p, fp).contains(q));
    lemma_run_immediacy(n, reached, write_time, read_time, observed, p, fp, q, fq);
}

} // verus!
