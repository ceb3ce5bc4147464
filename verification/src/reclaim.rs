//! The decisions of the atomic register's hazard-pointer protocol: which
//! retired values a writer may free, and when a reader's protection holds.
//! Values are named by their (non-null) addresses.

use vstd::prelude::*;

verus! {

broadcast use vstd::seq_lib::group_filter_ensures, vstd::seq_lib::group_seq_properties;

/// The addresses a writer has swapped out of the register and not freed yet.
pub struct RetiredList {
    addrs: Vec<usize>,
}

impl RetiredList {
    /// No retired address is null.
    #[verifier::type_invariant]
    spec fn non_null(&self) -> bool {
        forall|k: int| 0 <= k < self.addrs@.len() ==> self.addrs@[k] != 0
    }
}

impl View for RetiredList {
    type V = Seq<usize>;

    closed spec fn view(&self) -> Seq<usize> {
        self.addrs@
    }
}

/// `addr` is published by one of the hazard slots.
pub open spec fn protected(hazards: Seq<usize>, addr: usize) -> bool {
    hazards.contains(addr)
}

/// The retired addresses that stay on the list: those some hazard slot protects.
pub open spec fn kept_after(retired: Seq<usize>, hazards: Seq<usize>) -> Seq<usize> {
    retired.filter(|addr: usize| protected(hazards, addr))
}

/// The retired addresses that are freed: those no hazard slot protects.
pub open spec fn freed_after(retired: Seq<usize>, hazards: Seq<usize>) -> Seq<usize> {
    retired.filter(|addr: usize| !protected(hazards, addr))
}

impl RetiredList {
    /// An empty list.
    pub fn new() -> (list: RetiredList)
        ensures
            list@ == Seq::<usize>::empty(),
    {
        RetiredList { addrs: Vec::new() }
    }

    /// Adds an address that was swapped out of the register.
    pub fn retire(&mut self, addr: usize)
        requires
            addr != 0,
        ensures
            final(self)@ == old(self)@.push(addr),
    {
        proof {
            use_type_invariant(&*self);
        }
        let mut addrs: Vec<usize> = Vec::new();
        std::mem::swap(&mut addrs, &mut self.addrs);
        addrs.push(addr);
        self.addrs = addrs;
    }

    /// Hands out the retired addresses that no hazard slot protects, in
    /// order, and keeps the protected ones, in order.
    pub fn reclaim(&mut self, hazards: &[usize]) -> (freed: Vec<usize>)
        ensures
            final(self)@ == kept_after(old(self)@, hazards@),
            freed@ == freed_after(old(self)@, hazards@),
            forall|k: int| 0 <= k < freed@.len() ==> freed@[k] != 0,
            // No freed address is in a hazard slot; every kept one is.
            forall|k: int| 0 <= k < freed@.len() ==> !hazards@.contains(#[trigger] freed@[k]),
            forall|k: int|
                0 <= k < final(self)@.len() ==> hazards@.contains(#[trigger] final(self)@[k]),
            // Together they are exactly the retired addresses.
            final(self)@.to_multiset().add(freed@.to_multiset()) == old(self)@.to_multiset(),
    {
        proof {
            use_type_invariant(&*self);
        }
        let ghost all = self.addrs@;
        let ghost keep_pred: spec_fn(usize) -> bool = |addr: usize| protected(hazards@, addr);
        let ghost free_pred: spec_fn(usize) -> bool = |addr: usize| !protected(hazards@, addr);
        let mut addrs: Vec<usize> = Vec::new();
        std::mem::swap(&mut addrs, &mut self.addrs);
        let mut kept: Vec<usize> = Vec::new();
        let mut freed: Vec<usize> = Vec::new();
        let mut i: usize = 0;
        while i < addrs.len()
            invariant
                addrs@ == all,
                i <= all.len(),
                forall|a: usize| #[trigger] keep_pred(a) == protected(hazards@, a),
                forall|a: usize| #[trigger] free_pred(a) == !protected(hazards@, a),
                forall|k: int| 0 <= k < all.len() ==> all[k] != 0,
                kept@ == all.take(i as int).filter(keep_pred),
                freed@ == all.take(i as int).filter(free_pred),
                forall|k: int| 0 <= k < kept@.len() ==> kept@[k] != 0,
                forall|k: int| 0 <= k < freed@.len() ==> freed@[k] != 0,
            decreases all.len() - i,
        {
            let addr = addrs[i];
            proof {
                assert(all.take(i + 1) =~= all.take(i as int).push(addr));
                all.take(i as int).lemma_filter_push(addr, keep_pred);
                all.take(i as int).lemma_filter_push(addr, free_pred);
            }
            if contains(hazards, addr) {
                kept.push(addr);
            } else {
                freed.push(addr);
            }
            i = i + 1;
        }
        assert(all.take(all.len() as int) =~= all);
        assert(keep_pred =~= |addr: usize| protected(hazards@, addr));
        assert(free_pred =~= |addr: usize| !protected(hazards@, addr));
        proof {
            lemma_reclaim_respects_hazards(all, hazards@);
            lemma_reclaim_conserves(all, hazards@);
        }
        self.addrs = kept;
        freed
    }

    /// All retired addresses, taken out of the list (when the register is dropped).
    pub fn into_addresses(self) -> (addrs: Vec<usize>)
        ensures
            addrs@ == self@,
            forall|k: int| 0 <= k < addrs@.len() ==> addrs@[k] != 0,
    {
        proof {
            use_type_invariant(&self);
        }
        self.addrs
    }
}

/// Hazard-pointer safety: a reclaim never frees an address that a hazard
/// slot protects, and keeps only protected addresses.
pub proof fn lemma_reclaim_respects_hazards(retired: Seq<usize>, hazards: Seq<usize>)
    ensures
        forall|k: int|
            0 <= k < freed_after(retired, hazards).len() ==> !protected(
                hazards,
                #[trigger] freed_after(retired, hazards)[k],
            ),
        forall|k: int|
            0 <= k < kept_after(retired, hazards).len() ==> protected(
                hazards,
                #[trigger] kept_after(retired, hazards)[k],
            ),
{
}

/// A reclaim loses and duplicates nothing: the kept and the freed addresses
/// together are exactly the retired ones.
pub proof fn lemma_reclaim_conserves(retired: Seq<usize>, hazards: Seq<usize>)
    ensures
        kept_after(retired, hazards).to_multiset().add(freed_after(retired, hazards).to_multiset())
            == retired.to_multiset(),
    decreases retired.len(),
{
    broadcast use vstd::multiset::group_multiset_axioms;
    broadcast use vstd::seq_lib::group_to_multiset_ensures;

    if retired.len() == 0 {
        assert(kept_after(retired, hazards) =~= Seq::<usize>::empty());
        assert(freed_after(retired, hazards) =~= Seq::<usize>::empty());
        assert(kept_after(retired, hazards).to_multiset().add(
            freed_after(retired, hazards).to_multiset(),
        ) =~= retired.to_multiset());
    } else {
        let front = retired.drop_last();
        let addr = retired.last();
        assert(retired =~= front.push(addr));
        lemma_reclaim_conserves(front, hazards);
        front.lemma_filter_push(addr, |a: usize| protected(hazards, a));
        front.lemma_filter_push(addr, |a: usize| !protected(hazards, a));
        assert(kept_after(retired, hazards).to_multiset().add(
            freed_after(retired, hazards).to_multiset(),
        ) =~= retired.to_multiset());
    }
}

/// The reader's protocol keeps what it reads alive. A reader publishes `addr`
/// in its hazard slot at `publish` and keeps it there until `clear`; at
/// `confirm` it loads the register again and finds `addr` still current (what
/// `Protection::confirm` decides), so a writer swaps `addr` out, and retires it,
/// only later, at `swap_out`, and scans the hazard slots after that, at `scan`.
/// If the scan comes before the reader clears its slot, the reclaim that uses
/// the scanned slots does not free `addr`.
pub proof fn lemma_protected_read_not_freed(
    retired: Seq<usize>,
    hazards: Seq<usize>,
    slot: int,
    slot_history: spec_fn(int) -> usize,
    addr: usize,
    publish: int,
    confirm: int,
    swap_out: int,
    scan: int,
    clear: int,
)
    requires
        forall|t: int| publish <= t < clear ==> #[trigger] slot_history(t) == addr,
        0 <= slot < hazards.len(),
        hazards[slot] == slot_history(scan),
        publish < confirm,
        confirm < swap_out,
        swap_out < scan,
        scan < clear,
    ensures
        !freed_after(retired, hazards).contains(addr),
{
    assert(slot_history(scan) == addr);
    assert(protected(hazards, addr));
    if freed_after(retired, hazards).contains(addr) {
        let k = choose|k: int|
            0 <= k < freed_after(retired, hazards).len() && freed_after(retired, hazards)[k] == addr;
        lemma_reclaim_respects_hazards(retired, hazards);
        assert(!protected(hazards, freed_after(retired, hazards)[k]));
    }
}

/// Whether `addr` is among `hazards`.
fn contains(hazards: &[usize], addr: usize) -> (found: bool)
    ensures
        found == protected(hazards@, addr),
{
    let mut j: usize = 0;
    while j < hazards.len()
        invariant
            j <= hazards@.len(),
            forall|k: int| 0 <= k < j ==> hazards@[k] != addr,
        decreases hazards@.len() - j,
    {
        if hazards[j] == addr {
            return true;
        }
        j = j + 1;
    }
    false
}

/// Whether every hazard slot is null, as it must be when the register is dropped.
pub fn all_released(hazards: &[usize]) -> (released: bool)
    ensures
        released == (forall|k: int| 0 <= k < hazards@.len() ==> hazards@[k] == 0),
{
    let mut j: usize = 0;
    while j < hazards.len()
        invariant
            j <= hazards@.len(),
            forall|k: int| 0 <= k < j ==> hazards@[k] == 0,
        decreases hazards@.len() - j,
    {
        if hazards[j] != 0 {
            return false;
        }
        j = j + 1;
    }
    true
}

/// A reader's attempt to protect the register's current value: it publishes
/// each address it loads, and the protection holds once two consecutive
/// loads return the same address.
pub struct Protection {
    last: usize,
}

impl View for Protection {
    /// The address loaded and published last (null before the first load).
    type V = usize;

    closed spec fn view(&self) -> usize {
        self.last
    }
}

impl Protection {
    /// A reader that has loaded nothing yet.
    pub fn new() -> (protection: Protection)
        ensures
            protection@ == 0,
    {
        Protection { last: 0 }
    }

    /// Records the address just loaded and published; true when it is the
    /// address loaded and published before, so that it is protected.
    pub fn confirm(&mut self, loaded: usize) -> (protected: bool)
        ensures
            protected == (loaded == old(self)@),
            final(self)@ == loaded,
    {
        let same = loaded == self.last;
        self.last = loaded;
        same
    }
}

} // verus!
