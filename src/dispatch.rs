//! The bounded prober: which probe starts when, and where its outcome goes.
//!
//! The probes themselves run with the caller.  A `Dispatcher` is told the
//! number of probes and the bound on how many may be in flight at once.  The
//! caller asks it for the next probe to start and reports each answer with the
//! position of the probe it belongs to; answers may come back in any order.
//! When every probe has been reported, the outcomes stand in the order of the
//! probes, whatever the order in which they settled.
use vstd::prelude::*;
use crate::classify::{outcome_code, spec_outcome};

verus! {

/// The outcome slots after the probe at `index` settled with `answer`.
pub open spec fn after_completion(slots: Seq<Option<u16>>, index: int, answer: Option<u16>) -> Seq<
    Option<u16>,
> {
    slots.update(index, Some(spec_outcome(answer)))
}

pub struct Dispatcher {
    bound: usize,
    started: usize,
    running: usize,
    slots: Vec<Option<u16>>,
    in_flight: Ghost<Set<nat>>,
}

impl Dispatcher {
    /// The most probes that may be in flight at once.
    pub closed spec fn bound(&self) -> nat {
        self.bound as nat
    }

    /// The number of probes of the batch.
    pub closed spec fn total(&self) -> nat {
        self.slots@.len()
    }

    /// The number of probes started so far: those at positions `0..started()`.
    pub closed spec fn started(&self) -> nat {
        self.started as nat
    }

    /// The positions of the probes started and not yet settled.
    pub closed spec fn in_flight(&self) -> Set<nat> {
        self.in_flight@
    }

    /// The outcome of each probe, `None` while it has not settled.
    pub closed spec fn slots(&self) -> Seq<Option<u16>> {
        self.slots@
    }

    pub closed spec fn wf(&self) -> bool {
        &&& 0 < self.bound
        &&& self.started <= self.slots@.len()
        &&& self.in_flight@.finite()
        &&& self.running == self.in_flight@.len()
        &&& self.running <= self.bound
        &&& self.running <= self.started
        &&& forall|i: nat| #[trigger]
            self.in_flight@.contains(i) <==> (i < self.started && self.slots@[i as int] is None)
        &&& forall|i: int| self.started <= i < self.slots@.len() ==> #[trigger] self.slots@[i] is None
    }

    /// A batch of `total` probes of which at most `bound` may be in flight
    /// at once; none has started.
    pub fn new(total: usize, bound: usize) -> (r: Dispatcher)
        requires
            bound > 0,
        ensures
            r.wf(),
            r.bound() == bound,
            r.total() == total,
            r.started() == 0,
            r.in_flight() == Set::<nat>::empty(),
            r.in_flight().len() == 0,
            r.slots() == Seq::new(total as nat, |i: int| None::<u16>),
    {
        let mut slots: Vec<Option<u16>> = Vec::new();
        let mut i: usize = 0;
        while i < total
            invariant
                i <= total,
                slots@ == Seq::new(i as nat, |k: int| None::<u16>),
            decreases total - i,
        {
            slots.push(None);
            i = i + 1;
            assert(slots@ =~= Seq::new(i as nat, |k: int| None::<u16>));
        }
        Dispatcher { bound, started: 0, running: 0, slots, in_flight: Ghost(Set::empty()) }
    }

    /// The number of probes in flight.
    pub fn running(&self) -> (r: usize)
        requires
            self.wf(),
        ensures
            r == self.in_flight().len(),
    {
        self.running
    }

    /// Whether the probe at `index` has started and not yet settled.
    pub fn is_in_flight(&self, index: usize) -> (r: bool)
        requires
            self.wf(),
        ensures
            r == self.in_flight().contains(index as nat),
    {
        index < self.started && index < self.slots.len() && self.slots[index].is_none()
    }

    /// Starts the next probe when one is left and fewer than the bound are in
    /// flight, and returns its position; otherwise changes nothing.
    pub fn start_next(&mut self) -> (r: Option<usize>)
        requires
            old(self).wf(),
        ensures
            final(self).wf(),
            final(self).bound() == old(self).bound(),
            final(self).total() == old(self).total(),
            final(self).slots() == old(self).slots(),
            r is Some <==> (old(self).started() < old(self).total() && old(self).in_flight().len()
                < old(self).bound()),
            r matches Some(index) ==> {
                &&& index == old(self).started()
                &&& final(self).started() == old(self).started() + 1
                &&& final(self).in_flight() == old(self).in_flight().insert(index as nat)
                &&& final(self).in_flight().len() == old(self).in_flight().len() + 1
            },
            r is None ==> final(self).started() == old(self).started() && final(self).in_flight()
                == old(self).in_flight(),
    {
        if self.started < self.slots.len() && self.running < self.bound {
            let index = self.started;
            proof {
                assert(!self.in_flight@.contains(index as nat));
                self.in_flight@ = self.in_flight@.insert(index as nat);
            }
            self.started = index + 1;
            self.running = self.running + 1;
            Some(index)
        } else {
            None
        }
    }

    /// Records that the probe at `index` settled with `answer` (`None`: it got
    /// no answer), classified as `outcome_code` does.
    pub fn complete(&mut self, index: usize, answer: Option<u16>)
        requires
            old(self).wf(),
            old(self).in_flight().contains(index as nat),
        ensures
            final(self).wf(),
            final(self).bound() == old(self).bound(),
            final(self).total() == old(self).total(),
            final(self).started() == old(self).started(),
            final(self).in_flight() == old(self).in_flight().remove(index as nat),
            final(self).in_flight().len() == old(self).in_flight().len() - 1,
            final(self).slots() == after_completion(old(self).slots(), index as int, answer),
    {
        let code = outcome_code(answer);
        self.slots.set(index, Some(code));
        proof {
            self.in_flight@ = self.in_flight@.remove(index as nat);
        }
        self.running = self.running - 1;
        assert(self.slots@ =~= after_completion(old(self).slots@, index as int, answer));
    }

    /// Whether every probe has started and settled.
    pub fn is_finished(&self) -> (r: bool)
        requires
            self.wf(),
        ensures
            r == (self.started() == self.total() && self.in_flight().is_empty()),
    {
        let r = self.started == self.slots.len() && self.running == 0;
        proof {
            if self.running == 0 {
                self.in_flight@.lemma_len0_is_empty();
            }
            if self.in_flight@.is_empty() {
                assert(self.in_flight@ =~= Set::empty());
            }
        }
        r
    }

    /// The outcomes of a finished batch, one per probe, in the order of the
    /// probes.
    pub fn outcomes(&self) -> (r: Vec<u16>)
        requires
            self.wf(),
            self.started() == self.total(),
            self.in_flight().is_empty(),
        ensures
            r@.len() == self.total(),
            forall|i: int| 0 <= i < r@.len() ==> self.slots()[i] == Some(#[trigger] r@[i]),
    {
        let mut r: Vec<u16> = Vec::new();
        let mut i: usize = 0;
        while i < self.slots.len()
            invariant
                self.wf(),
                self.started() == self.total(),
                self.in_flight().is_empty(),
                i <= self.slots@.len(),
                r@.len() == i,
                forall|k: int| 0 <= k < i ==> self.slots@[k] == Some(#[trigger] r@[k]),
            decreases self.slots@.len() - i,
        {
            assert(!self.in_flight@.contains(i as nat));
            match self.slots[i] {
                Some(code) => r.push(code),
                None => {
                    assert(false);
                },
            }
            i = i + 1;
        }
        r
    }
}

/// The number of probes in flight never exceeds the bound; with a bound of
/// one, no two probes are ever in flight together.  Every probe in flight has
/// started, and every slot belongs to a probe of the batch.
pub proof fn lemma_in_flight_within_bound(d: &Dispatcher)
    requires
        d.wf(),
    ensures
        d.bound() > 0,
        d.slots().len() == d.total(),
        d.started() <= d.total(),
        forall|i: nat| #[trigger] d.in_flight().contains(i) ==> i < d.started(),
        d.in_flight().finite(),
        d.in_flight().len() <= d.started(),
        d.in_flight().len() <= d.bound(),
        d.bound() == 1 ==> forall|i: nat, j: nat|
            d.in_flight().contains(i) && d.in_flight().contains(j) ==> i == j,
{
    if d.bound() == 1 {
        assert forall|i: nat, j: nat|
            d.in_flight().contains(i) && d.in_flight().contains(j) implies i == j by {
            if i != j {
                let s = d.in_flight().remove(i);
                assert(s.contains(j));
                s.lemma_len0_is_empty();
                assert(false);
            }
        }
    }
}

/// With a bound no smaller than the batch, no probe ever waits: as long as
/// one is left, the next call of `start_next` starts it.
pub proof fn lemma_large_bound_never_waits(d: &Dispatcher)
    requires
        d.wf(),
        d.bound() >= d.total(),
    ensures
        d.started() < d.total() ==> d.in_flight().len() < d.bound(),
{
}

/// The outcome slots after the probes settled one after the other as `events`
/// lists them, each event a position and the answer the probe there got.
pub open spec fn replay(slots: Seq<Option<u16>>, events: Seq<(int, Option<u16>)>) -> Seq<
    Option<u16>,
>
    decreases events.len(),
{
    if events.len() == 0 {
        slots
    } else {
        after_completion(replay(slots, events.drop_last()), events.last().0, events.last().1)
    }
}

/// Whether each event names a position of `slots`, and no position twice.
pub open spec fn settles_each_once(slots: Seq<Option<u16>>, events: Seq<(int, Option<u16>)>) -> bool {
    &&& forall|k: int| 0 <= k < events.len() ==> 0 <= #[trigger] events[k].0 < slots.len()
    &&& forall|k: int, l: int|
        0 <= k < l < events.len() ==> #[trigger] events[k].0 != #[trigger] events[l].0
}

/// Whatever the order in which the probes settle, the slot of each holds the
/// outcome of its own answer, and no other slot changes.
pub proof fn lemma_replay_slots(slots: Seq<Option<u16>>, events: Seq<(int, Option<u16>)>)
    requires
        settles_each_once(slots, events),
    ensures
        replay(slots, events).len() == slots.len(),
        forall|k: int|
            0 <= k < events.len() ==> replay(slots, events)[#[trigger] events[k].0] == Some(
                spec_outcome(events[k].1),
            ),
        forall|i: int|
            0 <= i < slots.len() && (forall|k: int| 0 <= k < events.len() ==> #[trigger] events[k].0 != i)
                ==> replay(slots, events)[i] == slots[i],
    decreases events.len(),
{
    if events.len() > 0 {
        let rest = events.drop_last();
        lemma_replay_slots(slots, rest);
        assert forall|k: int| 0 <= k < events.len() implies replay(slots, events)[
            #[trigger] events[k].0
        ] == Some(spec_outcome(events[k].1)) by {
            if k < events.len() - 1 {
                assert(rest[k] == events[k]);
            }
        }
        assert forall|i: int|
            0 <= i < slots.len() && (forall|k: int| 0 <= k < events.len() ==> #[trigger] events[k].0 != i)
            implies replay(slots, events)[i] == slots[i] by {
            assert forall|k: int| 0 <= k < rest.len() implies #[trigger] rest[k].0 != i by {
                assert(rest[k] == events[k]);
            }
            assert(events[events.len() - 1].0 != i);
        }
    }
}

/// The outcomes of a batch are a function of the answer each probe got: two
/// runs whose probes got the same answers, settling in any two orders, end
/// with the same outcomes in the same places.
pub proof fn lemma_outcomes_independent_of_order(
    slots: Seq<Option<u16>>,
    first: Seq<(int, Option<u16>)>,
    second: Seq<(int, Option<u16>)>,
)
    requires
        settles_each_once(slots, first),
        settles_each_once(slots, second),
        first.to_set() == second.to_set(),
    ensures
        replay(slots, first) == replay(slots, second),
{
    lemma_replay_slots(slots, first);
    lemma_replay_slots(slots, second);
    let a = replay(slots, first);
    let b = replay(slots, second);
    assert forall|i: int| 0 <= i < slots.len() implies a[i] == b[i] by {
        if exists|k: int| 0 <= k < first.len() && #[trigger] first[k].0 == i {
            let k = choose|k: int| 0 <= k < first.len() && #[trigger] first[k].0 == i;
            assert(first.to_set().contains(first[k]));
            assert(second.to_set().contains(first[k]));
            assert(second.contains(first[k]));
            let l = choose|l: int| 0 <= l < second.len() && second[l] == first[k];
            assert(second[l].0 == i);
            assert(a[i] == Some(spec_outcome(first[k].1)));
            assert(b[i] == Some(spec_outcome(second[l].1)));
        } else if exists|l: int| 0 <= l < second.len() && #[trigger] second[l].0 == i {
            let l = choose|l: int| 0 <= l < second.len() && #[trigger] second[l].0 == i;
            assert(second.to_set().contains(second[l]));
            assert(first.to_set().contains(second[l]));
            assert(first.contains(second[l]));
            let k = choose|k: int| 0 <= k < first.len() && first[k] == second[l];
            assert(first[k].0 == i);
        } else {
            assert(forall|k: int| 0 <= k < first.len() ==> #[trigger] first[k].0 != i);
            assert(forall|l: int| 0 <= l < second.len() ==> #[trigger] second[l].0 != i);
            assert(a[i] == slots[i]);
            assert(b[i] == slots[i]);
        }
    }
    assert(a =~= b);
}

} // verus!
