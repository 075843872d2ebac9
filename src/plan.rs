//! From catalog entries to probes, and from outcomes back to entries.
use vstd::prelude::*;
use crate::classify::{is_success, spec_is_success};
use crate::target::{field_target, probe_target};

verus! {

/// One probe to run: the position of its catalog entry, and the address.
pub struct ProbeTask {
    pub position: usize,
    pub url: Vec<u8>,
}

/// The probes for a catalog whose entries have the address fields `fields`:
/// one for each entry with a usable address, in the order of the entries.
pub open spec fn spec_plan(fields: Seq<Option<String>>) -> Seq<(int, Seq<u8>)>
    decreases fields.len(),
{
    if fields.len() == 0 {
        seq![]
    } else {
        let rest = spec_plan(fields.drop_last());
        match field_target(fields.last()) {
            Some(url) => rest.push((fields.len() - 1, url)),
            None => rest,
        }
    }
}

/// Whether an entry with the address field `field` is probed.
pub open spec fn is_eligible(field: Option<String>) -> bool {
    field_target(field) is Some
}

/// The probes for a catalog whose entries have the address fields `fields`
/// (`None`: the entry has no address field).
pub fn plan_probes(fields: &Vec<Option<String>>) -> (r: Vec<ProbeTask>)
    ensures
        r@.len() == spec_plan(fields@).len(),
        forall|k: int|
            0 <= k < r@.len() ==> (#[trigger] r@[k].position as int, r@[k].url@) == spec_plan(
                fields@,
            )[k],
{
    let mut r: Vec<ProbeTask> = Vec::new();
    let mut i: usize = 0;
    while i < fields.len()
        invariant
            i <= fields@.len(),
            r@.len() == spec_plan(fields@.subrange(0, i as int)).len(),
            forall|k: int|
                0 <= k < r@.len() ==> (#[trigger] r@[k].position as int, r@[k].url@) == spec_plan(
                    fields@.subrange(0, i as int),
                )[k],
        decreases fields@.len() - i,
    {
        let ghost prev = fields@.subrange(0, i as int);
        let ghost next = fields@.subrange(0, i + 1);
        assert(next.drop_last() =~= prev);
        let target = match &fields[i] {
            Some(text) => probe_target(text.as_str()),
            None => None,
        };
        match target {
            Some(url) => {
                r.push(ProbeTask { position: i, url });
            },
            None => {},
        }
        i = i + 1;
    }
    assert(fields@.subrange(0, fields@.len() as int) =~= fields@);
    r
}

/// There is one probe for each entry with a usable address, and for no other
/// entry; the probes follow the order of the entries.
pub proof fn lemma_one_probe_per_eligible_entry(fields: Seq<Option<String>>)
    ensures
        spec_plan(fields).len() == fields.filter(|f: Option<String>| is_eligible(f)).len(),
        forall|k: int|
            0 <= k < spec_plan(fields).len() ==> {
                let p = #[trigger] spec_plan(fields)[k].0;
                &&& 0 <= p < fields.len()
                &&& field_target(fields[p]) == Some(spec_plan(fields)[k].1)
            },
        forall|k: int, l: int|
            0 <= k < l < spec_plan(fields).len() ==> #[trigger] spec_plan(fields)[k].0
                < #[trigger] spec_plan(fields)[l].0,
    decreases fields.len(),
{
    reveal(Seq::filter);
    if fields.len() > 0 {
        let rest = fields.drop_last();
        lemma_one_probe_per_eligible_entry(rest);
        assert forall|k: int| 0 <= k < spec_plan(rest).len() implies #[trigger] fields[spec_plan(
            rest,
        )[k].0] == rest[spec_plan(rest)[k].0] by {}
    }
}

/// The outcomes among the first `n` that count as live, given as the
/// positions of the entries that their probes belong to.
pub open spec fn spec_survivors(tasks: Seq<ProbeTask>, outcomes: Seq<u16>, n: int) -> Seq<usize>
    decreases n,
{
    if n <= 0 {
        seq![]
    } else {
        let rest = spec_survivors(tasks, outcomes, n - 1);
        if spec_is_success(outcomes[n - 1]) {
            rest.push(tasks[n - 1].position)
        } else {
            rest
        }
    }
}

/// The places among the first `n` outcomes that count as live, in order.
pub open spec fn live_places(outcomes: Seq<u16>, n: int) -> Seq<int>
    decreases n,
{
    if n <= 0 {
        seq![]
    } else {
        let rest = live_places(outcomes, n - 1);
        if spec_is_success(outcomes[n - 1]) {
            rest.push(n - 1)
        } else {
            rest
        }
    }
}

/// The survivors are the positions `tasks[k].position` for exactly those
/// `k < n` whose outcome lies in `200..300`, in increasing order of `k`.
pub proof fn lemma_survivors_are_live_tasks(tasks: Seq<ProbeTask>, outcomes: Seq<u16>, n: int)
    requires
        0 <= n <= tasks.len(),
        tasks.len() == outcomes.len(),
    ensures
        spec_survivors(tasks, outcomes, n).len() == live_places(outcomes, n).len(),
        forall|j: int|
            0 <= j < live_places(outcomes, n).len() ==> spec_survivors(tasks, outcomes, n)[j]
                == tasks[#[trigger] live_places(outcomes, n)[j]].position,
        forall|j: int|
            0 <= j < live_places(outcomes, n).len() ==> {
                let k = #[trigger] live_places(outcomes, n)[j];
                &&& 0 <= k < n
                &&& spec_is_success(outcomes[k])
            },
        forall|k: int|
            0 <= k < n && spec_is_success(#[trigger] outcomes[k]) ==> live_places(
                outcomes,
                n,
            ).contains(k),
        forall|i: int, j: int|
            0 <= i < j < live_places(outcomes, n).len() ==> #[trigger] live_places(outcomes, n)[i]
                < #[trigger] live_places(outcomes, n)[j],
    decreases n,
{
    if n > 0 {
        lemma_survivors_are_live_tasks(tasks, outcomes, n - 1);
        let rest = live_places(outcomes, n - 1);
        let all = live_places(outcomes, n);
        assert forall|k: int| 0 <= k < n && spec_is_success(#[trigger] outcomes[k]) implies all.contains(k) by {
            if k < n - 1 {
                let j = choose|j: int| 0 <= j < rest.len() && rest[j] == k;
                assert(all[j] == k);
            } else {
                assert(all[all.len() - 1] == k);
            }
        }
    }
}

/// The positions of the entries to keep: those whose probe's outcome counts
/// as live, paired by place (`outcomes[k]` is the outcome of `tasks[k]`), in
/// the order of the probes.
pub fn surviving_positions(tasks: &Vec<ProbeTask>, outcomes: &Vec<u16>) -> (r: Vec<usize>)
    requires
        tasks@.len() == outcomes@.len(),
    ensures
        r@ == spec_survivors(tasks@, outcomes@, tasks@.len() as int),
{
    let mut r: Vec<usize> = Vec::new();
    let mut i: usize = 0;
    while i < tasks.len()
        invariant
            tasks@.len() == outcomes@.len(),
            i <= tasks@.len(),
            r@ == spec_survivors(tasks@, outcomes@, i as int),
        decreases tasks@.len() - i,
    {
        if is_success(outcomes[i]) {
            r.push(tasks[i].position);
        }
        i = i + 1;
    }
    r
}

} // verus!
