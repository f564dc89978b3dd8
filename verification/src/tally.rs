//! Counts over the outcomes of a census.

use vstd::prelude::*;

use crate::histogram::Ratio;
use crate::probe::{outcome, outcomes_of, Family, Outcome, OutcomeView, Stage};
use crate::reasons::connect_reason;
use crate::resolve::{Endpoint, EndpointView, Entry};
use crate::text::{chars_of, ends_with, same};

verus! {

// Entries.

/// How many entries are SRV record names.
pub fn count_srv(entries: &[Entry]) -> (n: u64)
    ensures
        n == crate::count::count(entries.len() as int, crate::resolve::is_srv_at(entries.deep_view())),
{
    let mut n: u64 = 0;
    let mut i: usize = 0;
    while i < entries.len()
        invariant
            i <= entries.len(),
            n <= i,
            n == crate::count::count(i as int, crate::resolve::is_srv_at(entries.deep_view())),
        decreases entries.len() - i,
    {
        assert(entries.deep_view()[i as int] == entries[i as int].deep_view());
        let hit = entries[i].is_srv();
        if hit {
            n += 1;
        }
        i += 1;
    }
    n
}

// Outcomes.

/// Which outcomes are tips from the family `f`.
pub open spec fn from_family(s: Seq<Option<OutcomeView>>, f: Family) -> spec_fn(int) -> bool {
    |i: int| s[i] matches Some(Ok(r)) && r.family == f
}

/// Which outcomes are failures at `stage`.
pub open spec fn failed_at(s: Seq<Option<OutcomeView>>, stage: Stage) -> spec_fn(int) -> bool {
    |i: int| s[i] matches Some(Err(f)) && f.stage == stage
}

/// Which outcomes are connect failures for the reason `words`.
pub open spec fn not_connected(s: Seq<Option<OutcomeView>>, words: Seq<char>) -> spec_fn(
    int,
) -> bool {
    |i: int|
        s[i] matches Some(Err(f)) && f.stage == Stage::Connect
            && crate::reasons::connect_reason_of(f.error) == words
}

/// Which endpoints were resolved and actually dialled: not a DNS failure, not
/// special-use space, not an IPv6 address from a host without an IPv6 route.
pub open spec fn dialled(s: Seq<Option<OutcomeView>>) -> spec_fn(int) -> bool {
    |i: int|
        !(s[i] matches Some(Err(f)) && (f.stage == Stage::Dns || f.stage == Stage::Address
            || crate::text::ends(f.error, "not probed"@)))
}

pub fn count_family(outcomes: &[Option<Outcome>], family: Family) -> (n: u64)
    ensures
        n == crate::count::count(outcomes.len() as int, from_family(outcomes_of(outcomes@), family)),
{
    let mut n: u64 = 0;
    let mut i: usize = 0;
    while i < outcomes.len()
        invariant
            i <= outcomes.len(),
            n <= i,
            n == crate::count::count(i as int, from_family(outcomes_of(outcomes@), family)),
        decreases outcomes.len() - i,
    {
        assert(outcomes_of(outcomes@)[i as int] == match outcomes[i as int] {
            Some(o) => Some(outcome(o)),
            None => None,
        });
        let hit = match &outcomes[i] {
            Some(Ok(r)) => r.family == family,
            _ => false,
        };
        if hit {
            n += 1;
        }
        i += 1;
    }
    n
}

pub fn count_failed(outcomes: &[Option<Outcome>], stage: Stage) -> (n: u64)
    ensures
        n == crate::count::count(outcomes.len() as int, failed_at(outcomes_of(outcomes@), stage)),
{
    let mut n: u64 = 0;
    let mut i: usize = 0;
    while i < outcomes.len()
        invariant
            i <= outcomes.len(),
            n <= i,
            n == crate::count::count(i as int, failed_at(outcomes_of(outcomes@), stage)),
        decreases outcomes.len() - i,
    {
        assert(outcomes_of(outcomes@)[i as int] == match outcomes[i as int] {
            Some(o) => Some(outcome(o)),
            None => None,
        });
        let hit = match &outcomes[i] {
            Some(Err(f)) => f.stage == stage,
            _ => false,
        };
        if hit {
            n += 1;
        }
        i += 1;
    }
    n
}

pub fn count_not_connected(outcomes: &[Option<Outcome>], words: &str) -> (n: u64)
    ensures
        n == crate::count::count(outcomes.len() as int, not_connected(outcomes_of(outcomes@), words@)),
{
    let mut n: u64 = 0;
    let mut i: usize = 0;
    while i < outcomes.len()
        invariant
            i <= outcomes.len(),
            n <= i,
            n == crate::count::count(i as int, not_connected(outcomes_of(outcomes@), words@)),
        decreases outcomes.len() - i,
    {
        assert(outcomes_of(outcomes@)[i as int] == match outcomes[i as int] {
            Some(o) => Some(outcome(o)),
            None => None,
        });
        let hit = match &outcomes[i] {
            Some(Err(f)) => f.stage == Stage::Connect && same(
                connect_reason(f.error.as_str()),
                words,
            ),
            _ => false,
        };
        if hit {
            n += 1;
        }
        i += 1;
    }
    n
}

pub fn count_dialled(outcomes: &[Option<Outcome>]) -> (n: u64)
    ensures
        n == crate::count::count(outcomes.len() as int, dialled(outcomes_of(outcomes@))),
{
    let mut n: u64 = 0;
    let mut i: usize = 0;
    while i < outcomes.len()
        invariant
            i <= outcomes.len(),
            n <= i,
            n == crate::count::count(i as int, dialled(outcomes_of(outcomes@))),
        decreases outcomes.len() - i,
    {
        assert(outcomes_of(outcomes@)[i as int] == match outcomes[i as int] {
            Some(o) => Some(outcome(o)),
            None => None,
        });
        let hit = match &outcomes[i] {
            Some(Err(f)) => !(f.stage == Stage::Dns || f.stage == Stage::Address || ends_with(
                chars_of(f.error.as_str()).as_slice(),
                chars_of("not probed").as_slice(),
            )),
            _ => true,
        };
        if hit {
            n += 1;
        }
        i += 1;
    }
    n
}

/// Which endpoints are only remembered.
pub open spec fn remembered(endpoints: Seq<EndpointView>) -> spec_fn(int) -> bool {
    |x: int| endpoints[x].remembered
}

pub fn count_remembered(endpoints: &[Endpoint]) -> (n: u64)
    ensures
        n == crate::count::count(endpoints.len() as int, remembered(endpoints.deep_view())),
{
    let mut n: u64 = 0;
    let mut i: usize = 0;
    while i < endpoints.len()
        invariant
            i <= endpoints.len(),
            n <= i,
            n == crate::count::count(i as int, remembered(endpoints.deep_view())),
        decreases endpoints.len() - i,
    {
        assert(endpoints.deep_view()[i as int] == endpoints[i as int].deep_view());
        let hit = endpoints[i].remembered;
        if hit {
            n += 1;
        }
        i += 1;
    }
    n
}

/// The round trips of the outcomes that are tips, in thousandths of a second.
pub open spec fn round_trips(s: Seq<Option<OutcomeView>>) -> Seq<Ratio>
    decreases s.len(),
{
    if s.len() == 0 {
        Seq::empty()
    } else {
        match s.last() {
            Some(Ok(r)) => round_trips(s.drop_last()).push(Ratio { num: r.rtt_ms, den: 1000 }),
            _ => round_trips(s.drop_last()),
        }
    }
}

/// The highest block that a tip reports; 0 when there is none.
pub open spec fn highest_block(s: Seq<Option<OutcomeView>>) -> u64
    decreases s.len(),
{
    if s.len() == 0 {
        0
    } else {
        let front = highest_block(s.drop_last());
        match s.last() {
            Some(Ok(r)) => if r.tip.block > front {
                r.tip.block
            } else {
                front
            },
            _ => front,
        }
    }
}

/// The highest slot that a tip reports; 0 when there is none.
pub open spec fn highest_slot(s: Seq<Option<OutcomeView>>) -> u64
    decreases s.len(),
{
    if s.len() == 0 {
        0
    } else {
        let front = highest_slot(s.drop_last());
        match s.last() {
            Some(Ok(r)) => if r.tip.slot > front {
                r.tip.slot
            } else {
                front
            },
            _ => front,
        }
    }
}

/// The round trips of the tips, and the highest block and slot they report.
pub fn survey_tips(outcomes: &[Option<Outcome>]) -> (r: (Vec<Ratio>, u64, u64))
    ensures
        r.0@ == round_trips(outcomes_of(outcomes@)),
        r.1 == highest_block(outcomes_of(outcomes@)),
        r.2 == highest_slot(outcomes_of(outcomes@)),
{
    let ghost all = outcomes_of(outcomes@);
    let mut trips: Vec<Ratio> = Vec::new();
    let mut block: u64 = 0;
    let mut slot: u64 = 0;
    let mut i: usize = 0;
    assert(all.take(0) =~= Seq::empty());
    while i < outcomes.len()
        invariant
            i <= outcomes.len(),
            all == outcomes_of(outcomes@),
            trips@ == round_trips(all.take(i as int)),
            block == highest_block(all.take(i as int)),
            slot == highest_slot(all.take(i as int)),
        decreases outcomes.len() - i,
    {
        assert(all.take(i + 1).drop_last() =~= all.take(i as int));
        assert(all[i as int] == match outcomes[i as int] {
            Some(o) => Some(outcome(o)),
            None => None,
        });
        if let Some(Ok(r)) = &outcomes[i] {
            trips.push(Ratio { num: r.rtt_ms, den: 1000 });
            if r.tip.block > block {
                block = r.tip.block;
            }
            if r.tip.slot > slot {
                slot = r.tip.slot;
            }
        }
        i += 1;
    }
    assert(all.take(i as int) =~= all);
    (trips, block, slot)
}

} // verus!
