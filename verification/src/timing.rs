//! What the times, the tips and the lags of a census say of its relays.

use vstd::prelude::*;

use crate::census::{follows_chains, weighs_pools, Census};
use crate::count::{count, lemma_select, lemma_select_same};
use crate::histogram::places;
use crate::probe::OutcomeView;
use crate::standing::Inputs;

verus! {

// Tips.

proof fn lemma_slot_bounds(s: Seq<Option<OutcomeView>>, i: int)
    requires
        0 <= i < s.len(),
        s[i] matches Some(Ok(_)),
    ensures
        s[i]->0->Ok_0.tip.block <= crate::tally::highest_block(s),
        s[i]->0->Ok_0.tip.slot <= crate::tally::highest_slot(s),
    decreases s.len(),
{
    if i < s.len() - 1 {
        assert(s.drop_last()[i] == s[i]);
        lemma_slot_bounds(s.drop_last(), i);
    }
}

proof fn lemma_block_attained(s: Seq<Option<OutcomeView>>)
    ensures
        crate::tally::highest_block(s) > 0 ==> exists|i: int|
            0 <= i < s.len() && (#[trigger] s[i] matches Some(Ok(r)) && r.tip.block
                == crate::tally::highest_block(s)),
    decreases s.len(),
{
    if s.len() > 0 {
        let t = s.drop_last();
        lemma_block_attained(t);
        if crate::tally::highest_block(s) > 0 {
            if crate::tally::highest_block(s) == crate::tally::highest_block(t) {
                let i = choose|i: int|
                    0 <= i < t.len() && (#[trigger] t[i] matches Some(Ok(r)) && r.tip.block
                        == crate::tally::highest_block(t));
                assert(s[i] == t[i]);
            } else {
                assert(s[s.len() - 1] == s.last());
            }
        }
    }
}

proof fn lemma_slot_attained(s: Seq<Option<OutcomeView>>)
    ensures
        crate::tally::highest_slot(s) > 0 ==> exists|i: int|
            0 <= i < s.len() && (#[trigger] s[i] matches Some(Ok(r)) && r.tip.slot
                == crate::tally::highest_slot(s)),
    decreases s.len(),
{
    if s.len() > 0 {
        let t = s.drop_last();
        lemma_slot_attained(t);
        if crate::tally::highest_slot(s) > 0 {
            if crate::tally::highest_slot(s) == crate::tally::highest_slot(t) {
                let i = choose|i: int|
                    0 <= i < t.len() && (#[trigger] t[i] matches Some(Ok(r)) && r.tip.slot
                        == crate::tally::highest_slot(t));
                assert(s[i] == t[i]);
            } else {
                assert(s[s.len() - 1] == s.last());
            }
        }
    }
}

/// No tip reports a block above the highest block or a slot above the highest
/// slot, and unless they are 0 a tip reports each of them.
pub proof fn the_highest_are_reported(
    c: Census,
    inputs: Inputs<'_>,
    tolerance: u64,
    keys: Seq<u64>,
)
    requires
        follows_chains(c, inputs, tolerance, keys),
    ensures
        ({
            let s = inputs.outcomes;
            &&& forall|i: int|
                0 <= i < s.len() ==> (#[trigger] s[i] matches Some(Ok(r)) ==> r.tip.block
                    <= c.tip_block_max && r.tip.slot <= c.tip_slot_max)
            &&& c.tip_block_max > 0 ==> exists|i: int|
                0 <= i < s.len() && (#[trigger] s[i] matches Some(Ok(r)) && r.tip.block
                    == c.tip_block_max)
            &&& c.tip_slot_max > 0 ==> exists|i: int|
                0 <= i < s.len() && (#[trigger] s[i] matches Some(Ok(r)) && r.tip.slot
                    == c.tip_slot_max)
        }),
{
    let s = inputs.outcomes;
    assert forall|i: int| 0 <= i < s.len() implies (#[trigger] s[i] matches Some(Ok(r))
        ==> r.tip.block <= c.tip_block_max && r.tip.slot <= c.tip_slot_max) by {
        if let Some(Ok(r)) = s[i] {
            lemma_slot_bounds(s, i);
        }
    }
    lemma_block_attained(s);
    lemma_slot_attained(s);
}

/// What the metrics show as the highest block is the highest block that a tip
/// reports, and what they show as the highest slot is the highest slot.
pub proof fn the_highest_are_shown(
    c: Census,
    inputs: Inputs<'_>,
    tolerance: u64,
    keys: Seq<u64>,
    t: crate::amounts::Amounts<String>,
    rev: Seq<char>,
    i: int,
)
    requires
        follows_chains(c, inputs, tolerance, keys),
        t.outreach_stake.len() == c.top_pools.len(),
        0 <= i < inputs.outcomes.len(),
        inputs.outcomes[i] matches Some(Ok(_)),
    ensures
        ({
            let items = crate::metrics::all_items(c, t, rev);
            let tip = inputs.outcomes[i]->0->Ok_0.tip;
            &&& (forall|j: int|
                0 <= j < inputs.outcomes.len() ==> (#[trigger] inputs.outcomes[j] matches Some(
                    Ok(r),
                ) ==> r.tip.block <= tip.block)) ==> crate::series::shown(
                items,
                "tip_block_max"@,
            ) == seq![
                (Seq::<(Seq<char>, Seq<char>)>::empty(), crate::text::decimal(tip.block as nat)),
            ]
            &&& (forall|j: int|
                0 <= j < inputs.outcomes.len() ==> (#[trigger] inputs.outcomes[j] matches Some(
                    Ok(r),
                ) ==> r.tip.slot <= tip.slot)) ==> crate::series::shown(items, "tip_slot_max"@)
                == seq![
                (Seq::<(Seq<char>, Seq<char>)>::empty(), crate::text::decimal(tip.slot as nat)),
            ]
        }),
{
    crate::series::tips_are_shown(c, t, rev);
    the_highest_are_reported(c, inputs, tolerance, keys);
    let tip = inputs.outcomes[i]->0->Ok_0.tip;
    if forall|j: int|
        0 <= j < inputs.outcomes.len() ==> (#[trigger] inputs.outcomes[j] matches Some(Ok(r))
            ==> r.tip.block <= tip.block) {
        assert(tip.block == c.tip_block_max);
    }
    if forall|j: int|
        0 <= j < inputs.outcomes.len() ==> (#[trigger] inputs.outcomes[j] matches Some(Ok(r))
            ==> r.tip.slot <= tip.slot) {
        assert(tip.slot == c.tip_slot_max);
    }
}

/// A relay has a place behind the highest tip when it returned one, and is as
/// many blocks behind as the highest block is above that of its tip.
pub proof fn relays_lag_behind_the_highest(
    c: Census,
    inputs: Inputs<'_>,
    tolerance: u64,
    keys: Seq<u64>,
    e: int,
)
    requires
        follows_chains(c, inputs, tolerance, keys),
        0 <= e < inputs.entries.len(),
    ensures
        c.entry_tips.len() == inputs.entries.len(),
        match inputs.best()[e] {
            Some(Ok(r)) => c.entry_tips[e] matches Some(t) && t.lag_blocks == if r.tip.block
                < c.tip_block_max {
                c.tip_block_max - r.tip.block
            } else {
                0
            },
            _ => c.entry_tips[e] is None,
        },
{
}

/// Two relays with tips of one hash are both on the main chain or both not.
pub proof fn one_hash_is_on_one_chain(
    c: Census,
    inputs: Inputs<'_>,
    tolerance: u64,
    keys: Seq<u64>,
    e: int,
    f: int,
)
    requires
        follows_chains(c, inputs, tolerance, keys),
        0 <= e < inputs.entries.len(),
        0 <= f < inputs.entries.len(),
        inputs.best()[e] matches Some(Ok(a)) && inputs.best()[f] matches Some(Ok(b)) && a.tip.hash
            == b.tip.hash,
    ensures
        c.entry_tips[e] matches Some(x) && c.entry_tips[f] matches Some(y) && x.main == y.main,
{
}

// Times.

/// A relay answered within a bound when its round trip took no longer, and a
/// relay that did not answer is within none.
pub proof fn relays_answer_within_their_time(c: Census, inputs: Inputs<'_>, b: int, e: int)
    requires
        weighs_pools(c, inputs),
        0 <= b < c.relays_reachable_within.bounds.len(),
    ensures
        places(c.relays_reachable_within.values[b]@).contains(e) <==> (0 <= e
            < inputs.entries.len() && (inputs.best()[e] matches Some(Ok(r)) && r.rtt_ms
            <= c.relays_reachable_within.bounds[b])),
        places(c.relays_reachable_within.total@).contains(e) <==> (0 <= e < inputs.entries.len()
            && inputs.best()[e] matches Some(Ok(_))),
{
    let n = inputs.entries.len() as int;
    let times = crate::census::entry_times(inputs.best());
    let bound = c.relays_reachable_within.bounds[b];
    lemma_select(n, crate::histogram::have_low_value(times, bound));
    lemma_select(n, crate::histogram::have_value(times));
    assert(inputs.best().len() == n);
    if 0 <= e < n {
        assert(crate::histogram::have_low_value(times, bound)(e) == (inputs.best()[e] matches Some(
            Ok(r),
        ) && r.rtt_ms * 1000 <= bound * 1000));
        assert(crate::histogram::have_value(times)(e) == (inputs.best()[e] matches Some(Ok(_))));
    }
}

/// A pool answered within a bound when one of its relays did.
pub proof fn pools_answer_within_their_time(c: Census, inputs: Inputs<'_>, b: int, p: int)
    requires
        inputs.wf(),
        weighs_pools(c, inputs),
        0 <= b < c.stake_reachable_within.bounds.len(),
    ensures
        places(c.stake_reachable_within.values[b]@).contains(p) <==> (0 <= p < inputs.pools
            && exists|e: int|
            0 <= e < inputs.entries.len() && (#[trigger] inputs.entries[e]).pool == p
                && (inputs.best()[e] matches Some(Ok(r)) && r.rtt_ms
                <= c.stake_reachable_within.bounds[b])),
        places(c.stake_reachable_within.total@).contains(p) <==> (0 <= p < inputs.pools && exists|
            e: int,
        |
            0 <= e < inputs.entries.len() && (#[trigger] inputs.entries[e]).pool == p
                && inputs.best()[e] matches Some(Ok(_))),
{
    let n = inputs.pools as int;
    let stats = inputs.stats();
    let times = crate::census::pool_times(stats);
    let bound = c.stake_reachable_within.bounds[b];
    lemma_select(n, crate::histogram::have_low_value(times, bound));
    lemma_select(n, crate::histogram::have_value(times));
    if 0 <= p < n {
        assert(stats[p] == inputs.stat(p));
        let own = inputs.own(p);
        let pick = crate::standing::of_pool(inputs.entries, p);
        lemma_select(inputs.entries.len() as int, pick);
        lemma_shortest(inputs, own, bound);
        assert(crate::histogram::have_low_value(times, bound)(p) == (inputs.fastest(
            p,
        ) matches Some(ms) && ms * 1000 <= bound * 1000));
        assert(crate::histogram::have_value(times)(p) == inputs.fastest(p) is Some);
        assert forall|e: int|
            0 <= e < inputs.entries.len() && (#[trigger] inputs.entries[e]).pool == p implies
            own.contains(e) by {
            assert(pick(e));
        }
        assert forall|j: int| 0 <= j < own.len() implies 0 <= #[trigger] own[j]
            < inputs.entries.len() && inputs.entries[own[j]].pool == p by {
            assert(pick(own[j]));
        }
        if exists|e: int|
            0 <= e < inputs.entries.len() && (#[trigger] inputs.entries[e]).pool == p
                && inputs.best()[e] matches Some(Ok(_)) {
            let e = choose|e: int|
                0 <= e < inputs.entries.len() && (#[trigger] inputs.entries[e]).pool == p
                    && inputs.best()[e] matches Some(Ok(_));
            let j = own.index_of(e);
            assert(own[j] == e);
        }
        if exists|e: int|
            0 <= e < inputs.entries.len() && (#[trigger] inputs.entries[e]).pool == p
                && (inputs.best()[e] matches Some(Ok(r)) && r.rtt_ms <= bound) {
            let e = choose|e: int|
                0 <= e < inputs.entries.len() && (#[trigger] inputs.entries[e]).pool == p
                    && (inputs.best()[e] matches Some(Ok(r)) && r.rtt_ms <= bound);
            let j = own.index_of(e);
            assert(own[j] == e);
        }
        if inputs.fastest(p) is Some {
            let j = choose|j: int|
                0 <= j < own.len() && inputs.best()[#[trigger] own[j]] matches Some(Ok(_));
            assert(inputs.entries[own[j]].pool == p);
        }
        if inputs.fastest(p) matches Some(ms) && ms <= bound {
            let j = choose|j: int|
                0 <= j < own.len() && (inputs.best()[#[trigger] own[j]] matches Some(Ok(r))
                    && r.rtt_ms <= bound);
            assert(inputs.entries[own[j]].pool == p);
        }
    }
}

proof fn lemma_shortest(inputs: Inputs<'_>, at: Seq<int>, bound: u64)
    ensures
        crate::standing::shortest(inputs.best(), at) is Some <==> exists|j: int|
            0 <= j < at.len() && inputs.best()[#[trigger] at[j]] matches Some(Ok(_)),
        (crate::standing::shortest(inputs.best(), at) matches Some(ms) && ms <= bound)
            <==> exists|j: int|
            0 <= j < at.len() && (inputs.best()[#[trigger] at[j]] matches Some(Ok(r)) && r.rtt_ms
                <= bound),
    decreases at.len(),
{
    let best = inputs.best();
    if at.len() > 0 {
        let t = at.drop_last();
        lemma_shortest(inputs, t, bound);
        assert(at[at.len() - 1] == at.last());
        if exists|j: int| 0 <= j < t.len() && best[#[trigger] t[j]] matches Some(Ok(_)) {
            let j = choose|j: int| 0 <= j < t.len() && best[#[trigger] t[j]] matches Some(Ok(_));
            assert(at[j] == t[j]);
        }
        if exists|j: int|
            0 <= j < t.len() && (best[#[trigger] t[j]] matches Some(Ok(r)) && r.rtt_ms <= bound) {
            let j = choose|j: int|
                0 <= j < t.len() && (best[#[trigger] t[j]] matches Some(Ok(r)) && r.rtt_ms
                    <= bound);
            assert(at[j] == t[j]);
        }
        if exists|j: int| 0 <= j < at.len() && best[#[trigger] at[j]] matches Some(Ok(_)) {
            let j = choose|j: int| 0 <= j < at.len() && best[#[trigger] at[j]] matches Some(Ok(_));
            if j < t.len() {
                assert(at[j] == t[j]);
            }
        }
        if exists|j: int|
            0 <= j < at.len() && (best[#[trigger] at[j]] matches Some(Ok(r)) && r.rtt_ms <= bound) {
            let j = choose|j: int|
                0 <= j < at.len() && (best[#[trigger] at[j]] matches Some(Ok(r)) && r.rtt_ms
                    <= bound);
            if j < t.len() {
                assert(at[j] == t[j]);
            }
        }
    }
}

/// A relay is within some blocks of the highest tip when it lags by no more.
pub proof fn relays_are_within_their_lag(
    c: Census,
    inputs: Inputs<'_>,
    tolerance: u64,
    keys: Seq<u64>,
    b: int,
    e: int,
)
    requires
        follows_chains(c, inputs, tolerance, keys),
        0 <= b < c.relays_within_blocks_of_tip.bounds.len(),
    ensures
        places(c.relays_within_blocks_of_tip.values[b]@).contains(e) <==> (0 <= e
            < inputs.entries.len() && (c.entry_tips[e] matches Some(t) && t.lag_blocks * 1000
            <= c.relays_within_blocks_of_tip.bounds[b])),
        places(c.relays_within_blocks_of_tip.total@).contains(e) <==> (0 <= e
            < inputs.entries.len() && inputs.best()[e] matches Some(Ok(_))),
{
    let n = inputs.entries.len() as int;
    let lags = crate::census::entry_lags(c.entry_tips@);
    let bound = c.relays_within_blocks_of_tip.bounds[b];
    lemma_select(n, crate::histogram::have_low_value(lags, bound));
    lemma_select(n, crate::histogram::have_value(lags));
    assert(c.entry_tips.len() == n);
    if 0 <= e < n {
        assert(crate::histogram::have_low_value(lags, bound)(e) == (c.entry_tips[e] matches Some(t)
            && t.lag_blocks * 1000 <= bound * 1));
        assert(crate::histogram::have_value(lags)(e) == c.entry_tips[e] is Some);
    }
}

/// A pool is within some blocks of the highest tip when one of its relays is.
pub proof fn pools_are_within_their_lag(
    c: Census,
    inputs: Inputs<'_>,
    tolerance: u64,
    keys: Seq<u64>,
    b: int,
    p: int,
)
    requires
        inputs.wf(),
        follows_chains(c, inputs, tolerance, keys),
        0 <= b < c.stake_within_blocks_of_tip.bounds.len(),
    ensures
        places(c.stake_within_blocks_of_tip.values[b]@).contains(p) <==> (0 <= p < inputs.pools
            && exists|e: int|
            0 <= e < inputs.entries.len() && (#[trigger] inputs.entries[e]).pool == p
                && (c.entry_tips[e] matches Some(t) && t.lag_blocks * 1000
                <= c.stake_within_blocks_of_tip.bounds[b])),
{
    let n = inputs.pools as int;
    let tips = c.entry_tips@;
    let lags = crate::census::pool_lags(tips, inputs);
    let bound = c.stake_within_blocks_of_tip.bounds[b];
    lemma_select(n, crate::histogram::have_low_value(lags, bound));
    if 0 <= p < n {
        let own = inputs.own(p);
        let pick = crate::standing::of_pool(inputs.entries, p);
        lemma_select(inputs.entries.len() as int, pick);
        lemma_least(tips, own, bound);
        assert(crate::histogram::have_low_value(lags, bound)(p) == (crate::census::least_lag(
            tips,
            own,
        ) matches Some(lag) && lag * 1000 <= bound * 1));
        assert forall|e: int|
            0 <= e < inputs.entries.len() && (#[trigger] inputs.entries[e]).pool == p implies
            own.contains(e) by {
            assert(pick(e));
        }
        assert forall|j: int| 0 <= j < own.len() implies 0 <= #[trigger] own[j]
            < inputs.entries.len() && inputs.entries[own[j]].pool == p by {
            assert(pick(own[j]));
        }
        if exists|e: int|
            0 <= e < inputs.entries.len() && (#[trigger] inputs.entries[e]).pool == p && (
            c.entry_tips[e] matches Some(t) && t.lag_blocks * 1000 <= bound) {
            let e = choose|e: int|
                0 <= e < inputs.entries.len() && (#[trigger] inputs.entries[e]).pool == p && (
                c.entry_tips[e] matches Some(t) && t.lag_blocks * 1000 <= bound);
            let j = own.index_of(e);
            assert(own[j] == e);
        }
        if crate::census::least_lag(tips, own) matches Some(lag) && lag * 1000 <= bound {
            let j = choose|j: int|
                0 <= j < own.len() && (tips[#[trigger] own[j]] matches Some(t) && t.lag_blocks
                    * 1000 <= bound);
            assert(inputs.entries[own[j]].pool == p);
        }
    }
}

proof fn lemma_least(tips: Seq<Option<crate::chains::EntryTip>>, at: Seq<int>, bound: u64)
    ensures
        (crate::census::least_lag(tips, at) matches Some(lag) && lag * 1000 <= bound)
            <==> exists|j: int|
            0 <= j < at.len() && (tips[#[trigger] at[j]] matches Some(t) && t.lag_blocks * 1000
                <= bound),
    decreases at.len(),
{
    if at.len() > 0 {
        let s = at.drop_last();
        lemma_least(tips, s, bound);
        assert(at[at.len() - 1] == at.last());
        if exists|j: int|
            0 <= j < s.len() && (tips[#[trigger] s[j]] matches Some(t) && t.lag_blocks * 1000
                <= bound) {
            let j = choose|j: int|
                0 <= j < s.len() && (tips[#[trigger] s[j]] matches Some(t) && t.lag_blocks * 1000
                    <= bound);
            assert(at[j] == s[j]);
        }
        if exists|j: int|
            0 <= j < at.len() && (tips[#[trigger] at[j]] matches Some(t) && t.lag_blocks * 1000
                <= bound) {
            let j = choose|j: int|
                0 <= j < at.len() && (tips[#[trigger] at[j]] matches Some(t) && t.lag_blocks
                    * 1000 <= bound);
            if j < s.len() {
                assert(at[j] == s[j]);
            }
        }
    }
}

/// The bounds of the buckets: seconds for times, blocks for lags and shares for
/// reachability, each in thousandths.
pub proof fn the_bounds_are_these(
    c: Census,
    inputs: Inputs<'_>,
    tolerance: u64,
    keys: Seq<u64>,
)
    requires
        weighs_pools(c, inputs),
        follows_chains(c, inputs, tolerance, keys),
    ensures
        c.relays_reachable_within.bounds@ == seq![
            1000u64,
            2500,
            5000,
            10000,
            15000,
            20000,
            30000,
            45000,
            60000,
        ],
        c.stake_reachable_within.bounds@ == c.relays_reachable_within.bounds@,
        c.relays_within_blocks_of_tip.bounds@ == seq![
            0u64,
            1000,
            2000,
            5000,
            10000,
            50000,
            100000,
            1000000,
        ],
        c.stake_within_blocks_of_tip.bounds@ == c.relays_within_blocks_of_tip.bounds@,
        c.reachability.bounds@ == seq![0u64, 250, 500, 750, 1000],
        c.rtt_seconds.bounds@ == seq![
            50u64,
            100,
            250,
            500,
            1000,
            2500,
            5000,
            10000,
            15000,
            20000,
            30000,
            45000,
            60000,
        ],
{
}

proof fn lemma_trips(s: Seq<Option<OutcomeView>>, bound: u64)
    ensures
        crate::tally::round_trips(s).len() == count(
            s.len() as int,
            |i: int| s[i] matches Some(Ok(_)),
        ),
        count(
            crate::tally::round_trips(s).len() as int,
            crate::histogram::low_values(crate::tally::round_trips(s), bound),
        ) == count(s.len() as int, |i: int| s[i] matches Some(Ok(r)) && r.rtt_ms <= bound),
    decreases s.len(),
{
    let n = s.len() as int;
    if n > 0 {
        let t = s.drop_last();
        lemma_trips(t, bound);
        lemma_select_same(
            n - 1,
            |i: int| s[i] matches Some(Ok(_)),
            |i: int| t[i] matches Some(Ok(_)),
        );
        lemma_select_same(
            n - 1,
            |i: int| s[i] matches Some(Ok(r)) && r.rtt_ms <= bound,
            |i: int| t[i] matches Some(Ok(r)) && r.rtt_ms <= bound,
        );
        let a = crate::tally::round_trips(t);
        let b = crate::tally::round_trips(s);
        lemma_select_same(
            a.len() as int,
            crate::histogram::low_values(a, bound),
            crate::histogram::low_values(b, bound),
        );
        if let Some(Ok(r)) = s.last() {
            assert(b[a.len() as int].num == r.rtt_ms && b[a.len() as int].den == 1000);
            assert(crate::histogram::low_values(b, bound)(a.len() as int) == (r.rtt_ms * 1000
                <= bound * 1000));
        }
    }
}

/// The round trips of all endpoints that answered are counted, each under the
/// bounds that it does not exceed.
pub proof fn round_trips_are_counted(
    c: Census,
    inputs: Inputs<'_>,
    tolerance: u64,
    keys: Seq<u64>,
    b: int,
)
    requires
        follows_chains(c, inputs, tolerance, keys),
        0 <= b < c.rtt_seconds.bounds.len(),
    ensures
        c.rtt_seconds.count == count(
            inputs.outcomes.len() as int,
            |x: int| inputs.outcomes[x] matches Some(Ok(_)),
        ),
        c.rtt_seconds.counts[b] == count(
            inputs.outcomes.len() as int,
            |x: int|
                inputs.outcomes[x] matches Some(Ok(r)) && r.rtt_ms <= c.rtt_seconds.bounds[b],
        ),
{
    lemma_trips(inputs.outcomes, c.rtt_seconds.bounds[b]);
    let n = inputs.outcomes.len() as int;
    lemma_select_same(
        n,
        |i: int| inputs.outcomes[i] matches Some(Ok(_)),
        |x: int| inputs.outcomes[x] matches Some(Ok(_)),
    );
    let bound = c.rtt_seconds.bounds[b];
    lemma_select_same(
        n,
        |i: int| inputs.outcomes[i] matches Some(Ok(r)) && r.rtt_ms <= bound,
        |x: int| inputs.outcomes[x] matches Some(Ok(r)) && r.rtt_ms <= c.rtt_seconds.bounds[b],
    );
}

/// Every pool counts in the reachability histogram, under the bounds that the
/// share of its relays that answered does not exceed; a pool without relays
/// counts as one of which none answered.
pub proof fn shares_of_answers_are_counted(c: Census, inputs: Inputs<'_>, b: int)
    requires
        inputs.wf(),
        weighs_pools(c, inputs),
        0 <= b < c.reachability.bounds.len(),
    ensures
        c.reachability.count == inputs.pools,
        c.reachability.counts[b] == count(
            inputs.pools as int,
            |p: int|
                crate::figures::answers_of(inputs, p) * 1000 <= c.reachability.bounds[b]
                    * crate::figures::relays_of(inputs, p) || crate::figures::relays_of(inputs, p)
                    == 0,
        ),
{
    let stats = inputs.stats();
    let n = stats.len() as int;
    let bound = c.reachability.bounds[b];
    let low = crate::histogram::low_values(c.reachability.observed@, bound);
    let raw = |p: int|
        crate::figures::answers_of(inputs, p) * 1000 <= c.reachability.bounds[b]
            * crate::figures::relays_of(inputs, p) || crate::figures::relays_of(inputs, p) == 0;
    assert forall|p: int| 0 <= p < n implies #[trigger] low(p) == raw(p) by {
        let m = inputs.entries.len() as int;
        assert(stats[p] == inputs.stat(p));
        crate::rows::lemma_pool_counts(inputs, p);
        crate::standing::lemma_ok_bounded(inputs, p);
        lemma_select(m, crate::standing::of_pool(inputs.entries, p));
        let f = stats[p].fraction;
        assert(c.reachability.observed@[p] == f);
        assert(low(p) == (f.num * 1000 <= bound * f.den));
        assert(inputs.ok(p) == crate::figures::answers_of(inputs, p));
        assert(inputs.total(p) == crate::figures::relays_of(inputs, p));
    }
    lemma_select_same(n, low, raw);
}

} // verus!
