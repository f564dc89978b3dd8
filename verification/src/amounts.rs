//! The amounts that the metrics show, as what they are to be worked out from.

use vstd::prelude::*;

use crate::census::{Census, Span};
use crate::chains::ChainGroup;
use crate::histogram::{Cumulative, Ratio};
use crate::networks::AsnGroup;
use crate::operators::{OutreachRow, PoolStat};
use crate::stake::{copy_sum, whole, Share};

verus! {

/// What an amount is worked out from.
#[derive(Clone, Debug)]
pub enum Amount {
    /// Sums of stake, each worked out by itself and then added up.
    Stake(Vec<Vec<Share>>),
    /// For each pool, its stake times the mean of the chances, 0 without any;
    /// all of them added up.
    Weighted(Vec<(usize, Vec<Ratio>)>),
    Fraction(Ratio),
    /// Fractions added up.
    Sum(Vec<Ratio>),
    /// Seconds.
    Time(Span),
}

pub enum AmountView {
    Stake(Seq<Seq<Share>>),
    Weighted(Seq<(usize, Seq<Ratio>)>),
    Fraction(Ratio),
    Sum(Seq<Ratio>),
    Time(Span),
}

/// What pools and their chances are.
pub open spec fn weights_of(v: Seq<(usize, Vec<Ratio>)>) -> Seq<(usize, Seq<Ratio>)> {
    Seq::new(v.len(), |i: int| (v[i].0, v[i].1@))
}

/// Sums, each by itself.
pub open spec fn sums_of(v: Seq<Vec<Share>>) -> Seq<Seq<Share>> {
    Seq::new(v.len(), |i: int| v[i]@)
}

impl DeepView for Amount {
    type V = AmountView;

    open spec fn deep_view(&self) -> AmountView {
        match *self {
            Amount::Stake(v) => AmountView::Stake(sums_of(v@)),
            Amount::Weighted(v) => AmountView::Weighted(weights_of(v@)),
            Amount::Fraction(r) => AmountView::Fraction(r),
            Amount::Sum(v) => AmountView::Sum(v@),
            Amount::Time(t) => AmountView::Time(t),
        }
    }
}

/// The amounts that the metrics show.
pub struct Amounts<T> {
    pub snapshot_stake: T,
    /// Per SRV name.
    pub srv_probability: Vec<T>,
    /// Per node-to-node version.
    pub version_stake: Vec<T>,
    /// Per reach.
    pub reach_stake: Vec<T>,
    pub reachable_stake: T,
    pub reversed_only_stake: T,
    pub reachable_with_reversed: T,
    pub relay_weighted_stake: T,
    /// Per bound, and of all.
    pub stake_within: Vec<T>,
    pub reachability_sum: T,
    pub rtt_sum: T,
    pub main_stake: T,
    pub other_stake: T,
    /// Per bound, and of all.
    pub stake_near_tip: Vec<T>,
    /// Per operator that is listed for outreach.
    pub outreach_stake: Vec<T>,
    /// Per autonomous system that is listed.
    pub asn_stake: Vec<T>,
    pub asn_stake_reachable: Vec<T>,
    pub scan_duration: T,
}

impl<T> Amounts<T> {
    /// Is there an amount for everything that `c` lists?
    pub open spec fn fits(&self, c: Census) -> bool {
        &&& self.srv_probability.len() == c.srv_sets.len()
        &&& self.version_stake.len() == c.n2n_versions.len()
        &&& self.reach_stake.len() == c.blp_by_reach.len()
        &&& self.stake_within.len() == c.stake_reachable_within.bounds.len() + 1
        &&& self.stake_near_tip.len() == c.stake_within_blocks_of_tip.bounds.len() + 1
        &&& self.outreach_stake.len() == c.top_pools.len()
        &&& self.asn_stake.len() == c.asn_metrics.len()
        &&& self.asn_stake_reachable.len() == c.asn_metrics.len()
    }
}

/// One sum of stake.
pub open spec fn one(sum: Seq<Share>) -> AmountView {
    AmountView::Stake(seq![sum])
}

/// The whole stake of the pools at `at`.
pub open spec fn wholes_at(at: Seq<usize>) -> Seq<Share> {
    Seq::new(at.len(), |i: int| whole(at[i] as int))
}

/// The stake in each bucket, and in all.
pub open spec fn buckets(c: Cumulative) -> Seq<AmountView> {
    Seq::new(c.values@.len(), |b: int| one(wholes_at(c.values@[b]@))).push(
        one(wholes_at(c.total@)),
    )
}

/// Which groups are the main one, or are not.
pub open spec fn on_main(groups: Seq<ChainGroup>, main: bool) -> spec_fn(int) -> bool {
    |i: int| groups[i].main == main
}

/// The stake of the main group, or of all others.
pub open spec fn chain_stake(groups: Seq<ChainGroup>, main: bool) -> AmountView {
    let at = crate::count::select(groups.len() as int, on_main(groups, main));
    AmountView::Stake(Seq::new(at.len(), |i: int| groups[at[i]].stake@))
}

/// The pools and the chances of their relays.
pub open spec fn weighed(pools: Seq<PoolStat>) -> Seq<(usize, Seq<Ratio>)> {
    Seq::new(pools.len(), |p: int| (pools[p].index, pools[p].chances@))
}

/// Are these the amounts to be shown of `c`?
pub open spec fn shows(a: Amounts<Amount>, c: Census) -> bool {
    let partial = c.blp_by_reach[1].1.stake@;
    let full = c.blp_by_reach[2].1.stake@;
    &&& a.snapshot_stake.deep_view() == one(c.snapshot_stake@)
    &&& a.srv_probability.deep_view() == Seq::new(
        c.srv_sets@.len(),
        |i: int| AmountView::Fraction(c.srv_sets@[i].1.reach_probability),
    )
    &&& a.version_stake.deep_view() == Seq::new(
        c.n2n_versions@.len(),
        |i: int| one(c.n2n_versions@[i].1.stake@),
    )
    &&& a.reach_stake.deep_view() == Seq::new(
        c.blp_by_reach@.len(),
        |i: int| one(c.blp_by_reach@[i].1.stake@),
    )
    &&& a.reachable_stake.deep_view() == AmountView::Stake(seq![partial, full])
    &&& a.reversed_only_stake.deep_view() == one(c.ipv4.stake_reversed_only@)
    &&& a.reachable_with_reversed.deep_view() == AmountView::Stake(
        seq![partial, full, c.ipv4.stake_reversed_only@],
    )
    &&& a.relay_weighted_stake.deep_view() == AmountView::Weighted(weighed(c.pools@))
    &&& a.stake_within.deep_view() == buckets(c.stake_reachable_within)
    &&& a.reachability_sum.deep_view() == AmountView::Sum(c.reachability.observed@)
    &&& a.rtt_sum.deep_view() == AmountView::Sum(c.rtt_seconds.observed@)
    &&& a.main_stake.deep_view() == chain_stake(c.chains@, true)
    &&& a.other_stake.deep_view() == chain_stake(c.chains@, false)
    &&& a.stake_near_tip.deep_view() == buckets(c.stake_within_blocks_of_tip)
    &&& a.outreach_stake.deep_view() == Seq::new(
        c.top_pools@.len(),
        |i: int| one(c.top_pools@[i].stake@),
    )
    &&& a.asn_stake.deep_view() == Seq::new(
        c.asn_metrics@.len(),
        |i: int| one(c.asn_metrics@[i].stake@),
    )
    &&& a.asn_stake_reachable.deep_view() == Seq::new(
        c.asn_metrics@.len(),
        |i: int| one(c.asn_metrics@[i].stake_reachable@),
    )
    &&& a.scan_duration.deep_view() == AmountView::Time(c.scan_duration)
}

/// One sum of stake.
fn one_sum(sum: &[Share]) -> (a: Amount)
    ensures
        a.deep_view() == one(sum@),
{
    let mut v: Vec<Vec<Share>> = Vec::new();
    v.push(copy_sum(sum));
    assert(sums_of(v@) =~= seq![sum@]);
    Amount::Stake(v)
}

/// A copy of fractions.
fn copy_ratios(s: &[Ratio]) -> (v: Vec<Ratio>)
    ensures
        v@ == s@,
{
    let mut v: Vec<Ratio> = Vec::new();
    let mut i: usize = 0;
    while i < s.len()
        invariant
            i <= s.len(),
            v@ == s@.take(i as int),
        decreases s.len() - i,
    {
        v.push(s[i]);
        i += 1;
    }
    v
}

/// The whole stake of the pools at `at`.
fn sum_wholes(at: &[usize]) -> (a: Amount)
    ensures
        a.deep_view() == one(wholes_at(at@)),
{
    let mut sum: Vec<Share> = Vec::new();
    let mut i: usize = 0;
    while i < at.len()
        invariant
            i <= at.len(),
            sum.len() == i,
            forall|j: int| 0 <= j < i ==> (#[trigger] sum[j]) == whole(at[j] as int),
        decreases at.len() - i,
    {
        sum.push(Share { pool: at[i], parts: 1 });
        i += 1;
    }
    assert(sum@ =~= wholes_at(at@));
    one_sum(sum.as_slice())
}

/// The stake in each bucket, and in all.
fn fill_buckets(c: &Cumulative) -> (v: Vec<Amount>)
    ensures
        v.deep_view() == buckets(*c),
{
    let mut v: Vec<Amount> = Vec::new();
    let mut b: usize = 0;
    while b < c.values.len()
        invariant
            b <= c.values.len(),
            v.len() == b,
            forall|k: int|
                0 <= k < b ==> (#[trigger] v[k]).deep_view() == one(wholes_at(c.values@[k]@)),
        decreases c.values.len() - b,
    {
        v.push(sum_wholes(c.values[b].as_slice()));
        b += 1;
    }
    v.push(sum_wholes(c.total.as_slice()));
    assert(v.deep_view() =~= buckets(*c));
    v
}

/// The stake of the main group, or of all others.
fn sum_chains(groups: &[ChainGroup], main: bool) -> (a: Amount)
    ensures
        a.deep_view() == chain_stake(groups@, main),
{
    let ghost f = on_main(groups@, main);
    let mut v: Vec<Vec<Share>> = Vec::new();
    let mut i: usize = 0;
    while i < groups.len()
        invariant
            i <= groups.len(),
            f == on_main(groups@, main),
            v.len() == crate::count::select(i as int, f).len(),
            forall|j: int|
                0 <= j < v.len() ==> (#[trigger] v[j])@ == groups[crate::count::select(
                    i as int,
                    f,
                )[j]].stake@,
        decreases groups.len() - i,
    {
        if groups[i].main == main {
            v.push(copy_sum(groups[i].stake.as_slice()));
        }
        i += 1;
    }
    proof {
        let at = crate::count::select(groups.len() as int, f);
        assert(sums_of(v@) =~= Seq::new(at.len(), |i: int| groups@[at[i]].stake@));
    }
    Amount::Stake(v)
}

/// The pools and the chances of their relays.
fn weigh_pools(pools: &[PoolStat]) -> (a: Amount)
    ensures
        a.deep_view() == AmountView::Weighted(weighed(pools@)),
{
    let mut v: Vec<(usize, Vec<Ratio>)> = Vec::new();
    let mut p: usize = 0;
    while p < pools.len()
        invariant
            p <= pools.len(),
            v.len() == p,
            forall|q: int|
                0 <= q < p ==> (#[trigger] v[q]).0 == pools[q].index && v[q].1@
                    == pools[q].chances@,
        decreases pools.len() - p,
    {
        v.push((pools[p].index, copy_ratios(pools[p].chances.as_slice())));
        p += 1;
    }
    assert(weights_of(v@) =~= weighed(pools@));
    Amount::Weighted(v)
}

/// The sums of stake, each by itself and then all together.
fn add_up(a: &[Share], b: &[Share], c: Option<&Vec<Share>>) -> (r: Amount)
    ensures
        r.deep_view() == AmountView::Stake(
            match c {
                Some(c) => seq![a@, b@, c@],
                None => seq![a@, b@],
            },
        ),
{
    let mut v: Vec<Vec<Share>> = Vec::new();
    v.push(copy_sum(a));
    v.push(copy_sum(b));
    match c {
        Some(c) => {
            v.push(copy_sum(c.as_slice()));
            assert(sums_of(v@) =~= seq![a@, b@, c@]);
        },
        None => {
            assert(sums_of(v@) =~= seq![a@, b@]);
        },
    }
    Amount::Stake(v)
}

/// The stake of the operators.
fn sum_rows(rows: &[OutreachRow]) -> (v: Vec<Amount>)
    ensures
        v.deep_view() == Seq::new(rows@.len(), |i: int| one(rows@[i].stake@)),
{
    let mut v: Vec<Amount> = Vec::new();
    let mut i: usize = 0;
    while i < rows.len()
        invariant
            i <= rows.len(),
            v.len() == i,
            forall|j: int| 0 <= j < i ==> (#[trigger] v[j]).deep_view() == one(rows@[j].stake@),
        decreases rows.len() - i,
    {
        v.push(one_sum(rows[i].stake.as_slice()));
        i += 1;
    }
    assert(v.deep_view() =~= Seq::new(rows@.len(), |i: int| one(rows@[i].stake@)));
    v
}

/// The stake in the autonomous systems, and what of it answered.
fn sum_networks(groups: &[AsnGroup]) -> (r: (Vec<Amount>, Vec<Amount>))
    ensures
        r.0.deep_view() == Seq::new(groups@.len(), |i: int| one(groups@[i].stake@)),
        r.1.deep_view() == Seq::new(groups@.len(), |i: int| one(groups@[i].stake_reachable@)),
{
    let mut all: Vec<Amount> = Vec::new();
    let mut live: Vec<Amount> = Vec::new();
    let mut i: usize = 0;
    while i < groups.len()
        invariant
            i <= groups.len(),
            all.len() == i,
            live.len() == i,
            forall|j: int|
                0 <= j < i ==> (#[trigger] all[j]).deep_view() == one(groups@[j].stake@),
            forall|j: int|
                0 <= j < i ==> (#[trigger] live[j]).deep_view() == one(
                    groups@[j].stake_reachable@,
                ),
        decreases groups.len() - i,
    {
        all.push(one_sum(groups[i].stake.as_slice()));
        live.push(one_sum(groups[i].stake_reachable.as_slice()));
        i += 1;
    }
    assert(all.deep_view() =~= Seq::new(groups@.len(), |i: int| one(groups@[i].stake@)));
    assert(live.deep_view() =~= Seq::new(
        groups@.len(),
        |i: int| one(groups@[i].stake_reachable@),
    ));
    (all, live)
}

/// The amounts to be shown of a census.
pub fn amounts(c: &Census) -> (a: Amounts<Amount>)
    requires
        c.wf(),
    ensures
        shows(a, *c),
        a.fits(*c),
{
    let mut srv_probability: Vec<Amount> = Vec::new();
    let mut i: usize = 0;
    while i < c.srv_sets.len()
        invariant
            i <= c.srv_sets.len(),
            srv_probability.len() == i,
            forall|j: int|
                0 <= j < i ==> (#[trigger] srv_probability[j]).deep_view()
                    == AmountView::Fraction(c.srv_sets@[j].1.reach_probability),
        decreases c.srv_sets.len() - i,
    {
        srv_probability.push(Amount::Fraction(c.srv_sets[i].1.reach_probability));
        i += 1;
    }
    let mut version_stake: Vec<Amount> = Vec::new();
    i = 0;
    while i < c.n2n_versions.len()
        invariant
            i <= c.n2n_versions.len(),
            version_stake.len() == i,
            forall|j: int|
                0 <= j < i ==> (#[trigger] version_stake[j]).deep_view() == one(
                    c.n2n_versions@[j].1.stake@,
                ),
        decreases c.n2n_versions.len() - i,
    {
        version_stake.push(one_sum(c.n2n_versions[i].1.stake.as_slice()));
        i += 1;
    }
    let mut reach_stake: Vec<Amount> = Vec::new();
    i = 0;
    while i < c.blp_by_reach.len()
        invariant
            i <= c.blp_by_reach.len(),
            reach_stake.len() == i,
            forall|j: int|
                0 <= j < i ==> (#[trigger] reach_stake[j]).deep_view() == one(
                    c.blp_by_reach@[j].1.stake@,
                ),
        decreases c.blp_by_reach.len() - i,
    {
        reach_stake.push(one_sum(c.blp_by_reach[i].1.stake.as_slice()));
        i += 1;
    }
    let partial = c.blp_by_reach[1].1.stake.as_slice();
    let full = c.blp_by_reach[2].1.stake.as_slice();
    let reversed = &c.ipv4.stake_reversed_only;
    let (asn_stake, asn_stake_reachable) = sum_networks(c.asn_metrics.as_slice());
    let a = Amounts {
        snapshot_stake: one_sum(c.snapshot_stake.as_slice()),
        srv_probability,
        version_stake,
        reach_stake,
        reachable_stake: add_up(partial, full, None),
        reversed_only_stake: one_sum(reversed.as_slice()),
        reachable_with_reversed: add_up(partial, full, Some(reversed)),
        relay_weighted_stake: weigh_pools(c.pools.as_slice()),
        stake_within: fill_buckets(&c.stake_reachable_within),
        reachability_sum: Amount::Sum(copy_ratios(c.reachability.observed.as_slice())),
        rtt_sum: Amount::Sum(copy_ratios(c.rtt_seconds.observed.as_slice())),
        main_stake: sum_chains(c.chains.as_slice(), true),
        other_stake: sum_chains(c.chains.as_slice(), false),
        stake_near_tip: fill_buckets(&c.stake_within_blocks_of_tip),
        outreach_stake: sum_rows(c.top_pools.as_slice()),
        asn_stake,
        asn_stake_reachable,
        scan_duration: Amount::Time(c.scan_duration),
    };
    proof {
        assert(a.srv_probability.deep_view() =~= Seq::new(
            c.srv_sets@.len(),
            |i: int| AmountView::Fraction(c.srv_sets@[i].1.reach_probability),
        ));
        assert(a.version_stake.deep_view() =~= Seq::new(
            c.n2n_versions@.len(),
            |i: int| one(c.n2n_versions@[i].1.stake@),
        ));
        assert(a.reach_stake.deep_view() =~= Seq::new(
            c.blp_by_reach@.len(),
            |i: int| one(c.blp_by_reach@[i].1.stake@),
        ));
        assert(a.stake_within.deep_view().len() == a.stake_within.len());
        assert(a.stake_near_tip.deep_view().len() == a.stake_near_tip.len());
        assert(a.outreach_stake.deep_view().len() == a.outreach_stake.len());
        assert(a.asn_stake.deep_view().len() == a.asn_stake.len());
        assert(a.asn_stake_reachable.deep_view().len() == a.asn_stake_reachable.len());
    }
    a
}

} // verus!
