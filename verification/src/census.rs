//! The census: everything that is reported of one run.

use vstd::prelude::*;

use crate::asn::{AsInfo, AsnDb};
use crate::chains::{chain_groups, settle, ChainGroup, EntryTip};
use crate::churn::{diff, Change, Churn, Previous};
use crate::histogram::{
    places, Cumulative, Histogram, Ratio, LAG_BOUNDS, REACHABILITY_BOUNDS, RTT_BOUNDS,
    WITHIN_BOUNDS,
};
use crate::networks::{asn_groups, AsnGroup};
use crate::operators::{operators, outreach, thin, OutreachRow, PoolStat, PoolStatView, Reach};
use crate::outcomes::{best_outcomes, endpoints_by_entry, reach_probabilities, reached};
use crate::pools::PoolIndex;
use crate::probe::{outcome, outcomes_of, Family, Outcome, OutcomeView, Stage};
use crate::reasons::{entry_reasons, CONNECT_REASONS};
use crate::resolve::{Endpoint, EndpointView, Entry, EntryView};
use crate::reversed::Shadow;
use crate::snapshot::Snapshot;
use crate::stake::{terms, whole, Share};
use crate::standing::{answers, entries_by_pool, even_share, stand, Findings, Inputs};
use crate::table::distinct;
use crate::tally::{
    count_dialled, count_failed, count_family, count_not_connected, count_remembered, count_srv,
    survey_tips,
};

verus! {

/// Pools of one reach.
#[derive(Clone, Debug)]
pub struct ReachGroup {
    pub pools: u64,
    pub stake: Vec<Share>,
}

/// How many of one SRV name's top-priority targets answered.
#[derive(Clone, Debug)]
pub struct SrvSet {
    pub targets: u64,
    pub reachable: u64,
    /// Weight of the answering targets over the weight of all of them.
    pub reach_probability: Ratio,
}

/// Answering relay entries that negotiated one node-to-node protocol version,
/// with each entry carrying an equal share of its pool's stake.
#[derive(Clone, Debug)]
pub struct VersionGroup {
    pub relays: u64,
    pub stake: Vec<Share>,
}

/// IPv4 literal entries probed as given and at their octet reversal.
#[derive(Clone, Debug)]
pub struct Ipv4Reversal {
    pub relays: u64,
    pub reachable_given: u64,
    pub reachable_reversed: u64,
    /// Pools with no relay answering as given and one answering reversed.
    pub pools_reversed_only: u64,
    pub stake_reversed_only: Vec<Share>,
}

// IPv4 reversal.

/// Which entries were also probed with their octets reversed.
pub open spec fn tried_reversed(rev: Seq<Option<bool>>) -> spec_fn(int) -> bool {
    |i: int| rev[i] is Some
}

/// Which of those answered as given.
pub open spec fn answered_given(
    rev: Seq<Option<bool>>,
    best: Seq<Option<OutcomeView>>,
) -> spec_fn(int) -> bool {
    |i: int| rev[i] is Some && reached(best[i])
}

/// Which of those answered reversed.
pub open spec fn answered_reversed(rev: Seq<Option<bool>>) -> spec_fn(int) -> bool {
    |i: int| rev[i] == Some(true)
}

/// Which entries are the first of their pool to answer reversed, no relay of
/// the pool answering as given.
pub open spec fn saved_by_reversal(
    entries: Seq<EntryView>,
    rev: Seq<Option<bool>>,
    ok: Seq<usize>,
) -> spec_fn(int) -> bool {
    |i: int|
        {
            &&& rev[i] == Some(true)
            &&& ok[entries[i].pool as int] == 0
            &&& forall|j: int|
                0 <= j < i && (#[trigger] entries[j]).pool == entries[i].pool ==> rev[j] != Some(
                    true,
                )
        }
}

/// The whole stake of the pool of each entry.
pub open spec fn pool_wholes(entries: Seq<EntryView>) -> Seq<Share> {
    Seq::new(entries.len(), |i: int| whole(entries[i].pool as int))
}

/// What `ipv4_reversal` counts.
pub open spec fn counts_reversal(
    r: Ipv4Reversal,
    entries: Seq<EntryView>,
    best: Seq<Option<OutcomeView>>,
    rev: Seq<Option<bool>>,
    ok: Seq<usize>,
) -> bool {
    let n = entries.len() as int;
    let saved = crate::count::select(n, saved_by_reversal(entries, rev, ok));
    &&& r.relays == crate::count::count(n, tried_reversed(rev))
    &&& r.reachable_given == crate::count::count(n, answered_given(rev, best))
    &&& r.reachable_reversed == crate::count::count(n, answered_reversed(rev))
    &&& r.pools_reversed_only == saved.len()
    &&& r.stake_reversed_only@ == terms(pool_wholes(entries), saved)
}

/// Is a share of the pool `q` among `s`?
spec fn has_pool(s: Seq<Share>, q: usize) -> bool {
    exists|j: int| 0 <= j < s.len() && (#[trigger] s[j]).pool == q
}

/// Did one of the first `n` entries of the pool `q` answer reversed only?
spec fn was_saved(
    entries: Seq<EntryView>,
    rev: Seq<Option<bool>>,
    ok: Seq<usize>,
    q: usize,
    n: int,
) -> bool {
    ok[q as int] == 0 && exists|j: int|
        0 <= j < n && (#[trigger] entries[j]).pool == q && rev[j] == Some(true)
}

fn find_pool(shares: &[Share], pool: usize) -> (r: bool)
    ensures
        r == has_pool(shares@, pool),
{
    let mut j: usize = 0;
    while j < shares.len()
        invariant
            j <= shares.len(),
            forall|k: int| 0 <= k < j ==> (#[trigger] shares[k]).pool != pool,
        decreases shares.len() - j,
    {
        if shares[j].pool == pool {
            return true;
        }
        j += 1;
    }
    false
}

/// Count IPv4 literal entries answering as given and reversed, and the pools
/// that only the reversal reaches. `per_pool_ok` is the number of relays of
/// each pool that answered as given.
pub fn ipv4_reversal(
    entries: &[Entry],
    entry_outcome: &[Option<Outcome>],
    shadow: &Shadow,
    per_pool_ok: &[usize],
) -> (r: Ipv4Reversal)
    requires
        entry_outcome.len() >= entries.len(),
        shadow.reachable.len() >= entries.len(),
        forall|i: int| 0 <= i < entries.len() ==> (#[trigger] entries[i]).pool < per_pool_ok.len(),
    ensures
        counts_reversal(
            r,
            entries.deep_view(),
            outcomes_of(entry_outcome@),
            shadow.reachable@,
            per_pool_ok@,
        ),
{
    let ghost es = entries.deep_view();
    let ghost best = outcomes_of(entry_outcome@);
    let ghost rev = shadow.reachable@;
    let ghost ok = per_pool_ok@;
    let ghost p = saved_by_reversal(es, rev, ok);
    let mut relays: u64 = 0;
    let mut reachable_given: u64 = 0;
    let mut reachable_reversed: u64 = 0;
    let mut stake: Vec<Share> = Vec::new();
    let mut i: usize = 0;
    assert(stake@ =~= terms(pool_wholes(es), crate::count::select(0, p)));
    while i < entries.len()
        invariant
            i <= entries.len(),
            entry_outcome.len() >= entries.len(),
            shadow.reachable.len() >= entries.len(),
            forall|i: int|
                0 <= i < entries.len() ==> (#[trigger] entries[i]).pool < per_pool_ok.len(),
            es == entries.deep_view(),
            best == outcomes_of(entry_outcome@),
            rev == shadow.reachable@,
            ok == per_pool_ok@,
            p == saved_by_reversal(es, rev, ok),
            relays <= i,
            reachable_given <= i,
            reachable_reversed <= i,
            relays == crate::count::count(i as int, tried_reversed(rev)),
            reachable_given == crate::count::count(i as int, answered_given(rev, best)),
            reachable_reversed == crate::count::count(i as int, answered_reversed(rev)),
            stake@ == terms(pool_wholes(es), crate::count::select(i as int, p)),
            forall|q: usize| #[trigger]
                has_pool(stake@, q) == was_saved(es, rev, ok, q, i as int),
        decreases entries.len() - i,
    {
        assert(es[i as int] == entries[i as int].deep_view());
        assert(best[i as int] == match entry_outcome[i as int] {
            Some(o) => Some(outcome(o)),
            None => None,
        });
        let ghost before = stake@;
        let pool: usize = entries[i].pool;
        if let Some(reversed) = shadow.reachable[i] {
            relays += 1;
            if matches!(entry_outcome[i], Some(Ok(_))) {
                reachable_given += 1;
            }
            if reversed {
                reachable_reversed += 1;
                let fresh = per_pool_ok[pool] == 0 && !find_pool(stake.as_slice(), pool);
                proof {
                    assert(ok[pool as int] == per_pool_ok[pool as int]);
                    assert(has_pool(before, pool) == was_saved(es, rev, ok, pool, i as int));
                    assert(fresh == p(i as int));
                }
                if fresh {
                    stake.push(Share { pool, parts: 1 });
                    assert(stake@ =~= before.push(whole(pool as int)));
                }
            }
        }
        assert(stake@ =~= terms(pool_wholes(es), crate::count::select(i + 1, p)));
        assert forall|q: usize| #[trigger] has_pool(stake@, q) == was_saved(
            es,
            rev,
            ok,
            q,
            i + 1,
        ) by {
            assert(has_pool(before, q) == was_saved(es, rev, ok, q, i as int));
            if has_pool(before, q) {
                let j = choose|j: int| 0 <= j < before.len() && (#[trigger] before[j]).pool == q;
                assert(stake@[j].pool == q);
            }
            if has_pool(stake@, q) && !has_pool(before, q) {
                let j = choose|j: int| 0 <= j < stake@.len() && (#[trigger] stake@[j]).pool == q;
                if j < before.len() {
                    assert(before[j].pool == q);
                }
                assert(es[i as int].pool == q);
            }
            if was_saved(es, rev, ok, q, i + 1) && !was_saved(es, rev, ok, q, i as int) {
                assert(es[i as int].pool == q);
                assert(p(i as int));
                assert(stake@[before.len() as int].pool == q);
            }
        }
        i += 1;
    }
    Ipv4Reversal {
        relays,
        reachable_given,
        reachable_reversed,
        pools_reversed_only: stake.len() as u64,
        stake_reversed_only: stake,
    }
}

// Reach.

/// Which pools have the reach `r`.
pub open spec fn reaching(stats: Seq<PoolStatView>, r: Reach) -> spec_fn(int) -> bool {
    |p: int| stats[p].reach == r
}

/// The whole stake of each of the first `n` pools.
pub open spec fn wholes(n: nat) -> Seq<Share> {
    Seq::new(n, |p: int| whole(p))
}

/// Does `g` hold the pools of reach `r`?
pub open spec fn groups_reach(g: ReachGroup, stats: Seq<PoolStatView>, r: Reach) -> bool {
    let at = crate::count::select(stats.len() as int, reaching(stats, r));
    &&& g.pools == at.len()
    &&& g.stake@ == terms(wholes(stats.len()), at)
}

/// The pools of reach `r`, where `pools` are listed by their index.
fn group_reach(pools: &[PoolStat], r: Reach) -> (g: ReachGroup)
    ensures
        groups_reach(g, pools.deep_view(), r),
{
    let ghost stats = pools.deep_view();
    let mut stake: Vec<Share> = Vec::new();
    let mut p: usize = 0;
    assert(stake@ =~= terms(wholes(stats.len()), crate::count::select(0, reaching(stats, r))));
    while p < pools.len()
        invariant
            p <= pools.len(),
            stats == pools.deep_view(),
            stake@ == terms(
                wholes(stats.len()),
                crate::count::select(p as int, reaching(stats, r)),
            ),
        decreases pools.len() - p,
    {
        assert(stats[p as int].reach == pools[p as int].reach);
        if pools[p].reach == r {
            stake.push(Share { pool: p, parts: 1 });
        }
        assert(stake@ =~= terms(
            wholes(stats.len()),
            crate::count::select(p + 1, reaching(stats, r)),
        ));
        p += 1;
    }
    ReachGroup { pools: stake.len() as u64, stake }
}

// SRV sets.

/// Which entries are SRV records of the name `k`.
pub open spec fn srv_named(entries: Seq<EntryView>, k: Seq<char>) -> spec_fn(int) -> bool {
    |i: int| entries[i].port is None && entries[i].address == k
}

/// The names of the SRV entries, in their order.
pub open spec fn srv_names(entries: Seq<EntryView>) -> Seq<Seq<char>>
    decreases entries.len(),
{
    if entries.len() == 0 {
        Seq::empty()
    } else if entries.last().port is None {
        srv_names(entries.drop_last()).push(entries.last().address)
    } else {
        srv_names(entries.drop_last())
    }
}

/// Is an SRV entry, of the name `k` where one is given, listed at an endpoint?
pub open spec fn serves(entries: Seq<EntryView>, ep: EndpointView, k: Option<Seq<char>>) -> bool {
    exists|j: int|
        0 <= j < ep.entries.len() && {
            let e = entries[#[trigger] ep.entries[j] as int];
            e.port is None && (k matches Some(name) ==> e.address == name)
        }
}

/// Which endpoints are targets of the SRV name `k`, or of any.
pub open spec fn srv_targets(
    entries: Seq<EntryView>,
    endpoints: Seq<EndpointView>,
    k: Option<Seq<char>>,
) -> spec_fn(int) -> bool {
    |x: int| serves(entries, endpoints[x], k)
}

/// Which of those answered.
pub open spec fn srv_answers(
    entries: Seq<EntryView>,
    endpoints: Seq<EndpointView>,
    outcomes: Seq<Option<OutcomeView>>,
    k: Option<Seq<char>>,
) -> spec_fn(int) -> bool {
    |x: int| serves(entries, endpoints[x], k) && reached(outcomes[x])
}

/// Does `s` describe the SRV name `k`?
pub open spec fn describes_srv(
    s: SrvSet,
    entries: Seq<EntryView>,
    endpoints: Seq<EndpointView>,
    outcomes: Seq<Option<OutcomeView>>,
    chances: Seq<Ratio>,
    k: Seq<char>,
) -> bool {
    let n = endpoints.len() as int;
    &&& s.targets == crate::count::count(n, srv_targets(entries, endpoints, Some(k)))
    &&& s.reachable == crate::count::count(n, srv_answers(entries, endpoints, outcomes, Some(k)))
    &&& s.reach_probability == chances[crate::count::select(
        entries.len() as int,
        srv_named(entries, k),
    ).last()]
}

/// Is an SRV entry listed at `ep`, of the name `k` where one is given?
fn is_served(entries: &[Entry], ep: &Endpoint, k: Option<&String>) -> (r: bool)
    requires
        forall|j: int| 0 <= j < ep.entries.len() ==> (#[trigger] ep.entries[j]) < entries.len(),
    ensures
        r == serves(
            entries.deep_view(),
            ep.deep_view(),
            match k {
                Some(s) => Some(s@),
                None => None,
            },
        ),
{
    let ghost es = entries.deep_view();
    let ghost view = ep.deep_view();
    let ghost name = match k {
        Some(s) => Some(s@),
        None => None,
    };
    let mut j: usize = 0;
    while j < ep.entries.len()
        invariant
            j <= ep.entries.len(),
            es == entries.deep_view(),
            view == ep.deep_view(),
            name == match k {
                Some(s) => Some(s@),
                None => None,
            },
            forall|j: int| 0 <= j < ep.entries.len() ==> (#[trigger] ep.entries[j]) < entries.len(),
            forall|i: int|
                0 <= i < j ==> !{
                    let e = es[#[trigger] view.entries[i] as int];
                    e.port is None && (name matches Some(n) ==> e.address == n)
                },
        decreases ep.entries.len() - j,
    {
        let e: usize = ep.entries[j];
        assert(view.entries[j as int] == e);
        assert(es[e as int] == entries[e as int].deep_view());
        if entries[e].is_srv() {
            let hit = match k {
                Some(s) => entries[e].address == *s,
                None => true,
            };
            if hit {
                return true;
            }
        }
        j += 1;
    }
    false
}

/// How many endpoints are targets of the SRV name `k`, or of any, and how many
/// of those answered.
fn count_targets(
    entries: &[Entry],
    endpoints: &[Endpoint],
    outcomes: &[Option<Outcome>],
    k: Option<&String>,
) -> (r: (u64, u64))
    requires
        outcomes.len() >= endpoints.len(),
        crate::outcomes::lists_entries(endpoints.deep_view(), entries.len() as nat),
    ensures
        ({
            let name = match k {
                Some(s) => Some(s@),
                None => None,
            };
            let n = endpoints.len() as int;
            let es = entries.deep_view();
            let eps = endpoints.deep_view();
            &&& r.0 == crate::count::count(n, srv_targets(es, eps, name))
            &&& r.1 == crate::count::count(n, srv_answers(es, eps, outcomes_of(outcomes@), name))
        }),
{
    let ghost es = entries.deep_view();
    let ghost eps = endpoints.deep_view();
    let ghost outs = outcomes_of(outcomes@);
    let ghost name = match k {
        Some(s) => Some(s@),
        None => None,
    };
    let mut targets: u64 = 0;
    let mut answered: u64 = 0;
    let mut x: usize = 0;
    while x < endpoints.len()
        invariant
            x <= endpoints.len(),
            outcomes.len() >= endpoints.len(),
            es == entries.deep_view(),
            eps == endpoints.deep_view(),
            outs == outcomes_of(outcomes@),
            name == match k {
                Some(s) => Some(s@),
                None => None,
            },
            crate::outcomes::lists_entries(eps, entries.len() as nat),
            targets <= x,
            answered <= x,
            targets == crate::count::count(x as int, srv_targets(es, eps, name)),
            answered == crate::count::count(x as int, srv_answers(es, eps, outs, name)),
        decreases endpoints.len() - x,
    {
        assert(eps[x as int] == endpoints[x as int].deep_view());
        assert(outs[x as int] == match outcomes[x as int] {
            Some(o) => Some(outcome(o)),
            None => None,
        });
        assert forall|j: int| 0 <= j < endpoints[x as int].entries.len() implies (
        #[trigger] endpoints[x as int].entries[j]) < entries.len() by {
            assert(eps[x as int].entries[j] < entries.len());
        }
        if is_served(entries, &endpoints[x], k) {
            targets += 1;
            if matches!(outcomes[x], Some(Ok(_))) {
                answered += 1;
            }
        }
        x += 1;
    }
    (targets, answered)
}

proof fn lemma_srv_names(entries: Seq<EntryView>, k: Seq<char>)
    ensures
        srv_names(entries).contains(k) <==> crate::count::select(
            entries.len() as int,
            srv_named(entries, k),
        ).len() > 0,
    decreases entries.len(),
{
    if entries.len() > 0 {
        let t = entries.drop_last();
        let n = t.len() as int;
        lemma_srv_names(t, k);
        crate::count::lemma_select_same(n, srv_named(t, k), srv_named(entries, k));
        let front = srv_names(t);
        let all = srv_names(entries);
        if front.contains(k) {
            let i = choose|i: int| 0 <= i < front.len() && front[i] == k;
            assert(all[i] == k);
        }
        if all.contains(k) && !front.contains(k) {
            let i = choose|i: int| 0 <= i < all.len() && all[i] == k;
            if i < front.len() {
                assert(front[i] == k);
            }
        }
        if entries.last().port is None {
            assert(all[front.len() as int] == entries.last().address);
        }
    }
}

/// Every SRV name with its target count and how many answered. An entry counts
/// as reachable when any one target answers, so the health of its set shows
/// only here; names whose lookup failed get a row too.
fn srv_sets(
    entries: &[Entry],
    endpoints: &[Endpoint],
    outcomes: &[Option<Outcome>],
    chances: &[Ratio],
) -> (sets: Vec<(String, SrvSet)>)
    requires
        outcomes.len() >= endpoints.len(),
        chances.len() == entries.len(),
        crate::outcomes::lists_entries(endpoints.deep_view(), entries.len() as nat),
    ensures
        describes_srv_sets(
            sets@,
            entries.deep_view(),
            endpoints.deep_view(),
            outcomes_of(outcomes@),
            chances@,
        ),
{
    let ghost es = entries.deep_view();
    let mut names: Vec<String> = Vec::new();
    let mut i: usize = 0;
    assert(es.take(0) =~= Seq::empty());
    assert(names.deep_view() =~= Seq::<Seq<char>>::empty());
    while i < entries.len()
        invariant
            i <= entries.len(),
            es == entries.deep_view(),
            names.deep_view() == srv_names(es.take(i as int)),
        decreases entries.len() - i,
    {
        assert(es.take(i + 1).drop_last() =~= es.take(i as int));
        assert(es.take(i + 1).last() == entries[i as int].deep_view());
        if entries[i].is_srv() {
            let ghost front = names.deep_view();
            names.push(entries[i].address.clone());
            assert(names.deep_view() =~= front.push(entries[i as int].address@));
        }
        i += 1;
    }
    assert(es.take(i as int) =~= es);
    let names = distinct(names.as_slice());
    let ghost order = names.deep_view();
    proof {
        crate::table::distinct_names_are_those_held(srv_names(es));
    }
    let mut sets: Vec<(String, SrvSet)> = Vec::new();
    let mut k: usize = 0;
    while k < names.len()
        invariant
            k <= names.len(),
            outcomes.len() >= endpoints.len(),
            chances.len() == entries.len(),
            es == entries.deep_view(),
            order == names.deep_view(),
            crate::outcomes::lists_entries(endpoints.deep_view(), entries.len() as nat),
            forall|n: Seq<char>| order.contains(n) ==> #[trigger] srv_names(es).contains(n),
            sets.len() == k,
            forall|j: int|
                0 <= j < k ==> (#[trigger] sets[j]).0@ == order[j] && describes_srv(
                    sets[j].1,
                    es,
                    endpoints.deep_view(),
                    outcomes_of(outcomes@),
                    chances@,
                    order[j],
                ),
        decreases names.len() - k,
    {
        let ghost name = order[k as int];
        assert(name == names[k as int]@);
        let (targets, reachable) = count_targets(entries, endpoints, outcomes, Some(&names[k]));
        let mut last: usize = entries.len();
        let mut i: usize = 0;
        while i < entries.len()
            invariant
                i <= entries.len(),
                k < names.len(),
                es == entries.deep_view(),
                name == names[k as int]@,
                last < i || last == entries.len(),
                ({
                    let s = crate::count::select(i as int, srv_named(es, name));
                    if last < entries.len() {
                        s.len() > 0 && s.last() == last
                    } else {
                        s.len() == 0
                    }
                }),
            decreases entries.len() - i,
        {
            assert(es[i as int] == entries[i as int].deep_view());
            if entries[i].is_srv() && entries[i].address == names[k] {
                last = i;
            }
            i += 1;
        }
        proof {
            assert(order.contains(name));
            assert(srv_names(es).contains(name));
            lemma_srv_names(es, name);
        }
        sets.push(
            (names[k].clone(), SrvSet { targets, reachable, reach_probability: chances[last] }),
        );
        k += 1;
    }
    sets
}

/// Do `sets` describe every SRV name, by name?
pub open spec fn describes_srv_sets(
    sets: Seq<(String, SrvSet)>,
    entries: Seq<EntryView>,
    endpoints: Seq<EndpointView>,
    outcomes: Seq<Option<OutcomeView>>,
    chances: Seq<Ratio>,
) -> bool {
    let names = crate::table::distinct_names(srv_names(entries));
    &&& sets.len() == names.len()
    &&& forall|k: int|
        0 <= k < sets.len() ==> (#[trigger] sets[k]).0@ == names[k] && describes_srv(
            sets[k].1,
            entries,
            endpoints,
            outcomes,
            chances,
            names[k],
        )
}

// Protocol versions.

/// The versions that answering entries negotiated, in the entries' order.
pub open spec fn negotiated(best: Seq<Option<OutcomeView>>) -> Seq<Seq<char>>
    decreases best.len(),
{
    if best.len() == 0 {
        Seq::empty()
    } else {
        match best.last() {
            Some(Ok(r)) => negotiated(best.drop_last()).push(r.n2n_version),
            _ => negotiated(best.drop_last()),
        }
    }
}

/// Which entries negotiated the version `k`.
pub open spec fn speaks(best: Seq<Option<OutcomeView>>, k: Seq<char>) -> spec_fn(int) -> bool {
    |i: int| best[i] matches Some(Ok(r)) && r.n2n_version == k
}

/// Do `groups` hold the entries of every version, by version?
pub open spec fn groups_versions(
    groups: Seq<(String, VersionGroup)>,
    best: Seq<Option<OutcomeView>>,
    shares: Seq<Share>,
) -> bool {
    let names = crate::table::distinct_names(negotiated(best));
    &&& groups.len() == names.len()
    &&& forall|k: int|
        0 <= k < groups.len() ==> (#[trigger] groups[k]).0@ == names[k] && {
            let at = crate::count::select(best.len() as int, speaks(best, names[k]));
            groups[k].1.relays == at.len() && groups[k].1.stake@ == terms(shares, at)
        }
}

fn version_groups(entry_outcome: &[Option<Outcome>], shares: &[Share]) -> (groups: Vec<
    (String, VersionGroup),
>)
    requires
        shares.len() == entry_outcome.len(),
    ensures
        groups_versions(groups@, outcomes_of(entry_outcome@), shares@),
{
    let ghost best = outcomes_of(entry_outcome@);
    let mut names: Vec<String> = Vec::new();
    let mut i: usize = 0;
    assert(best.take(0) =~= Seq::empty());
    assert(names.deep_view() =~= Seq::<Seq<char>>::empty());
    while i < entry_outcome.len()
        invariant
            i <= entry_outcome.len(),
            best == outcomes_of(entry_outcome@),
            names.deep_view() == negotiated(best.take(i as int)),
        decreases entry_outcome.len() - i,
    {
        assert(best.take(i + 1).drop_last() =~= best.take(i as int));
        assert(best[i as int] == match entry_outcome[i as int] {
            Some(o) => Some(outcome(o)),
            None => None,
        });
        if let Some(Ok(r)) = &entry_outcome[i] {
            let ghost front = names.deep_view();
            names.push(r.n2n_version.clone());
            assert(names.deep_view() =~= front.push(r.n2n_version@));
        }
        i += 1;
    }
    assert(best.take(i as int) =~= best);
    let names = distinct(names.as_slice());
    let ghost order = names.deep_view();
    let mut groups: Vec<(String, VersionGroup)> = Vec::new();
    let mut k: usize = 0;
    while k < names.len()
        invariant
            k <= names.len(),
            shares.len() == entry_outcome.len(),
            best == outcomes_of(entry_outcome@),
            order == names.deep_view(),
            groups.len() == k,
            forall|j: int|
                0 <= j < k ==> (#[trigger] groups[j]).0@ == order[j] && {
                    let at = crate::count::select(best.len() as int, speaks(best, order[j]));
                    groups[j].1.relays == at.len() && groups[j].1.stake@ == terms(shares@, at)
                },
        decreases names.len() - k,
    {
        let ghost name = order[k as int];
        assert(name == names[k as int]@);
        let mut stake: Vec<Share> = Vec::new();
        let mut i: usize = 0;
        assert(stake@ =~= terms(shares@, crate::count::select(0, speaks(best, name))));
        while i < entry_outcome.len()
            invariant
                i <= entry_outcome.len(),
                k < names.len(),
                shares.len() == entry_outcome.len(),
                best == outcomes_of(entry_outcome@),
                name == names[k as int]@,
                stake@ == terms(shares@, crate::count::select(i as int, speaks(best, name))),
            decreases entry_outcome.len() - i,
        {
            assert(best[i as int] == match entry_outcome[i as int] {
                Some(o) => Some(outcome(o)),
                None => None,
            });
            if let Some(Ok(r)) = &entry_outcome[i] {
                if r.n2n_version == names[k] {
                    stake.push(shares[i]);
                }
            }
            assert(stake@ =~= terms(
                shares@,
                crate::count::select(i + 1, speaks(best, name)),
            ));
            i += 1;
        }
        groups.push(
            (names[k].clone(), VersionGroup { relays: stake.len() as u64, stake }),
        );
        k += 1;
    }
    groups
}

// Times and lags.

/// The round trip of each answering entry, in thousandths of a second.
pub open spec fn entry_times(best: Seq<Option<OutcomeView>>) -> Seq<Option<Ratio>> {
    Seq::new(
        best.len(),
        |i: int|
            match best[i] {
                Some(Ok(r)) => Some(Ratio { num: r.rtt_ms, den: 1000 }),
                _ => None,
            },
    )
}

/// The shortest round trip to each pool, in thousandths of a second.
pub open spec fn pool_times(stats: Seq<PoolStatView>) -> Seq<Option<Ratio>> {
    Seq::new(
        stats.len(),
        |p: int|
            match stats[p].fastest_rtt_ms {
                Some(ms) => Some(Ratio { num: ms, den: 1000 }),
                None => None,
            },
    )
}

/// How many blocks each tip is behind.
pub open spec fn entry_lags(tips: Seq<Option<EntryTip>>) -> Seq<Option<Ratio>> {
    Seq::new(
        tips.len(),
        |i: int|
            match tips[i] {
                Some(t) => Some(Ratio { num: t.lag_blocks, den: 1 }),
                None => None,
            },
    )
}

/// The least lag of the entries `at`; none when none answered.
pub open spec fn least_lag(tips: Seq<Option<EntryTip>>, at: Seq<int>) -> Option<u64>
    decreases at.len(),
{
    if at.len() == 0 {
        None
    } else {
        let front = least_lag(tips, at.drop_last());
        match tips[at.last()] {
            Some(t) => match front {
                Some(lag) => Some(
                    if t.lag_blocks < lag {
                        t.lag_blocks
                    } else {
                        lag
                    },
                ),
                None => Some(t.lag_blocks),
            },
            None => front,
        }
    }
}

/// How many blocks the most current relay of each pool is behind.
pub open spec fn pool_lags(tips: Seq<Option<EntryTip>>, inputs: Inputs<'_>) -> Seq<Option<Ratio>> {
    Seq::new(
        inputs.pools,
        |p: int|
            match least_lag(tips, inputs.own(p)) {
                Some(lag) => Some(Ratio { num: lag, den: 1 }),
                None => None,
            },
    )
}

fn times(entry_outcome: &[Option<Outcome>]) -> (v: Vec<Option<Ratio>>)
    ensures
        v@ == entry_times(outcomes_of(entry_outcome@)),
{
    let ghost best = outcomes_of(entry_outcome@);
    let mut v: Vec<Option<Ratio>> = Vec::new();
    let mut i: usize = 0;
    while i < entry_outcome.len()
        invariant
            i <= entry_outcome.len(),
            best == outcomes_of(entry_outcome@),
            v.len() == i,
            forall|j: int| 0 <= j < i ==> v[j] == #[trigger] entry_times(best)[j],
        decreases entry_outcome.len() - i,
    {
        assert(best[i as int] == match entry_outcome[i as int] {
            Some(o) => Some(outcome(o)),
            None => None,
        });
        let x = match &entry_outcome[i] {
            Some(Ok(r)) => Some(Ratio { num: r.rtt_ms, den: 1000 }),
            _ => None,
        };
        v.push(x);
        i += 1;
    }
    assert(v@ =~= entry_times(best));
    v
}

fn best_times(pools: &[PoolStat]) -> (v: Vec<Option<Ratio>>)
    ensures
        v@ == pool_times(pools.deep_view()),
{
    let ghost stats = pools.deep_view();
    let mut v: Vec<Option<Ratio>> = Vec::new();
    let mut p: usize = 0;
    while p < pools.len()
        invariant
            p <= pools.len(),
            stats == pools.deep_view(),
            v.len() == p,
            forall|j: int| 0 <= j < p ==> v[j] == #[trigger] pool_times(stats)[j],
        decreases pools.len() - p,
    {
        assert(stats[p as int].fastest_rtt_ms == pools[p as int].fastest_rtt_ms);
        let x = match pools[p].fastest_rtt_ms {
            Some(ms) => Some(Ratio { num: ms, den: 1000 }),
            None => None,
        };
        v.push(x);
        p += 1;
    }
    assert(v@ =~= pool_times(stats));
    v
}

fn fractions(pools: &[PoolStat]) -> (v: Vec<Ratio>)
    ensures
        v@ == Seq::new(pools.deep_view().len(), |p: int| pools.deep_view()[p].fraction),
{
    let ghost stats = pools.deep_view();
    let mut v: Vec<Ratio> = Vec::new();
    let mut p: usize = 0;
    while p < pools.len()
        invariant
            p <= pools.len(),
            stats == pools.deep_view(),
            v.len() == p,
            forall|j: int| 0 <= j < p ==> v[j] == (#[trigger] stats[j]).fraction,
        decreases pools.len() - p,
    {
        assert(stats[p as int].fraction == pools[p as int].fraction);
        v.push(pools[p].fraction);
        p += 1;
    }
    assert(v@ =~= Seq::new(stats.len(), |p: int| stats[p].fraction));
    v
}

fn lags(tips: &[Option<EntryTip>]) -> (v: Vec<Option<Ratio>>)
    ensures
        v@ == entry_lags(tips@),
{
    let mut v: Vec<Option<Ratio>> = Vec::new();
    let mut i: usize = 0;
    while i < tips.len()
        invariant
            i <= tips.len(),
            v.len() == i,
            forall|j: int| 0 <= j < i ==> v[j] == #[trigger] entry_lags(tips@)[j],
        decreases tips.len() - i,
    {
        let x = match tips[i] {
            Some(t) => Some(Ratio { num: t.lag_blocks, den: 1 }),
            None => None,
        };
        v.push(x);
        i += 1;
    }
    assert(v@ =~= entry_lags(tips@));
    v
}

fn best_lag(tips: &[Option<EntryTip>], at: &[usize]) -> (r: Option<u64>)
    requires
        forall|j: int| 0 <= j < at.len() ==> (#[trigger] at[j]) < tips.len(),
    ensures
        r == least_lag(tips@, places(at@)),
{
    let ghost all = places(at@);
    let mut least: Option<u64> = None;
    let mut j: usize = 0;
    assert(all.take(0) =~= Seq::<int>::empty());
    while j < at.len()
        invariant
            j <= at.len(),
            all == places(at@),
            forall|j: int| 0 <= j < at.len() ==> (#[trigger] at[j]) < tips.len(),
            least == least_lag(tips@, all.take(j as int)),
        decreases at.len() - j,
    {
        assert(all.take(j + 1).drop_last() =~= all.take(j as int));
        assert(all.take(j + 1).last() == at[j as int]);
        if let Some(t) = tips[at[j]] {
            least = match least {
                Some(lag) => Some(
                    if t.lag_blocks < lag {
                        t.lag_blocks
                    } else {
                        lag
                    },
                ),
                None => Some(t.lag_blocks),
            };
        }
        j += 1;
    }
    assert(all.take(j as int) =~= all);
    least
}

fn best_lags(tips: &[Option<EntryTip>], own: &[Vec<usize>], Ghost(inputs): Ghost<Inputs<'_>>) -> (v:
    Vec<Option<Ratio>>)
    requires
        own.len() == inputs.pools,
        tips.len() == inputs.entries.len(),
        forall|p: int| 0 <= p < own.len() ==> places((#[trigger] own[p])@) == inputs.own(p),
    ensures
        v@ == pool_lags(tips@, inputs),
{
    let mut v: Vec<Option<Ratio>> = Vec::new();
    let mut p: usize = 0;
    while p < own.len()
        invariant
            p <= own.len(),
            own.len() == inputs.pools,
            tips.len() == inputs.entries.len(),
            forall|p: int| 0 <= p < own.len() ==> places((#[trigger] own[p])@) == inputs.own(p),
            v.len() == p,
            forall|j: int| 0 <= j < p ==> v[j] == #[trigger] pool_lags(tips@, inputs)[j],
        decreases own.len() - p,
    {
        let at = own[p].as_slice();
        proof {
            assert(places(at@) == inputs.own(p as int));
            crate::count::lemma_select(
                inputs.entries.len() as int,
                crate::standing::of_pool(inputs.entries, p as int),
            );
            assert forall|j: int| 0 <= j < at.len() implies (#[trigger] at[j]) < tips.len() by {
                assert(places(at@)[j] == at[j]);
            }
        }
        let x = match best_lag(tips, at) {
            Some(lag) => Some(Ratio { num: lag, den: 1 }),
            None => None,
        };
        v.push(x);
        p += 1;
    }
    assert(v@ =~= pool_lags(tips@, inputs));
    v
}

/// The hashes that outcomes report at the block `top`, in their order.
pub open spec fn hashes_at(outcomes: Seq<Option<OutcomeView>>, top: u64) -> Seq<Seq<char>>
    decreases outcomes.len(),
{
    if outcomes.len() == 0 {
        Seq::empty()
    } else {
        match outcomes.last() {
            Some(Ok(r)) => if r.tip.block == top {
                hashes_at(outcomes.drop_last(), top).push(r.tip.hash)
            } else {
                hashes_at(outcomes.drop_last(), top)
            },
            _ => hashes_at(outcomes.drop_last(), top),
        }
    }
}

/// How many distinct hashes outcomes report at the block `top`.
fn count_hashes(outcomes: &[Option<Outcome>], top: u64) -> (n: u64)
    ensures
        n == crate::table::distinct_names(hashes_at(outcomes_of(outcomes@), top)).len(),
{
    let ghost all = outcomes_of(outcomes@);
    let mut v: Vec<String> = Vec::new();
    let mut i: usize = 0;
    assert(all.take(0) =~= Seq::empty());
    assert(v.deep_view() =~= Seq::<Seq<char>>::empty());
    while i < outcomes.len()
        invariant
            i <= outcomes.len(),
            all == outcomes_of(outcomes@),
            v.deep_view() == hashes_at(all.take(i as int), top),
        decreases outcomes.len() - i,
    {
        assert(all.take(i + 1).drop_last() =~= all.take(i as int));
        assert(all[i as int] == match outcomes[i as int] {
            Some(o) => Some(outcome(o)),
            None => None,
        });
        if let Some(Ok(r)) = &outcomes[i] {
            if r.tip.block == top {
                let ghost front = v.deep_view();
                v.push(r.tip.hash.clone());
                assert(v.deep_view() =~= front.push(r.tip.hash@));
            }
        }
        i += 1;
    }
    assert(all.take(i as int) =~= all);
    let names = distinct(v.as_slice());
    assert(names.deep_view().len() == names.len());
    names.len() as u64
}

// Shares.

/// Each pool's stake split evenly over the entries that `per_pool` counts.
fn split_stake(entries: &[Entry], per_pool: &[usize]) -> (v: Vec<Share>)
    requires
        forall|i: int| 0 <= i < entries.len() ==> (#[trigger] entries[i]).pool < per_pool.len(),
    ensures
        v@ == Seq::new(
            entries.len() as nat,
            |i: int| even_share(entries[i].pool, per_pool[entries[i].pool as int] as nat),
        ),
{
    let mut v: Vec<Share> = Vec::new();
    let mut i: usize = 0;
    while i < entries.len()
        invariant
            i <= entries.len(),
            forall|i: int|
                0 <= i < entries.len() ==> (#[trigger] entries[i]).pool < per_pool.len(),
            v.len() == i,
            forall|j: int|
                0 <= j < i ==> v[j] == even_share(
                    (#[trigger] entries[j]).pool,
                    per_pool[entries[j].pool as int] as nat,
                ),
        decreases entries.len() - i,
    {
        let pool: usize = entries[i].pool;
        let n: usize = per_pool[pool];
        let parts: u64 = if n == 0 {
            1
        } else {
            n as u64
        };
        v.push(Share { pool, parts });
        i += 1;
    }
    assert(v@ =~= Seq::new(
        entries.len() as nat,
        |i: int| even_share(entries[i].pool, per_pool[entries[i].pool as int] as nat),
    ));
    v
}

// The census.

/// A span of time.
#[derive(Clone, Copy, Debug, PartialEq, Eq, Structural)]
pub struct Span {
    pub secs: u64,
    pub nanos: u32,
}

/// What is reported of one run. Stake is given by the terms of its sums.
pub struct Census {
    pub snapshot_source: String,
    pub network_magic: u64,
    pub node_to_client_version: u64,
    pub snapshot_slot: u64,
    pub snapshot_hash: String,

    pub blp_total: u64,
    pub snapshot_stake: Vec<Share>,

    pub relays_total: u64,
    pub relays_srv: u64,
    /// Per SRV name, its target count and how many answered.
    pub srv_sets: Vec<(String, SrvSet)>,
    /// Distinct endpoints that are SRV targets, and how many answered.
    pub srv_endpoints_total: u64,
    pub srv_endpoints_reachable: u64,
    pub endpoints_total: u64,
    pub endpoints_probed: u64,
    /// Endpoints known only from earlier runs' lookups of the same name.
    pub endpoints_remembered: u64,
    pub relays_reachable_v4: u64,
    pub relays_reachable_v6: u64,
    pub relays_failed: Vec<(Stage, u64)>,
    /// Connect-stage failures by what the socket reported.
    pub relays_failed_connect: Vec<(&'static str, u64)>,
    /// Answering entries by negotiated node-to-node version.
    pub n2n_versions: Vec<(String, VersionGroup)>,
    pub ipv4: Ipv4Reversal,
    /// Changes since the previous report, when one was readable.
    pub churn: Option<Churn>,

    pub blp_by_reach: Vec<(Reach, ReachGroup)>,
    pub reachability: Histogram,
    pub rtt_seconds: Histogram,
    /// Items are entries.
    pub relays_reachable_within: Cumulative,
    /// Items are pools.
    pub stake_reachable_within: Cumulative,

    pub tip_block_max: u64,
    pub tip_slot_max: u64,
    /// Distinct hashes reported at the highest block.
    pub tips_at_max_block: u64,
    pub fork_tolerance: u64,
    pub chains: Vec<ChainGroup>,
    /// Items are entries.
    pub relays_within_blocks_of_tip: Cumulative,
    /// Items are pools.
    pub stake_within_blocks_of_tip: Cumulative,

    /// Pools the index named, 0 when no index was given.
    pub pools_indexed: u64,
    pub top_pools_limit: u64,

    /// Ranges in the AS database, 0 when none was loaded.
    pub asn_db_ranges: u64,
    pub asn_min_relays: u64,
    /// Every AS seen, most relays first.
    pub asn_table: Vec<AsnGroup>,

    pub scan_duration: Span,
    pub timestamp_seconds: u64,

    pub pools: Vec<PoolStat>,
    /// The operators with the most stake among pools not fully reachable,
    /// for the outreach series; at most `top_pools_limit` of them.
    pub top_pools: Vec<OutreachRow>,
    /// Operators running the most pools per distinct relay endpoint, at most
    /// `top_pools_limit` of them, reachable or not.
    pub thin_operators: Vec<OutreachRow>,
    pub entry_tips: Vec<Option<EntryTip>>,
    /// Per entry, how its state changed since the previous report.
    pub entry_change: Vec<Option<Change>>,
    /// The AS table with small ASes folded into `other`, for the metrics.
    pub asn_metrics: Vec<AsnGroup>,
    pub entry_asn: Vec<Option<AsInfo>>,
    /// Per entry, the chance a node using it reaches a working relay: 0 or 1
    /// for a plain relay, weight-based for an SRV record.
    pub entry_probability: Vec<Ratio>,
}

impl Census {
    /// Are the failures listed by every stage, the pools by every reach, and
    /// is there a bucket for every bound?
    pub open spec fn wf(&self) -> bool {
        &&& self.relays_failed.len() == Stage::ALL@.len()
        &&& forall|k: int|
            0 <= k < Stage::ALL@.len() ==> (#[trigger] self.relays_failed[k]).0 == Stage::ALL@[k]
        &&& self.blp_by_reach.len() == Reach::ALL@.len()
        &&& forall|k: int|
            0 <= k < Reach::ALL@.len() ==> (#[trigger] self.blp_by_reach[k]).0 == Reach::ALL@[k]
        &&& self.reachability.wf()
        &&& self.rtt_seconds.wf()
        &&& self.relays_reachable_within.values.len()
            == self.relays_reachable_within.bounds.len()
        &&& self.stake_reachable_within.values.len() == self.stake_reachable_within.bounds.len()
        &&& self.relays_within_blocks_of_tip.values.len()
            == self.relays_within_blocks_of_tip.bounds.len()
        &&& self.stake_within_blocks_of_tip.values.len()
            == self.stake_within_blocks_of_tip.bounds.len()
    }
}

/// Does `c` say where the census was taken from?
pub open spec fn says_source<S>(c: Census, source: Seq<char>, snap: Snapshot<S>) -> bool {
    &&& c.snapshot_source@ == source
    &&& c.network_magic == snap.network_magic
    &&& c.node_to_client_version == snap.node_to_client_version
    &&& c.snapshot_slot == snap.point.block_point_slot
    &&& c.snapshot_hash@ == snap.point.block_point_hash@
    &&& c.blp_total == snap.pools.len()
    &&& c.snapshot_stake@ == wholes(snap.pools.len() as nat)
}

/// Are the failures of `best` listed by stage?
pub open spec fn lists_stages(v: Seq<(Stage, u64)>, best: Seq<Option<OutcomeView>>) -> bool {
    &&& v.len() == Stage::ALL@.len()
    &&& forall|k: int|
        0 <= k < v.len() ==> (#[trigger] v[k]).0 == Stage::ALL@[k] && v[k].1
            == crate::count::count(
            best.len() as int,
            crate::tally::failed_at(best, Stage::ALL@[k]),
        )
}

/// Are the connect failures of `best` listed by reason?
pub open spec fn lists_connects(
    v: Seq<(&'static str, u64)>,
    best: Seq<Option<OutcomeView>>,
) -> bool {
    &&& v.len() == CONNECT_REASONS@.len()
    &&& forall|k: int|
        0 <= k < v.len() ==> (#[trigger] v[k]).0 == CONNECT_REASONS@[k] && v[k].1
            == crate::count::count(
            best.len() as int,
            crate::tally::not_connected(best, CONNECT_REASONS@[k]@),
        )
}

/// Does `c` count the relays and endpoints of `inputs`?
pub open spec fn counts_relays(c: Census, inputs: Inputs<'_>) -> bool {
    let best = inputs.best();
    let n = inputs.entries.len() as int;
    let x = inputs.endpoints.len() as int;
    &&& c.relays_total == n
    &&& c.relays_srv == crate::count::count(n, crate::resolve::is_srv_at(inputs.entries))
    &&& describes_srv_sets(
        c.srv_sets@,
        inputs.entries,
        inputs.endpoints,
        inputs.outcomes,
        inputs.chances(),
    )
    &&& c.srv_endpoints_total == crate::count::count(
        x,
        srv_targets(inputs.entries, inputs.endpoints, None),
    )
    &&& c.srv_endpoints_reachable == crate::count::count(
        x,
        srv_answers(inputs.entries, inputs.endpoints, inputs.outcomes, None),
    )
    &&& c.endpoints_total == x
    &&& c.endpoints_probed == crate::count::count(
        inputs.outcomes.len() as int,
        crate::tally::dialled(inputs.outcomes),
    )
    &&& c.endpoints_remembered == crate::count::count(
        x,
        crate::tally::remembered(inputs.endpoints),
    )
    &&& c.relays_reachable_v4 == crate::count::count(
        n,
        crate::tally::from_family(best, Family::V4),
    )
    &&& c.relays_reachable_v6 == crate::count::count(
        n,
        crate::tally::from_family(best, Family::V6),
    )
    &&& lists_stages(c.relays_failed@, best)
    &&& lists_connects(c.relays_failed_connect@, best)
    &&& groups_versions(c.n2n_versions@, best, inputs.shares())
    &&& c.entry_probability@ == inputs.chances()
}

/// The number of answering relays of each pool.
pub open spec fn oks(inputs: Inputs<'_>) -> Seq<usize> {
    Seq::new(inputs.pools, |p: int| inputs.ok(p) as usize)
}

/// Are the pools grouped by reach?
pub open spec fn groups_reaches(v: Seq<(Reach, ReachGroup)>, stats: Seq<PoolStatView>) -> bool {
    &&& v.len() == Reach::ALL@.len()
    &&& forall|k: int|
        0 <= k < v.len() ==> (#[trigger] v[k]).0 == Reach::ALL@[k] && groups_reach(
            v[k].1,
            stats,
            Reach::ALL@[k],
        )
}

/// Which pools the index named.
pub open spec fn named_pools(stats: Seq<PoolStatView>) -> spec_fn(int) -> bool {
    |p: int| stats[p].meta is Some
}

/// Does `c` say how the pools of `inputs` stand?
pub open spec fn weighs_pools(c: Census, inputs: Inputs<'_>) -> bool {
    let best = inputs.best();
    let stats = inputs.stats();
    &&& c.pools.deep_view() == stats
    &&& counts_reversal(c.ipv4, inputs.entries, best, inputs.reversed, oks(inputs))
    &&& groups_reaches(c.blp_by_reach@, stats)
    &&& c.reachability.wf()
    &&& c.reachability.bounds@ == REACHABILITY_BOUNDS@
    &&& c.reachability.observed@ == Seq::new(stats.len(), |p: int| stats[p].fraction)
    &&& c.relays_reachable_within.bounds@ == WITHIN_BOUNDS@
    &&& c.relays_reachable_within.holds(entry_times(best), best.len() as int)
    &&& c.stake_reachable_within.bounds@ == WITHIN_BOUNDS@
    &&& c.stake_reachable_within.holds(pool_times(stats), stats.len() as int)
    &&& c.pools_indexed == crate::count::count(stats.len() as int, named_pools(stats))
}

/// Does `c` say where the entries are hosted?
pub open spec fn places_entries(c: Census, inputs: Inputs<'_>, min_relays: usize) -> bool {
    let best = inputs.best();
    let ips = crate::networks::entry_ips(inputs.endpoints, best, inputs.entries.len());
    &&& c.entry_asn.deep_view() == crate::networks::placements(inputs.db, ips)
    &&& c.asn_min_relays == min_relays
    &&& match inputs.db {
        Some(d) => {
            let table = crate::networks::hosted(*d, ips, best, inputs.shares()).table();
            &&& c.asn_db_ranges == d@.v4.len() + d@.v6.len()
            &&& c.asn_table.deep_view() == table
            &&& c.asn_metrics.deep_view() == crate::networks::metrics_of(table, min_relays)
        },
        None => c.asn_db_ranges == 0 && c.asn_table.len() == 0 && c.asn_metrics.len() == 0,
    }
}

/// Does `c` say what changed since `previous`?
pub open spec fn tells_churn(c: Census, inputs: Inputs<'_>, previous: Option<&Previous>) -> bool {
    let best = inputs.best();
    let ips = crate::networks::entry_ips(inputs.endpoints, best, inputs.entries.len());
    match previous {
        Some(prev) => c.churn matches Some(churn) && crate::churn::is_diff(
            churn,
            c.entry_change@,
            crate::churn::Runs {
                keys: crate::churn::entry_keys(inputs.entries),
                previous: prev.by_key@,
                reached: crate::churn::answered(best),
                asn: crate::churn::numbers(crate::networks::placements(inputs.db, ips)),
            },
            inputs.shares(),
            prev.timestamp_seconds,
        ),
        None => c.churn is None && c.entry_change@ == Seq::new(
            inputs.entries.len(),
            |i: int| None::<Change>,
        ),
    }
}

/// Does `weigh` put the stake that `sum` adds up to at `key` in the order of
/// stakes?
pub open spec fn ranks<F: Fn(&Vec<Share>) -> u64>(weigh: F, sum: Seq<Share>, key: u64) -> bool {
    exists|v: Vec<Share>| v@ == sum && #[trigger] weigh.ensures((&v,), key)
}

/// Do `keys` rank the stake of the operators?
pub open spec fn ranks_operators<F: Fn(&Vec<Share>) -> u64>(
    weigh: F,
    rows: Seq<crate::operators::OutreachRowView>,
    keys: Seq<u64>,
) -> bool {
    &&& keys.len() == rows.len()
    &&& forall|i: int| 0 <= i < rows.len() ==> ranks(weigh, (#[trigger] rows[i]).stake, keys[i])
}

/// Do `keys` rank the stake of the chain groups?
pub open spec fn ranks_chains<F: Fn(&Vec<Share>) -> u64>(
    weigh: F,
    groups: Seq<crate::chains::ChainGroupView>,
    keys: Seq<u64>,
) -> bool {
    &&& keys.len() == groups.len()
    &&& forall|i: int|
        0 <= i < groups.len() ==> ranks(weigh, (#[trigger] groups[i]).stake, keys[i])
}

/// Does `c` list the operators, ranked by `keys`?
pub open spec fn lists_operators(
    c: Census,
    inputs: Inputs<'_>,
    limit: usize,
    keys: Seq<u64>,
) -> bool {
    let rows = crate::operators::operators_of(inputs.stats());
    &&& c.top_pools_limit == limit
    &&& c.top_pools.deep_view() == crate::operators::rows_at(
        rows,
        crate::operators::outreach_places(rows, keys, limit),
    )
    &&& c.thin_operators.deep_view() == crate::operators::rows_at(
        rows,
        crate::operators::thin_places(rows, keys, limit),
    )
}

/// Does `c` say what chains the tips are on, ranked by `keys`?
pub open spec fn follows_chains(
    c: Census,
    inputs: Inputs<'_>,
    tolerance: u64,
    keys: Seq<u64>,
) -> bool {
    let best = inputs.best();
    let tips = crate::chains::tips_of(best);
    let groups = crate::chains::groups_of(tips, inputs.live_shares(), tolerance);
    let main = crate::chains::main_root(
        crate::chains::group_roots(crate::chains::tip_roots(tips, tolerance)),
        keys,
    );
    &&& c.fork_tolerance == tolerance
    &&& c.rtt_seconds.wf()
    &&& c.rtt_seconds.bounds@ == RTT_BOUNDS@
    &&& c.rtt_seconds.observed@ == crate::tally::round_trips(inputs.outcomes)
    &&& c.tip_block_max == crate::tally::highest_block(inputs.outcomes)
    &&& c.tip_slot_max == crate::tally::highest_slot(inputs.outcomes)
    &&& c.tips_at_max_block == crate::table::distinct_names(
        hashes_at(inputs.outcomes, c.tip_block_max),
    ).len()
    &&& c.chains.deep_view() == crate::chains::listed_groups(groups, keys)
    &&& c.entry_tips@ == Seq::new(
        inputs.entries.len(),
        |e: int|
            crate::chains::placed_tip(
                tips[e],
                crate::chains::entry_root(tips, tolerance, e),
                main,
                c.tip_block_max,
            ),
    )
    &&& c.relays_within_blocks_of_tip.bounds@ == LAG_BOUNDS@
    &&& c.relays_within_blocks_of_tip.holds(
        entry_lags(c.entry_tips@),
        c.entry_tips.len() as int,
    )
    &&& c.stake_within_blocks_of_tip.bounds@ == LAG_BOUNDS@
    &&& c.stake_within_blocks_of_tip.holds(
        pool_lags(c.entry_tips@, inputs),
        inputs.pools as int,
    )
}

/// What a run hands to the census.
pub open spec fn inputs_of<'a, S>(
    snap: Snapshot<S>,
    entries: Seq<EntryView>,
    endpoints: Seq<EndpointView>,
    outcomes: Seq<Option<OutcomeView>>,
    srv_errors: Seq<Option<Seq<char>>>,
    shadow: Shadow,
    db: Option<&'a AsnDb>,
    index: Option<&'a PoolIndex>,
) -> Inputs<'a> {
    Inputs {
        pools: snap.pools.len() as nat,
        entries,
        endpoints,
        outcomes,
        srv_errors,
        reversed: shadow.reachable@,
        db,
        index,
    }
}

// Its parts.

/// The findings on a run.
fn find_out(
    pools: usize,
    entries: &[Entry],
    endpoints: &[Endpoint],
    outcomes: &[Option<Outcome>],
    srv_errors: &[Option<String>],
    shadow: &Shadow,
    db: Option<&AsnDb>,
    Ghost(inputs): Ghost<Inputs<'_>>,
) -> (f: Findings)
    requires
        inputs.wf(),
        inputs.pools == pools,
        inputs.entries == entries.deep_view(),
        inputs.endpoints == endpoints.deep_view(),
        inputs.outcomes == outcomes_of(outcomes@),
        inputs.srv_errors == srv_errors.deep_view(),
        inputs.reversed == shadow.reachable@,
        inputs.db == db,
    ensures
        f.of(inputs),
{
    proof {
        assert(inputs.entries.len() == entries.len());
        assert forall|i: int| 0 <= i < entries.len() implies (#[trigger] entries[i]).pool
            < pools by {
            assert(inputs.entries[i] == entries[i].deep_view());
        }
    }
    let best = best_outcomes(entries, endpoints, outcomes, srv_errors);
    assert(outcomes_of(best@).len() == best.len());
    let chances = reach_probabilities(entries, endpoints, outcomes, best.as_slice());
    let at = endpoints_by_entry(entries.len(), endpoints);
    assert forall|i: int, j: int|
        #![trigger at[i][j]]
        0 <= i < entries.len() && 0 <= j < at[i].len() implies at[i][j] < endpoints.len() by {
        crate::count::lemma_select(
            endpoints.len() as int,
            crate::outcomes::lists(inputs.endpoints, i as usize),
        );
        assert(places(at[i]@)[j] == at[i][j]);
    }
    let reasons = entry_reasons(entries, endpoints, at.as_slice(), best.as_slice(), shadow, db);
    assert(reasons.deep_view() =~= inputs.reasons());
    Findings { own: entries_by_pool(entries, pools), at, best, chances, reasons }
}

/// Per pool, how many relays it has and how many of them answered.
fn count_relays(f: &Findings, Ghost(inputs): Ghost<Inputs<'_>>) -> (r: (Vec<usize>, Vec<usize>))
    requires
        f.of(inputs),
    ensures
        r.0.len() == inputs.pools,
        forall|p: int| 0 <= p < inputs.pools ==> (#[trigger] r.0[p]) == inputs.total(p),
        r.1@ == oks(inputs),
        forall|p: int| 0 <= p < inputs.pools ==> (#[trigger] r.1[p]) == inputs.ok(p),
{
    let mut totals: Vec<usize> = Vec::new();
    let mut answered: Vec<usize> = Vec::new();
    let mut p: usize = 0;
    while p < f.own.len()
        invariant
            p <= f.own.len(),
            f.of(inputs),
            totals.len() == p,
            answered.len() == p,
            forall|q: int| 0 <= q < p ==> (#[trigger] totals[q]) == inputs.total(q),
            forall|q: int| 0 <= q < p ==> (#[trigger] answered[q]) == inputs.ok(q),
        decreases f.own.len() - p,
    {
        let own = f.own[p].as_slice();
        proof {
            let all = inputs.own(p as int);
            assert(places(own@) == all);
            crate::count::lemma_select(
                inputs.entries.len() as int,
                crate::standing::of_pool(inputs.entries, p as int),
            );
            assert(outcomes_of(f.best@).len() == f.best.len());
            assert forall|j: int| 0 <= j < own.len() implies (#[trigger] own[j])
                < f.best.len() by {
                assert(all[j] == own[j]);
            }
            crate::standing::lemma_answered_among(
                inputs.entries,
                inputs.best(),
                p as int,
                inputs.entries.len() as int,
            );
        }
        let (ok, _) = answers(f.best.as_slice(), own);
        totals.push(own.len());
        answered.push(ok);
        p += 1;
    }
    assert(answered@ =~= oks(inputs));
    (totals, answered)
}

/// How all pools stand.
fn stand_all(
    entries: &[Entry],
    endpoints: &[Endpoint],
    index: Option<&PoolIndex>,
    f: &Findings,
    Ghost(inputs): Ghost<Inputs<'_>>,
) -> (v: Vec<PoolStat>)
    requires
        inputs.wf(),
        inputs.entries == entries.deep_view(),
        inputs.endpoints == endpoints.deep_view(),
        inputs.index == index,
        f.of(inputs),
    ensures
        v.deep_view() == inputs.stats(),
{
    let mut v: Vec<PoolStat> = Vec::new();
    let mut p: usize = 0;
    while p < f.own.len()
        invariant
            p <= f.own.len(),
            inputs.wf(),
            inputs.entries == entries.deep_view(),
            inputs.endpoints == endpoints.deep_view(),
            inputs.index == index,
            f.of(inputs),
            v.len() == p,
            forall|q: int| 0 <= q < p ==> (#[trigger] v[q]).deep_view() == inputs.stat(q),
        decreases f.own.len() - p,
    {
        v.push(stand(p, entries, endpoints, index, f, Ghost(inputs)));
        p += 1;
    }
    assert(v.deep_view() =~= inputs.stats());
    v
}

/// The failures listed by stage.
fn failures(entry_outcome: &[Option<Outcome>]) -> (v: Vec<(Stage, u64)>)
    ensures
        lists_stages(v@, outcomes_of(entry_outcome@)),
{
    let all = Stage::ALL;
    let mut v: Vec<(Stage, u64)> = Vec::new();
    let mut k: usize = 0;
    while k < all.len()
        invariant
            k <= all.len(),
            all@ == Stage::ALL@,
            v.len() == k,
            forall|j: int|
                0 <= j < k ==> (#[trigger] v[j]).0 == Stage::ALL@[j] && v[j].1
                    == crate::count::count(
                    entry_outcome.len() as int,
                    crate::tally::failed_at(outcomes_of(entry_outcome@), Stage::ALL@[j]),
                ),
        decreases all.len() - k,
    {
        v.push((all[k], count_failed(entry_outcome, all[k])));
        k += 1;
    }
    v
}

/// The connect failures listed by reason.
fn connect_failures(entry_outcome: &[Option<Outcome>]) -> (v: Vec<(&'static str, u64)>)
    ensures
        lists_connects(v@, outcomes_of(entry_outcome@)),
{
    let all = CONNECT_REASONS;
    let mut v: Vec<(&'static str, u64)> = Vec::new();
    let mut k: usize = 0;
    while k < all.len()
        invariant
            k <= all.len(),
            all@ == CONNECT_REASONS@,
            v.len() == k,
            forall|j: int|
                0 <= j < k ==> (#[trigger] v[j]).0 == CONNECT_REASONS@[j] && v[j].1
                    == crate::count::count(
                    entry_outcome.len() as int,
                    crate::tally::not_connected(
                        outcomes_of(entry_outcome@),
                        CONNECT_REASONS@[j]@,
                    ),
                ),
        decreases all.len() - k,
    {
        v.push((all[k], count_not_connected(entry_outcome, all[k])));
        k += 1;
    }
    v
}

/// The pools grouped by reach.
fn reach_groups(pools: &[PoolStat]) -> (v: Vec<(Reach, ReachGroup)>)
    ensures
        groups_reaches(v@, pools.deep_view()),
{
    let all = Reach::ALL;
    let mut v: Vec<(Reach, ReachGroup)> = Vec::new();
    let mut k: usize = 0;
    while k < all.len()
        invariant
            k <= all.len(),
            all@ == Reach::ALL@,
            v.len() == k,
            forall|j: int|
                0 <= j < k ==> (#[trigger] v[j]).0 == Reach::ALL@[j] && groups_reach(
                    v[j].1,
                    pools.deep_view(),
                    Reach::ALL@[j],
                ),
        decreases all.len() - k,
    {
        v.push((all[k], group_reach(pools, all[k])));
        k += 1;
    }
    v
}

/// The whole stake of `n` pools.
fn all_wholes(n: usize) -> (v: Vec<Share>)
    ensures
        v@ == wholes(n as nat),
{
    let mut v: Vec<Share> = Vec::new();
    let mut p: usize = 0;
    while p < n
        invariant
            p <= n,
            v.len() == p,
            forall|q: int| 0 <= q < p ==> (#[trigger] v[q]) == whole(q),
        decreases n - p,
    {
        v.push(Share { pool: p, parts: 1 });
        p += 1;
    }
    assert(v@ =~= wholes(n as nat));
    v
}

/// How many pools the index named.
fn count_named(pools: &[PoolStat]) -> (n: u64)
    ensures
        n == crate::count::count(pools.len() as int, named_pools(pools.deep_view())),
{
    let mut n: u64 = 0;
    let mut p: usize = 0;
    while p < pools.len()
        invariant
            p <= pools.len(),
            n <= p,
            n == crate::count::count(p as int, named_pools(pools.deep_view())),
        decreases pools.len() - p,
    {
        assert(pools.deep_view()[p as int] == pools[p as int].deep_view());
        if pools[p].meta.is_some() {
            n += 1;
        }
        p += 1;
    }
    n
}

/// No change for any of `n` entries.
fn no_changes(n: usize) -> (v: Vec<Option<Change>>)
    ensures
        v@ == Seq::new(n as nat, |i: int| None::<Change>),
{
    let mut v: Vec<Option<Change>> = Vec::new();
    let mut i: usize = 0;
    while i < n
        invariant
            i <= n,
            v.len() == i,
            forall|j: int| 0 <= j < i ==> (#[trigger] v[j]) is None,
        decreases n - i,
    {
        v.push(None);
        i += 1;
    }
    assert(v@ =~= Seq::new(n as nat, |i: int| None::<Change>));
    v
}

/// The keys of the operators' stakes.
fn weigh_operators<F: Fn(&Vec<Share>) -> u64>(weigh: &F, rows: &[OutreachRow]) -> (keys: Vec<u64>)
    requires
        forall|v: Vec<Share>| #[trigger] weigh.requires((&v,)),
    ensures
        ranks_operators(*weigh, rows.deep_view(), keys@),
{
    let mut keys: Vec<u64> = Vec::new();
    let mut i: usize = 0;
    while i < rows.len()
        invariant
            i <= rows.len(),
            forall|v: Vec<Share>| #[trigger] weigh.requires((&v,)),
            keys.len() == i,
            forall|j: int|
                0 <= j < i ==> ranks(*weigh, (#[trigger] rows.deep_view()[j]).stake, keys[j]),
        decreases rows.len() - i,
    {
        let key: u64 = weigh(&rows[i].stake);
        assert(rows.deep_view()[i as int] == rows[i as int].deep_view());
        assert(ranks(*weigh, rows[i as int].stake@, key));
        keys.push(key);
        i += 1;
    }
    keys
}

/// The keys of the chain groups' stakes.
fn weigh_chains<F: Fn(&Vec<Share>) -> u64>(weigh: &F, groups: &[ChainGroup]) -> (keys: Vec<u64>)
    requires
        forall|v: Vec<Share>| #[trigger] weigh.requires((&v,)),
    ensures
        ranks_chains(*weigh, groups.deep_view(), keys@),
{
    let mut keys: Vec<u64> = Vec::new();
    let mut i: usize = 0;
    while i < groups.len()
        invariant
            i <= groups.len(),
            forall|v: Vec<Share>| #[trigger] weigh.requires((&v,)),
            keys.len() == i,
            forall|j: int|
                0 <= j < i ==> ranks(*weigh, (#[trigger] groups.deep_view()[j]).stake, keys[j]),
        decreases groups.len() - i,
    {
        let key: u64 = weigh(&groups[i].stake);
        assert(groups.deep_view()[i as int] == groups[i as int].deep_view());
        assert(ranks(*weigh, groups[i as int].stake@, key));
        keys.push(key);
        i += 1;
    }
    keys
}

/// What was asked of the census besides its inputs.
pub struct Terms<'a> {
    pub previous: Option<&'a Previous>,
    pub fork_tolerance: u64,
    pub asn_min_relays: usize,
    pub top_pools_limit: usize,
}

/// Does `c` say what the run found, where `weigh` orders sums of stake?
pub open spec fn is_census<F: Fn(&Vec<Share>) -> u64>(
    c: Census,
    inputs: Inputs<'_>,
    terms: Terms<'_>,
    weigh: F,
) -> bool {
    &&& counts_relays(c, inputs)
    &&& weighs_pools(c, inputs)
    &&& places_entries(c, inputs, terms.asn_min_relays)
    &&& tells_churn(c, inputs, terms.previous)
    &&& exists|keys: Seq<u64>|
        ranks_operators(weigh, crate::operators::operators_of(inputs.stats()), keys)
            && #[trigger] lists_operators(c, inputs, terms.top_pools_limit, keys)
    &&& exists|keys: Seq<u64>|
        ranks_chains(
            weigh,
            crate::chains::groups_of(
                crate::chains::tips_of(inputs.best()),
                inputs.live_shares(),
                terms.fork_tolerance,
            ),
            keys,
        ) && #[trigger] follows_chains(c, inputs, terms.fork_tolerance, keys)
}

proof fn lemma_is_census<F: Fn(&Vec<Share>) -> u64>(
    c: Census,
    inputs: Inputs<'_>,
    terms: Terms<'_>,
    weigh: F,
    row_keys: Seq<u64>,
    chain_keys: Seq<u64>,
)
    requires
        counts_relays(c, inputs),
        weighs_pools(c, inputs),
        places_entries(c, inputs, terms.asn_min_relays),
        tells_churn(c, inputs, terms.previous),
        ranks_operators(weigh, crate::operators::operators_of(inputs.stats()), row_keys),
        lists_operators(c, inputs, terms.top_pools_limit, row_keys),
        ranks_chains(
            weigh,
            crate::chains::groups_of(
                crate::chains::tips_of(inputs.best()),
                inputs.live_shares(),
                terms.fork_tolerance,
            ),
            chain_keys,
        ),
        follows_chains(c, inputs, terms.fork_tolerance, chain_keys),
    ensures
        is_census(c, inputs, terms, weigh),
{
}

/// The census of one run. Stake is ordered by `weigh`, which tells where the
/// stake that a sum amounts to stands in the order of all stakes.
pub fn build<S, F: Fn(&Vec<Share>) -> u64>(
    snapshot_source: &str,
    snap: &Snapshot<S>,
    entries: &[Entry],
    endpoints: &[Endpoint],
    outcomes: &[Option<Outcome>],
    srv_errors: &[Option<String>],
    shadow: &Shadow,
    previous: Option<&Previous>,
    fork_tolerance: u64,
    asn_db: Option<&AsnDb>,
    asn_min_relays: usize,
    pool_index: Option<&PoolIndex>,
    top_pools_limit: usize,
    scan: Span,
    timestamp_seconds: u64,
    weigh: F,
) -> (c: Census)
    requires
        inputs_of(
            *snap,
            entries.deep_view(),
            endpoints.deep_view(),
            outcomes_of(outcomes@),
            srv_errors.deep_view(),
            *shadow,
            asn_db,
            pool_index,
        ).wf(),
        previous matches Some(prev) ==> prev.wf(),
        forall|v: Vec<Share>| #[trigger] weigh.requires((&v,)),
    ensures
        c.wf(),
        says_source(c, snapshot_source@, *snap),
        c.scan_duration == scan,
        c.timestamp_seconds == timestamp_seconds,
        is_census(
            c,
            inputs_of(
                *snap,
                entries.deep_view(),
                endpoints.deep_view(),
                outcomes_of(outcomes@),
                srv_errors.deep_view(),
                *shadow,
                asn_db,
                pool_index,
            ),
            (Terms { previous, fork_tolerance, asn_min_relays, top_pools_limit }),
            weigh,
        ),
{
    let ghost inputs = inputs_of(
        *snap,
        entries.deep_view(),
        endpoints.deep_view(),
        outcomes_of(outcomes@),
        srv_errors.deep_view(),
        *shadow,
        asn_db,
        pool_index,
    );
    let f = find_out(
        snap.pools.len(),
        entries,
        endpoints,
        outcomes,
        srv_errors,
        shadow,
        asn_db,
        Ghost(inputs),
    );
    let (totals, answered) = count_relays(&f, Ghost(inputs));
    proof {
        assert(inputs.entries.len() == entries.len());
        assert(outcomes_of(f.best@).len() == f.best.len());
        assert forall|i: int| 0 <= i < entries.len() implies (#[trigger] entries[i]).pool
            < inputs.pools by {
            assert(inputs.entries[i] == entries[i].deep_view());
        }
    }
    let best = f.best.as_slice();
    let shares = split_stake(entries, totals.as_slice());
    let live = split_stake(entries, answered.as_slice());
    proof {
        assert forall|i: int| 0 <= i < entries.len() implies {
            &&& #[trigger] shares[i] == inputs.shares()[i]
            &&& live[i] == inputs.live_shares()[i]
        } by {
            assert(inputs.entries[i] == entries[i].deep_view());
            let p = entries[i].pool as int;
            assert(totals[p] == inputs.total(p));
            assert(answered[p] == inputs.ok(p));
        }
        assert(shares@ =~= inputs.shares());
        assert(live@ =~= inputs.live_shares());
    }
    let ipv4 = ipv4_reversal(entries, best, shadow, answered.as_slice());

    let pools = stand_all(entries, endpoints, pool_index, &f, Ghost(inputs));
    proof {
        crate::standing::lemma_stats_fit(inputs);
        assert(pools.deep_view().len() == pools.len());
    }
    let rows = operators(pools.as_slice());
    assert(rows.deep_view().len() == rows.len());
    let row_keys = weigh_operators(&weigh, rows.as_slice());
    let top_pools = outreach(rows.as_slice(), row_keys.as_slice(), top_pools_limit);
    let thin_operators = thin(rows.as_slice(), row_keys.as_slice(), top_pools_limit);

    let sets = srv_sets(entries, endpoints, outcomes, f.chances.as_slice());
    let (srv_total, srv_reachable) = count_targets(entries, endpoints, outcomes, None);
    let versions = version_groups(best, shares.as_slice());

    let (entry_asn, asn_table, asn_metrics) = asn_groups(
        entries,
        endpoints,
        f.at.as_slice(),
        best,
        shares.as_slice(),
        asn_db,
        asn_min_relays,
    );
    assert(entry_asn.deep_view().len() == entry_asn.len());
    let (churn, entry_change) = match previous {
        Some(prev) => {
            let (c, changes) = diff(prev, entries, best, entry_asn.as_slice(), shares.as_slice());
            (Some(c), changes)
        },
        None => (None, no_changes(entries.len())),
    };

    let (trips, tip_block_max, tip_slot_max) = survey_tips(outcomes);
    let groups = chain_groups(best, live.as_slice(), fork_tolerance);
    assert(groups.groups.deep_view().len() == groups.groups.len());
    assert(places(groups.roots@).len() == groups.roots.len());
    let chain_keys = weigh_chains(&weigh, groups.groups.as_slice());
    let (chains, entry_tips) = settle(&groups, chain_keys.as_slice(), best, tip_block_max);
    let lag_of_pools = best_lags(entry_tips.as_slice(), f.own.as_slice(), Ghost(inputs));
    let tips_at_max_block = count_hashes(outcomes, tip_block_max);
    let relays_failed = failures(best);
    let relays_failed_connect = connect_failures(best);
    let relays_reachable_v4 = count_family(best, Family::V4);
    let relays_reachable_v6 = count_family(best, Family::V6);
    let relays_reachable_within = Cumulative::of(&WITHIN_BOUNDS, times(best).as_slice());
    let asn_db_ranges: u64 = match asn_db {
        Some(db) => db.len() as u64,
        None => 0,
    };

    let c = Census {
        snapshot_source: snapshot_source.to_string(),
        network_magic: snap.network_magic,
        node_to_client_version: snap.node_to_client_version,
        snapshot_slot: snap.point.block_point_slot,
        snapshot_hash: snap.point.block_point_hash.clone(),

        blp_total: snap.pools.len() as u64,
        snapshot_stake: all_wholes(snap.pools.len()),

        relays_total: entries.len() as u64,
        relays_srv: count_srv(entries),
        srv_sets: sets,
        srv_endpoints_total: srv_total,
        srv_endpoints_reachable: srv_reachable,
        endpoints_total: endpoints.len() as u64,
        endpoints_probed: count_dialled(outcomes),
        endpoints_remembered: count_remembered(endpoints),
        relays_reachable_v4,
        relays_reachable_v6,
        relays_failed,
        relays_failed_connect,
        n2n_versions: versions,
        ipv4,
        churn,

        blp_by_reach: reach_groups(pools.as_slice()),
        reachability: Histogram::of(&REACHABILITY_BOUNDS, fractions(pools.as_slice()).as_slice()),
        rtt_seconds: Histogram::of(&RTT_BOUNDS, trips.as_slice()),
        relays_reachable_within,
        stake_reachable_within: Cumulative::of(
            &WITHIN_BOUNDS,
            best_times(pools.as_slice()).as_slice(),
        ),

        tip_block_max,
        tip_slot_max,
        tips_at_max_block,
        fork_tolerance,
        chains,
        relays_within_blocks_of_tip: Cumulative::of(
            &LAG_BOUNDS,
            lags(entry_tips.as_slice()).as_slice(),
        ),
        stake_within_blocks_of_tip: Cumulative::of(&LAG_BOUNDS, lag_of_pools.as_slice()),

        pools_indexed: count_named(pools.as_slice()),
        top_pools_limit: top_pools_limit as u64,

        asn_db_ranges,
        asn_min_relays: asn_min_relays as u64,
        asn_table,

        scan_duration: scan,
        timestamp_seconds,

        pools,
        top_pools,
        thin_operators,
        entry_tips,
        entry_change,
        asn_metrics,
        entry_asn,
        entry_probability: f.chances,
    };
    proof {
        let tips = crate::chains::tips_of(inputs.best());
        assert(c.entry_tips@ =~= Seq::new(
            inputs.entries.len(),
            |e: int|
                crate::chains::placed_tip(
                    tips[e],
                    crate::chains::entry_root(tips, fork_tolerance, e),
                    crate::chains::main_root(
                        crate::chains::group_roots(crate::chains::tip_roots(tips, fork_tolerance)),
                        chain_keys@,
                    ),
                    tip_block_max,
                ),
        ));
        assert(counts_relays(c, inputs));
        assert(weighs_pools(c, inputs));
        assert(places_entries(c, inputs, asn_min_relays));
        assert(tells_churn(c, inputs, previous));
        assert(lists_operators(c, inputs, top_pools_limit, row_keys@));
        assert(follows_chains(c, inputs, fork_tolerance, chain_keys@));
        assert(ranks_operators(
            weigh,
            crate::operators::operators_of(inputs.stats()),
            row_keys@,
        ));
        assert(ranks_chains(
            weigh,
            crate::chains::groups_of(tips, inputs.live_shares(), fork_tolerance),
            chain_keys@,
        ));
        lemma_is_census(
            c,
            inputs,
            Terms { previous, fork_tolerance, asn_min_relays, top_pools_limit },
            weigh,
            row_keys@,
            chain_keys@,
        );
    }
    c
}

// What holds of it.

/// Every pool has one reach: those with none, some and all of their relays
/// answering add up to all pools.
pub proof fn every_pool_has_one_reach(stats: Seq<PoolStatView>, n: int)
    requires
        0 <= n <= stats.len(),
    ensures
        crate::count::count(n, reaching(stats, Reach::Unreached)) + crate::count::count(
            n,
            reaching(stats, Reach::Partial),
        ) + crate::count::count(n, reaching(stats, Reach::Full)) == n,
    decreases n,
{
    if n > 0 {
        every_pool_has_one_reach(stats, n - 1);
    }
}

/// A shortest round trip is there when something answered.
proof fn lemma_shortest(best: Seq<Option<OutcomeView>>, at: Seq<int>)
    ensures
        crate::standing::shortest(best, at) is Some <==> crate::standing::answered_among(best, at)
            > 0,
    decreases at.len(),
{
    if at.len() > 0 {
        lemma_shortest(best, at.drop_last());
    }
}

/// The pools that answered within any time are those of which some or all
/// relays answered.
pub proof fn answering_at_all_is_being_reachable(inputs: Inputs<'_>, p: int)
    requires
        inputs.wf(),
        0 <= p < inputs.pools,
    ensures
        pool_times(inputs.stats())[p] is Some <==> reaching(inputs.stats(), Reach::Partial)(p)
            || reaching(inputs.stats(), Reach::Full)(p),
{
    lemma_shortest(inputs.best(), inputs.own(p));
    crate::standing::lemma_answered_among(
        inputs.entries,
        inputs.best(),
        p,
        inputs.entries.len() as int,
    );
    assert(inputs.stats()[p] == inputs.stat(p));
}

/// The last bucket of the stake that answered in time holds the pools of
/// partial and of full reach, and no others.
pub proof fn the_last_bucket_is_what_is_reachable(c: Census, inputs: Inputs<'_>, p: int)
    requires
        inputs.wf(),
        weighs_pools(c, inputs),
    ensures
        places(c.stake_reachable_within.total@).contains(p) <==> crate::count::select(
            inputs.pools as int,
            reaching(inputs.stats(), Reach::Partial),
        ).contains(p) || crate::count::select(
            inputs.pools as int,
            reaching(inputs.stats(), Reach::Full),
        ).contains(p),
{
    let stats = inputs.stats();
    let n = inputs.pools as int;
    crate::count::lemma_select(n, crate::histogram::have_value(pool_times(stats)));
    crate::count::lemma_select(n, reaching(stats, Reach::Partial));
    crate::count::lemma_select(n, reaching(stats, Reach::Full));
    if 0 <= p < n {
        answering_at_all_is_being_reachable(inputs, p);
        assert(crate::histogram::have_value(pool_times(stats))(p) <==> pool_times(stats)[p]
            is Some);
    }
}

/// The relays of an answering pool are all of its relays exactly when its
/// reach is full, and its fraction is then one.
pub proof fn full_reach_is_all_relays(inputs: Inputs<'_>, p: int)
    requires
        inputs.wf(),
        0 <= p < inputs.pools,
    ensures
        inputs.reach(p) == Reach::Full <==> inputs.ok(p) == inputs.total(p) && inputs.total(p) > 0,
        inputs.reach(p) == Reach::Unreached <==> inputs.ok(p) == 0,
        inputs.reach(p) == Reach::Full ==> inputs.stat(p).fraction.num
            == inputs.stat(p).fraction.den,
        inputs.stat(p).fraction.num <= inputs.stat(p).fraction.den,
{
    crate::standing::lemma_ok_bounded(inputs, p);
    crate::count::lemma_select(
        inputs.entries.len() as int,
        crate::standing::of_pool(inputs.entries, p),
    );
}

/// Which entries of the pool `p` have a tip.
pub open spec fn tips_of_pool(inputs: Inputs<'_>, p: int) -> spec_fn(int) -> bool {
    |e: int| inputs.entries[e].pool == p && crate::chains::tips_of(inputs.best())[e] is Some
}

/// A pool's stake is split into as many equal parts as it has relays, one for
/// each of them, so its relays carry all of it.
pub proof fn relays_carry_their_pools_stake(inputs: Inputs<'_>, p: int, e: int)
    requires
        inputs.wf(),
        0 <= e < inputs.entries.len(),
        inputs.entries[e].pool == p,
    ensures
        inputs.shares()[e].pool == p,
        inputs.shares()[e].parts == crate::count::count(
            inputs.entries.len() as int,
            crate::standing::of_pool(inputs.entries, p),
        ),
{
    let n = inputs.entries.len() as int;
    crate::count::lemma_select(n, crate::standing::of_pool(inputs.entries, p));
    assert(crate::standing::of_pool(inputs.entries, p)(e));
    assert(inputs.own(p).contains(e));
}

/// On the chains a pool's stake is split into as many equal parts as it has
/// tips, one for each of them: the groups carry the stake of every reachable
/// pool, and that of no other.
pub proof fn chains_carry_the_reachable_stake(inputs: Inputs<'_>, p: int, e: int)
    requires
        inputs.wf(),
        0 <= e < inputs.entries.len(),
        tips_of_pool(inputs, p)(e),
    ensures
        inputs.live_shares()[e].pool == p,
        inputs.live_shares()[e].parts == crate::count::count(
            inputs.entries.len() as int,
            tips_of_pool(inputs, p),
        ),
        inputs.reach(p) != Reach::Unreached,
{
    let n = inputs.entries.len() as int;
    let ok = crate::standing::ok_of_pool(inputs.entries, inputs.best(), p);
    assert forall|i: int| 0 <= i < n implies #[trigger] ok(i) == tips_of_pool(inputs, p)(i) by {}
    crate::count::lemma_select_same(n, ok, tips_of_pool(inputs, p));
    crate::count::lemma_select(n, ok);
    assert(ok(e));
    assert(crate::count::select(n, ok).contains(e));
}

/// Some tip is at the highest block, where that is not 0.
proof fn lemma_highest(s: Seq<Option<OutcomeView>>)
    ensures
        crate::tally::highest_block(s) > 0 ==> hashes_at(
            s,
            crate::tally::highest_block(s),
        ).len() > 0,
    decreases s.len(),
{
    if s.len() > 0 {
        lemma_highest(s.drop_last());
    }
}

proof fn lemma_tip_counted(s: Seq<Option<OutcomeView>>, i: int, top: u64)
    requires
        0 <= i < s.len(),
        s[i] matches Some(Ok(r)) && r.tip.block == top,
    ensures
        hashes_at(s, top).contains(s[i]->0->Ok_0.tip.hash),
    decreases s.len(),
{
    let front = hashes_at(s.drop_last(), top);
    if i < s.len() - 1 {
        assert(s.drop_last()[i] == s[i]);
        lemma_tip_counted(s.drop_last(), i, top);
        let k = front.index_of(s[i]->0->Ok_0.tip.hash);
        assert(hashes_at(s, top)[k] == front[k]);
    } else {
        assert(hashes_at(s, top).last() == s[i]->0->Ok_0.tip.hash);
    }
}

proof fn lemma_highest_bounds(s: Seq<Option<OutcomeView>>, i: int)
    requires
        0 <= i < s.len(),
        s[i] matches Some(Ok(_)),
    ensures
        s[i]->0->Ok_0.tip.block <= crate::tally::highest_block(s),
    decreases s.len(),
{
    if i < s.len() - 1 {
        assert(s.drop_last()[i] == s[i]);
        lemma_highest_bounds(s.drop_last(), i);
    }
}

/// No tip is above the highest block, the hash of every tip at it is among
/// those that are counted, and once anything answered one is counted.
pub proof fn the_highest_tips_are_counted(
    c: Census,
    inputs: Inputs<'_>,
    tolerance: u64,
    keys: Seq<u64>,
    i: int,
)
    requires
        follows_chains(c, inputs, tolerance, keys),
        0 <= i < inputs.outcomes.len(),
        inputs.outcomes[i] matches Some(Ok(_)),
    ensures
        c.tips_at_max_block >= 1,
        ({
            let tip = inputs.outcomes[i]->0->Ok_0.tip;
            &&& tip.block <= c.tip_block_max
            &&& tip.block == c.tip_block_max ==> crate::table::distinct_names(
                hashes_at(inputs.outcomes, c.tip_block_max),
            ).contains(tip.hash)
        }),
{
    let s = inputs.outcomes;
    let top = c.tip_block_max;
    let hashes = hashes_at(s, top);
    lemma_highest(s);
    lemma_highest_bounds(s, i);
    if s[i]->0->Ok_0.tip.block == top {
        lemma_tip_counted(s, i, top);
    }
    crate::table::distinct_names_are_those_held(hashes);
    assert(hashes.contains(hashes[0]));
    assert(crate::table::distinct_names(hashes).contains(hashes[0]));
}

/// No operator is on the outreach list twice, nor under labels that another one
/// has.
pub proof fn listed_operators_are_distinct(
    c: Census,
    inputs: Inputs<'_>,
    limit: usize,
    keys: Seq<u64>,
    i: int,
    j: int,
)
    requires
        lists_operators(c, inputs, limit, keys),
        crate::operators::unambiguous(inputs.stats()),
        0 <= i < c.top_pools.len(),
        0 <= j < c.top_pools.len(),
        i != j,
    ensures
        crate::operators::identity_of(c.top_pools.deep_view()[i]) != crate::operators::identity_of(
            c.top_pools.deep_view()[j],
        ),
{
    let rows = crate::operators::operators_of(inputs.stats());
    let at = crate::operators::outreach_places(rows, keys, limit);
    crate::operators::outreach_lists_the_most_stake(rows, keys, limit);
    let shown = c.top_pools.deep_view();
    assert(shown.len() == c.top_pools.len());
    assert(shown.len() == at.len());
    assert(shown[i] == rows[at[i]] && shown[j] == rows[at[j]]);
    crate::operators::every_row_is_a_distinct_series(inputs.stats(), at[i], at[j]);
}

} // verus!
