//! How each pool stands: what its relays answered, and why they did not.

use vstd::prelude::*;

use crate::asn::AsnDb;
use crate::histogram::{places, Ratio};
use crate::net::format_host_port;
use crate::operators::{add_new, with_new, PoolStat, PoolStatView, Reach};
use crate::outcomes::{found_at, reached};
use crate::pools::{PoolIndex, PoolMetaView};
use crate::probe::{outcome, outcomes_of, Outcome, OutcomeView};
use crate::reasons::rank_reasons;
use crate::resolve::{Endpoint, EndpointView, Entry, EntryView};
use crate::stake::Share;

verus! {

/// What a census is taken of.
pub struct Inputs<'a> {
    /// The number of pools.
    pub pools: nat,
    pub entries: Seq<EntryView>,
    pub endpoints: Seq<EndpointView>,
    /// Per endpoint, what came of its probe.
    pub outcomes: Seq<Option<OutcomeView>>,
    /// Per entry, why its SRV lookup gave no targets.
    pub srv_errors: Seq<Option<Seq<char>>>,
    /// Per entry, whether its octet reversal answered.
    pub reversed: Seq<Option<bool>>,
    pub db: Option<&'a AsnDb>,
    pub index: Option<&'a PoolIndex>,
}

/// Which entries are of the pool `p`.
pub open spec fn of_pool(entries: Seq<EntryView>, p: int) -> spec_fn(int) -> bool {
    |i: int| entries[i].pool == p
}

/// Which entries of the pool `p` answered.
pub open spec fn ok_of_pool(
    entries: Seq<EntryView>,
    best: Seq<Option<OutcomeView>>,
    p: int,
) -> spec_fn(int) -> bool {
    |i: int| entries[i].pool == p && reached(best[i])
}

/// The shortest round trip of the entries `at`; none when none answered.
pub open spec fn shortest(best: Seq<Option<OutcomeView>>, at: Seq<int>) -> Option<u64>
    decreases at.len(),
{
    if at.len() == 0 {
        None
    } else {
        let front = shortest(best, at.drop_last());
        match best[at.last()] {
            Some(Ok(r)) => match front {
                Some(ms) => Some(
                    if r.rtt_ms < ms {
                        r.rtt_ms
                    } else {
                        ms
                    },
                ),
                None => Some(r.rtt_ms),
            },
            _ => front,
        }
    }
}

/// How much of a pool with `total` relays answered when `ok` of them did.
pub open spec fn reach_of(ok: nat, total: nat) -> Reach {
    if ok == 0 {
        Reach::Unreached
    } else if ok == total {
        Reach::Full
    } else {
        Reach::Partial
    }
}

/// The share of `total` relays that `ok` of them are; 0 without relays.
pub open spec fn fraction_of(ok: nat, total: nat) -> Ratio {
    if total == 0 {
        Ratio { num: 0, den: 1 }
    } else {
        Ratio { num: ok as u64, den: total as u64 }
    }
}

/// An equal part of a pool's stake for each of `n` relays.
pub open spec fn even_share(pool: usize, n: nat) -> Share {
    Share {
        pool,
        parts: if n == 0 {
            1
        } else {
            n as u64
        },
    }
}

/// A relay as it is written in the snapshot.
pub open spec fn relay_text(e: EntryView) -> Seq<char> {
    match e.port {
        Some(port) => crate::net::host_port(e.address, port),
        None => e.address,
    }
}

/// The address and port of entries.
pub open spec fn addresses(entries: Seq<EntryView>, at: Seq<int>) -> Seq<
    (Seq<char>, Option<u16>),
> {
    Seq::new(at.len(), |i: int| (entries[at[i]].address, entries[at[i]].port))
}

/// The pool that the relays are registered to.
pub open spec fn owner_of(index: Option<&PoolIndex>, relays: Seq<(Seq<char>, Option<u16>)>) -> Option<
    PoolMetaView,
> {
    match index {
        Some(idx) => {
            let cast = crate::pools::owned_by(*idx, relays);
            if cast.len() == 0 {
                None
            } else {
                Some(cast[choose|k: int| crate::pools::wins(cast, k)])
            }
        },
        None => None,
    }
}

/// How many of the relays name their pool only through their octet reversal.
pub open spec fn reversed_of(
    index: Option<&PoolIndex>,
    relays: Seq<(Seq<char>, Option<u16>)>,
) -> nat {
    match (index, owner_of(index, relays)) {
        (Some(idx), Some(m)) => crate::count::count(
            relays.len() as int,
            crate::pools::names_reversed(*idx, relays, m.pool_id),
        ),
        _ => 0,
    }
}

/// The keys of the endpoints `xs`.
pub open spec fn keys_at(endpoints: Seq<EndpointView>, xs: Seq<int>) -> Seq<Seq<char>> {
    Seq::new(xs.len(), |i: int| endpoints[xs[i]].key)
}

/// The keys of the endpoints of the entries `at`, each once, as they come.
pub open spec fn probed_keys(endpoints: Seq<EndpointView>, at: Seq<int>) -> Seq<Seq<char>>
    decreases at.len(),
{
    if at.len() == 0 {
        Seq::empty()
    } else {
        with_new(
            probed_keys(endpoints, at.drop_last()),
            keys_at(endpoints, found_at(endpoints, at.last() as usize)),
        )
    }
}

/// The reasons among `at`, each weighing one.
pub open spec fn plain_reasons(reasons: Seq<Option<Seq<char>>>, at: Seq<int>) -> Seq<
    (Seq<char>, u128),
>
    decreases at.len(),
{
    if at.len() == 0 {
        Seq::empty()
    } else {
        let front = plain_reasons(reasons, at.drop_last());
        match reasons[at.last()] {
            Some(r) => front.push((r, 1u128)),
            None => front,
        }
    }
}

impl Inputs<'_> {
    /// Does everything refer to something that is there, and can the weights
    /// be added up?
    pub open spec fn wf(self) -> bool {
        &&& self.outcomes.len() >= self.endpoints.len()
        &&& self.srv_errors.len() <= self.entries.len()
        &&& self.reversed.len() >= self.entries.len()
        &&& crate::outcomes::lists_entries(self.endpoints, self.entries.len())
        &&& crate::outcomes::weights_fit(self.endpoints)
        &&& forall|i: int|
            0 <= i < self.entries.len() ==> (#[trigger] self.entries[i]).pool < self.pools
        &&& self.db matches Some(d) ==> d.wf()
        &&& self.index matches Some(idx) ==> idx.wf()
        &&& self.entries.len() <= usize::MAX
    }

    /// The outcome of each entry.
    pub open spec fn best(self) -> Seq<Option<OutcomeView>> {
        crate::outcomes::best_of_all(
            self.entries.len(),
            self.endpoints,
            self.outcomes,
            self.srv_errors,
        )
    }

    /// The chance of each entry.
    pub open spec fn chances(self) -> Seq<Ratio> {
        crate::outcomes::probabilities(self.entries, self.endpoints, self.outcomes, self.best())
    }

    /// The entries of the pool `p`.
    pub open spec fn own(self, p: int) -> Seq<int> {
        crate::count::select(self.entries.len() as int, of_pool(self.entries, p))
    }

    /// How many relays the pool `p` has.
    pub open spec fn total(self, p: int) -> nat {
        self.own(p).len()
    }

    /// How many relays of the pool `p` answered.
    pub open spec fn ok(self, p: int) -> nat {
        crate::count::count(
            self.entries.len() as int,
            ok_of_pool(self.entries, self.best(), p),
        )
    }

    pub open spec fn reach(self, p: int) -> Reach {
        reach_of(self.ok(p), self.total(p))
    }

    /// The shortest round trip to the pool `p`.
    pub open spec fn fastest(self, p: int) -> Option<u64> {
        shortest(self.best(), self.own(p))
    }

    /// Why entry `i` returned no tip.
    pub open spec fn reason(self, i: int) -> Option<Seq<char>> {
        crate::reasons::reason_of(
            self.best()[i],
            self.reversed[i],
            crate::reasons::first_addr(self.endpoints, found_at(self.endpoints, i as usize)),
            self.db,
        )
    }

    pub open spec fn reasons(self) -> Seq<Option<Seq<char>>> {
        Seq::new(self.entries.len(), |i: int| self.reason(i))
    }

    /// Each pool's stake split evenly over its entries.
    pub open spec fn shares(self) -> Seq<Share> {
        Seq::new(
            self.entries.len(),
            |i: int| even_share(self.entries[i].pool, self.total(self.entries[i].pool as int)),
        )
    }

    /// Each pool's stake split evenly over its answering entries.
    pub open spec fn live_shares(self) -> Seq<Share> {
        Seq::new(
            self.entries.len(),
            |i: int| even_share(self.entries[i].pool, self.ok(self.entries[i].pool as int)),
        )
    }

    /// How the pool `p` stands.
    pub open spec fn stat(self, p: int) -> PoolStatView {
        let own = self.own(p);
        let relays = addresses(self.entries, own);
        PoolStatView {
            index: p as usize,
            relays_total: self.total(p) as usize,
            relays_reachable: self.ok(p) as usize,
            reach: self.reach(p),
            fraction: fraction_of(self.ok(p), self.total(p)),
            chances: Seq::new(own.len(), |i: int| self.chances()[own[i]]),
            fastest_rtt_ms: self.fastest(p),
            meta: owner_of(self.index, relays),
            relays_reversed: reversed_of(self.index, relays) as usize,
            reasons: crate::reasons::ranked(plain_reasons(self.reasons(), own)),
            endpoints: probed_keys(self.endpoints, own),
            relays: Seq::new(own.len(), |i: int| relay_text(self.entries[own[i]])),
        }
    }

    /// How all pools stand.
    pub open spec fn stats(self) -> Seq<PoolStatView> {
        Seq::new(self.pools, |p: int| self.stat(p))
    }
}

/// Per pool, its entries.
pub fn entries_by_pool(entries: &[Entry], pools: usize) -> (out: Vec<Vec<usize>>)
    requires
        forall|i: int| 0 <= i < entries.len() ==> (#[trigger] entries[i]).pool < pools,
    ensures
        out.len() == pools,
        forall|p: int|
            0 <= p < pools ==> places((#[trigger] out[p])@) == crate::count::select(
                entries.len() as int,
                of_pool(entries.deep_view(), p),
            ),
{
    let ghost all = entries.deep_view();
    let mut out: Vec<Vec<usize>> = Vec::new();
    let mut p: usize = 0;
    while p < pools
        invariant
            p <= pools,
            out.len() == p,
            forall|q: int| 0 <= q < p ==> (#[trigger] out[q]).len() == 0,
        decreases pools - p,
    {
        out.push(Vec::new());
        p += 1;
    }
    assert forall|q: int| 0 <= q < pools implies places((#[trigger] out[q])@)
        == crate::count::select(0, of_pool(all, q)) by {
        assert(places(out[q]@) =~= Seq::<int>::empty());
    }
    let mut i: usize = 0;
    while i < entries.len()
        invariant
            i <= entries.len(),
            all == entries.deep_view(),
            out.len() == pools,
            forall|i: int| 0 <= i < entries.len() ==> (#[trigger] entries[i]).pool < pools,
            forall|q: int|
                0 <= q < pools ==> places((#[trigger] out[q])@) == crate::count::select(
                    i as int,
                    of_pool(all, q),
                ),
        decreases entries.len() - i,
    {
        let ghost before = out@;
        let p: usize = entries[i].pool;
        assert(all[i as int].pool == p);
        out[p].push(i);
        assert forall|q: int| 0 <= q < pools implies places((#[trigger] out[q])@)
            == crate::count::select(i + 1, of_pool(all, q)) by {
            assert(places(before[q]@) == crate::count::select(i as int, of_pool(all, q)));
            if q == p {
                assert(places(out[q]@) =~= places(before[q]@).push(i as int));
            }
        }
        i += 1;
    }
    out
}

/// Which of the places `at` answered.
pub open spec fn answered_among(best: Seq<Option<OutcomeView>>, at: Seq<int>) -> nat
    decreases at.len(),
{
    if at.len() == 0 {
        0
    } else {
        answered_among(best, at.drop_last()) + if reached(best[at.last()]) {
            1nat
        } else {
            0
        }
    }
}

/// Counting among a pool's entries is counting the pool's answering entries.
pub proof fn lemma_answered_among(
    entries: Seq<EntryView>,
    best: Seq<Option<OutcomeView>>,
    p: int,
    n: int,
)
    ensures
        answered_among(best, crate::count::select(n, of_pool(entries, p))) == crate::count::count(
            n,
            ok_of_pool(entries, best, p),
        ),
    decreases n,
{
    if n > 0 {
        lemma_answered_among(entries, best, p, n - 1);
        let s = crate::count::select(n - 1, of_pool(entries, p));
        if entries[n - 1].pool == p {
            assert(s.push(n - 1).drop_last() =~= s);
        }
    }
}

/// How many of the entries `at` answered, and the shortest round trip.
pub fn answers(outcomes: &[Option<Outcome>], at: &[usize]) -> (r: (usize, Option<u64>))
    requires
        forall|j: int| 0 <= j < at.len() ==> (#[trigger] at[j]) < outcomes.len(),
    ensures
        r.0 == answered_among(outcomes_of(outcomes@), places(at@)),
        r.0 <= at.len(),
        r.1 == shortest(outcomes_of(outcomes@), places(at@)),
{
    let ghost best = outcomes_of(outcomes@);
    let ghost all = places(at@);
    let mut ok: usize = 0;
    let mut fastest: Option<u64> = None;
    let mut j: usize = 0;
    assert(all.take(0) =~= Seq::<int>::empty());
    while j < at.len()
        invariant
            j <= at.len(),
            best == outcomes_of(outcomes@),
            all == places(at@),
            forall|j: int| 0 <= j < at.len() ==> (#[trigger] at[j]) < outcomes.len(),
            ok <= j,
            ok == answered_among(best, all.take(j as int)),
            fastest == shortest(best, all.take(j as int)),
        decreases at.len() - j,
    {
        let i: usize = at[j];
        assert(all.take(j + 1).drop_last() =~= all.take(j as int));
        assert(all.take(j + 1).last() == i);
        assert(best[i as int] == match outcomes[i as int] {
            Some(o) => Some(outcome(o)),
            None => None,
        });
        if let Some(Ok(r)) = &outcomes[i] {
            ok += 1;
            fastest = match fastest {
                Some(ms) => Some(
                    if r.rtt_ms < ms {
                        r.rtt_ms
                    } else {
                        ms
                    },
                ),
                None => Some(r.rtt_ms),
            };
        }
        j += 1;
    }
    assert(all.take(j as int) =~= all);
    (ok, fastest)
}

proof fn lemma_plain_weight(reasons: Seq<Option<Seq<char>>>, at: Seq<int>)
    ensures
        crate::reasons::total_weight(plain_reasons(reasons, at)) <= at.len(),
        plain_reasons(reasons, at).len() <= at.len(),
    decreases at.len(),
{
    if at.len() > 0 {
        lemma_plain_weight(reasons, at.drop_last());
        let front = plain_reasons(reasons, at.drop_last());
        if let Some(r) = reasons[at.last()] {
            assert(front.push((r, 1u128)).drop_last() =~= front);
        }
    }
}

/// The relays at `at` as they are written in the snapshot.
fn relay_texts(entries: &[Entry], at: &[usize]) -> (v: Vec<String>)
    requires
        forall|j: int| 0 <= j < at.len() ==> (#[trigger] at[j]) < entries.len(),
    ensures
        v.deep_view() == Seq::new(
            places(at@).len(),
            |i: int| relay_text(entries.deep_view()[places(at@)[i]]),
        ),
{
    let ghost es = entries.deep_view();
    let mut v: Vec<String> = Vec::new();
    let mut j: usize = 0;
    while j < at.len()
        invariant
            j <= at.len(),
            es == entries.deep_view(),
            forall|j: int| 0 <= j < at.len() ==> (#[trigger] at[j]) < entries.len(),
            v.len() == j,
            forall|k: int| 0 <= k < j ==> (#[trigger] v[k])@ == relay_text(es[at[k] as int]),
        decreases at.len() - j,
    {
        let e = &entries[at[j]];
        assert(es[at[j as int] as int] == e.deep_view());
        let s = match e.port {
            Some(port) => format_host_port(e.address.as_str(), port),
            None => e.address.clone(),
        };
        v.push(s);
        j += 1;
    }
    assert(v.deep_view() =~= Seq::new(
        places(at@).len(),
        |i: int| relay_text(entries.deep_view()[places(at@)[i]]),
    ));
    v
}

/// The identity of the relays at `at`.
fn find_owner(entries: &[Entry], at: &[usize], index: Option<&PoolIndex>) -> (r: (
    Option<crate::pools::PoolMeta>,
    usize,
))
    requires
        forall|j: int| 0 <= j < at.len() ==> (#[trigger] at[j]) < entries.len(),
        index matches Some(idx) ==> idx.wf(),
    ensures
        r.0.deep_view() == owner_of(index, addresses(entries.deep_view(), places(at@))),
        r.1 == reversed_of(index, addresses(entries.deep_view(), places(at@))),
        r.1 <= at.len(),
{
    let ghost es = entries.deep_view();
    let ghost want = addresses(es, places(at@));
    let idx = match index {
        Some(idx) => idx,
        None => {
            return (None, 0);
        },
    };
    let mut relays: Vec<(&str, Option<u16>)> = Vec::new();
    let mut j: usize = 0;
    while j < at.len()
        invariant
            j <= at.len(),
            es == entries.deep_view(),
            want == addresses(es, places(at@)),
            forall|j: int| 0 <= j < at.len() ==> (#[trigger] at[j]) < entries.len(),
            relays.len() == j,
            forall|k: int| 0 <= k < j ==> (#[trigger] relays[k]).0@ == want[k].0 && relays[k].1 == want[k].1,
        decreases at.len() - j,
    {
        let e = &entries[at[j]];
        assert(es[at[j as int] as int] == e.deep_view());
        assert(places(at@)[j as int] == at[j as int]);
        relays.push((e.address.as_str(), e.port));
        j += 1;
    }
    assert(relays.deep_view() =~= want);
    match idx.identity(relays.as_slice()) {
        Some(x) => {
            proof {
                let cast = crate::pools::owned_by(*idx, want);
                let k = choose|k: int| #[trigger] crate::pools::wins(cast, k) && x.meta.deep_view() == cast[k];
                let c = choose|k: int| crate::pools::wins(cast, k);
                crate::pools::one_winner(cast, k, c);
                crate::count::lemma_select(
                    want.len() as int,
                    crate::pools::names_reversed(*idx, want, x.meta.pool_id@),
                );
            }
            (Some(x.meta), x.reversed)
        },
        None => (None, 0),
    }
}

/// The keys of the endpoints of the entries `at`, each once, as they come.
fn find_keys(endpoints: &[Endpoint], entry_endpoints: &[Vec<usize>], at: &[usize]) -> (v: Vec<
    String,
>)
    requires
        forall|j: int| 0 <= j < at.len() ==> (#[trigger] at[j]) < entry_endpoints.len(),
        forall|e: int|
            0 <= e < entry_endpoints.len() ==> places((#[trigger] entry_endpoints[e])@) == found_at(
                endpoints.deep_view(),
                e as usize,
            ),
    ensures
        v.deep_view() == probed_keys(endpoints.deep_view(), places(at@)),
{
    let ghost eps = endpoints.deep_view();
    let ghost all = places(at@);
    let mut v: Vec<String> = Vec::new();
    let mut j: usize = 0;
    assert(all.take(0) =~= Seq::<int>::empty());
    assert(v.deep_view() =~= Seq::<Seq<char>>::empty());
    while j < at.len()
        invariant
            j <= at.len(),
            eps == endpoints.deep_view(),
            all == places(at@),
            forall|j: int| 0 <= j < at.len() ==> (#[trigger] at[j]) < entry_endpoints.len(),
            forall|e: int|
                0 <= e < entry_endpoints.len() ==> places((#[trigger] entry_endpoints[e])@)
                    == found_at(eps, e as usize),
            v.deep_view() == probed_keys(eps, all.take(j as int)),
        decreases at.len() - j,
    {
        let e: usize = at[j];
        assert(all.take(j + 1).drop_last() =~= all.take(j as int));
        assert(all.take(j + 1).last() == e);
        let xs = &entry_endpoints[e];
        let ghost found = found_at(eps, e);
        assert(places(xs@) == found);
        proof {
            crate::count::lemma_select(eps.len() as int, crate::outcomes::lists(eps, e));
        }
        let mut keys: Vec<String> = Vec::new();
        let mut k: usize = 0;
        while k < xs.len()
            invariant
                k <= xs.len(),
                eps == endpoints.deep_view(),
                places(xs@) == found,
                forall|a: int| 0 <= a < found.len() ==> 0 <= #[trigger] found[a] < eps.len(),
                keys.len() == k,
                forall|a: int| 0 <= a < k ==> (#[trigger] keys[a])@ == eps[found[a]].key,
            decreases xs.len() - k,
        {
            assert(found[k as int] == xs[k as int]);
            assert(eps[xs[k as int] as int] == endpoints[xs[k as int] as int].deep_view());
            keys.push(endpoints[xs[k]].key.clone());
            k += 1;
        }
        assert(keys.deep_view() =~= keys_at(eps, found));
        add_new(&mut v, keys.as_slice());
        j += 1;
    }
    assert(all.take(j as int) =~= all);
    v
}

/// The reasons among the entries `at`, most common first.
fn find_reasons(reasons: &[Option<&'static str>], at: &[usize]) -> (v: Vec<&'static str>)
    requires
        forall|j: int| 0 <= j < at.len() ==> (#[trigger] at[j]) < reasons.len(),
    ensures
        v.deep_view() == crate::reasons::ranked(
            plain_reasons(reasons.deep_view(), places(at@)),
        ),
{
    let ghost rs = reasons.deep_view();
    let ghost all = places(at@);
    let mut items: Vec<(&'static str, u128)> = Vec::new();
    let mut j: usize = 0;
    assert(all.take(0) =~= Seq::<int>::empty());
    assert(items.deep_view() =~= Seq::<(Seq<char>, u128)>::empty());
    while j < at.len()
        invariant
            j <= at.len(),
            rs == reasons.deep_view(),
            all == places(at@),
            forall|j: int| 0 <= j < at.len() ==> (#[trigger] at[j]) < reasons.len(),
            items.deep_view() == plain_reasons(rs, all.take(j as int)),
        decreases at.len() - j,
    {
        let e: usize = at[j];
        assert(all.take(j + 1).drop_last() =~= all.take(j as int));
        assert(all.take(j + 1).last() == e);
        assert(rs[e as int] == reasons[e as int].deep_view());
        if let Some(r) = reasons[e] {
            let ghost front = items.deep_view();
            items.push((r, 1));
            assert(items.deep_view() =~= front.push((r@, 1u128)));
        }
        j += 1;
    }
    assert(all.take(j as int) =~= all);
    proof {
        lemma_plain_weight(rs, all);
        assert(all.len() == at.len());
    }
    rank_reasons(items.as_slice())
}

/// What was found out about the entries.
pub struct Findings {
    /// Per pool, its entries.
    pub own: Vec<Vec<usize>>,
    /// Per entry, the endpoints that list it.
    pub at: Vec<Vec<usize>>,
    /// Per entry, its outcome.
    pub best: Vec<Option<Outcome>>,
    pub chances: Vec<Ratio>,
    pub reasons: Vec<Option<&'static str>>,
}

impl Findings {
    /// Are these the findings on `inputs`?
    pub open spec fn of(self, inputs: Inputs<'_>) -> bool {
        &&& self.own.len() == inputs.pools
        &&& forall|p: int|
            0 <= p < self.own.len() ==> places((#[trigger] self.own[p])@) == inputs.own(p)
        &&& self.at.len() == inputs.entries.len()
        &&& forall|e: int|
            0 <= e < self.at.len() ==> places((#[trigger] self.at[e])@) == found_at(
                inputs.endpoints,
                e as usize,
            )
        &&& outcomes_of(self.best@) == inputs.best()
        &&& self.chances@ == inputs.chances()
        &&& self.reasons.deep_view() == inputs.reasons()
    }
}

/// How the pool `p` stands.
pub fn stand(
    p: usize,
    entries: &[Entry],
    endpoints: &[Endpoint],
    index: Option<&PoolIndex>,
    f: &Findings,
    Ghost(inputs): Ghost<Inputs<'_>>,
) -> (stat: PoolStat)
    requires
        inputs.wf(),
        inputs.entries == entries.deep_view(),
        inputs.endpoints == endpoints.deep_view(),
        inputs.index == index,
        f.of(inputs),
        p < inputs.pools,
    ensures
        stat.deep_view() == inputs.stat(p as int),
{
    let own = f.own[p].as_slice();
    let ghost all = inputs.own(p as int);
    proof {
        assert(places(own@) == all);
        crate::count::lemma_select(entries.len() as int, of_pool(inputs.entries, p as int));
        assert forall|j: int| 0 <= j < own.len() implies (#[trigger] own[j]) < entries.len() by {
            assert(all[j] == own[j]);
        }
        lemma_answered_among(inputs.entries, inputs.best(), p as int, entries.len() as int);
        assert(outcomes_of(f.best@).len() == f.best.len());
        assert(f.reasons.deep_view().len() == f.reasons.len());
    }
    let (ok, fastest_rtt_ms) = answers(f.best.as_slice(), own);
    let total: usize = own.len();
    let reach = if ok == 0 {
        Reach::Unreached
    } else if ok == total {
        Reach::Full
    } else {
        Reach::Partial
    };
    let fraction = if total == 0 {
        Ratio { num: 0, den: 1 }
    } else {
        Ratio { num: ok as u64, den: total as u64 }
    };
    let mut chances: Vec<Ratio> = Vec::new();
    let mut j: usize = 0;
    while j < own.len()
        invariant
            j <= own.len(),
            places(own@) == all,
            f.chances@ == inputs.chances(),
            f.chances.len() == entries.len(),
            forall|j: int| 0 <= j < own.len() ==> (#[trigger] own[j]) < entries.len(),
            chances.len() == j,
            forall|k: int| 0 <= k < j ==> (#[trigger] chances[k]) == inputs.chances()[all[k]],
        decreases own.len() - j,
    {
        assert(all[j as int] == own[j as int]);
        chances.push(f.chances[own[j]]);
        j += 1;
    }
    let (meta, relays_reversed) = find_owner(entries, own, index);
    let stat = PoolStat {
        index: p,
        relays_total: total,
        relays_reachable: ok,
        reach,
        fraction,
        chances,
        fastest_rtt_ms,
        meta,
        relays_reversed,
        reasons: find_reasons(f.reasons.as_slice(), own),
        endpoints: find_keys(endpoints, f.at.as_slice(), own),
        relays: relay_texts(entries, own),
    };
    proof {
        let want = inputs.stat(p as int);
        assert(stat.deep_view().chances =~= want.chances);
        assert(stat.deep_view().relays =~= want.relays);
    }
    stat
}

/// How many of the first `n` entries each pool has.
pub open spec fn sizes(entries: Seq<EntryView>, n: int) -> spec_fn(int) -> nat {
    |p: int| crate::count::count(n, of_pool(entries, p))
}

/// Every entry is of one pool.
pub proof fn pools_share_out_the_entries(entries: Seq<EntryView>, pools: nat, n: int)
    requires
        0 <= n <= entries.len(),
        forall|i: int| 0 <= i < entries.len() ==> (#[trigger] entries[i]).pool < pools,
    ensures
        crate::count::sum_below(pools as int, sizes(entries, n)) == n,
    decreases n,
{
    if n == 0 {
        lemma_all_zero(pools as int, sizes(entries, 0));
    } else {
        pools_share_out_the_entries(entries, pools, n - 1);
        let q = entries[n - 1].pool as int;
        crate::count::lemma_sum_step(
            pools as int,
            sizes(entries, n),
            sizes(entries, n - 1),
            q,
        );
    }
}

proof fn lemma_all_zero(n: int, f: spec_fn(int) -> nat)
    requires
        forall|i: int| 0 <= i < n ==> #[trigger] f(i) == 0,
    ensures
        crate::count::sum_below(n, f) == 0,
    decreases n,
{
    if n > 0 {
        lemma_all_zero(n - 1, f);
    }
}

/// A reason is ranked once, so there are no more of them than were given.
proof fn lemma_ranked_len(items: Seq<(Seq<char>, u128)>)
    ensures
        crate::reasons::ranked(items).len() <= items.len(),
{
    crate::sort::lemma_sorted_by_multiset(
        crate::reasons::weighed(items),
        crate::reasons::heavier(),
    );
    crate::table::distinct_names_are_those_held(crate::reasons::reasons_in(items));
}

/// No pool has more answering relays than relays.
pub proof fn lemma_ok_bounded(inputs: Inputs<'_>, p: int)
    ensures
        inputs.ok(p) <= inputs.total(p),
{
    crate::count::lemma_count_grows(
        inputs.entries.len() as int,
        ok_of_pool(inputs.entries, inputs.best(), p),
        of_pool(inputs.entries, p),
    );
}

/// What the pools of a census add up to is bounded by the number of entries.
pub proof fn lemma_stats_fit(inputs: Inputs<'_>)
    requires
        inputs.wf(),
    ensures
        crate::operators::sums_fit(inputs.stats()),
{
    let stats = inputs.stats();
    let n = inputs.pools as int;
    let size = sizes(inputs.entries, inputs.entries.len() as int);
    pools_share_out_the_entries(inputs.entries, inputs.pools, inputs.entries.len() as int);
    let sum = crate::count::sum_below(n, size);
    assert forall|p: int| 0 <= p < n implies {
        &&& #[trigger] crate::operators::totals(stats)(p) <= size(p)
        &&& crate::operators::reachables(stats)(p) <= size(p)
        &&& crate::operators::reverseds(stats)(p) <= size(p)
        &&& crate::operators::reason_squares(stats)(p) <= size(p) * size(p)
    } by {
        crate::count::lemma_select(inputs.entries.len() as int, of_pool(inputs.entries, p));
        lemma_ok_bounded(inputs, p);
        assert(inputs.total(p) == size(p));
        let own = inputs.own(p);
        let relays = addresses(inputs.entries, own);
        if let Some(idx) = inputs.index {
            if let Some(m) = owner_of(inputs.index, relays) {
                crate::count::lemma_select(
                    relays.len() as int,
                    crate::pools::names_reversed(*idx, relays, m.pool_id),
                );
            }
        }
        let items = plain_reasons(inputs.reasons(), own);
        lemma_plain_weight(inputs.reasons(), own);
        lemma_ranked_len(items);
        let k = stats[p].reasons.len();
        let x = size(p);
        assert(k <= x);
        assert(k * k <= x * x) by (nonlinear_arith)
            requires
                k <= x,
        ;
    }
    assert forall|p: int| 0 <= p < n implies #[trigger] crate::operators::reachables(stats)(p)
        <= size(p) by {
        assert(crate::operators::totals(stats)(p) <= size(p));
    }
    assert forall|p: int| 0 <= p < n implies #[trigger] crate::operators::reverseds(stats)(p)
        <= size(p) by {
        assert(crate::operators::totals(stats)(p) <= size(p));
    }
    assert forall|p: int| 0 <= p < n implies #[trigger] crate::operators::reason_squares(stats)(p)
        <= size(p) * size(p) by {
        assert(crate::operators::totals(stats)(p) <= size(p));
    }
    crate::count::lemma_sum_pointwise(n, crate::operators::totals(stats), size);
    crate::count::lemma_sum_pointwise(n, crate::operators::reachables(stats), size);
    crate::count::lemma_sum_pointwise(n, crate::operators::reverseds(stats), size);
    crate::count::lemma_sum_squares(n, crate::operators::reason_squares(stats), size);
    assert(sum * sum <= u128::MAX) by (nonlinear_arith)
        requires
            0 <= sum <= usize::MAX,
            usize::MAX <= 0xffff_ffff_ffff_ffff,
    ;
}

} // verus!
