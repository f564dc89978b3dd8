//! The report: one record per relay entry, under its pool.

use vstd::prelude::*;

use crate::asn::{AsInfo, AsInfoView};
use crate::census::Census;
use crate::churn::{PrevRelayView, PrevState, Runs};
use crate::histogram::{places, Ratio};
use crate::ip::write_addr;
use crate::operators::Reach;
use crate::outcomes::{best_outcomes, endpoints_by_entry, found_at};
use crate::probe::{outcome, outcomes_of, Family, Outcome, Stage, Tip, TipView};
use crate::resolve::{Endpoint, EndpointView, Entry};
use crate::snapshot::Snapshot;
use crate::standing::{entries_by_pool, keys_at, Inputs};
use crate::text::string_of;

verus! {

/// What is reported of one relay entry.
#[derive(Clone, Debug)]
pub struct RelayReport {
    pub address: String,
    pub port: Option<u16>,
    /// The endpoints it was probed at.
    pub endpoints: Vec<String>,
    /// Does another entry share one of them?
    pub shared_endpoint: bool,
    pub reachable: bool,
    pub peer: Option<String>,
    pub family: Option<Family>,
    pub n2n_version: Option<String>,
    pub tip: Option<Tip>,
    pub rtt_ms: Option<u64>,
    pub asn: Option<u32>,
    pub stage: Option<Stage>,
    pub error: Option<String>,
}

pub struct RelayReportView {
    pub address: Seq<char>,
    pub port: Option<u16>,
    pub endpoints: Seq<Seq<char>>,
    pub shared_endpoint: bool,
    pub reachable: bool,
    pub peer: Option<Seq<char>>,
    pub family: Option<Family>,
    pub n2n_version: Option<Seq<char>>,
    pub tip: Option<TipView>,
    pub rtt_ms: Option<u64>,
    pub asn: Option<u32>,
    pub stage: Option<Stage>,
    pub error: Option<Seq<char>>,
}

impl DeepView for RelayReport {
    type V = RelayReportView;

    open spec fn deep_view(&self) -> RelayReportView {
        RelayReportView {
            address: self.address@,
            port: self.port,
            endpoints: self.endpoints.deep_view(),
            shared_endpoint: self.shared_endpoint,
            reachable: self.reachable,
            peer: self.peer.deep_view(),
            family: self.family,
            n2n_version: self.n2n_version.deep_view(),
            tip: self.tip.deep_view(),
            rtt_ms: self.rtt_ms,
            asn: self.asn,
            stage: self.stage,
            error: self.error.deep_view(),
        }
    }
}

/// What is reported of one pool.
pub struct PoolReport<'a, S> {
    pub index: usize,
    pub accumulated_stake: &'a S,
    pub relative_stake: &'a S,
    pub relays_total: usize,
    pub relays_reachable: usize,
    pub reach: Reach,
    pub fraction: Ratio,
    pub fastest_rtt_ms: Option<u64>,
    pub relays: Vec<RelayReport>,
}

/// Is one of the endpoints `xs` of several entries?
pub open spec fn is_shared(endpoints: Seq<EndpointView>, xs: Seq<int>) -> bool {
    exists|j: int| 0 <= j < xs.len() && endpoints[#[trigger] xs[j]].entries.len() > 1
}

/// The number of an autonomous system that may be unknown.
pub open spec fn number_of(a: Option<AsInfoView>) -> Option<u32> {
    match a {
        Some(a) => Some(a.asn),
        None => None,
    }
}

/// What is reported of the entry `e`: where it was probed, and its best
/// outcome.
pub open spec fn relay_of(inputs: Inputs<'_>, asn: Seq<Option<AsInfoView>>, e: int) -> RelayReportView {
    let xs = found_at(inputs.endpoints, e as usize);
    let bare = RelayReportView {
        address: inputs.entries[e].address,
        port: inputs.entries[e].port,
        endpoints: keys_at(inputs.endpoints, xs),
        shared_endpoint: is_shared(inputs.endpoints, xs),
        reachable: false,
        peer: None,
        family: None,
        n2n_version: None,
        tip: None,
        rtt_ms: None,
        asn: number_of(asn[e]),
        stage: None,
        error: None,
    };
    match inputs.best()[e] {
        Some(Ok(r)) => RelayReportView {
            reachable: true,
            peer: Some(crate::ip::addr_text(r.peer)),
            family: Some(r.family),
            n2n_version: Some(r.n2n_version),
            tip: Some(r.tip),
            rtt_ms: Some(r.rtt_ms),
            ..bare
        },
        Some(Err(f)) => RelayReportView { stage: Some(f.stage), error: Some(f.error), ..bare },
        None => bare,
    }
}

/// What is reported of the entries of the pool `p`.
pub open spec fn relays_of(
    inputs: Inputs<'_>,
    asn: Seq<Option<AsInfoView>>,
    p: int,
) -> Seq<RelayReportView> {
    Seq::new(inputs.own(p).len(), |i: int| relay_of(inputs, asn, inputs.own(p)[i]))
}

/// Does `row` report on the pool `p`?
pub open spec fn reports_pool<S>(
    row: PoolReport<'_, S>,
    c: Census,
    snap: Snapshot<S>,
    relays: Seq<RelayReportView>,
    p: int,
) -> bool {
    let stat = c.pools[p];
    &&& row.index == stat.index
    &&& *row.accumulated_stake == snap.pools[stat.index as int].accumulated_stake
    &&& *row.relative_stake == snap.pools[stat.index as int].relative_stake
    &&& row.relays_total == stat.relays_total
    &&& row.relays_reachable == stat.relays_reachable
    &&& row.reach == stat.reach
    &&& row.fraction == stat.fraction
    &&& row.fastest_rtt_ms == stat.fastest_rtt_ms
    &&& row.relays.deep_view() == relays
}

/// The keys of the endpoints `xs`, and whether one of them is shared.
fn find_endpoints(endpoints: &[Endpoint], xs: &[usize]) -> (r: (Vec<String>, bool))
    requires
        forall|j: int| 0 <= j < xs.len() ==> (#[trigger] xs[j]) < endpoints.len(),
    ensures
        r.0.deep_view() == keys_at(endpoints.deep_view(), places(xs@)),
        r.1 == is_shared(endpoints.deep_view(), places(xs@)),
{
    let ghost eps = endpoints.deep_view();
    let ghost at = places(xs@);
    let mut keys: Vec<String> = Vec::new();
    let mut shared: bool = false;
    let mut j: usize = 0;
    while j < xs.len()
        invariant
            j <= xs.len(),
            eps == endpoints.deep_view(),
            at == places(xs@),
            forall|j: int| 0 <= j < xs.len() ==> (#[trigger] xs[j]) < endpoints.len(),
            keys.len() == j,
            forall|k: int| 0 <= k < j ==> (#[trigger] keys[k])@ == eps[at[k]].key,
            shared == exists|k: int| 0 <= k < j && eps[#[trigger] at[k]].entries.len() > 1,
        decreases xs.len() - j,
    {
        let ep = &endpoints[xs[j]];
        assert(at[j as int] == xs[j as int]);
        assert(eps[at[j as int]] == ep.deep_view());
        keys.push(ep.key.clone());
        if ep.entries.len() > 1 {
            shared = true;
        }
        j += 1;
    }
    assert(keys.deep_view() =~= keys_at(eps, at));
    (keys, shared)
}

/// What is reported of an entry.
fn relay_report(
    e: &Entry,
    endpoints: &[Endpoint],
    xs: &[usize],
    best: &Option<Outcome>,
    asn: &Option<AsInfo>,
    Ghost(inputs): Ghost<Inputs<'_>>,
    Ghost(asns): Ghost<Seq<Option<AsInfoView>>>,
    Ghost(i): Ghost<int>,
) -> (r: RelayReport)
    requires
        forall|j: int| 0 <= j < xs.len() ==> (#[trigger] xs[j]) < endpoints.len(),
        inputs.entries[i] == e.deep_view(),
        inputs.endpoints == endpoints.deep_view(),
        places(xs@) == found_at(inputs.endpoints, i as usize),
        inputs.best()[i] == (match *best {
            Some(o) => Some(outcome(o)),
            None => None,
        }),
        asns[i] == asn.deep_view(),
    ensures
        r.deep_view() == relay_of(inputs, asns, i),
{
    let (keys, shared_endpoint) = find_endpoints(endpoints, xs);
    let mut r = RelayReport {
        address: e.address.clone(),
        port: e.port,
        endpoints: keys,
        shared_endpoint,
        reachable: false,
        peer: None,
        family: None,
        n2n_version: None,
        tip: None,
        rtt_ms: None,
        asn: match asn {
            Some(a) => Some(a.asn),
            None => None,
        },
        stage: None,
        error: None,
    };
    match best {
        Some(Ok(ok)) => {
            let ok = ok.copy();
            r.reachable = true;
            r.peer = Some(string_of(write_addr(ok.peer).as_slice()));
            r.family = Some(ok.family);
            r.n2n_version = Some(ok.n2n_version);
            r.tip = Some(ok.tip);
            r.rtt_ms = Some(ok.rtt_ms);
        },
        Some(Err(f)) => {
            r.stage = Some(f.stage);
            r.error = Some(f.error.clone());
        },
        None => {},
    }
    r
}

/// What is reported of the pools and their relay entries.
pub fn rows<'a, S>(
    census: &Census,
    snap: &'a Snapshot<S>,
    entries: &[Entry],
    endpoints: &[Endpoint],
    outcomes: &[Option<Outcome>],
    srv_errors: &[Option<String>],
) -> (v: Vec<PoolReport<'a, S>>)
    requires
        outcomes.len() >= endpoints.len(),
        srv_errors.len() <= entries.len(),
        census.entry_asn.len() >= entries.len(),
        crate::outcomes::lists_entries(endpoints.deep_view(), entries.len() as nat),
        forall|i: int|
            0 <= i < entries.len() ==> (#[trigger] entries[i]).pool < census.pools.len(),
        forall|p: int|
            0 <= p < census.pools.len() ==> (#[trigger] census.pools[p]).index < snap.pools.len(),
    ensures
        v.len() == census.pools.len(),
        forall|p: int|
            0 <= p < v.len() ==> reports_pool(
                #[trigger] v[p],
                *census,
                *snap,
                relays_of(
                    run_of(
                        census.pools.len() as nat,
                        entries,
                        endpoints,
                        outcomes,
                        srv_errors,
                    ),
                    census.entry_asn.deep_view(),
                    p,
                ),
                p,
            ),
{
    let ghost inputs = run_of(
        census.pools.len() as nat,
        entries,
        endpoints,
        outcomes,
        srv_errors,
    );
    let ghost asns = census.entry_asn.deep_view();
    let best = best_outcomes(entries, endpoints, outcomes, srv_errors);
    let at = endpoints_by_entry(entries.len(), endpoints);
    let own = entries_by_pool(entries, census.pools.len());
    assert(outcomes_of(best@) == inputs.best());
    assert(outcomes_of(best@).len() == best.len());
    let mut v: Vec<PoolReport<'a, S>> = Vec::new();
    let mut p: usize = 0;
    while p < census.pools.len()
        invariant
            p <= census.pools.len(),
            inputs == run_of(
                census.pools.len() as nat,
                entries,
                endpoints,
                outcomes,
                srv_errors,
            ),
            asns == census.entry_asn.deep_view(),
            census.entry_asn.len() >= entries.len(),
            outcomes_of(best@) == inputs.best(),
            best.len() == entries.len(),
            at.len() == entries.len(),
            forall|e: int|
                0 <= e < entries.len() ==> places((#[trigger] at[e])@) == found_at(
                    endpoints.deep_view(),
                    e as usize,
                ),
            own.len() == census.pools.len(),
            forall|q: int|
                0 <= q < own.len() ==> places((#[trigger] own[q])@) == inputs.own(q),
            forall|q: int|
                0 <= q < census.pools.len() ==> (#[trigger] census.pools[q]).index
                    < snap.pools.len(),
            v.len() == p,
            forall|q: int|
                0 <= q < p ==> reports_pool(
                    #[trigger] v[q],
                    *census,
                    *snap,
                    relays_of(inputs, asns, q),
                    q,
                ),
        decreases census.pools.len() - p,
    {
        let mine = own[p].as_slice();
        let ghost all = inputs.own(p as int);
        proof {
            assert(places(mine@) == all);
            crate::count::lemma_select(
                entries.len() as int,
                crate::standing::of_pool(inputs.entries, p as int),
            );
        }
        let mut relays: Vec<RelayReport> = Vec::new();
        let mut j: usize = 0;
        while j < mine.len()
            invariant
                j <= mine.len(),
                inputs == run_of(
                    census.pools.len() as nat,
                    entries,
                    endpoints,
                    outcomes,
                    srv_errors,
                ),
                asns == census.entry_asn.deep_view(),
                census.entry_asn.len() >= entries.len(),
                outcomes_of(best@) == inputs.best(),
                best.len() == entries.len(),
                at.len() == entries.len(),
                forall|e: int|
                    0 <= e < entries.len() ==> places((#[trigger] at[e])@) == found_at(
                        endpoints.deep_view(),
                        e as usize,
                    ),
                places(mine@) == all,
                forall|k: int| 0 <= k < all.len() ==> 0 <= #[trigger] all[k] < entries.len(),
                relays.len() == j,
                forall|k: int|
                    0 <= k < j ==> (#[trigger] relays[k]).deep_view() == relay_of(
                        inputs,
                        asns,
                        all[k],
                    ),
            decreases mine.len() - j,
        {
            let e: usize = mine[j];
            assert(all[j as int] == e);
            let xs = at[e].as_slice();
            proof {
                assert(places(xs@) == found_at(inputs.endpoints, e));
                crate::count::lemma_select(
                    endpoints.len() as int,
                    crate::outcomes::lists(inputs.endpoints, e),
                );
                assert forall|k: int| 0 <= k < xs.len() implies (#[trigger] xs[k])
                    < endpoints.len() by {
                    assert(places(xs@)[k] == xs[k]);
                }
                assert(inputs.entries[e as int] == entries[e as int].deep_view());
                assert(asns[e as int] == census.entry_asn[e as int].deep_view());
            }
            relays.push(
                relay_report(
                    &entries[e],
                    endpoints,
                    xs,
                    &best[e],
                    &census.entry_asn[e],
                    Ghost(inputs),
                    Ghost(asns),
                    Ghost(e as int),
                ),
            );
            j += 1;
        }
        assert(relays.deep_view() =~= relays_of(inputs, asns, p as int));
        let stat = &census.pools[p];
        let pool = &snap.pools[stat.index];
        v.push(
            PoolReport {
                index: stat.index,
                accumulated_stake: &pool.accumulated_stake,
                relative_stake: &pool.relative_stake,
                relays_total: stat.relays_total,
                relays_reachable: stat.relays_reachable,
                reach: stat.reach,
                fraction: stat.fraction,
                fastest_rtt_ms: stat.fastest_rtt_ms,
                relays,
            },
        );
        p += 1;
    }
    v
}

/// What the probes of a run brought in.
pub open spec fn run_of<'a>(
    pools: nat,
    entries: &[Entry],
    endpoints: &[Endpoint],
    outcomes: &[Option<Outcome>],
    srv_errors: &[Option<String>],
) -> Inputs<'a> {
    Inputs {
        pools,
        entries: entries.deep_view(),
        endpoints: endpoints.deep_view(),
        outcomes: outcomes_of(outcomes@),
        srv_errors: srv_errors.deep_view(),
        reversed: Seq::empty(),
        db: None,
        index: None,
    }
}

/// What the next run reads of a relay's record.
pub open spec fn read_back(r: RelayReportView) -> PrevRelayView {
    PrevRelayView { address: r.address, port: r.port, reachable: r.reachable, asn: r.asn }
}

/// A run that is compared with its own report shows no change, as long as the
/// entries of one relay all saw the same.
pub proof fn a_report_compares_equal(
    inputs: Inputs<'_>,
    asn: Seq<Option<AsInfoView>>,
    relays: Seq<PrevRelayView>,
    e: int,
)
    requires
        0 <= e < inputs.entries.len(),
        asn.len() == inputs.entries.len(),
        forall|i: int|
            0 <= i < inputs.entries.len() ==> relays.contains(
                read_back(#[trigger] relay_of(inputs, asn, i)),
            ),
        forall|k: int|
            0 <= k < relays.len() ==> exists|i: int|
                0 <= i < inputs.entries.len() && #[trigger] relays[k] == read_back(
                    #[trigger] relay_of(inputs, asn, i),
                ),
        forall|i: int, j: int|
            0 <= i < inputs.entries.len() && 0 <= j < inputs.entries.len()
                && crate::churn::entry_keys(inputs.entries)[i] == crate::churn::entry_keys(
                inputs.entries,
            )[j] ==> read_back(#[trigger] relay_of(inputs, asn, i)).reachable == read_back(
                #[trigger] relay_of(inputs, asn, j),
            ).reachable && number_of(asn[i]) == number_of(asn[j]),
    ensures
        ({
            let runs = Runs {
                keys: crate::churn::entry_keys(inputs.entries),
                previous: crate::churn::states_of(relays),
                reached: crate::churn::answered(inputs.best()),
                asn: crate::churn::numbers(asn),
            };
            &&& runs.known(e)
            &&& runs.change(e) is None
            &&& !runs.moved(e)
        }),
{
    let keys = crate::churn::entry_keys(inputs.entries);
    let key = keys[e];
    let mine = read_back(relay_of(inputs, asn, e));
    crate::churn::states_come_from_the_report(relays, key);
    assert(relays.contains(mine));
    let m = relays.index_of(mine);
    assert(crate::churn::prev_key(relays[m]) == key);
    let states = crate::churn::states_of(relays);
    assert(states.contains_key(key));
    let k = choose|k: int|
        0 <= k < relays.len() && crate::churn::prev_key(#[trigger] relays[k]) == key
            && states[key] == (PrevState { reachable: relays[k].reachable, asn: relays[k].asn });
    let i = choose|i: int|
        0 <= i < inputs.entries.len() && #[trigger] relays[k] == read_back(
            #[trigger] relay_of(inputs, asn, i),
        );
    assert(relays[k] == read_back(relay_of(inputs, asn, i)));
    assert(keys[i] == key);
    assert(read_back(relay_of(inputs, asn, i)).reachable == mine.reachable);
}

} // verus!
