//! What the figures of a census say of the run: each in terms of the relays,
//! the pools and what came of their probes.

use vstd::prelude::*;

use crate::census::{counts_relays, says_source, weighs_pools, Census};
use crate::count::{count, lemma_select, lemma_select_same, select, sum_below};
use crate::operators::Reach;
use crate::probe::{Family, OutcomeView, Stage};
use crate::snapshot::Snapshot;
use crate::standing::Inputs;

verus! {

// Relays.

/// A relay that answered over IPv6 counts as reachable over IPv6 and not over
/// IPv4, one that answered over IPv4 the other way round, and one that did not
/// answer counts for neither.
pub proof fn families_count_who_answered_over_them(c: Census, inputs: Inputs<'_>)
    requires
        counts_relays(c, inputs),
    ensures
        ({
            let n = inputs.entries.len() as int;
            let best = inputs.best();
            &&& c.relays_reachable_v4 == count(
                n,
                |i: int| best[i] matches Some(Ok(r)) && r.family is V4,
            )
            &&& c.relays_reachable_v6 == count(
                n,
                |i: int| best[i] matches Some(Ok(r)) && r.family is V6,
            )
            &&& c.relays_reachable_v4 + c.relays_reachable_v6 == count(
                n,
                |i: int| best[i] matches Some(Ok(_)),
            )
            &&& (forall|i: int| 0 <= i < n ==> (#[trigger] best[i] matches Some(Ok(r)) ==> r.family is V6))
                ==> c.relays_reachable_v4 == 0
            &&& (forall|i: int| 0 <= i < n ==> (#[trigger] best[i] matches Some(Ok(r)) ==> r.family is V4))
                ==> c.relays_reachable_v6 == 0
        }),
{
    let n = inputs.entries.len() as int;
    let best = inputs.best();
    let four = |i: int| best[i] matches Some(Ok(r)) && r.family is V4;
    let six = |i: int| best[i] matches Some(Ok(r)) && r.family is V6;
    lemma_select_same(n, four, crate::tally::from_family(best, Family::V4));
    lemma_select_same(n, six, crate::tally::from_family(best, Family::V6));
    lemma_count_split(n, |i: int| best[i] matches Some(Ok(_)), four, six);
    lemma_select(n, four);
    lemma_select(n, six);
    if c.relays_reachable_v4 > 0 {
        let e = select(n, four)[0];
        assert(four(e));
    }
    if c.relays_reachable_v6 > 0 {
        let e = select(n, six)[0];
        assert(six(e));
    }
}

/// Where every tip has the family of the peer that it came from, as a probe
/// gives it, the families count the peers.
pub proof fn families_are_those_of_the_peers(c: Census, inputs: Inputs<'_>)
    requires
        counts_relays(c, inputs),
        forall|i: int|
            0 <= i < inputs.entries.len() ==> (#[trigger] inputs.best()[i] matches Some(Ok(r)) ==> (
            r.family is V6 <==> r.peer.ip is V6)),
    ensures
        c.relays_reachable_v6 == count(
            inputs.entries.len() as int,
            |i: int| inputs.best()[i] matches Some(Ok(r)) && r.peer.ip is V6,
        ),
        c.relays_reachable_v4 == count(
            inputs.entries.len() as int,
            |i: int| inputs.best()[i] matches Some(Ok(r)) && r.peer.ip is V4,
        ),
{
    let n = inputs.entries.len() as int;
    let best = inputs.best();
    families_count_who_answered_over_them(c, inputs);
    lemma_select_same(
        n,
        |i: int| best[i] matches Some(Ok(r)) && r.family is V6,
        |i: int| inputs.best()[i] matches Some(Ok(r)) && r.peer.ip is V6,
    );
    lemma_select_same(
        n,
        |i: int| best[i] matches Some(Ok(r)) && r.family is V4,
        |i: int| inputs.best()[i] matches Some(Ok(r)) && r.peer.ip is V4,
    );
}

/// What has `p` is what has one of `q` and `r`, which nothing has both of.
proof fn lemma_count_split(
    n: int,
    p: spec_fn(int) -> bool,
    q: spec_fn(int) -> bool,
    r: spec_fn(int) -> bool,
)
    requires
        forall|i: int| 0 <= i < n ==> #[trigger] p(i) == (q(i) || r(i)) && !(q(i) && r(i)),
    ensures
        count(n, p) == count(n, q) + count(n, r),
    decreases n,
{
    if n > 0 {
        lemma_count_split(n - 1, p, q, r);
        assert(p(n - 1) == (q(n - 1) || r(n - 1)));
    }
}

/// Every relay that failed is counted once, at the stage that it failed at.
pub proof fn failures_count_at_their_stage(c: Census, inputs: Inputs<'_>)
    requires
        counts_relays(c, inputs),
    ensures
        ({
            let n = inputs.entries.len() as int;
            let best = inputs.best();
            &&& forall|k: int|
                0 <= k < c.relays_failed.len() ==> (#[trigger] c.relays_failed[k]).1 == count(
                    n,
                    |i: int|
                        best[i] matches Some(Err(f)) && f.stage == c.relays_failed[k].0,
                )
            &&& sum_below(c.relays_failed.len() as int, |k: int| c.relays_failed[k].1 as nat)
                == count(n, |i: int| best[i] matches Some(Err(_)))
            &&& c.relays_total == count(n, |i: int| best[i] matches Some(Ok(_))) + count(
                n,
                |i: int| best[i] matches Some(Err(_)),
            ) + count(n, |i: int| best[i] is None)
        }),
{
    let n = inputs.entries.len() as int;
    let best = inputs.best();
    let v = c.relays_failed@;
    assert(best.len() == n);
    assert forall|k: int| 0 <= k < v.len() implies (#[trigger] v[k]).1 == count(
        n,
        |i: int| best[i] matches Some(Err(f)) && f.stage == v[k].0,
    ) by {
        lemma_select_same(
            n,
            |i: int| best[i] matches Some(Err(f)) && f.stage == v[k].0,
            crate::tally::failed_at(best, Stage::ALL@[k]),
        );
    }
    assert forall|k: int| 0 <= k < c.relays_failed.len() implies (
    #[trigger] c.relays_failed[k]).1 == count(
        n,
        |i: int| best[i] matches Some(Err(f)) && f.stage == c.relays_failed[k].0,
    ) by {
        assert(v[k] == c.relays_failed[k]);
        lemma_select_same(
            n,
            |i: int| best[i] matches Some(Err(f)) && f.stage == c.relays_failed[k].0,
            |i: int| best[i] matches Some(Err(f)) && f.stage == v[k].0,
        );
    }
    lemma_stages(best, n);
    let by = |k: int| count(n, crate::tally::failed_at(best, Stage::ALL@[k]));
    lemma_sum_same(6, |k: int| c.relays_failed[k].1 as nat, by);
    lemma_outcomes(best, n);
}

proof fn lemma_sum_same(n: int, f: spec_fn(int) -> nat, g: spec_fn(int) -> nat)
    requires
        forall|i: int| 0 <= i < n ==> #[trigger] f(i) == g(i),
    ensures
        sum_below(n, f) == sum_below(n, g),
    decreases n,
{
    if n > 0 {
        lemma_sum_same(n - 1, f, g);
    }
}

proof fn lemma_stages(best: Seq<Option<OutcomeView>>, n: int)
    ensures
        sum_below(6, |k: int| count(n, crate::tally::failed_at(best, Stage::ALL@[k]))) == count(
            n,
            |i: int| best[i] matches Some(Err(_)),
        ),
    decreases n,
{
    reveal_with_fuel(sum_below, 7);
    let f = |k: int| count(n, crate::tally::failed_at(best, Stage::ALL@[k]));
    assert(Stage::ALL@ =~= seq![
        Stage::Srv,
        Stage::Dns,
        Stage::Address,
        Stage::Connect,
        Stage::Handshake,
        Stage::Chainsync,
    ]);
    assert(sum_below(6, f) == f(0) + f(1) + f(2) + f(3) + f(4) + f(5));
    if n > 0 {
        lemma_stages(best, n - 1);
        let g = |k: int| count(n - 1, crate::tally::failed_at(best, Stage::ALL@[k]));
        assert(sum_below(6, g) == g(0) + g(1) + g(2) + g(3) + g(4) + g(5));
        if let Some(Err(x)) = best[n - 1] {
            assert(x.stage is Srv || x.stage is Dns || x.stage is Address || x.stage is Connect
                || x.stage is Handshake || x.stage is Chainsync);
        }
    }
}

proof fn lemma_outcomes(best: Seq<Option<OutcomeView>>, n: int)
    requires
        n >= 0,
    ensures
        count(n, |i: int| best[i] matches Some(Ok(_))) + count(
            n,
            |i: int| best[i] matches Some(Err(_)),
        ) + count(n, |i: int| best[i] is None) == n,
    decreases n,
{
    if n > 0 {
        lemma_outcomes(best, n - 1);
    }
}

/// Relays, SRV names, endpoints and what was dialled are counted as they are.
pub proof fn relays_and_endpoints_are_counted(c: Census, inputs: Inputs<'_>)
    requires
        counts_relays(c, inputs),
    ensures
        c.relays_total == inputs.entries.len(),
        c.relays_srv == count(
            inputs.entries.len() as int,
            |i: int| inputs.entries[i].port is None,
        ),
        c.endpoints_total == inputs.endpoints.len(),
        c.endpoints_remembered == count(
            inputs.endpoints.len() as int,
            |x: int| inputs.endpoints[x].remembered,
        ),
        c.endpoints_probed == count(
            inputs.outcomes.len() as int,
            |x: int|
                match inputs.outcomes[x] {
                    Some(Err(f)) => !(f.stage is Dns) && !(f.stage is Address)
                        && !crate::text::ends(f.error, "not probed"@),
                    _ => true,
                },
        ),
        c.srv_endpoints_total == count(
            inputs.endpoints.len() as int,
            |x: int|
                exists|j: int|
                    0 <= j < inputs.endpoints[x].entries.len()
                        && inputs.entries[#[trigger] inputs.endpoints[x].entries[j] as int].port
                        is None,
        ),
        c.srv_endpoints_reachable == count(
            inputs.endpoints.len() as int,
            |x: int|
                inputs.outcomes[x] matches Some(Ok(_)) && exists|j: int|
                    0 <= j < inputs.endpoints[x].entries.len()
                        && inputs.entries[#[trigger] inputs.endpoints[x].entries[j] as int].port
                        is None,
        ),
{
    let n = inputs.entries.len() as int;
    let x = inputs.endpoints.len() as int;
    lemma_select_same(
        n,
        |i: int| inputs.entries[i].port is None,
        crate::resolve::is_srv_at(inputs.entries),
    );
    lemma_select_same(
        x,
        |x: int| inputs.endpoints[x].remembered,
        crate::tally::remembered(inputs.endpoints),
    );
    lemma_select_same(
        inputs.outcomes.len() as int,
        |x: int|
            match inputs.outcomes[x] {
                Some(Err(f)) => !(f.stage is Dns) && !(f.stage is Address) && !crate::text::ends(
                    f.error,
                    "not probed"@,
                ),
                _ => true,
            },
        crate::tally::dialled(inputs.outcomes),
    );
    let srv = |x: int|
        exists|j: int|
            0 <= j < inputs.endpoints[x].entries.len()
                && inputs.entries[#[trigger] inputs.endpoints[x].entries[j] as int].port is None;
    let live = |x: int|
        inputs.outcomes[x] matches Some(Ok(_)) && exists|j: int|
            0 <= j < inputs.endpoints[x].entries.len()
                && inputs.entries[#[trigger] inputs.endpoints[x].entries[j] as int].port is None;
    lemma_select_same(
        x,
        srv,
        crate::census::srv_targets(inputs.entries, inputs.endpoints, None),
    );
    lemma_select_same(
        x,
        live,
        crate::census::srv_answers(inputs.entries, inputs.endpoints, inputs.outcomes, None),
    );
}

/// Is the endpoint `x` listed for an SRV entry of the name `k`?
pub open spec fn leads_to(inputs: Inputs<'_>, k: Seq<char>, x: int) -> bool {
    exists|j: int|
        0 <= j < inputs.endpoints[x].entries.len() && {
            let e = inputs.entries[#[trigger] inputs.endpoints[x].entries[j] as int];
            e.port is None && e.address == k
        }
}

/// Every SRV name has one set, which counts the endpoints that it leads to and
/// those of them that answered.
pub proof fn srv_sets_count_their_targets(c: Census, inputs: Inputs<'_>, k: int)
    requires
        counts_relays(c, inputs),
        0 <= k < c.srv_sets.len(),
    ensures
        c.srv_sets[k].1.targets == count(
            inputs.endpoints.len() as int,
            |x: int| leads_to(inputs, c.srv_sets[k].0@, x),
        ),
        c.srv_sets[k].1.reachable == count(
            inputs.endpoints.len() as int,
            |x: int|
                leads_to(inputs, c.srv_sets[k].0@, x) && inputs.outcomes[x] matches Some(Ok(_)),
        ),
        exists|e: int|
            0 <= e < inputs.entries.len() && (#[trigger] inputs.entries[e]).port is None
                && inputs.entries[e].address == c.srv_sets[k].0@ && c.srv_sets[k].1.reach_probability
                == inputs.chances()[e],
{
    let name = c.srv_sets[k].0@;
    let n = inputs.endpoints.len() as int;
    let entries = inputs.entries;
    lemma_select_same(
        n,
        |x: int| leads_to(inputs, c.srv_sets[k].0@, x),
        crate::census::srv_targets(entries, inputs.endpoints, Some(name)),
    );
    lemma_select_same(
        n,
        |x: int| leads_to(inputs, c.srv_sets[k].0@, x) && inputs.outcomes[x] matches Some(Ok(_)),
        crate::census::srv_answers(entries, inputs.endpoints, inputs.outcomes, Some(name)),
    );
    let names = crate::census::srv_names(entries);
    crate::table::distinct_names_are_those_held(names);
    assert(crate::table::distinct_names(names).contains(crate::table::distinct_names(names)[k]));
    lemma_srv_name(entries, name);
    let p = crate::census::srv_named(entries, name);
    lemma_select(entries.len() as int, p);
    let e = choose|e: int|
        0 <= e < entries.len() && (#[trigger] entries[e]).port is None && entries[e].address
            == name;
    assert(p(e));
    assert(select(entries.len() as int, p).contains(e));
    let last = select(entries.len() as int, p).last();
    assert(p(last));
    assert(inputs.entries[last].port is None);
}

/// The names of the sets are those of the SRV entries, each once.
pub proof fn every_srv_name_has_one_set(c: Census, inputs: Inputs<'_>, e: int)
    requires
        counts_relays(c, inputs),
        0 <= e < inputs.entries.len(),
        inputs.entries[e].port is None,
    ensures
        exists|k: int|
            0 <= k < c.srv_sets.len() && (#[trigger] c.srv_sets[k]).0@ == inputs.entries[e].address,
        forall|a: int, b: int|
            0 <= a < b < c.srv_sets.len() ==> (#[trigger] c.srv_sets[a]).0@ != (
            #[trigger] c.srv_sets[b]).0@,
{
    let names = crate::census::srv_names(inputs.entries);
    let d = crate::table::distinct_names(names);
    crate::table::distinct_names_are_those_held(names);
    lemma_srv_entry(inputs.entries, e);
    let k = d.index_of(inputs.entries[e].address);
    assert(c.srv_sets[k].0@ == d[k]);
    assert forall|a: int, b: int| 0 <= a < b < c.srv_sets.len() implies (
    #[trigger] c.srv_sets[a]).0@ != (#[trigger] c.srv_sets[b]).0@ by {
        if d[a] == d[b] {
            crate::table::lemma_ascending_distinct(d, a, b);
        }
    }
}

proof fn lemma_srv_name(entries: Seq<crate::resolve::EntryView>, k: Seq<char>)
    requires
        crate::census::srv_names(entries).contains(k),
    ensures
        exists|e: int|
            0 <= e < entries.len() && (#[trigger] entries[e]).port is None && entries[e].address
                == k,
    decreases entries.len(),
{
    let s = crate::census::srv_names(entries);
    if entries.len() > 0 {
        let t = entries.drop_last();
        let front = crate::census::srv_names(t);
        let i = s.index_of(k);
        if i < front.len() {
            assert(front[i] == k);
            lemma_srv_name(t, k);
            let e = choose|e: int|
                0 <= e < t.len() && (#[trigger] t[e]).port is None && t[e].address == k;
            assert(entries[e] == t[e]);
        } else {
            assert(entries[entries.len() - 1] == entries.last());
        }
    }
}

proof fn lemma_srv_entry(entries: Seq<crate::resolve::EntryView>, e: int)
    requires
        0 <= e < entries.len(),
        entries[e].port is None,
    ensures
        crate::census::srv_names(entries).contains(entries[e].address),
    decreases entries.len(),
{
    let t = entries.drop_last();
    let s = crate::census::srv_names(entries);
    let front = crate::census::srv_names(t);
    if e < t.len() {
        assert(t[e] == entries[e]);
        lemma_srv_entry(t, e);
        let i = front.index_of(entries[e].address);
        assert(s[i] == front[i]);
    } else {
        assert(s[s.len() - 1] == entries[e].address);
    }
}

/// Every version group counts the relays that answered in that version, and
/// carries the share of each of them.
pub proof fn versions_count_who_speaks_them(c: Census, inputs: Inputs<'_>, k: int)
    requires
        counts_relays(c, inputs),
        0 <= k < c.n2n_versions.len(),
    ensures
        ({
            let at = select(
                inputs.entries.len() as int,
                |i: int|
                    inputs.best()[i] matches Some(Ok(r)) && r.n2n_version == c.n2n_versions[k].0@,
            );
            &&& c.n2n_versions[k].1.relays == at.len()
            &&& c.n2n_versions[k].1.stake.len() == at.len()
            &&& forall|j: int|
                0 <= j < at.len() ==> (#[trigger] c.n2n_versions[k].1.stake[j]).pool
                    == inputs.entries[at[j]].pool
        }),
{
    let n = inputs.entries.len() as int;
    let name = c.n2n_versions[k].0@;
    let p = |i: int|
        inputs.best()[i] matches Some(Ok(r)) && r.n2n_version == c.n2n_versions[k].0@;
    assert(inputs.best().len() == n);
    lemma_select_same(n, p, crate::census::speaks(inputs.best(), name));
    lemma_select(n, p);
    let g = c.n2n_versions@[k];
    assert(g == c.n2n_versions[k]);
    let at = select(n, p);
    assert forall|j: int| 0 <= j < at.len() implies (
    #[trigger] c.n2n_versions[k].1.stake[j]).pool == inputs.entries[at[j]].pool by {
        assert(g.1.stake@[j] == inputs.shares()[at[j]]);
    }
}

/// Every answer is in the group of its version, and no version has two.
pub proof fn every_version_has_one_group(c: Census, inputs: Inputs<'_>, e: int)
    requires
        counts_relays(c, inputs),
        0 <= e < inputs.entries.len(),
        inputs.best()[e] matches Some(Ok(_)),
    ensures
        exists|k: int|
            0 <= k < c.n2n_versions.len() && (#[trigger] c.n2n_versions[k]).0@
                == inputs.best()[e]->0->Ok_0.n2n_version,
        forall|a: int, b: int|
            0 <= a < b < c.n2n_versions.len() ==> (#[trigger] c.n2n_versions[a]).0@ != (
            #[trigger] c.n2n_versions[b]).0@,
{
    let names = crate::census::negotiated(inputs.best());
    let d = crate::table::distinct_names(names);
    crate::table::distinct_names_are_those_held(names);
    lemma_negotiated(inputs.best(), e);
    let k = d.index_of(inputs.best()[e]->0->Ok_0.n2n_version);
    assert(c.n2n_versions@[k].0@ == d[k]);
    assert(c.n2n_versions[k].0@ == d[k]);
    assert forall|a: int, b: int| 0 <= a < b < c.n2n_versions.len() implies (
    #[trigger] c.n2n_versions[a]).0@ != (#[trigger] c.n2n_versions[b]).0@ by {
        assert(c.n2n_versions@[a].0@ == d[a] && c.n2n_versions@[b].0@ == d[b]);
        if d[a] == d[b] {
            crate::table::lemma_ascending_distinct(d, a, b);
        }
    }
}

proof fn lemma_negotiated(best: Seq<Option<OutcomeView>>, e: int)
    requires
        0 <= e < best.len(),
        best[e] matches Some(Ok(_)),
    ensures
        crate::census::negotiated(best).contains(best[e]->0->Ok_0.n2n_version),
    decreases best.len(),
{
    let t = best.drop_last();
    let s = crate::census::negotiated(best);
    let front = crate::census::negotiated(t);
    if e < t.len() {
        assert(t[e] == best[e]);
        lemma_negotiated(t, e);
        let i = front.index_of(best[e]->0->Ok_0.n2n_version);
        assert(s[i] == front[i]);
    } else {
        assert(s[s.len() - 1] == best[e]->0->Ok_0.n2n_version);
    }
}

// Where the census was taken from.

/// A census says what the snapshot said, and holds the whole stake of each of
/// its pools once.
pub proof fn a_census_names_its_snapshot<S>(c: Census, source: Seq<char>, snap: Snapshot<S>)
    requires
        says_source(c, source, snap),
    ensures
        c.snapshot_source@ == source,
        c.network_magic == snap.network_magic,
        c.node_to_client_version == snap.node_to_client_version,
        c.snapshot_slot == snap.point.block_point_slot,
        c.snapshot_hash@ == snap.point.block_point_hash@,
        c.blp_total == snap.pools.len(),
        c.snapshot_stake.len() == snap.pools.len(),
        forall|p: int|
            0 <= p < snap.pools.len() ==> (#[trigger] c.snapshot_stake[p]).pool == p
                && c.snapshot_stake[p].parts == 1,
{
    assert forall|p: int| 0 <= p < snap.pools.len() implies (#[trigger] c.snapshot_stake[p]).pool
        == p && c.snapshot_stake[p].parts == 1 by {
        assert(c.snapshot_stake@[p] == crate::stake::whole(p));
    }
}

// Pools.

/// How many relays of the pool `p` there are.
pub open spec fn relays_of(inputs: Inputs<'_>, p: int) -> nat {
    count(inputs.entries.len() as int, |e: int| inputs.entries[e].pool == p)
}

/// How many relays of the pool `p` answered.
pub open spec fn answers_of(inputs: Inputs<'_>, p: int) -> nat {
    count(
        inputs.entries.len() as int,
        |e: int| inputs.entries[e].pool == p && inputs.best()[e] matches Some(Ok(_)),
    )
}

/// A pool counts its relays and those of them that answered; its reach is none
/// when none did, full when all did, and partial otherwise.
pub proof fn pools_count_their_relays(c: Census, inputs: Inputs<'_>, p: int)
    requires
        inputs.wf(),
        weighs_pools(c, inputs),
        0 <= p < inputs.pools,
    ensures
        c.pools.len() == inputs.pools,
        c.pools[p].index == p,
        c.pools[p].relays_total == relays_of(inputs, p),
        c.pools[p].relays_reachable == answers_of(inputs, p),
        answers_of(inputs, p) <= relays_of(inputs, p),
        c.pools[p].reach is Unreached <==> (forall|e: int|
            0 <= e < inputs.entries.len() && (#[trigger] inputs.entries[e]).pool == p
                ==> !(inputs.best()[e] matches Some(Ok(_)))),
        c.pools[p].reach is Full <==> answers_of(inputs, p) > 0 && answers_of(inputs, p)
            == relays_of(inputs, p),
        relays_of(inputs, p) > 0 ==> c.pools[p].fraction.num == answers_of(inputs, p)
            && c.pools[p].fraction.den == relays_of(inputs, p),
        relays_of(inputs, p) == 0 ==> c.pools[p].fraction.num == 0,
{
    let n = inputs.entries.len() as int;
    let own = |e: int| inputs.entries[e].pool == p;
    let live = |e: int| inputs.entries[e].pool == p && inputs.best()[e] matches Some(Ok(_));
    lemma_select_same(n, own, crate::standing::of_pool(inputs.entries, p));
    lemma_select_same(
        n,
        live,
        crate::standing::ok_of_pool(inputs.entries, inputs.best(), p),
    );
    lemma_select(n, own);
    lemma_select(n, live);
    crate::standing::lemma_ok_bounded(inputs, p);
    let stats = inputs.stats();
    assert(c.pools.deep_view()[p] == stats[p]);
    assert(c.pools.deep_view().len() == c.pools.len());
    assert(c.pools.deep_view()[p] == c.pools[p].deep_view());
    if answers_of(inputs, p) > 0 {
        let e = select(n, live)[0];
        assert(live(e));
        assert(inputs.entries[e].pool == p);
    }
    assert forall|e: int|
        0 <= e < inputs.entries.len() && (#[trigger] inputs.entries[e]).pool == p && answers_of(
            inputs,
            p,
        ) == 0 implies !(inputs.best()[e] matches Some(Ok(_))) by {
        if live(e) {
            assert(select(n, live).contains(e));
        }
    }
}

/// The pools of each reach are counted, each with its whole stake.
pub proof fn reaches_hold_their_pools(c: Census, inputs: Inputs<'_>, k: int)
    requires
        inputs.wf(),
        weighs_pools(c, inputs),
        0 <= k < c.blp_by_reach.len(),
    ensures
        ({
            let r = c.blp_by_reach[k].0;
            let at = select(
                inputs.pools as int,
                |p: int|
                    match r {
                        Reach::Unreached => answers_of(inputs, p) == 0,
                        Reach::Full => answers_of(inputs, p) > 0 && answers_of(inputs, p)
                            == relays_of(inputs, p),
                        Reach::Partial => 0 < answers_of(inputs, p) < relays_of(inputs, p),
                    },
            );
            &&& c.blp_by_reach[k].1.pools == at.len()
            &&& c.blp_by_reach[k].1.stake.len() == at.len()
            &&& forall|j: int|
                0 <= j < at.len() ==> (#[trigger] c.blp_by_reach[k].1.stake[j]).pool == at[j]
                    && c.blp_by_reach[k].1.stake[j].parts == 1
        }),
{
    let r = c.blp_by_reach[k].0;
    let stats = inputs.stats();
    let n = inputs.pools as int;
    let p = |p: int|
        match r {
            Reach::Unreached => answers_of(inputs, p) == 0,
            Reach::Full => answers_of(inputs, p) > 0 && answers_of(inputs, p) == relays_of(
                inputs,
                p,
            ),
            Reach::Partial => 0 < answers_of(inputs, p) < relays_of(inputs, p),
        };
    assert forall|q: int| 0 <= q < n implies #[trigger] p(q) == crate::census::reaching(
        stats,
        r,
    )(q) by {
        pools_count_their_relays(c, inputs, q);
        assert(c.pools.deep_view()[q] == c.pools[q].deep_view());
        if answers_of(inputs, q) == 0 {
            let live = |e: int|
                inputs.entries[e].pool == q && inputs.best()[e] matches Some(Ok(_));
            lemma_select(inputs.entries.len() as int, live);
            assert forall|e: int|
                0 <= e < inputs.entries.len() && (
                #[trigger] inputs.entries[e]).pool == q implies !(inputs.best()[e] matches Some(
                Ok(_),
            )) by {
                if live(e) {
                    assert(select(inputs.entries.len() as int, live).contains(e));
                }
            }
        } else {
            let live = |e: int|
                inputs.entries[e].pool == q && inputs.best()[e] matches Some(Ok(_));
            lemma_select(inputs.entries.len() as int, live);
            let e = select(inputs.entries.len() as int, live)[0];
            assert(live(e));
            assert(inputs.entries[e].pool == q);
        }
    }
    lemma_select_same(n, p, crate::census::reaching(stats, r));
    lemma_select(n, p);
    let g = c.blp_by_reach@[k];
    assert(g == c.blp_by_reach[k]);
    let at = select(n, p);
    assert forall|j: int| 0 <= j < at.len() implies (
    #[trigger] c.blp_by_reach[k].1.stake[j]).pool == at[j] && c.blp_by_reach[k].1.stake[j].parts
        == 1 by {
        assert(g.1.stake@[j] == crate::census::wholes(stats.len())[at[j]]);
    }
}

} // verus!
