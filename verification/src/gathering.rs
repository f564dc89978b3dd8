//! What is gathered of the endpoints of a relay, the relays of a pool and the
//! pools of an operator.

use vstd::prelude::*;

use crate::accounts::{before, leads_its_relay};
use crate::census::{counts_relays, tells_churn, weighs_pools, Census};
use crate::churn::Previous;
use crate::count::{count, lemma_select, lemma_select_same, select};
use crate::operators::{operators_of, pools_of, with_new, PoolStatView};
use crate::outcomes::{best_among, best_of};
use crate::probe::OutcomeView;
use crate::resolve::EndpointView;
use crate::standing::Inputs;

verus! {

// Relays.

proof fn lemma_first_result(
    endpoints: Seq<EndpointView>,
    outcomes: Seq<Option<OutcomeView>>,
    e: usize,
    n: int,
    k: int,
)
    requires
        0 <= k < n,
        endpoints[k].entries.contains(e),
        outcomes[k] is Some,
        forall|x: int|
            0 <= x < k && #[trigger] endpoints[x].entries.contains(e) ==> outcomes[x] is None,
        forall|x: int|
            0 <= x < n && #[trigger] endpoints[x].entries.contains(e) ==> !(
            outcomes[x] matches Some(Ok(_))),
    ensures
        best_among(endpoints, outcomes, e, n) == outcomes[k],
    decreases n,
{
    if k < n - 1 {
        lemma_first_result(endpoints, outcomes, e, n - 1, k);
        if endpoints[n - 1].entries.contains(e) {
            assert(!(outcomes[n - 1] matches Some(Ok(_))));
        }
    } else {
        lemma_no_result(endpoints, outcomes, e, k);
    }
}

proof fn lemma_no_result(
    endpoints: Seq<EndpointView>,
    outcomes: Seq<Option<OutcomeView>>,
    e: usize,
    n: int,
)
    requires
        forall|x: int|
            0 <= x < n && #[trigger] endpoints[x].entries.contains(e) ==> outcomes[x] is None,
    ensures
        best_among(endpoints, outcomes, e, n) is None,
    decreases n,
{
    if n > 0 {
        lemma_no_result(endpoints, outcomes, e, n - 1);
        if endpoints[n - 1].entries.contains(e) {
            assert(outcomes[n - 1] is None);
        }
    }
}

proof fn lemma_some_result(
    endpoints: Seq<EndpointView>,
    outcomes: Seq<Option<OutcomeView>>,
    e: usize,
    n: int,
)
    ensures
        best_among(endpoints, outcomes, e, n) is Some ==> exists|x: int|
            0 <= x < n && #[trigger] endpoints[x].entries.contains(e) && outcomes[x]
                == best_among(endpoints, outcomes, e, n),
    decreases n,
{
    if n > 0 {
        lemma_some_result(endpoints, outcomes, e, n - 1);
        let front = best_among(endpoints, outcomes, e, n - 1);
        let all = best_among(endpoints, outcomes, e, n);
        if all is Some && all == front {
            let x = choose|x: int|
                0 <= x < n - 1 && #[trigger] endpoints[x].entries.contains(e) && outcomes[x]
                    == front;
            assert(endpoints[x].entries.contains(e) && outcomes[x] == all);
        } else if all is Some {
            assert(endpoints[n - 1].entries.contains(e) && outcomes[n - 1] == all);
        }
    }
}

/// What came of a relay is what came of one of its endpoints. Where none of
/// them answered it is what came of the first that has an outcome, and where
/// none has one it is why the relay's lookup failed, if that did.
pub proof fn relays_take_a_result_of_theirs(
    endpoints: Seq<EndpointView>,
    outcomes: Seq<Option<OutcomeView>>,
    srv_errors: Seq<Option<Seq<char>>>,
    e: usize,
    k: int,
)
    requires
        0 <= k <= endpoints.len(),
        forall|x: int|
            0 <= x < k && #[trigger] endpoints[x].entries.contains(e) ==> outcomes[x] is None,
        k < endpoints.len() ==> endpoints[k].entries.contains(e) && outcomes[k] is Some,
    ensures
        ({
            let r = best_of(endpoints, outcomes, srv_errors, e as int);
            let silent = forall|x: int|
                0 <= x < endpoints.len() && #[trigger] endpoints[x].entries.contains(e) ==> !(
                outcomes[x] matches Some(Ok(_)));
            &&& k < endpoints.len() ==> exists|x: int|
                0 <= x < endpoints.len() && #[trigger] endpoints[x].entries.contains(e)
                    && outcomes[x] == r
            &&& k < endpoints.len() && silent ==> r == outcomes[k]
            &&& k == endpoints.len() && e < srv_errors.len() && srv_errors[e as int] is Some ==> (r
                matches Some(Err(f)) && f.stage is Srv && f.error == srv_errors[e as int]->0)
            &&& k == endpoints.len() && (e >= srv_errors.len() || srv_errors[e as int] is None)
                ==> r is None
        }),
{
    let n = endpoints.len() as int;
    lemma_some_result(endpoints, outcomes, e, n);
    if k == n {
        lemma_no_result(endpoints, outcomes, e, n);
    } else {
        lemma_kept(endpoints, outcomes, e, k, n);
        if forall|x: int|
            0 <= x < n && #[trigger] endpoints[x].entries.contains(e) ==> !(
            outcomes[x] matches Some(Ok(_))) {
            lemma_first_result(endpoints, outcomes, e, n, k);
        }
    }
}

proof fn lemma_kept(
    endpoints: Seq<EndpointView>,
    outcomes: Seq<Option<OutcomeView>>,
    e: usize,
    k: int,
    n: int,
)
    requires
        0 <= k < n,
        endpoints[k].entries.contains(e),
        outcomes[k] is Some,
    ensures
        best_among(endpoints, outcomes, e, n) is Some,
    decreases n,
{
    if k < n - 1 {
        lemma_kept(endpoints, outcomes, e, k, n - 1);
    }
}

// Pools.

proof fn lemma_plain_reasons(reasons: Seq<Option<Seq<char>>>, at: Seq<int>, x: Seq<char>)
    ensures
        crate::reasons::reasons_in(crate::standing::plain_reasons(reasons, at)).contains(x)
            <==> exists|j: int| 0 <= j < at.len() && reasons[#[trigger] at[j]] == Some(x),
    decreases at.len(),
{
    let all = crate::reasons::reasons_in(crate::standing::plain_reasons(reasons, at));
    if at.len() > 0 {
        let t = at.drop_last();
        let front = crate::reasons::reasons_in(crate::standing::plain_reasons(reasons, t));
        lemma_plain_reasons(reasons, t, x);
        assert(at[at.len() - 1] == at.last());
        if front.contains(x) {
            let i = front.index_of(x);
            assert(all[i] == x);
            let j = choose|j: int| 0 <= j < t.len() && reasons[#[trigger] t[j]] == Some(x);
            assert(at[j] == t[j]);
        }
        if reasons[at.last()] == Some(x) {
            assert(all[front.len() as int] == x);
        }
        if all.contains(x) && !front.contains(x) {
            let i = all.index_of(x);
            if i < front.len() {
                assert(front[i] == x);
            }
        }
        if exists|j: int| 0 <= j < at.len() && reasons[#[trigger] at[j]] == Some(x) {
            let j = choose|j: int| 0 <= j < at.len() && reasons[#[trigger] at[j]] == Some(x);
            if j < t.len() {
                assert(t[j] == at[j]);
            }
        }
    }
}

/// A pool has the reasons for which its relays failed, each once, and a chance
/// for each of its relays.
pub proof fn pools_gather_their_relays(c: Census, inputs: Inputs<'_>, p: int, x: Seq<char>)
    requires
        inputs.wf(),
        counts_relays(c, inputs),
        weighs_pools(c, inputs),
        0 <= p < inputs.pools,
    ensures
        ({
            let own = select(
                inputs.entries.len() as int,
                |e: int| inputs.entries[e].pool == p,
            );
            &&& c.pools[p].reasons.deep_view().contains(x) <==> exists|j: int|
                0 <= j < own.len() && inputs.reasons()[#[trigger] own[j]] == Some(x)
            &&& c.pools[p].reasons.deep_view().no_duplicates()
            &&& c.pools[p].chances.len() == own.len()
            &&& forall|j: int|
                0 <= j < own.len() ==> c.pools[p].chances[j]
                    == c.entry_probability[#[trigger] own[j]]
        }),
{
    let stats = inputs.stats();
    let n = inputs.entries.len() as int;
    assert(c.pools.deep_view().len() == c.pools.len());
    assert(c.pools.deep_view()[p] == c.pools[p].deep_view());
    assert(stats[p] == inputs.stat(p));
    let pick = crate::standing::of_pool(inputs.entries, p);
    lemma_select_same(n, |e: int| inputs.entries[e].pool == p, pick);
    let own = inputs.own(p);
    let items = crate::standing::plain_reasons(inputs.reasons(), own);
    crate::reasons::reasons_are_ranked(items);
    lemma_plain_reasons(inputs.reasons(), own, x);
    let r = crate::reasons::ranked(items);
    assert(c.pools[p].reasons.deep_view() == r);
    assert(r.contains(x) <==> crate::reasons::reasons_in(items).contains(x));
    assert forall|i: int, j: int| 0 <= i < r.len() && 0 <= j < r.len() && i != j implies r[i]
        != r[j] by {
        if i < j {
            assert(r[i] != r[j]);
        } else {
            assert(r[j] != r[i]);
        }
    }
    assert forall|j: int| 0 <= j < own.len() implies c.pools[p].chances[j]
        == c.entry_probability[#[trigger] own[j]] by {
        assert(c.pools[p].chances@[j] == inputs.chances()[own[j]]);
    }
}

/// What `x` weighs among the reasons of the picked relays is the number of
/// those that gave it.
proof fn lemma_plain_weight(
    reasons: Seq<Option<Seq<char>>>,
    n: int,
    pick: spec_fn(int) -> bool,
    gave: spec_fn(int) -> bool,
    x: Seq<char>,
)
    requires
        forall|e: int| #[trigger] gave(e) == (pick(e) && reasons[e] == Some(x)),
    ensures
        crate::reasons::weight_of(crate::standing::plain_reasons(reasons, select(n, pick)), x)
            == count(n, gave),
    decreases n,
{
    if n > 0 {
        lemma_plain_weight(reasons, n - 1, pick, gave, x);
        assert(gave(n - 1) == (pick(n - 1) && reasons[n - 1] == Some(x)));
        let s = select(n - 1, pick);
        if pick(n - 1) {
            let front = crate::standing::plain_reasons(reasons, s);
            assert(s.push(n - 1).drop_last() =~= s);
            if let Some(r) = reasons[n - 1] {
                assert(front.push((r, 1u128)).drop_last() =~= front);
            }
        }
    }
}

/// A pool tells first for what most of its relays failed; of two reasons that
/// as many gave, the one that comes first in the alphabet.
pub proof fn pools_tell_the_commonest_reason_first(
    c: Census,
    inputs: Inputs<'_>,
    p: int,
    i: int,
    j: int,
)
    requires
        inputs.wf(),
        counts_relays(c, inputs),
        weighs_pools(c, inputs),
        0 <= p < inputs.pools,
        0 <= i < j < c.pools[p].reasons.len(),
    ensures
        ({
            let n = inputs.entries.len() as int;
            let first = c.pools[p].reasons.deep_view()[i];
            let second = c.pools[p].reasons.deep_view()[j];
            let more = count(
                n,
                |e: int| inputs.entries[e].pool == p && inputs.reasons()[e] == Some(first),
            );
            let less = count(
                n,
                |e: int| inputs.entries[e].pool == p && inputs.reasons()[e] == Some(second),
            );
            more > less || more == less && crate::text::before(first, second)
        }),
{
    let n = inputs.entries.len() as int;
    assert(c.pools.deep_view().len() == c.pools.len());
    assert(c.pools.deep_view()[p] == c.pools[p].deep_view());
    assert(inputs.stats()[p] == inputs.stat(p));
    let pick = crate::standing::of_pool(inputs.entries, p);
    let items = crate::standing::plain_reasons(inputs.reasons(), inputs.own(p));
    let r = crate::reasons::ranked(items);
    crate::reasons::reasons_are_ranked(items);
    assert(c.pools[p].reasons.deep_view() == r);
    assert(r[i] != r[j]);
    lemma_plain_weight(
        inputs.reasons(),
        n,
        pick,
        |e: int| inputs.entries[e].pool == p && inputs.reasons()[e] == Some(r[i]),
        r[i],
    );
    lemma_plain_weight(
        inputs.reasons(),
        n,
        pick,
        |e: int| inputs.entries[e].pool == p && inputs.reasons()[e] == Some(r[j]),
        r[j],
    );
}

proof fn lemma_probed_keys(inputs: Inputs<'_>, at: Seq<int>, x: Seq<char>)
    ensures
        crate::standing::probed_keys(inputs.endpoints, at).contains(x) <==> exists|j: int|
            0 <= j < at.len() && crate::standing::keys_at(
                inputs.endpoints,
                crate::outcomes::found_at(inputs.endpoints, #[trigger] at[j] as usize),
            ).contains(x),
    decreases at.len(),
{
    let eps = inputs.endpoints;
    if at.len() > 0 {
        let t = at.drop_last();
        lemma_probed_keys(inputs, t, x);
        let more = crate::standing::keys_at(
            eps,
            crate::outcomes::found_at(eps, at.last() as usize),
        );
        crate::operators::lemma_with_new_holds(
            crate::standing::probed_keys(eps, t),
            more,
            x,
        );
        assert(at[at.len() - 1] == at.last());
        if crate::standing::probed_keys(eps, t).contains(x) {
            let j = choose|j: int|
                0 <= j < t.len() && crate::standing::keys_at(
                    eps,
                    crate::outcomes::found_at(eps, #[trigger] t[j] as usize),
                ).contains(x);
            assert(at[j] == t[j]);
        }
        if exists|j: int|
            0 <= j < at.len() && crate::standing::keys_at(
                eps,
                crate::outcomes::found_at(eps, #[trigger] at[j] as usize),
            ).contains(x) {
            let j = choose|j: int|
                0 <= j < at.len() && crate::standing::keys_at(
                    eps,
                    crate::outcomes::found_at(eps, #[trigger] at[j] as usize),
                ).contains(x);
            if j < t.len() {
                assert(t[j] == at[j]);
            }
        }
    }
}

/// A pool's endpoints are those that list one of its relays.
pub proof fn pools_gather_their_endpoints(c: Census, inputs: Inputs<'_>, p: int, k: Seq<char>)
    requires
        inputs.wf(),
        weighs_pools(c, inputs),
        0 <= p < inputs.pools,
    ensures
        c.pools[p].endpoints.deep_view().contains(k) <==> exists|x: int, e: int|
            0 <= x < inputs.endpoints.len() && 0 <= e < inputs.entries.len() && (
            #[trigger] inputs.entries[e]).pool == p
                && #[trigger] inputs.endpoints[x].entries.contains(e as usize)
                && inputs.endpoints[x].key == k,
{
    let n = inputs.entries.len() as int;
    let eps = inputs.endpoints;
    let m = eps.len() as int;
    assert(c.pools.deep_view()[p] == c.pools[p].deep_view());
    assert(inputs.stats()[p] == inputs.stat(p));
    let own = inputs.own(p);
    let pick = crate::standing::of_pool(inputs.entries, p);
    lemma_select(n, pick);
    lemma_probed_keys(inputs, own, k);
    if c.pools[p].endpoints.deep_view().contains(k) {
        let j = choose|j: int|
            0 <= j < own.len() && crate::standing::keys_at(
                eps,
                crate::outcomes::found_at(eps, #[trigger] own[j] as usize),
            ).contains(k);
        let e = own[j];
        let lists = crate::outcomes::lists(eps, e as usize);
        let xs = crate::outcomes::found_at(eps, e as usize);
        lemma_select(m, lists);
        let i = crate::standing::keys_at(eps, xs).index_of(k);
        assert(lists(xs[i]));
        assert(pick(e));
        assert(inputs.entries[e].pool == p && eps[xs[i]].entries.contains(e as usize)
            && eps[xs[i]].key == k);
    }
    if exists|x: int, e: int|
        0 <= x < m && 0 <= e < n && (#[trigger] inputs.entries[e]).pool == p
            && #[trigger] eps[x].entries.contains(e as usize) && eps[x].key == k {
        let (x, e) = choose|x: int, e: int|
            0 <= x < m && 0 <= e < n && (#[trigger] inputs.entries[e]).pool == p
                && #[trigger] eps[x].entries.contains(e as usize) && eps[x].key == k;
        let lists = crate::outcomes::lists(eps, e as usize);
        let xs = crate::outcomes::found_at(eps, e as usize);
        lemma_select(m, lists);
        assert(lists(x));
        assert(xs.contains(x));
        let i = xs.index_of(x);
        assert(crate::standing::keys_at(eps, xs)[i] == k);
        assert(pick(e));
        assert(own.contains(e));
        let j = own.index_of(e);
        assert(crate::standing::keys_at(
            eps,
            crate::outcomes::found_at(eps, own[j] as usize),
        ).contains(k));
    }
}

/// The pool that an index names for some relays is the one that most of their
/// registrations are of, and where the index has none of them there is none.
pub proof fn pools_are_named_by_the_index(c: Census, inputs: Inputs<'_>, p: int, k: int)
    requires
        inputs.wf(),
        weighs_pools(c, inputs),
        0 <= p < inputs.pools,
    ensures
        inputs.index is None ==> c.pools[p].meta is None,
        inputs.index matches Some(idx) ==> ({
            let own = select(
                inputs.entries.len() as int,
                |e: int| inputs.entries[e].pool == p,
            );
            let relays = Seq::new(
                own.len(),
                |i: int| (inputs.entries[own[i]].address, inputs.entries[own[i]].port),
            );
            let cast = crate::pools::owned_by(*idx, relays);
            &&& cast.len() == 0 <==> c.pools[p].meta is None
            &&& crate::pools::wins(cast, k) ==> c.pools[p].meta.deep_view() == Some(cast[k])
        }),
{
    let n = inputs.entries.len() as int;
    assert(c.pools.deep_view()[p] == c.pools[p].deep_view());
    assert(inputs.stats()[p] == inputs.stat(p));
    lemma_select_same(
        n,
        |e: int| inputs.entries[e].pool == p,
        crate::standing::of_pool(inputs.entries, p),
    );
    let own = inputs.own(p);
    let relays = crate::standing::addresses(inputs.entries, own);
    if let Some(idx) = inputs.index {
        let cast = crate::pools::owned_by(*idx, relays);
        if crate::pools::wins(cast, k) {
            let w = choose|w: int| crate::pools::wins(cast, w);
            crate::pools::one_winner(cast, k, w);
        }
    }
}

// Operators.

proof fn lemma_new_once(s: Seq<Seq<char>>, more: Seq<Seq<char>>)
    requires
        s.no_duplicates(),
    ensures
        with_new(s, more).no_duplicates(),
    decreases more.len(),
{
    if more.len() > 0 {
        lemma_new_once(s, more.drop_last());
        let front = with_new(s, more.drop_last());
        let all = with_new(s, more);
        if !front.contains(more.last()) {
            assert forall|i: int, j: int|
                0 <= i < all.len() && 0 <= j < all.len() && i != j implies all[i] != all[j] by {
                if i < front.len() && j < front.len() {
                    assert(front[i] != front[j]);
                } else if i < front.len() {
                    assert(front.contains(front[i]));
                } else {
                    assert(front.contains(front[j]));
                }
            }
        }
    }
}

proof fn lemma_all_endpoints(pools: Seq<PoolStatView>, at: Seq<int>, x: Seq<char>)
    ensures
        crate::operators::all_endpoints(pools, at).contains(x) <==> exists|j: int|
            0 <= j < at.len() && pools[#[trigger] at[j]].endpoints.contains(x),
        crate::operators::all_endpoints(pools, at).no_duplicates(),
    decreases at.len(),
{
    if at.len() > 0 {
        let t = at.drop_last();
        lemma_all_endpoints(pools, t, x);
        let front = crate::operators::all_endpoints(pools, t);
        let more = pools[at.last()].endpoints;
        crate::operators::lemma_with_new_holds(front, more, x);
        lemma_new_once(front, more);
        assert(at[at.len() - 1] == at.last());
        if front.contains(x) {
            let j = choose|j: int| 0 <= j < t.len() && pools[#[trigger] t[j]].endpoints.contains(x);
            assert(at[j] == t[j]);
        }
        if exists|j: int| 0 <= j < at.len() && pools[#[trigger] at[j]].endpoints.contains(x) {
            let j = choose|j: int|
                0 <= j < at.len() && pools[#[trigger] at[j]].endpoints.contains(x);
            if j < t.len() {
                assert(t[j] == at[j]);
            }
        }
    }
}

proof fn lemma_all_reasons(pools: Seq<PoolStatView>, at: Seq<int>, x: Seq<char>)
    ensures
        crate::reasons::reasons_in(crate::operators::all_reasons(pools, at)).contains(x)
            <==> exists|j: int|
            0 <= j < at.len() && pools[#[trigger] at[j]].reasons.contains(x),
    decreases at.len(),
{
    let all = crate::reasons::reasons_in(crate::operators::all_reasons(pools, at));
    if at.len() > 0 {
        let t = at.drop_last();
        lemma_all_reasons(pools, t, x);
        let front = crate::reasons::reasons_in(crate::operators::all_reasons(pools, t));
        let more = pools[at.last()].reasons;
        assert(all =~= front + more);
        assert(at[at.len() - 1] == at.last());
        if front.contains(x) {
            let i = front.index_of(x);
            assert(all[i] == x);
            let j = choose|j: int| 0 <= j < t.len() && pools[#[trigger] t[j]].reasons.contains(x);
            assert(at[j] == t[j]);
        }
        if more.contains(x) {
            let i = more.index_of(x);
            assert(all[front.len() + i] == x);
        }
        if all.contains(x) && !front.contains(x) {
            let i = all.index_of(x);
            if i < front.len() {
                assert(front[i] == x);
            }
            assert(more[i - front.len()] == x);
        }
        if exists|j: int| 0 <= j < at.len() && pools[#[trigger] at[j]].reasons.contains(x) {
            let j = choose|j: int|
                0 <= j < at.len() && pools[#[trigger] at[j]].reasons.contains(x);
            if j < t.len() {
                assert(t[j] == at[j]);
            }
        }
    }
}

/// A row counts the hosts behind all endpoints of its pools, each endpoint once,
/// and tells all reasons of its pools, each once, with commas between them.
pub proof fn rows_gather_their_pools(pools: Seq<PoolStatView>, i: int) -> (r: (
    Seq<Seq<char>>,
    Seq<Seq<char>>,
))
    requires
        0 <= i < operators_of(pools).len(),
    ensures
        ({
            let (endpoints, reasons) = r;
            let at = pools_of(pools, i);
            &&& operators_of(pools)[i].endpoints == crate::operators::hosts(endpoints)
            &&& endpoints.no_duplicates()
            &&& forall|x: Seq<char>|
                #[trigger] endpoints.contains(x) <==> exists|j: int|
                    0 <= j < at.len() && pools[#[trigger] at[j]].endpoints.contains(x)
            &&& operators_of(pools)[i].reasons == crate::text::joined(reasons, ", "@)
            &&& reasons.no_duplicates()
            &&& forall|x: Seq<char>|
                #[trigger] reasons.contains(x) <==> exists|j: int|
                    0 <= j < at.len() && pools[#[trigger] at[j]].reasons.contains(x)
        }),
{
    let at = pools_of(pools, i);
    let endpoints = crate::operators::all_endpoints(pools, at);
    let items = crate::operators::all_reasons(pools, at);
    let reasons = crate::reasons::ranked(items);
    lemma_all_endpoints(pools, at, Seq::empty());
    assert forall|x: Seq<char>| #[trigger] endpoints.contains(x) <==> exists|j: int|
        0 <= j < at.len() && pools[#[trigger] at[j]].endpoints.contains(x) by {
        lemma_all_endpoints(pools, at, x);
    }
    crate::reasons::reasons_are_ranked(items);
    assert forall|x: Seq<char>| #[trigger] reasons.contains(x) <==> exists|j: int|
        0 <= j < at.len() && pools[#[trigger] at[j]].reasons.contains(x) by {
        lemma_all_reasons(pools, at, x);
        assert(reasons.contains(x) <==> crate::reasons::reasons_in(items).contains(x));
    }
    assert forall|a: int, b: int|
        0 <= a < reasons.len() && 0 <= b < reasons.len() && a != b implies reasons[a]
        != reasons[b] by {
        if a < b {
            assert(reasons[a] != reasons[b]);
        } else {
            assert(reasons[b] != reasons[a]);
        }
    }
    (endpoints, reasons)
}

/// What a pool's list says for `x`: as much as there are reasons from its place
/// to the end, so that the first of `n` reasons says `n` and the last says one.
pub open spec fn said_for(reasons: Seq<Seq<char>>, x: Seq<char>) -> nat {
    crate::count::sum_below(reasons.len() as int, said_at(reasons, x))
}

pub open spec fn said_at(reasons: Seq<Seq<char>>, x: Seq<char>) -> spec_fn(int) -> nat {
    |k: int|
        if reasons[k] == x {
            (reasons.len() - k) as nat
        } else {
            0
        }
}

proof fn lemma_weight_concat(a: Seq<(Seq<char>, u128)>, b: Seq<(Seq<char>, u128)>, x: Seq<char>)
    ensures
        crate::reasons::weight_of(a + b, x) == crate::reasons::weight_of(a, x)
            + crate::reasons::weight_of(b, x),
    decreases b.len(),
{
    if b.len() == 0 {
        assert(a + b =~= a);
    } else {
        lemma_weight_concat(a, b.drop_last(), x);
        assert((a + b).drop_last() =~= a + b.drop_last());
    }
}

proof fn lemma_said(reasons: Seq<Seq<char>>, x: Seq<char>, k: int)
    requires
        0 <= k <= reasons.len() <= usize::MAX,
    ensures
        crate::reasons::weight_of(crate::operators::pool_reasons(reasons).take(k), x)
            == crate::count::sum_below(k, said_at(reasons, x)),
    decreases k,
{
    let s = crate::operators::pool_reasons(reasons);
    if k > 0 {
        lemma_said(reasons, x, k - 1);
        assert(s.take(k).drop_last() =~= s.take(k - 1));
    }
}

proof fn lemma_all_said(
    pools: Seq<PoolStatView>,
    at: Seq<int>,
    k: int,
    x: Seq<char>,
    says: spec_fn(int) -> nat,
)
    requires
        0 <= k <= at.len(),
        forall|j: int| 0 <= j < at.len() ==> 0 <= #[trigger] at[j] < pools.len(),
        forall|p: int| 0 <= p < pools.len() ==> (#[trigger] pools[p]).reasons.len() <= usize::MAX,
        forall|j: int|
            0 <= j < at.len() ==> #[trigger] says(j) == said_for(pools[at[j]].reasons, x),
    ensures
        crate::reasons::weight_of(crate::operators::all_reasons(pools, at.take(k)), x)
            == crate::count::sum_below(k, says),
    decreases k,
{
    if k > 0 {
        lemma_all_said(pools, at, k - 1, x, says);
        let t = at.take(k);
        assert(t.drop_last() =~= at.take(k - 1));
        let own = pools[at[k - 1]].reasons;
        let more = crate::operators::pool_reasons(own);
        lemma_weight_concat(crate::operators::all_reasons(pools, t.drop_last()), more, x);
        lemma_said(own, x, own.len() as int);
        assert(more.take(own.len() as int) =~= more);
        assert(says(k - 1) == said_for(own, x));
    } else {
        assert(at.take(0) =~= Seq::<int>::empty());
    }
}

/// A row tells first the reason that the lists of its pools say most for; of two
/// for which they say the same, the one that comes first in the alphabet.
pub proof fn rows_tell_the_leading_reason_first(pools: Seq<PoolStatView>, i: int) -> (reasons: Seq<
    Seq<char>,
>)
    requires
        0 <= i < operators_of(pools).len(),
        forall|p: int| 0 <= p < pools.len() ==> (#[trigger] pools[p]).reasons.len() <= usize::MAX,
    ensures
        operators_of(pools)[i].reasons == crate::text::joined(reasons, ", "@),
        forall|a: int, b: int|
            0 <= a < b < reasons.len() ==> ({
                let at = pools_of(pools, i);
                let more = crate::count::sum_below(
                    at.len() as int,
                    |j: int| said_for(pools[at[j]].reasons, reasons[a]),
                );
                let less = crate::count::sum_below(
                    at.len() as int,
                    |j: int| said_for(pools[at[j]].reasons, reasons[b]),
                );
                more > less || more == less && crate::text::before(
                    #[trigger] reasons[a],
                    #[trigger] reasons[b],
                )
            }),
{
    let at = pools_of(pools, i);
    let n = at.len() as int;
    let items = crate::operators::all_reasons(pools, at);
    let reasons = crate::reasons::ranked(items);
    crate::reasons::reasons_are_ranked(items);
    lemma_select(
        pools.len() as int,
        crate::operators::run_by(
            pools,
            crate::table::distinct_names(crate::operators::operator_keys(pools))[i],
        ),
    );
    assert(at.take(n) =~= at);
    assert forall|a: int, b: int| 0 <= a < b < reasons.len() implies ({
        let more = crate::count::sum_below(
            n,
            |j: int| said_for(pools[at[j]].reasons, reasons[a]),
        );
        let less = crate::count::sum_below(
            n,
            |j: int| said_for(pools[at[j]].reasons, reasons[b]),
        );
        more > less || more == less && crate::text::before(
            #[trigger] reasons[a],
            #[trigger] reasons[b],
        )
    }) by {
        lemma_all_said(
            pools,
            at,
            n,
            reasons[a],
            |j: int| said_for(pools[at[j]].reasons, reasons[a]),
        );
        lemma_all_said(
            pools,
            at,
            n,
            reasons[b],
            |j: int| said_for(pools[at[j]].reasons, reasons[b]),
        );
    }
    reasons
}

// Changes.

/// A relay has moved when the previous report and this run both place it in a
/// network, and not in the same one; each relay that moved counts once.
pub proof fn moves_are_counted(c: Census, inputs: Inputs<'_>, min: usize, prev: &Previous)
    requires
        tells_churn(c, inputs, Some(prev)),
        crate::census::places_entries(c, inputs, min),
    ensures
        c.churn matches Some(churn) && churn.moved_network == count(
            inputs.entries.len() as int,
            |e: int|
                leads_its_relay(inputs, e) && (before(inputs, prev, e) matches Some(s) && (
                s.asn matches Some(a) && (c.entry_asn[e] matches Some(b) && a != b.asn))),
        ),
{
    let n = inputs.entries.len() as int;
    let ips = crate::networks::entry_ips(inputs.endpoints, inputs.best(), inputs.entries.len());
    let runs = crate::churn::Runs {
        keys: crate::churn::entry_keys(inputs.entries),
        previous: prev.by_key@,
        reached: crate::churn::answered(inputs.best()),
        asn: crate::churn::numbers(crate::networks::placements(inputs.db, ips)),
    };
    let raw = |e: int|
        leads_its_relay(inputs, e) && (before(inputs, prev, e) matches Some(s) && (
        s.asn matches Some(a) && (c.entry_asn[e] matches Some(b) && a != b.asn)));
    assert forall|e: int| 0 <= e < n implies #[trigger] raw(e) == runs.relay_moved()(e) by {
        crate::accounts::lemma_first(inputs, runs, e);
        assert(c.entry_asn.deep_view()[e] == c.entry_asn[e].deep_view());
    }
    lemma_select_same(n, raw, runs.relay_moved());
}

} // verus!
