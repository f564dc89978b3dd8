//! What a census says of changes, reversals, chances and stake, each in terms
//! of the relays and the pools.

use vstd::prelude::*;

use crate::amounts::{shows, Amount, AmountView, Amounts};
use crate::census::{counts_relays, tells_churn, weighs_pools, Census};
use crate::churn::{Change, Previous};
use crate::count::{count, lemma_select, lemma_select_same, select, sum_below};
use crate::histogram::Ratio;
use crate::operators::Reach;
use crate::pools::key_of;
use crate::standing::Inputs;

verus! {

// Changes.

/// What the previous report says of the relay of the entry `e`.
pub open spec fn before(inputs: Inputs<'_>, prev: &Previous, e: int) -> Option<
    crate::churn::PrevState,
> {
    let key = key_of(inputs.entries[e].address, inputs.entries[e].port);
    if prev.by_key@.contains_key(key) {
        Some(prev.by_key@[key])
    } else {
        None
    }
}

/// Is the entry `e` the first one of its relay?
pub open spec fn leads_its_relay(inputs: Inputs<'_>, e: int) -> bool {
    forall|d: int|
        0 <= d < e ==> key_of((#[trigger] inputs.entries[d]).address, inputs.entries[d].port)
            != key_of(inputs.entries[e].address, inputs.entries[e].port)
}

/// A relay became reachable when the previous report has it as unreachable and
/// it answered now, and became unreachable the other way round; one that the
/// previous report does not have did neither.
pub proof fn relays_change_as_they_answer(
    c: Census,
    inputs: Inputs<'_>,
    prev: &Previous,
    e: int,
)
    requires
        tells_churn(c, inputs, Some(prev)),
        0 <= e < inputs.entries.len(),
    ensures
        c.entry_change.len() == inputs.entries.len(),
        c.entry_change[e] == Some(Change::BecameReachable) <==> (before(
            inputs,
            prev,
            e,
        ) matches Some(s) && !s.reachable && inputs.best()[e] matches Some(Ok(_))),
        c.entry_change[e] == Some(Change::BecameUnreachable) <==> (before(
            inputs,
            prev,
            e,
        ) matches Some(s) && s.reachable && !(inputs.best()[e] matches Some(Ok(_)))),
{
}

/// Every relay that changed is counted once, under what it became, and every
/// relay whose network is known in both runs and differs has moved.
pub proof fn changes_are_counted(c: Census, inputs: Inputs<'_>, prev: &Previous)
    requires
        tells_churn(c, inputs, Some(prev)),
    ensures
        c.churn matches Some(churn) && {
            let n = inputs.entries.len() as int;
            &&& churn.previous_timestamp_seconds == prev.timestamp_seconds
            &&& churn.to_reachable == count(
                n,
                |e: int|
                    leads_its_relay(inputs, e) && (before(inputs, prev, e) matches Some(s)
                        && !s.reachable && inputs.best()[e] matches Some(Ok(_))),
            )
            &&& churn.to_unreachable == count(
                n,
                |e: int|
                    leads_its_relay(inputs, e) && (before(inputs, prev, e) matches Some(s)
                        && s.reachable && !(inputs.best()[e] matches Some(Ok(_)))),
            )
            &&& churn.stake_to_reachable@.len() == count(
                n,
                |e: int| c.entry_change[e] == Some(Change::BecameReachable),
            )
            &&& churn.stake_to_unreachable@.len() == count(
                n,
                |e: int| c.entry_change[e] == Some(Change::BecameUnreachable),
            )
        },
{
    let churn = c.churn->0;
    let n = inputs.entries.len() as int;
    let ips = crate::networks::entry_ips(inputs.endpoints, inputs.best(), inputs.entries.len());
    let runs = crate::churn::Runs {
        keys: crate::churn::entry_keys(inputs.entries),
        previous: prev.by_key@,
        reached: crate::churn::answered(inputs.best()),
        asn: crate::churn::numbers(crate::networks::placements(inputs.db, ips)),
    };
    let up = Change::BecameReachable;
    let down = Change::BecameUnreachable;
    assert forall|e: int| 0 <= e < n implies #[trigger] runs.first(e) == leads_its_relay(
        inputs,
        e,
    ) by {
        lemma_first(inputs, runs, e);
    }
    lemma_select_same(
        n,
        |e: int|
            leads_its_relay(inputs, e) && (before(inputs, prev, e) matches Some(s) && !s.reachable
                && inputs.best()[e] matches Some(Ok(_))),
        runs.relay_changed(up),
    );
    lemma_select_same(
        n,
        |e: int|
            leads_its_relay(inputs, e) && (before(inputs, prev, e) matches Some(s) && s.reachable
                && !(inputs.best()[e] matches Some(Ok(_)))),
        runs.relay_changed(down),
    );
    lemma_select_same(n, |e: int| c.entry_change[e] == Some(up), runs.changed(up));
    lemma_select_same(n, |e: int| c.entry_change[e] == Some(down), runs.changed(down));
}

pub proof fn lemma_first(inputs: Inputs<'_>, runs: crate::churn::Runs, e: int)
    requires
        runs.keys == crate::churn::entry_keys(inputs.entries),
        0 <= e < inputs.entries.len(),
    ensures
        runs.first(e) == leads_its_relay(inputs, e),
{
    if runs.first(e) {
        assert forall|d: int| 0 <= d < e implies key_of(
            (#[trigger] inputs.entries[d]).address,
            inputs.entries[d].port,
        ) != key_of(inputs.entries[e].address, inputs.entries[e].port) by {
            assert(runs.keys[d] != runs.keys[e]);
        }
    }
    if leads_its_relay(inputs, e) {
        assert forall|d: int| 0 <= d < e implies #[trigger] runs.keys[d] != runs.keys[e] by {
            assert(inputs.entries[d].port == inputs.entries[d].port);
        }
    }
}

// Reversals.

/// Relays that are also probed reversed are counted, and those of them that
/// answered as given and that answered reversed.
pub proof fn reversals_are_counted(c: Census, inputs: Inputs<'_>)
    requires
        weighs_pools(c, inputs),
    ensures
        ({
            let n = inputs.entries.len() as int;
            &&& c.ipv4.relays == count(n, |e: int| inputs.reversed[e] is Some)
            &&& c.ipv4.reachable_given == count(
                n,
                |e: int|
                    inputs.reversed[e] is Some && inputs.best()[e] matches Some(Ok(_)),
            )
            &&& c.ipv4.reachable_reversed == count(n, |e: int| inputs.reversed[e] == Some(true))
        }),
{
    let n = inputs.entries.len() as int;
    let best = inputs.best();
    lemma_select_same(
        n,
        |e: int| inputs.reversed[e] is Some,
        crate::census::tried_reversed(inputs.reversed),
    );
    lemma_select_same(
        n,
        |e: int| inputs.reversed[e] is Some && inputs.best()[e] matches Some(Ok(_)),
        crate::census::answered_given(inputs.reversed, best),
    );
    lemma_select_same(
        n,
        |e: int| inputs.reversed[e] == Some(true),
        crate::census::answered_reversed(inputs.reversed),
    );
}

/// Does only the reversal of a relay reach the pool `p`?
pub open spec fn only_reversal_reaches(inputs: Inputs<'_>, p: int) -> bool {
    &&& forall|e: int|
        0 <= e < inputs.entries.len() && (#[trigger] inputs.entries[e]).pool == p ==> !(
        inputs.best()[e] matches Some(Ok(_)))
    &&& exists|e: int|
        0 <= e < inputs.entries.len() && (#[trigger] inputs.entries[e]).pool == p
            && inputs.reversed[e] == Some(true)
}

/// Did one of the first `n` entries of a silent pool answer reversed?
spec fn saved_among(inputs: Inputs<'_>, n: int) -> spec_fn(int) -> bool {
    |p: int|
        inputs.ok(p) == 0 && exists|e: int|
            0 <= e < n && (#[trigger] inputs.entries[e]).pool == p && inputs.reversed[e] == Some(
                true,
            )
}

proof fn lemma_saved(inputs: Inputs<'_>, n: int)
    requires
        inputs.wf(),
        0 <= n <= inputs.entries.len(),
    ensures
        count(
            n,
            crate::census::saved_by_reversal(
                inputs.entries,
                inputs.reversed,
                crate::census::oks(inputs),
            ),
        ) == count(inputs.pools as int, saved_among(inputs, n)),
    decreases n,
{
    let m = inputs.pools as int;
    let first = crate::census::saved_by_reversal(
        inputs.entries,
        inputs.reversed,
        crate::census::oks(inputs),
    );
    if n == 0 {
        lemma_none(m, saved_among(inputs, 0));
    } else {
        lemma_saved(inputs, n - 1);
        let q = inputs.entries[n - 1].pool as int;
        let was = saved_among(inputs, n - 1);
        let is = saved_among(inputs, n);
        crate::standing::lemma_ok_bounded(inputs, q);
        lemma_select(
            inputs.entries.len() as int,
            crate::standing::of_pool(inputs.entries, q),
        );
        assert(crate::census::oks(inputs)[q] == inputs.ok(q));
        assert forall|p: int| 0 <= p < m implies #[trigger] is(p) == (was(p) || (p == q && first(
            n - 1,
        ))) by {
            if is(p) && !was(p) {
                let e = choose|e: int|
                    0 <= e < n && (#[trigger] inputs.entries[e]).pool == p && inputs.reversed[e]
                        == Some(true);
                assert(e == n - 1);
                assert forall|j: int|
                    0 <= j < n - 1 && (#[trigger] inputs.entries[j]).pool
                        == inputs.entries[n - 1].pool implies inputs.reversed[j] != Some(true) by {
                    assert(inputs.entries[j].pool == p);
                }
            }
            if was(p) {
                let e = choose|e: int|
                    0 <= e < n - 1 && (#[trigger] inputs.entries[e]).pool == p
                        && inputs.reversed[e] == Some(true);
                assert(0 <= e < n && inputs.entries[e].pool == p);
            }
            if p == q && first(n - 1) {
                assert(inputs.entries[n - 1].pool == p);
            }
        }
        if first(n - 1) {
            if was(q) {
                let e = choose|e: int|
                    0 <= e < n - 1 && (#[trigger] inputs.entries[e]).pool == q
                        && inputs.reversed[e] == Some(true);
                assert(inputs.entries[e].pool == inputs.entries[n - 1].pool);
            }
            lemma_one_more(m, is, was, q);
        } else {
            lemma_select_same(m, is, was);
        }
    }
}

proof fn lemma_none(n: int, p: spec_fn(int) -> bool)
    requires
        forall|i: int| 0 <= i < n ==> !#[trigger] p(i),
    ensures
        count(n, p) == 0,
    decreases n,
{
    if n > 0 {
        lemma_none(n - 1, p);
    }
}

proof fn lemma_one_more(n: int, p: spec_fn(int) -> bool, r: spec_fn(int) -> bool, q: int)
    requires
        0 <= q < n,
        !r(q),
        forall|i: int| 0 <= i < n ==> #[trigger] p(i) == (r(i) || i == q),
    ensures
        count(n, p) == count(n, r) + 1,
    decreases n,
{
    assert(p(n - 1) == (r(n - 1) || n - 1 == q));
    if q == n - 1 {
        lemma_select_same(n - 1, p, r);
    } else {
        lemma_one_more(n - 1, p, r, q);
    }
}

/// The pools that only a reversal reaches are counted, each once.
pub proof fn pools_saved_by_a_reversal_are_counted(c: Census, inputs: Inputs<'_>)
    requires
        inputs.wf(),
        weighs_pools(c, inputs),
    ensures
        c.ipv4.pools_reversed_only == count(
            inputs.pools as int,
            |p: int| only_reversal_reaches(inputs, p),
        ),
        c.ipv4.stake_reversed_only@.len() == c.ipv4.pools_reversed_only,
        forall|j: int|
            0 <= j < c.ipv4.stake_reversed_only.len() ==> only_reversal_reaches(
                inputs,
                (#[trigger] c.ipv4.stake_reversed_only[j]).pool as int,
            ) && c.ipv4.stake_reversed_only[j].parts == 1,
{
    let n = inputs.entries.len() as int;
    let m = inputs.pools as int;
    let first = crate::census::saved_by_reversal(
        inputs.entries,
        inputs.reversed,
        crate::census::oks(inputs),
    );
    lemma_saved(inputs, n);
    assert forall|p: int| 0 <= p < m implies #[trigger] saved_among(inputs, n)(p)
        == only_reversal_reaches(inputs, p) by {
        lemma_silent(inputs, p);
    }
    lemma_select_same(
        m,
        saved_among(inputs, n),
        |p: int| only_reversal_reaches(inputs, p),
    );
    lemma_select(n, first);
    let at = select(n, first);
    assert forall|j: int| 0 <= j < c.ipv4.stake_reversed_only.len() implies
        only_reversal_reaches(inputs, (#[trigger] c.ipv4.stake_reversed_only[j]).pool as int)
        && c.ipv4.stake_reversed_only[j].parts == 1 by {
        let e = at[j];
        assert(first(e));
        let p = inputs.entries[e].pool as int;
        crate::standing::lemma_ok_bounded(inputs, p);
        lemma_select(n, crate::standing::of_pool(inputs.entries, p));
        lemma_silent(inputs, p);
        assert(crate::census::oks(inputs)[p] == 0);
        assert(c.ipv4.stake_reversed_only@[j] == crate::stake::whole(p));
        assert(inputs.entries[e].pool == p && inputs.reversed[e] == Some(true));
    }
}

proof fn lemma_silent(inputs: Inputs<'_>, p: int)
    ensures
        inputs.ok(p) == 0 <==> forall|e: int|
            0 <= e < inputs.entries.len() && (#[trigger] inputs.entries[e]).pool == p ==> !(
            inputs.best()[e] matches Some(Ok(_))),
{
    let n = inputs.entries.len() as int;
    let live = crate::standing::ok_of_pool(inputs.entries, inputs.best(), p);
    lemma_select(n, live);
    if inputs.ok(p) > 0 {
        let e = select(n, live)[0];
        assert(live(e));
        assert(inputs.entries[e].pool == p);
    } else {
        assert forall|e: int|
            0 <= e < n && (#[trigger] inputs.entries[e]).pool == p implies !(
        inputs.best()[e] matches Some(Ok(_))) by {
            if live(e) {
                assert(select(n, live).contains(e));
            }
        }
    }
}

// Failures to connect.

/// Every relay that could not be connected to is counted under what the socket
/// said: that time ran out, that it was refused, that there is no way, or
/// something else.
pub proof fn failed_connects_are_counted(c: Census, inputs: Inputs<'_>)
    requires
        counts_relays(c, inputs),
    ensures
        ({
            let n = inputs.entries.len() as int;
            let best = inputs.best();
            let said = |e: int, words: Seq<char>|
                best[e] matches Some(Err(f)) && f.stage is Connect && crate::text::has_text(
                    crate::text::lowered(f.error),
                    words,
                );
            let late = |e: int| said(e, "timeout"@) || said(e, "timed out"@);
            let refused = |e: int| !late(e) && said(e, "refused"@);
            let cut = |e: int|
                !late(e) && !refused(e) && (said(e, "unreachable"@) || said(e, "no route"@));
            let v = c.relays_failed_connect@;
            &&& v.len() == 4
            &&& v[0].0@ == "timeout"@ && v[0].1 == count(n, late)
            &&& v[1].0@ == "refused"@ && v[1].1 == count(n, refused)
            &&& v[2].0@ == "unreachable"@ && v[2].1 == count(n, cut)
            &&& v[3].0@ == "other"@ && v[3].1 == count(
                n,
                |e: int|
                    best[e] matches Some(Err(f)) && f.stage is Connect && !late(e) && !refused(e)
                        && !cut(e),
            )
        }),
{
    let n = inputs.entries.len() as int;
    let best = inputs.best();
    let said = |e: int, words: Seq<char>|
        best[e] matches Some(Err(f)) && f.stage is Connect && crate::text::has_text(
            crate::text::lowered(f.error),
            words,
        );
    let late = |e: int| said(e, "timeout"@) || said(e, "timed out"@);
    let refused = |e: int| !late(e) && said(e, "refused"@);
    let cut = |e: int|
        !late(e) && !refused(e) && (said(e, "unreachable"@) || said(e, "no route"@));
    let rest = |e: int|
        best[e] matches Some(Err(f)) && f.stage is Connect && !late(e) && !refused(e) && !cut(e);
    reveal_strlit("timeout");
    reveal_strlit("refused");
    reveal_strlit("unreachable");
    reveal_strlit("other");
    assert("timeout"@[0] == 't' && "refused"@[0] == 'r' && "unreachable"@[0] == 'u'
        && "other"@[0] == 'o');
    let words = crate::reasons::CONNECT_REASONS@;
    assert(words[0]@ == "timeout"@ && words[1]@ == "refused"@ && words[2]@ == "unreachable"@
        && words[3]@ == "other"@);
    lemma_select_same(n, late, crate::tally::not_connected(best, "timeout"@));
    lemma_select_same(n, refused, crate::tally::not_connected(best, "refused"@));
    lemma_select_same(n, cut, crate::tally::not_connected(best, "unreachable"@));
    lemma_select_same(n, rest, crate::tally::not_connected(best, "other"@));
    assert(best.len() == n);
}

/// A relay that answered has no reason for failing, and one that failed has
/// one: that its reversal answered, or else the stage, or else, where it got no
/// connection, the kind of its address or what the socket said.
pub proof fn reasons_say_why(inputs: Inputs<'_>, e: int)
    requires
        0 <= e < inputs.entries.len(),
    ensures
        ({
            let reason = inputs.reasons()[e];
            let first = crate::reasons::first_addr(
                inputs.endpoints,
                crate::outcomes::found_at(inputs.endpoints, e as usize),
            );
            match inputs.best()[e] {
                Some(Err(f)) => {
                    &&& reason is Some
                    &&& inputs.reversed[e] == Some(true) ==> reason == Some("reversed ipv4"@)
                    &&& inputs.reversed[e] != Some(true) ==> {
                        &&& f.stage is Srv ==> reason == Some("srv"@)
                        &&& f.stage is Dns ==> reason == Some("dns"@)
                        &&& f.stage is Handshake ==> reason == Some("handshake"@)
                        &&& f.stage is Chainsync ==> reason == Some("chainsync"@)
                        &&& (f.stage is Address || f.stage is Connect) && first is Some ==> {
                            let ip = first->0;
                            let use_ = crate::asn::use_of(ip);
                            &&& use_ == Some(crate::asn::SpecialUse::Private) ==> reason == Some(
                                "private address"@,
                            )
                            &&& use_ == Some(crate::asn::SpecialUse::Reserved) ==> reason == Some(
                                "reserved address"@,
                            )
                            &&& use_ is None && inputs.db is Some && inputs.db->0.says(
                                ip,
                            ) is None ==> reason == Some("unrouted address"@)
                            &&& use_ is None && (inputs.db is None || inputs.db->0.says(
                                ip,
                            ) is Some) ==> reason == Some(
                                crate::reasons::connect_reason_of(f.error),
                            )
                        }
                        &&& (f.stage is Address || f.stage is Connect) && first is None ==> reason
                            == Some(crate::reasons::connect_reason_of(f.error))
                    }
                },
                _ => reason is None,
            }
        }),
{
}

// Chances.

/// The weight of the listings of the entry `e` at the endpoint `x`.
pub open spec fn weight_at(inputs: Inputs<'_>, e: int, x: int) -> nat {
    let ep = inputs.endpoints[x];
    sum_below(
        crate::outcomes::listings(ep),
        |j: int|
            if ep.entries[j] == e {
                match ep.weights[j] {
                    Some(w) => w as nat,
                    None => 0,
                }
            } else {
                0
            },
    )
}

/// The number of listings of the entry `e` at the endpoint `x`.
pub open spec fn listings_at(inputs: Inputs<'_>, e: int, x: int) -> nat {
    let ep = inputs.endpoints[x];
    sum_below(
        crate::outcomes::listings(ep),
        |j: int|
            if ep.entries[j] == e {
                1
            } else {
                0
            },
    )
}

/// The weight of the targets of the entry `e`, or of those that answered.
pub open spec fn weight_of(inputs: Inputs<'_>, e: int, live: bool) -> nat {
    sum_below(
        inputs.endpoints.len() as int,
        |x: int|
            if live && !(inputs.outcomes[x] matches Some(Ok(_))) {
                0
            } else {
                weight_at(inputs, e, x)
            },
    )
}

/// The number of targets of the entry `e`, or of those that answered.
pub open spec fn targets_of(inputs: Inputs<'_>, e: int, live: bool) -> nat {
    sum_below(
        inputs.endpoints.len() as int,
        |x: int|
            if live && !(inputs.outcomes[x] matches Some(Ok(_))) {
                0
            } else {
                listings_at(inputs, e, x)
            },
    )
}

spec fn weights(ep: crate::resolve::EndpointView, e: usize) -> spec_fn(int) -> nat {
    |j: int|
        if ep.entries[j] == e {
            match ep.weights[j] {
                Some(w) => w as nat,
                None => 0,
            }
        } else {
            0
        }
}

spec fn ones(ep: crate::resolve::EndpointView, e: usize) -> spec_fn(int) -> nat {
    |j: int|
        if ep.entries[j] == e {
            1
        } else {
            0
        }
}

proof fn lemma_same(n: int, f: spec_fn(int) -> nat, g: spec_fn(int) -> nat)
    requires
        forall|i: int| 0 <= i < n ==> #[trigger] f(i) == g(i),
    ensures
        sum_below(n, f) == sum_below(n, g),
    decreases n,
{
    if n > 0 {
        lemma_same(n - 1, f, g);
    }
}

proof fn lemma_tallied(
    t: crate::outcomes::TallyView,
    ep: crate::resolve::EndpointView,
    live: bool,
    e: usize,
    k: int,
)
    ensures
        ({
            let r = crate::outcomes::tallied(t, ep, live, e, k);
            let (w, n) = (sum_below(k, weights(ep, e)), sum_below(k, ones(ep, e)));
            &&& r.weight == t.weight + w
            &&& r.targets == t.targets + n
            &&& r.weight_reached == t.weight_reached + if live {
                w
            } else {
                0
            }
            &&& r.targets_reached == t.targets_reached + if live {
                n
            } else {
                0
            }
        }),
    decreases k,
{
    if k > 0 {
        lemma_tallied(t, ep, live, e, k - 1);
    }
}

spec fn weight_upto(inputs: Inputs<'_>, e: int, live: bool) -> spec_fn(int) -> nat {
    |x: int|
        if live && !(inputs.outcomes[x] matches Some(Ok(_))) {
            0
        } else {
            weight_at(inputs, e, x)
        }
}

spec fn targets_upto(inputs: Inputs<'_>, e: int, live: bool) -> spec_fn(int) -> nat {
    |x: int|
        if live && !(inputs.outcomes[x] matches Some(Ok(_))) {
            0
        } else {
            listings_at(inputs, e, x)
        }
}

proof fn lemma_tally(inputs: Inputs<'_>, e: usize, n: int)
    ensures
        ({
            let t = crate::outcomes::tally(inputs.endpoints, inputs.outcomes, e, n);
            &&& t.weight == sum_below(n, weight_upto(inputs, e as int, false))
            &&& t.weight_reached == sum_below(n, weight_upto(inputs, e as int, true))
            &&& t.targets == sum_below(n, targets_upto(inputs, e as int, false))
            &&& t.targets_reached == sum_below(n, targets_upto(inputs, e as int, true))
        }),
    decreases n,
{
    if n > 0 {
        lemma_tally(inputs, e, n - 1);
        let ep = inputs.endpoints[n - 1];
        let k = crate::outcomes::listings(ep);
        lemma_tallied(
            crate::outcomes::tally(inputs.endpoints, inputs.outcomes, e, n - 1),
            ep,
            crate::outcomes::reached(inputs.outcomes[n - 1]),
            e,
            k,
        );
        lemma_same(
            k,
            weights(ep, e),
            |j: int|
                if ep.entries[j] == e as int {
                    match ep.weights[j] {
                        Some(w) => w as nat,
                        None => 0,
                    }
                } else {
                    0
                },
        );
        lemma_same(
            k,
            ones(ep, e),
            |j: int|
                if ep.entries[j] == e as int {
                    1
                } else {
                    0
                },
        );
        assert(weight_at(inputs, e as int, n - 1) == sum_below(k, weights(ep, e)));
        assert(listings_at(inputs, e as int, n - 1) == sum_below(k, ones(ep, e)));
    }
}

/// The chance of a plain relay is one when it answered and none when not. That
/// of an SRV record is the weight of its targets that answered over the weight
/// of all; where none of them weighs anything, their numbers count.
pub proof fn chances_go_by_weight(c: Census, inputs: Inputs<'_>, e: int)
    requires
        inputs.wf(),
        counts_relays(c, inputs),
        0 <= e < inputs.entries.len(),
        weight_of(inputs, e, false) <= u64::MAX,
        targets_of(inputs, e, false) <= u64::MAX,
    ensures
        c.entry_probability.len() == inputs.entries.len(),
        ({
            let r = c.entry_probability[e];
            let answered = inputs.best()[e] matches Some(Ok(_));
            if inputs.entries[e].port is Some {
                r == if answered {
                    Ratio { num: 1, den: 1 }
                } else {
                    Ratio { num: 0, den: 1 }
                }
            } else if weight_of(inputs, e, false) > 0 {
                r.num == weight_of(inputs, e, true) && r.den == weight_of(inputs, e, false)
            } else if targets_of(inputs, e, false) > 0 {
                r.num == targets_of(inputs, e, true) && r.den == targets_of(inputs, e, false)
            } else {
                r.num == 0 && r.den > 0
            }
        }),
{
    let n = inputs.endpoints.len() as int;
    lemma_tally(inputs, e as usize, n);
    crate::outcomes::lemma_tally_bounded(inputs.endpoints, inputs.outcomes, e as usize, n);
    lemma_same(
        n,
        weight_upto(inputs, e, false),
        |x: int|
            if false && !(inputs.outcomes[x] matches Some(Ok(_))) {
                0
            } else {
                weight_at(inputs, e, x)
            },
    );
    assert(weight_of(inputs, e, false) == sum_below(n, weight_upto(inputs, e, false)));
    assert(weight_of(inputs, e, true) == sum_below(n, weight_upto(inputs, e, true)));
    assert(targets_of(inputs, e, false) == sum_below(n, targets_upto(inputs, e, false)));
    assert(targets_of(inputs, e, true) == sum_below(n, targets_upto(inputs, e, true)));
}

// Pools.

/// A relay as it is written: a name alone, or a host and its port with a colon
/// between them, where a host that has colons stands in brackets.
pub open spec fn as_written(address: Seq<char>, port: Option<u16>) -> Seq<char> {
    match port {
        None => address,
        Some(p) => if address.contains(':') && address[0] != '[' {
            "["@ + address + "]:"@ + crate::text::decimal(p as nat)
        } else {
            address + ":"@ + crate::text::decimal(p as nat)
        },
    }
}

/// The pools that the index named are counted; a pool is listed under its
/// place, with its relays as they are written, and with its shortest round
/// trip.
pub proof fn pools_are_described(c: Census, inputs: Inputs<'_>, p: int)
    requires
        inputs.wf(),
        weighs_pools(c, inputs),
        0 <= p < inputs.pools,
    ensures
        c.pools.len() == inputs.pools,
        c.pools_indexed == count(inputs.pools as int, |q: int| c.pools[q].meta is Some),
        c.pools[p].index == p,
        c.pools[p].meta is Some ==> inputs.index is Some,
        c.pools[p].relays.len() == c.pools[p].relays_total,
        forall|i: int|
            0 <= i < c.pools[p].relays.len() ==> (#[trigger] c.pools[p].relays[i])@ == {
                let e = inputs.entries[select(
                    inputs.entries.len() as int,
                    |e: int| inputs.entries[e].pool == p,
                )[i]];
                as_written(e.address, e.port)
            },
{
    let n = inputs.pools as int;
    let stats = inputs.stats();
    assert(c.pools.deep_view().len() == c.pools.len());
    assert forall|q: int| 0 <= q < n implies c.pools.deep_view()[q]
        == #[trigger] c.pools[q].deep_view() by {}
    assert forall|q: int| 0 <= q < n implies (#[trigger] c.pools[q].meta) is Some
        == stats[q].meta is Some by {
        assert(c.pools.deep_view()[q] == c.pools[q].deep_view());
    }
    lemma_select_same(
        n,
        |q: int| c.pools[q].meta is Some,
        crate::census::named_pools(stats),
    );
    assert(c.pools.deep_view()[p] == c.pools[p].deep_view());
    assert(stats[p] == inputs.stat(p));
    let own = inputs.own(p);
    let pick = crate::standing::of_pool(inputs.entries, p);
    lemma_select(inputs.entries.len() as int, pick);
    assert(c.pools[p].relays.deep_view().len() == c.pools[p].relays.len());
    lemma_select_same(
        inputs.entries.len() as int,
        |e: int| inputs.entries[e].pool == p,
        pick,
    );
    assert forall|i: int| 0 <= i < c.pools[p].relays.len() implies (
    #[trigger] c.pools[p].relays[i])@ == {
        let e = inputs.entries[select(
            inputs.entries.len() as int,
            |e: int| inputs.entries[e].pool == p,
        )[i]];
        as_written(e.address, e.port)
    } by {
        let e = own[i];
        assert(pick(e));
        assert(c.pools[p].relays.deep_view()[i] == c.pools[p].relays[i]@);
        assert(c.pools[p].relays[i]@ == crate::standing::relay_text(inputs.entries[e]));
        reveal_strlit(":");
        reveal_strlit("[");
        reveal_strlit("]:");
        assert(c.pools[p].relays[i]@ =~= as_written(
            inputs.entries[e].address,
            inputs.entries[e].port,
        ));
    }
}

// Amounts.

/// Each amount is worked out from what it is called by: the stake of the
/// snapshot, the stake by reach, that of the pools that some or all relays of
/// answer, and so on.
pub proof fn amounts_are_what_they_are_called(a: Amounts<Amount>, c: Census)
    requires
        shows(a, c),
        c.wf(),
    ensures
        ({
            let partial = c.blp_by_reach[1];
            let full = c.blp_by_reach[2];
            &&& partial.0 == Reach::Partial && full.0 == Reach::Full
            &&& a.snapshot_stake.deep_view() == AmountView::Stake(seq![c.snapshot_stake@])
            &&& a.reachable_stake.deep_view() == AmountView::Stake(
                seq![partial.1.stake@, full.1.stake@],
            )
            &&& a.reversed_only_stake.deep_view() == AmountView::Stake(
                seq![c.ipv4.stake_reversed_only@],
            )
            &&& a.reachable_with_reversed.deep_view() == AmountView::Stake(
                seq![partial.1.stake@, full.1.stake@, c.ipv4.stake_reversed_only@],
            )
            &&& a.reachability_sum.deep_view() == AmountView::Sum(c.reachability.observed@)
            &&& a.rtt_sum.deep_view() == AmountView::Sum(c.rtt_seconds.observed@)
            &&& a.scan_duration.deep_view() == AmountView::Time(c.scan_duration)
        }),
{
    assert(Reach::ALL@[1] == Reach::Partial && Reach::ALL@[2] == Reach::Full);
    assert(c.blp_by_reach[1].0 == Reach::ALL@[1]);
    assert(c.blp_by_reach[2].0 == Reach::ALL@[2]);
}

/// What is listed per name, version, reach, operator or network has an amount
/// of its own, in the same place.
pub proof fn amounts_stand_where_they_belong(a: Amounts<Amount>, c: Census, i: int)
    requires
        shows(a, c),
        a.fits(c),
        i >= 0,
    ensures
        i < c.srv_sets.len() ==> a.srv_probability[i].deep_view() == AmountView::Fraction(
            c.srv_sets[i].1.reach_probability,
        ),
        i < c.n2n_versions.len() ==> a.version_stake[i].deep_view() == AmountView::Stake(
            seq![c.n2n_versions[i].1.stake@],
        ),
        i < c.blp_by_reach.len() ==> a.reach_stake[i].deep_view() == AmountView::Stake(
            seq![c.blp_by_reach[i].1.stake@],
        ),
        i < c.top_pools.len() ==> a.outreach_stake[i].deep_view() == AmountView::Stake(
            seq![c.top_pools[i].stake@],
        ),
        i < c.asn_metrics.len() ==> a.asn_stake[i].deep_view() == AmountView::Stake(
            seq![c.asn_metrics[i].stake@],
        ),
        i < c.asn_metrics.len() ==> a.asn_stake_reachable[i].deep_view() == AmountView::Stake(
            seq![c.asn_metrics[i].stake_reachable@],
        ),
{
    if i < c.srv_sets.len() {
        assert(a.srv_probability.deep_view()[i] == a.srv_probability[i].deep_view());
    }
    if i < c.n2n_versions.len() {
        assert(a.version_stake.deep_view()[i] == a.version_stake[i].deep_view());
    }
    if i < c.blp_by_reach.len() {
        assert(a.reach_stake.deep_view()[i] == a.reach_stake[i].deep_view());
    }
    if i < c.top_pools.len() {
        assert(a.outreach_stake.deep_view()[i] == a.outreach_stake[i].deep_view());
    }
    if i < c.asn_metrics.len() {
        assert(a.asn_stake.deep_view()[i] == a.asn_stake[i].deep_view());
        assert(a.asn_stake_reachable.deep_view()[i] == a.asn_stake_reachable[i].deep_view());
    }
}

/// The stake within a bound is the whole stake of each pool that the bound
/// covers, and the last amount is that of all pools that have a value.
pub proof fn bounds_hold_whole_pools(a: Amounts<Amount>, c: Census, b: int)
    requires
        shows(a, c),
        a.fits(c),
        c.wf(),
    ensures
        0 <= b < c.stake_reachable_within.bounds.len() ==> (a.stake_within[b].deep_view()
            matches AmountView::Stake(s) && s.len() == 1 && s[0].len()
            == c.stake_reachable_within.values[b].len() && forall|j: int|
            0 <= j < s[0].len() ==> (#[trigger] s[0][j]).parts == 1 && s[0][j].pool
                == c.stake_reachable_within.values[b][j]),
        0 <= b < c.stake_within_blocks_of_tip.bounds.len() ==> (a.stake_near_tip[b].deep_view()
            matches AmountView::Stake(s) && s.len() == 1 && s[0].len()
            == c.stake_within_blocks_of_tip.values[b].len() && forall|j: int|
            0 <= j < s[0].len() ==> (#[trigger] s[0][j]).parts == 1 && s[0][j].pool
                == c.stake_within_blocks_of_tip.values[b][j]),
        a.stake_within[c.stake_reachable_within.bounds.len() as int].deep_view()
            matches AmountView::Stake(s) && s.len() == 1 && s[0].len()
            == c.stake_reachable_within.total.len() && forall|j: int|
            0 <= j < s[0].len() ==> (#[trigger] s[0][j]).parts == 1 && s[0][j].pool
                == c.stake_reachable_within.total[j],
        a.stake_near_tip[c.stake_within_blocks_of_tip.bounds.len() as int].deep_view()
            matches AmountView::Stake(s) && s.len() == 1 && s[0].len()
            == c.stake_within_blocks_of_tip.total.len() && forall|j: int|
            0 <= j < s[0].len() ==> (#[trigger] s[0][j]).parts == 1 && s[0][j].pool
                == c.stake_within_blocks_of_tip.total[j],
{
    let n = c.stake_reachable_within.bounds.len() as int;
    let m = c.stake_within_blocks_of_tip.bounds.len() as int;
    assert(a.stake_within.deep_view()[n] == a.stake_within[n].deep_view());
    assert(a.stake_near_tip.deep_view()[m] == a.stake_near_tip[m].deep_view());
    if 0 <= b < n {
        assert(a.stake_within.deep_view()[b] == a.stake_within[b].deep_view());
    }
    if 0 <= b < m {
        assert(a.stake_near_tip.deep_view()[b] == a.stake_near_tip[b].deep_view());
    }
}

/// The weighted stake goes over all pools, each with the chances of its relays.
pub proof fn all_pools_are_weighed(a: Amounts<Amount>, c: Census, p: int)
    requires
        shows(a, c),
        0 <= p < c.pools.len(),
    ensures
        a.relay_weighted_stake.deep_view() matches AmountView::Weighted(w) && w.len()
            == c.pools.len() && w[p].0 == c.pools[p].index && w[p].1 == c.pools[p].chances@,
{
}

} // verus!
