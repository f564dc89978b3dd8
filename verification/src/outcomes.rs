//! What the probes of its endpoints say of a relay entry.

use vstd::prelude::*;

use crate::histogram::Ratio;
use crate::probe::{
    copy_outcome, outcome, outcomes_of, Failed, FailedView, Outcome, OutcomeView, Stage,
};
use crate::resolve::{Endpoint, EndpointView, Entry, EntryView};

verus! {

/// Did the probe return a tip?
pub open spec fn reached(o: Option<OutcomeView>) -> bool {
    o matches Some(Ok(_))
}

/// Does `candidate` say more about an entry than `current`? A tip beats any
/// failure, and a faster tip beats a slower one.
pub open spec fn says_more(current: Option<OutcomeView>, candidate: OutcomeView) -> bool {
    match (current, candidate) {
        (None, _) => true,
        (Some(Err(_)), Ok(_)) => true,
        (Some(Ok(a)), Ok(b)) => b.rtt_ms < a.rtt_ms,
        _ => false,
    }
}

fn better(current: &Option<Outcome>, candidate: &Outcome) -> (r: bool)
    ensures
        r == says_more(
            match *current {
                Some(o) => Some(outcome(o)),
                None => None,
            },
            outcome(*candidate),
        ),
{
    match (current, candidate) {
        (None, _) => true,
        (Some(Err(_)), Ok(_)) => true,
        (Some(Ok(a)), Ok(b)) => b.rtt_ms < a.rtt_ms,
        _ => false,
    }
}

/// The best outcome of entry `e` among the first `n` endpoints.
pub open spec fn best_among(
    endpoints: Seq<EndpointView>,
    outcomes: Seq<Option<OutcomeView>>,
    e: usize,
    n: int,
) -> Option<OutcomeView>
    decreases n,
{
    if n <= 0 {
        None
    } else {
        let front = best_among(endpoints, outcomes, e, n - 1);
        match outcomes[n - 1] {
            Some(o) => if endpoints[n - 1].entries.contains(e) && says_more(front, o) {
                Some(o)
            } else {
                front
            },
            None => front,
        }
    }
}

/// The outcome of entry `e`: its best one, or the failure of its SRV lookup
/// where it was probed nowhere.
pub open spec fn best_of(
    endpoints: Seq<EndpointView>,
    outcomes: Seq<Option<OutcomeView>>,
    srv_errors: Seq<Option<Seq<char>>>,
    e: int,
) -> Option<OutcomeView> {
    match best_among(endpoints, outcomes, e as usize, endpoints.len() as int) {
        Some(o) => Some(o),
        None => if e < srv_errors.len() && srv_errors[e] is Some {
            Some(
                Err(FailedView { stage: Stage::Srv, error: srv_errors[e]->0, versions: None }),
            )
        } else {
            None
        },
    }
}

/// The outcomes of all entries.
pub open spec fn best_of_all(
    entries: nat,
    endpoints: Seq<EndpointView>,
    outcomes: Seq<Option<OutcomeView>>,
    srv_errors: Seq<Option<Seq<char>>>,
) -> Seq<Option<OutcomeView>> {
    Seq::new(entries, |e: int| best_of(endpoints, outcomes, srv_errors, e))
}

/// Do the endpoints list only entries that there are?
pub open spec fn lists_entries(endpoints: Seq<EndpointView>, entries: nat) -> bool {
    forall|x: int, j: int|
        #![trigger endpoints[x].entries[j]]
        0 <= x < endpoints.len() && 0 <= j < endpoints[x].entries.len()
            ==> endpoints[x].entries[j] < entries
}

/// One outcome per relay entry. An entry probed at several endpoints, as an
/// SRV record is, takes its best one; an SRV entry with no targets fails at
/// the `srv` stage.
pub fn best_outcomes(
    entries: &[Entry],
    endpoints: &[Endpoint],
    outcomes: &[Option<Outcome>],
    srv_errors: &[Option<String>],
) -> (best: Vec<Option<Outcome>>)
    requires
        outcomes.len() >= endpoints.len(),
        srv_errors.len() <= entries.len(),
        lists_entries(endpoints.deep_view(), entries.len() as nat),
    ensures
        outcomes_of(best@) == best_of_all(
            entries.len() as nat,
            endpoints.deep_view(),
            outcomes_of(outcomes@),
            srv_errors.deep_view(),
        ),
{
    let ghost eps = endpoints.deep_view();
    let ghost outs = outcomes_of(outcomes@);
    let ghost errs = srv_errors.deep_view();
    let mut best: Vec<Option<Outcome>> = Vec::new();
    let mut i: usize = 0;
    while i < entries.len()
        invariant
            i <= entries.len(),
            best.len() == i,
            forall|e: int| 0 <= e < i ==> (#[trigger] best[e]) is None,
        decreases entries.len() - i,
    {
        best.push(None);
        i += 1;
    }
    let mut x: usize = 0;
    while x < endpoints.len()
        invariant
            x <= endpoints.len(),
            best.len() == entries.len(),
            outcomes.len() >= endpoints.len(),
            eps == endpoints.deep_view(),
            outs == outcomes_of(outcomes@),
            lists_entries(eps, entries.len() as nat),
            forall|e: int|
                0 <= e < best.len() ==> #[trigger] outcomes_of(best@)[e] == best_among(
                    eps,
                    outs,
                    e as usize,
                    x as int,
                ),
        decreases endpoints.len() - x,
    {
        let ghost start = outcomes_of(best@);
        assert(eps[x as int] == endpoints[x as int].deep_view());
        if let Some(o) = &outcomes[x] {
            let listed = &endpoints[x].entries;
            assert(outs[x as int] == Some(outcome(*o)));
            let mut j: usize = 0;
            while j < listed.len()
                invariant
                    j <= listed.len(),
                    x < endpoints.len(),
                    best.len() == entries.len(),
                    eps == endpoints.deep_view(),
                    eps[x as int].entries == listed@,
                    start.len() == best.len(),
                    lists_entries(eps, entries.len() as nat),
                    forall|e: int|
                        0 <= e < best.len() ==> #[trigger] outcomes_of(best@)[e] == if listed@.take(
                            j as int,
                        ).contains(e as usize) && says_more(start[e], outcome(*o)) {
                            Some(outcome(*o))
                        } else {
                            start[e]
                        },
                decreases listed.len() - j,
            {
                let e: usize = listed[j];
                assert(eps[x as int].entries[j as int] < entries.len());
                let ghost before = outcomes_of(best@);
                let ghost now = listed@.take(j as int);
                let ghost next = listed@.take(j + 1);
                assert(next =~= now.push(e));
                assert(before[e as int] == match best[e as int] {
                    Some(o) => Some(outcome(o)),
                    None => None,
                });
                if better(&best[e], o) {
                    best.set(e, Some(copy_outcome(o)));
                }
                assert forall|k: int| 0 <= k < best.len() implies #[trigger] outcomes_of(best@)[k]
                    == if next.contains(k as usize) && says_more(start[k], outcome(*o)) {
                    Some(outcome(*o))
                } else {
                    start[k]
                } by {
                    assert(before[k] == if now.contains(k as usize) && says_more(
                        start[k],
                        outcome(*o),
                    ) {
                        Some(outcome(*o))
                    } else {
                        start[k]
                    });
                    if k == e {
                        assert(next[j as int] == e);
                    } else {
                        if now.contains(k as usize) {
                            let m = choose|m: int| 0 <= m < now.len() && now[m] == k as usize;
                            assert(next[m] == k as usize);
                        }
                        if next.contains(k as usize) {
                            let m = choose|m: int| 0 <= m < next.len() && next[m] == k as usize;
                            assert(now[m] == k as usize);
                        }
                    }
                }
                j += 1;
            }
            assert(listed@.take(j as int) =~= listed@);
        }
        assert forall|e: int| 0 <= e < best.len() implies #[trigger] outcomes_of(best@)[e]
            == best_among(eps, outs, e as usize, x + 1) by {
            assert(start[e] == best_among(eps, outs, e as usize, x as int));
        }
        x += 1;
    }
    let ghost mid = outcomes_of(best@);
    let mut e: usize = 0;
    while e < srv_errors.len()
        invariant
            e <= srv_errors.len() <= entries.len(),
            best.len() == entries.len(),
            mid.len() == best.len(),
            errs == srv_errors.deep_view(),
            forall|k: int|
                0 <= k < best.len() ==> #[trigger] mid[k] == best_among(
                    eps,
                    outs,
                    k as usize,
                    eps.len() as int,
                ),
            forall|k: int| e <= k < best.len() ==> #[trigger] outcomes_of(best@)[k] == mid[k],
            forall|k: int|
                0 <= k < e ==> #[trigger] outcomes_of(best@)[k] == best_of(eps, outs, errs, k),
        decreases srv_errors.len() - e,
    {
        let ghost before = outcomes_of(best@);
        assert(errs[e as int] == srv_errors[e as int].deep_view());
        assert(before[e as int] == mid[e as int]);
        if let Some(err) = &srv_errors[e] {
            if best[e].is_none() {
                let f = Failed { stage: Stage::Srv, error: err.clone(), versions: None };
                best.set(e, Some(Err(f)));
            }
        }
        assert forall|k: int| 0 <= k < best.len() && k != e implies #[trigger] outcomes_of(best@)[k]
            == before[k] by {}
        e += 1;
    }
    assert(outcomes_of(best@) =~= best_of_all(entries.len() as nat, eps, outs, errs));
    best
}

/// An entry is reachable when any of its endpoints answered, and then by the
/// fastest one.
pub proof fn the_fastest_tip_counts(
    endpoints: Seq<EndpointView>,
    outcomes: Seq<Option<OutcomeView>>,
    srv_errors: Seq<Option<Seq<char>>>,
    e: usize,
)
    ensures
        reached(best_of(endpoints, outcomes, srv_errors, e as int)) <==> exists|x: int|
            0 <= x < endpoints.len() && #[trigger] endpoints[x].entries.contains(e) && reached(
                outcomes[x],
            ),
        forall|x: int|
            0 <= x < endpoints.len() && #[trigger] endpoints[x].entries.contains(e) && reached(
                outcomes[x],
            ) ==> best_of(endpoints, outcomes, srv_errors, e as int)->0->Ok_0.rtt_ms
                <= outcomes[x]->0->Ok_0.rtt_ms,
{
    lemma_best_among(endpoints, outcomes, e, endpoints.len() as int);
}

proof fn lemma_best_among(
    endpoints: Seq<EndpointView>,
    outcomes: Seq<Option<OutcomeView>>,
    e: usize,
    n: int,
)
    ensures
        reached(best_among(endpoints, outcomes, e, n)) <==> exists|x: int|
            0 <= x < n && #[trigger] endpoints[x].entries.contains(e) && reached(outcomes[x]),
        forall|x: int|
            0 <= x < n && #[trigger] endpoints[x].entries.contains(e) && reached(outcomes[x])
                ==> best_among(endpoints, outcomes, e, n)->0->Ok_0.rtt_ms
                <= outcomes[x]->0->Ok_0.rtt_ms,
    decreases n,
{
    if n > 0 {
        lemma_best_among(endpoints, outcomes, e, n - 1);
        if reached(best_among(endpoints, outcomes, e, n - 1)) {
            let x = choose|x: int|
                0 <= x < n - 1 && #[trigger] endpoints[x].entries.contains(e) && reached(
                    outcomes[x],
                );
            assert(endpoints[x].entries.contains(e));
        }
        if endpoints[n - 1].entries.contains(e) {
            assert(endpoints[n - 1].entries.contains(e));
        }
    }
}

/// Entries that resolve to one and the same endpoint all take its result.
pub proof fn entries_take_the_result_of_their_endpoint(
    endpoints: Seq<EndpointView>,
    outcomes: Seq<Option<OutcomeView>>,
    srv_errors: Seq<Option<Seq<char>>>,
    e: usize,
    x: int,
)
    requires
        0 <= x < endpoints.len(),
        outcomes[x] is Some,
        forall|y: int|
            0 <= y < endpoints.len() ==> (#[trigger] endpoints[y].entries.contains(e) <==> y == x),
    ensures
        best_of(endpoints, outcomes, srv_errors, e as int) == outcomes[x],
{
    lemma_best_at(endpoints, outcomes, e, x, endpoints.len() as int);
}

proof fn lemma_best_at(
    endpoints: Seq<EndpointView>,
    outcomes: Seq<Option<OutcomeView>>,
    e: usize,
    x: int,
    n: int,
)
    requires
        0 <= x < endpoints.len(),
        0 <= n <= endpoints.len(),
        outcomes[x] is Some,
        forall|y: int|
            0 <= y < endpoints.len() ==> (#[trigger] endpoints[y].entries.contains(e) <==> y == x),
    ensures
        best_among(endpoints, outcomes, e, n) == (if x < n {
            outcomes[x]
        } else {
            None
        }),
    decreases n,
{
    if n > 0 {
        lemma_best_at(endpoints, outcomes, e, x, n - 1);
        assert(endpoints[n - 1].entries.contains(e) <==> n - 1 == x);
    }
}

/// An entry that was probed nowhere because its SRV lookup gave no targets
/// fails at the `srv` stage.
pub proof fn a_failed_lookup_fails_at_srv(
    endpoints: Seq<EndpointView>,
    outcomes: Seq<Option<OutcomeView>>,
    srv_errors: Seq<Option<Seq<char>>>,
    e: usize,
)
    requires
        e < srv_errors.len(),
        srv_errors[e as int] is Some,
        forall|x: int| 0 <= x < endpoints.len() ==> !#[trigger] endpoints[x].entries.contains(e),
    ensures
        best_of(endpoints, outcomes, srv_errors, e as int) == Some(
            Err::<crate::probe::ReachedView, FailedView>(
                FailedView {
                    stage: Stage::Srv,
                    error: srv_errors[e as int]->0,
                    versions: None,
                },
            ),
        ),
{
    lemma_probed_nowhere(endpoints, outcomes, e, endpoints.len() as int);
}

proof fn lemma_probed_nowhere(
    endpoints: Seq<EndpointView>,
    outcomes: Seq<Option<OutcomeView>>,
    e: usize,
    n: int,
)
    requires
        0 <= n <= endpoints.len(),
        forall|x: int| 0 <= x < endpoints.len() ==> !#[trigger] endpoints[x].entries.contains(e),
    ensures
        best_among(endpoints, outcomes, e, n) is None,
    decreases n,
{
    if n > 0 {
        lemma_probed_nowhere(endpoints, outcomes, e, n - 1);
        assert(!endpoints[n - 1].entries.contains(e));
    }
}

// Reach probabilities.

/// The SRV weight at place `j` of an endpoint; a plain relay weighs nothing.
pub open spec fn weight_at(ep: EndpointView, j: int) -> nat {
    match ep.weights[j] {
        Some(w) => w as nat,
        None => 0,
    }
}

/// How many listings of an endpoint carry a weight.
pub open spec fn listings(ep: EndpointView) -> int {
    if ep.entries.len() <= ep.weights.len() {
        ep.entries.len() as int
    } else {
        ep.weights.len() as int
    }
}

/// How many listings the first `n` endpoints have.
pub open spec fn listed(endpoints: Seq<EndpointView>, n: int) -> nat
    decreases n,
{
    if n <= 0 {
        0
    } else {
        listed(endpoints, n - 1) + listings(endpoints[n - 1]) as nat
    }
}

/// What an entry adds up to over some listings.
#[verifier::ext_equal]
pub struct TallyView {
    /// The weight of its targets, and of those that answered.
    pub weight: nat,
    pub weight_reached: nat,
    /// The number of its targets, and of those that answered.
    pub targets: nat,
    pub targets_reached: nat,
}

pub open spec fn nothing() -> TallyView {
    TallyView { weight: 0, weight_reached: 0, targets: 0, targets_reached: 0 }
}

/// A tally with one more target.
pub open spec fn with_target(t: TallyView, weight: nat, reached: bool) -> TallyView {
    TallyView {
        weight: t.weight + weight,
        weight_reached: t.weight_reached + if reached {
            weight
        } else {
            0
        },
        targets: t.targets + 1,
        targets_reached: t.targets_reached + if reached {
            1nat
        } else {
            0
        },
    }
}

/// The tally `t` of entry `e` with the first `k` listings of an endpoint.
pub open spec fn tallied(t: TallyView, ep: EndpointView, reached: bool, e: usize, k: int) -> TallyView
    decreases k,
{
    if k <= 0 {
        t
    } else {
        let front = tallied(t, ep, reached, e, k - 1);
        if ep.entries[k - 1] == e {
            with_target(front, weight_at(ep, k - 1), reached)
        } else {
            front
        }
    }
}

/// The tally of entry `e` over the first `n` endpoints.
pub open spec fn tally(
    endpoints: Seq<EndpointView>,
    outcomes: Seq<Option<OutcomeView>>,
    e: usize,
    n: int,
) -> TallyView
    decreases n,
{
    if n <= 0 {
        nothing()
    } else {
        tallied(
            tally(endpoints, outcomes, e, n - 1),
            endpoints[n - 1],
            reached(outcomes[n - 1]),
            e,
            listings(endpoints[n - 1]),
        )
    }
}

/// The chance a node using an entry reaches a working relay. A plain relay is
/// 1 or 0. An SRV record is the weight of its answering targets over the
/// weight of all its targets, as a node draws one target by weight; when every
/// weight is 0 the draw is uniform, so the count ratio is used.
pub open spec fn probability(e: EntryView, best: Option<OutcomeView>, t: TallyView) -> Ratio {
    if e.port is Some {
        Ratio {
            num: if reached(best) {
                1
            } else {
                0
            },
            den: 1,
        }
    } else if t.weight > 0 {
        Ratio { num: t.weight_reached as u64, den: t.weight as u64 }
    } else if t.targets > 0 {
        Ratio { num: t.targets_reached as u64, den: t.targets as u64 }
    } else {
        Ratio { num: 0, den: 1 }
    }
}

/// The chances of all entries.
pub open spec fn probabilities(
    entries: Seq<EntryView>,
    endpoints: Seq<EndpointView>,
    outcomes: Seq<Option<OutcomeView>>,
    best: Seq<Option<OutcomeView>>,
) -> Seq<Ratio> {
    Seq::new(
        entries.len(),
        |e: int|
            probability(
                entries[e],
                best[e],
                tally(endpoints, outcomes, e as usize, endpoints.len() as int),
            ),
    )
}

/// Can the weights of all listings be added up?
pub open spec fn weights_fit(endpoints: Seq<EndpointView>) -> bool {
    listed(endpoints, endpoints.len() as int) * 65535 <= u64::MAX
}

#[derive(Clone, Copy)]
struct Tally {
    weight: u64,
    weight_reached: u64,
    targets: u64,
    targets_reached: u64,
}

spec fn read(t: Tally) -> TallyView {
    TallyView {
        weight: t.weight as nat,
        weight_reached: t.weight_reached as nat,
        targets: t.targets as nat,
        targets_reached: t.targets_reached as nat,
    }
}

/// Is the tally made of at most `n` targets?
spec fn bounded(t: TallyView, n: nat) -> bool {
    &&& t.targets <= n
    &&& t.targets_reached <= t.targets
    &&& t.weight <= 65535 * n
    &&& t.weight_reached <= t.weight
}

proof fn lemma_listed_grows(endpoints: Seq<EndpointView>, a: int, b: int)
    requires
        a <= b,
    ensures
        listed(endpoints, a) <= listed(endpoints, b),
    decreases b - a,
{
    if a < b {
        lemma_listed_grows(endpoints, a, b - 1);
    }
}

/// Take the listings of one endpoint into the tallies.
fn add_listings(tallies: &mut Vec<Tally>, ep: &Endpoint, reached: bool, Ghost(n): Ghost<nat>)
    requires
        forall|j: int| 0 <= j < ep.entries.len() ==> ep.entries[j] < old(tallies).len(),
        (n + listings(ep.deep_view())) * 65535 <= u64::MAX,
        forall|e: int| 0 <= e < old(tallies).len() ==> bounded(read(#[trigger] old(tallies)[e]), n),
    ensures
        final(tallies).len() == old(tallies).len(),
        forall|e: int|
            0 <= e < final(tallies).len() ==> {
                &&& read(#[trigger] final(tallies)[e]) == tallied(
                    read(old(tallies)[e]),
                    ep.deep_view(),
                    reached,
                    e as usize,
                    listings(ep.deep_view()),
                )
                &&& bounded(read(final(tallies)[e]), n + listings(ep.deep_view()) as nat)
            },
{
    let ghost view = ep.deep_view();
    let ghost start = tallies@;
    let count: usize = if ep.entries.len() <= ep.weights.len() {
        ep.entries.len()
    } else {
        ep.weights.len()
    };
    let mut j: usize = 0;
    while j < count
        invariant
            j <= count,
            count == listings(view),
            view == ep.deep_view(),
            count <= ep.entries.len(),
            count <= ep.weights.len(),
            tallies.len() == start.len(),
            (n + count) * 65535 <= u64::MAX,
            forall|j: int| 0 <= j < ep.entries.len() ==> ep.entries[j] < start.len(),
            forall|e: int|
                0 <= e < tallies.len() ==> {
                    &&& read(#[trigger] tallies[e]) == tallied(
                        read(start[e]),
                        view,
                        reached,
                        e as usize,
                        j as int,
                    )
                    &&& bounded(read(tallies[e]), n + j as nat)
                },
        decreases count - j,
    {
        let e: usize = ep.entries[j];
        let w: u64 = match ep.weights[j] {
            Some(w) => w as u64,
            None => 0,
        };
        let ghost before = tallies@;
        assert(w == weight_at(view, j as int));
        let t = tallies[e];
        proof {
            assert(bounded(read(before[e as int]), n + j as nat));
            assert((n + j + 1) * 65535 <= (n + count) * 65535) by (nonlinear_arith)
                requires
                    j + 1 <= count,
            ;
        }
        let next = Tally {
            weight: t.weight + w,
            weight_reached: t.weight_reached + if reached {
                w
            } else {
                0
            },
            targets: t.targets + 1,
            targets_reached: t.targets_reached + if reached {
                1
            } else {
                0
            },
        };
        tallies.set(e, next);
        assert forall|k: int| 0 <= k < tallies.len() implies ({
            &&& read(#[trigger] tallies[k]) == tallied(
                read(start[k]),
                view,
                reached,
                k as usize,
                j + 1,
            )
            &&& bounded(read(tallies[k]), n + (j + 1) as nat)
        }) by {
            assert(read(before[k]) == tallied(read(start[k]), view, reached, k as usize, j as int));
            assert(bounded(read(before[k]), n + j as nat));
        }
        j += 1;
    }
}

/// The chance a node using each entry reaches a working relay.
pub fn reach_probabilities(
    entries: &[Entry],
    endpoints: &[Endpoint],
    outcomes: &[Option<Outcome>],
    entry_outcome: &[Option<Outcome>],
) -> (out: Vec<Ratio>)
    requires
        outcomes.len() >= endpoints.len(),
        entry_outcome.len() >= entries.len(),
        lists_entries(endpoints.deep_view(), entries.len() as nat),
        weights_fit(endpoints.deep_view()),
    ensures
        out@ == probabilities(
            entries.deep_view(),
            endpoints.deep_view(),
            outcomes_of(outcomes@),
            outcomes_of(entry_outcome@),
        ),
{
    let ghost es = entries.deep_view();
    let ghost eps = endpoints.deep_view();
    let ghost outs = outcomes_of(outcomes@);
    let ghost best = outcomes_of(entry_outcome@);
    let mut tallies: Vec<Tally> = Vec::new();
    let mut i: usize = 0;
    while i < entries.len()
        invariant
            i <= entries.len(),
            tallies.len() == i,
            forall|e: int| 0 <= e < i ==> read(#[trigger] tallies[e]) == nothing(),
        decreases entries.len() - i,
    {
        tallies.push(Tally { weight: 0, weight_reached: 0, targets: 0, targets_reached: 0 });
        i += 1;
    }
    let mut x: usize = 0;
    while x < endpoints.len()
        invariant
            x <= endpoints.len(),
            tallies.len() == entries.len(),
            outcomes.len() >= endpoints.len(),
            eps == endpoints.deep_view(),
            outs == outcomes_of(outcomes@),
            lists_entries(eps, entries.len() as nat),
            weights_fit(eps),
            forall|e: int|
                0 <= e < tallies.len() ==> {
                    &&& read(#[trigger] tallies[e]) == tally(eps, outs, e as usize, x as int)
                    &&& bounded(read(tallies[e]), listed(eps, x as int))
                },
        decreases endpoints.len() - x,
    {
        let ghost before = tallies@;
        let reached = matches!(outcomes[x], Some(Ok(_)));
        assert(eps[x as int] == endpoints[x as int].deep_view());
        assert(outs[x as int] == match outcomes[x as int] {
            Some(o) => Some(outcome(o)),
            None => None,
        });
        proof {
            lemma_listed_grows(eps, x + 1, eps.len() as int);
            let n = listed(eps, x as int);
            let m = listed(eps, eps.len() as int);
            assert((n + listings(eps[x as int])) * 65535 <= m * 65535) by (nonlinear_arith)
                requires
                    n + listings(eps[x as int]) <= m,
            ;
            assert forall|j: int| 0 <= j < endpoints[x as int].entries.len() implies endpoints[x as int].entries[j]
                < tallies.len() by {
                assert(eps[x as int].entries[j] < entries.len());
            }
        }
        add_listings(&mut tallies, &endpoints[x], reached, Ghost(listed(eps, x as int)));
        assert forall|e: int| 0 <= e < tallies.len() implies ({
            &&& read(#[trigger] tallies[e]) == tally(eps, outs, e as usize, x + 1)
            &&& bounded(read(tallies[e]), listed(eps, x + 1))
        }) by {
            assert(read(before[e]) == tally(eps, outs, e as usize, x as int));
        }
        x += 1;
    }
    let mut out: Vec<Ratio> = Vec::new();
    let mut i: usize = 0;
    while i < entries.len()
        invariant
            i <= entries.len(),
            tallies.len() == entries.len(),
            entry_outcome.len() >= entries.len(),
            es == entries.deep_view(),
            eps == endpoints.deep_view(),
            outs == outcomes_of(outcomes@),
            best == outcomes_of(entry_outcome@),
            forall|e: int|
                0 <= e < tallies.len() ==> read(#[trigger] tallies[e]) == tally(
                    eps,
                    outs,
                    e as usize,
                    eps.len() as int,
                ),
            out.len() == i,
            forall|e: int|
                0 <= e < i ==> out[e] == #[trigger] probabilities(es, eps, outs, best)[e],
        decreases entries.len() - i,
    {
        assert(es[i as int] == entries[i as int].deep_view());
        assert(best[i as int] == match entry_outcome[i as int] {
            Some(o) => Some(outcome(o)),
            None => None,
        });
        let t = tallies[i];
        assert(read(tallies[i as int]) == tally(eps, outs, i as usize, eps.len() as int));
        let p = if !entries[i].is_srv() {
            Ratio {
                num: if matches!(entry_outcome[i], Some(Ok(_))) {
                    1
                } else {
                    0
                },
                den: 1,
            }
        } else if t.weight > 0 {
            Ratio { num: t.weight_reached, den: t.weight }
        } else if t.targets > 0 {
            Ratio { num: t.targets_reached, den: t.targets }
        } else {
            Ratio { num: 0, den: 1 }
        };
        out.push(p);
        i += 1;
    }
    assert(out@ =~= probabilities(es, eps, outs, best));
    out
}

proof fn lemma_tallied_bounded(
    t: TallyView,
    ep: EndpointView,
    reached: bool,
    e: usize,
    k: int,
)
    requires
        t.weight_reached <= t.weight,
        t.targets_reached <= t.targets,
    ensures
        tallied(t, ep, reached, e, k).weight_reached <= tallied(t, ep, reached, e, k).weight,
        tallied(t, ep, reached, e, k).targets_reached <= tallied(t, ep, reached, e, k).targets,
    decreases k,
{
    if k > 0 {
        lemma_tallied_bounded(t, ep, reached, e, k - 1);
    }
}

/// A chance lies between 0 and 1.
pub proof fn a_chance_is_at_most_one(
    endpoints: Seq<EndpointView>,
    outcomes: Seq<Option<OutcomeView>>,
    e: EntryView,
    best: Option<OutcomeView>,
    place: usize,
    n: int,
)
    requires
        tally(endpoints, outcomes, place, n).weight <= u64::MAX,
        tally(endpoints, outcomes, place, n).targets <= u64::MAX,
    ensures
        probability(e, best, tally(endpoints, outcomes, place, n)).num <= probability(
            e,
            best,
            tally(endpoints, outcomes, place, n),
        ).den,
        probability(e, best, tally(endpoints, outcomes, place, n)).den > 0,
{
    lemma_tally_bounded(endpoints, outcomes, place, n);
}

pub proof fn lemma_tally_bounded(
    endpoints: Seq<EndpointView>,
    outcomes: Seq<Option<OutcomeView>>,
    e: usize,
    n: int,
)
    ensures
        tally(endpoints, outcomes, e, n).weight_reached <= tally(endpoints, outcomes, e, n).weight,
        tally(endpoints, outcomes, e, n).targets_reached <= tally(
            endpoints,
            outcomes,
            e,
            n,
        ).targets,
    decreases n,
{
    if n > 0 {
        lemma_tally_bounded(endpoints, outcomes, e, n - 1);
        lemma_tallied_bounded(
            tally(endpoints, outcomes, e, n - 1),
            endpoints[n - 1],
            reached(outcomes[n - 1]),
            e,
            listings(endpoints[n - 1]),
        );
    }
}

// Where entries were probed.

/// Which endpoints list entry `e`.
pub open spec fn lists(endpoints: Seq<EndpointView>, e: usize) -> spec_fn(int) -> bool {
    |x: int| endpoints[x].entries.contains(e)
}

/// The endpoints of entry `e`.
pub open spec fn found_at(endpoints: Seq<EndpointView>, e: usize) -> Seq<int> {
    crate::count::select(endpoints.len() as int, lists(endpoints, e))
}

/// Per entry, the endpoints that list it.
pub fn endpoints_by_entry(entries: usize, endpoints: &[Endpoint]) -> (out: Vec<Vec<usize>>)
    requires
        lists_entries(endpoints.deep_view(), entries as nat),
    ensures
        out.len() == entries,
        forall|e: int|
            0 <= e < entries ==> crate::histogram::places((#[trigger] out[e])@) == found_at(
                endpoints.deep_view(),
                e as usize,
            ),
{
    let ghost eps = endpoints.deep_view();
    let mut out: Vec<Vec<usize>> = Vec::new();
    let mut i: usize = 0;
    while i < entries
        invariant
            i <= entries,
            out.len() == i,
            forall|e: int| 0 <= e < i ==> (#[trigger] out[e]).len() == 0,
        decreases entries - i,
    {
        out.push(Vec::new());
        i += 1;
    }
    assert forall|e: int| 0 <= e < entries implies crate::histogram::places((#[trigger] out[e])@)
        == crate::count::select(0, lists(eps, e as usize)) by {
        assert(crate::histogram::places(out[e]@) =~= Seq::<int>::empty());
    }
    let mut x: usize = 0;
    while x < endpoints.len()
        invariant
            x <= endpoints.len(),
            eps == endpoints.deep_view(),
            lists_entries(eps, entries as nat),
            out.len() == entries,
            forall|e: int|
                0 <= e < entries ==> crate::histogram::places((#[trigger] out[e])@)
                    == crate::count::select(x as int, lists(eps, e as usize)),
        decreases endpoints.len() - x,
    {
        let listed = &endpoints[x].entries;
        assert(eps[x as int].entries == listed@);
        let ghost start = out@;
        let mut j: usize = 0;
        while j < listed.len()
            invariant
                j <= listed.len(),
                x < endpoints.len(),
                eps == endpoints.deep_view(),
                eps[x as int].entries == listed@,
                lists_entries(eps, entries as nat),
                out.len() == entries,
                start.len() == entries,
                forall|e: int|
                    0 <= e < entries ==> crate::histogram::places((#[trigger] start[e])@)
                        == crate::count::select(x as int, lists(eps, e as usize)),
                forall|e: int|
                    0 <= e < entries ==> (#[trigger] out[e])@ == if listed@.take(
                        j as int,
                    ).contains(e as usize) {
                        start[e]@.push(x)
                    } else {
                        start[e]@
                    },
            decreases listed.len() - j,
        {
            let e: usize = listed[j];
            assert(eps[x as int].entries[j as int] < entries);
            let ghost now = listed@.take(j as int);
            let ghost next = listed@.take(j + 1);
            let ghost before = out@;
            assert(next =~= now.push(e));
            let k: usize = out[e].len();
            let there = k > 0 && out[e][k - 1] == x;
            proof {
                let s = start[e as int]@;
                crate::count::lemma_select(x as int, lists(eps, e));
                if s.len() > 0 {
                    assert(crate::histogram::places(s)[s.len() - 1] == s[s.len() - 1]);
                    assert(s[s.len() - 1] < x);
                }
                assert(there == now.contains(e));
            }
            if !there {
                out[e].push(x);
            }
            assert forall|m: int| 0 <= m < entries implies (#[trigger] out[m])@
                == if next.contains(m as usize) {
                start[m]@.push(x)
            } else {
                start[m]@
            } by {
                assert(before[m]@ == if now.contains(m as usize) {
                    start[m]@.push(x)
                } else {
                    start[m]@
                });
                if m == e {
                    assert(next[j as int] == e);
                } else {
                    if now.contains(m as usize) {
                        let a = choose|a: int| 0 <= a < now.len() && now[a] == m as usize;
                        assert(next[a] == m as usize);
                    }
                    if next.contains(m as usize) {
                        let a = choose|a: int| 0 <= a < next.len() && next[a] == m as usize;
                        assert(now[a] == m as usize);
                    }
                }
            }
            j += 1;
        }
        assert(listed@.take(j as int) =~= listed@);
        assert forall|e: int| 0 <= e < entries implies crate::histogram::places(
            (#[trigger] out[e])@,
        ) == crate::count::select(x + 1, lists(eps, e as usize)) by {
            assert(crate::histogram::places(start[e]@) == crate::count::select(
                x as int,
                lists(eps, e as usize),
            ));
            if listed@.contains(e as usize) {
                assert(crate::histogram::places(out[e]@) =~= crate::histogram::places(
                    start[e]@,
                ).push(x as int));
            }
        }
        x += 1;
    }
    out
}

} // verus!
