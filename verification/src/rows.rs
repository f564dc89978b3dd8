//! What the rows of the operators say of their pools and relays.

use vstd::prelude::*;

use crate::count::{count, lemma_select, lemma_select_same, select, sum_below, sum_of};
use crate::figures::{answers_of, relays_of};
use crate::operators::{
    operator_key, operator_keys, operators_of, pools_of, run_by, PoolStatView, Reach,
};
use crate::standing::Inputs;

verus! {

/// A row adds up what its pools count, holds the whole stake of each of them
/// once, and reaches them fully or not at all when all of them are.
pub proof fn rows_add_up_their_pools(pools: Seq<PoolStatView>, i: int)
    requires
        0 <= i < operators_of(pools).len(),
    ensures
        ({
            let row = operators_of(pools)[i];
            let at = pools_of(pools, i);
            &&& at.len() > 0
            &&& row.pools == at.len()
            &&& row.relays_total == sum_of(at, |p: int| pools[p].relays_total as nat)
            &&& row.relays_reachable == sum_of(at, |p: int| pools[p].relays_reachable as nat)
            &&& row.relays_reversed == sum_of(at, |p: int| pools[p].relays_reversed as nat)
            &&& row.stake.len() == at.len()
            &&& forall|j: int|
                0 <= j < at.len() ==> (#[trigger] row.stake[j]).pool == pools[at[j]].index
                    && row.stake[j].parts == 1
            &&& row.reach is Full <==> (forall|j: int|
                0 <= j < at.len() ==> pools[#[trigger] at[j]].reach is Full)
            &&& row.reach is Unreached <==> (forall|j: int|
                0 <= j < at.len() ==> pools[#[trigger] at[j]].reach is Unreached)
            &&& forall|x: Seq<char>|
                #[trigger] row.relays.contains(x) <==> exists|j: int|
                    0 <= j < at.len() && pools[#[trigger] at[j]].relays.contains(x)
        }),
{
    let at = pools_of(pools, i);
    let row = operators_of(pools)[i];
    crate::operators::lemma_first_pool(pools, i);
    lemma_sum_agrees(
        at,
        |p: int| pools[p].relays_total as nat,
        crate::operators::totals(pools),
    );
    lemma_sum_agrees(
        at,
        |p: int| pools[p].relays_reachable as nat,
        crate::operators::reachables(pools),
    );
    lemma_sum_agrees(
        at,
        |p: int| pools[p].relays_reversed as nat,
        crate::operators::reverseds(pools),
    );
    lemma_all_of(pools, at, Reach::Full);
    lemma_all_of(pools, at, Reach::Unreached);
    if row.reach is Full {
        assert(pools[at[0]].reach is Full);
    }
    if forall|j: int| 0 <= j < at.len() ==> pools[#[trigger] at[j]].reach is Unreached {
        assert(pools[at[0]].reach is Unreached);
    }
    assert forall|x: Seq<char>| #[trigger] row.relays.contains(x) <==> exists|j: int|
        0 <= j < at.len() && pools[#[trigger] at[j]].relays.contains(x) by {
        crate::operators::lemma_all_relays_holds(pools, at, x);
    }
}

proof fn lemma_sum_agrees(at: Seq<int>, f: spec_fn(int) -> nat, g: spec_fn(int) -> nat)
    requires
        forall|i: int| #[trigger] f(i) == g(i),
    ensures
        sum_of(at, f) == sum_of(at, g),
    decreases at.len(),
{
    if at.len() > 0 {
        lemma_sum_agrees(at.drop_last(), f, g);
        assert(f(at.last()) == g(at.last()));
    }
}

proof fn lemma_all_of(pools: Seq<PoolStatView>, at: Seq<int>, r: Reach)
    ensures
        sum_of(at, crate::operators::with_reach(pools, r)) <= at.len(),
        sum_of(at, crate::operators::with_reach(pools, r)) == at.len() <==> (forall|j: int|
            0 <= j < at.len() ==> pools[#[trigger] at[j]].reach == r),
    decreases at.len(),
{
    if at.len() > 0 {
        let t = at.drop_last();
        lemma_all_of(pools, t, r);
        assert(at[at.len() - 1] == at.last());
        if forall|j: int| 0 <= j < at.len() ==> pools[#[trigger] at[j]].reach == r {
            assert forall|j: int| 0 <= j < t.len() implies pools[#[trigger] t[j]].reach == r by {
                assert(t[j] == at[j]);
            }
        }
        if forall|j: int| 0 <= j < t.len() ==> pools[#[trigger] t[j]].reach == r {
            assert forall|j: int| 0 <= j < at.len() && pools[at.last()].reach == r implies
                pools[#[trigger] at[j]].reach == r by {
                if j < t.len() {
                    assert(t[j] == at[j]);
                }
            }
        }
    }
}

/// One term more makes the sum larger by it.
proof fn lemma_sum_more(n: int, f: spec_fn(int) -> nat, g: spec_fn(int) -> nat, q: int, x: nat)
    requires
        0 <= q < n,
        forall|i: int|
            0 <= i < n ==> #[trigger] f(i) == g(i) + if i == q {
                x
            } else {
                0
            },
    ensures
        sum_below(n, f) == sum_below(n, g) + x,
    decreases n,
{
    if q == n - 1 {
        lemma_sum_even(n - 1, f, g);
    } else {
        lemma_sum_more(n - 1, f, g, q, x);
    }
}

proof fn lemma_sum_even(n: int, f: spec_fn(int) -> nat, g: spec_fn(int) -> nat)
    requires
        forall|i: int| 0 <= i < n ==> #[trigger] f(i) == g(i),
    ensures
        sum_below(n, f) == sum_below(n, g),
    decreases n,
{
    if n > 0 {
        lemma_sum_even(n - 1, f, g);
    }
}

/// What the pools of each operator among the first `n` add up to.
spec fn shares_of(pools: Seq<PoolStatView>, f: spec_fn(int) -> nat, n: int) -> spec_fn(
    int,
) -> nat {
    |i: int|
        sum_of(
            select(n, run_by(pools, crate::table::distinct_names(operator_keys(pools))[i])),
            f,
        )
}

proof fn lemma_shared_out(pools: Seq<PoolStatView>, f: spec_fn(int) -> nat, n: int)
    requires
        0 <= n <= pools.len(),
    ensures
        sum_below(operators_of(pools).len() as int, shares_of(pools, f, n)) == sum_below(n, f),
    decreases n,
{
    let keys = operator_keys(pools);
    let names = crate::table::distinct_names(keys);
    let m = names.len() as int;
    if n == 0 {
        lemma_sum_none(m, shares_of(pools, f, 0));
    } else {
        lemma_shared_out(pools, f, n - 1);
        crate::table::distinct_names_are_those_held(keys);
        assert(keys[n - 1] == operator_key(pools[n - 1]));
        assert(keys.contains(keys[n - 1]));
        let q = names.index_of(keys[n - 1]);
        assert forall|i: int| 0 <= i < m implies #[trigger] shares_of(pools, f, n)(i)
            == shares_of(pools, f, n - 1)(i) + if i == q {
            f(n - 1)
        } else {
            0
        } by {
            if names[i] == names[q] {
                crate::table::lemma_ascending_distinct(names, i, q);
            }
            crate::count::lemma_sum_push(select(n - 1, run_by(pools, names[i])), n - 1, f);
        }
        lemma_sum_more(m, shares_of(pools, f, n), shares_of(pools, f, n - 1), q, f(n - 1));
    }
}

proof fn lemma_sum_none(n: int, f: spec_fn(int) -> nat)
    requires
        forall|i: int| 0 <= i < n ==> #[trigger] f(i) == 0,
    ensures
        sum_below(n, f) == 0,
    decreases n,
{
    if n > 0 {
        lemma_sum_none(n - 1, f);
    }
}

/// The rows together count what the pools together count.
pub proof fn rows_share_out_the_pools(pools: Seq<PoolStatView>)
    ensures
        ({
            let rows = operators_of(pools);
            let n = rows.len() as int;
            let m = pools.len() as int;
            &&& sum_below(n, |i: int| rows[i].relays_total as nat) == sum_below(
                m,
                |p: int| pools[p].relays_total as nat,
            )
            &&& sum_below(n, |i: int| rows[i].relays_reachable as nat) == sum_below(
                m,
                |p: int| pools[p].relays_reachable as nat,
            )
            &&& sum_below(n, |i: int| rows[i].relays_reversed as nat) == sum_below(
                m,
                |p: int| pools[p].relays_reversed as nat,
            )
            &&& sum_below(n, |i: int| rows[i].pools as nat) == m
        }),
{
    let rows = operators_of(pools);
    let n = rows.len() as int;
    let m = pools.len() as int;
    let total = |p: int| pools[p].relays_total as nat;
    let live = |p: int| pools[p].relays_reachable as nat;
    let turned = |p: int| pools[p].relays_reversed as nat;
    let one = |p: int| 1nat;
    assert forall|i: int| 0 <= i < n implies {
        &&& (#[trigger] rows[i]).relays_total == shares_of(pools, total, m)(i)
        &&& rows[i].relays_reachable == shares_of(pools, live, m)(i)
        &&& rows[i].relays_reversed == shares_of(pools, turned, m)(i)
        &&& rows[i].pools == shares_of(pools, one, m)(i)
    } by {
        rows_add_up_their_pools(pools, i);
        lemma_ones(pools_of(pools, i), one);
    }
    lemma_shared_out(pools, total, m);
    lemma_shared_out(pools, live, m);
    lemma_shared_out(pools, turned, m);
    lemma_shared_out(pools, one, m);
    lemma_sum_even(n, |i: int| rows[i].relays_total as nat, shares_of(pools, total, m));
    lemma_sum_even(n, |i: int| rows[i].relays_reachable as nat, shares_of(pools, live, m));
    lemma_sum_even(n, |i: int| rows[i].relays_reversed as nat, shares_of(pools, turned, m));
    lemma_sum_even(n, |i: int| rows[i].pools as nat, shares_of(pools, one, m));
    lemma_ones_below(m, one);
}

proof fn lemma_ones(at: Seq<int>, f: spec_fn(int) -> nat)
    requires
        forall|p: int| #[trigger] f(p) == 1,
    ensures
        sum_of(at, f) == at.len(),
    decreases at.len(),
{
    if at.len() > 0 {
        lemma_ones(at.drop_last(), f);
        assert(f(at.last()) == 1);
    }
}

proof fn lemma_ones_below(n: int, f: spec_fn(int) -> nat)
    requires
        n >= 0,
        forall|p: int| #[trigger] f(p) == 1,
    ensures
        sum_below(n, f) == n,
    decreases n,
{
    if n > 0 {
        lemma_ones_below(n - 1, f);
        assert(f(n - 1) == 1);
    }
}

/// Which relay entries are of one of the pools `at`, and answered if `live`.
spec fn among(inputs: Inputs<'_>, at: Seq<int>, live: bool) -> spec_fn(int) -> bool {
    |e: int|
        at.contains(inputs.entries[e].pool as int) && (live ==> inputs.best()[e] matches Some(
            Ok(_),
        ))
}

/// Which relay entries are of the pool `p`, and answered if `live`.
spec fn within(inputs: Inputs<'_>, p: int, live: bool) -> spec_fn(int) -> bool {
    |e: int|
        inputs.entries[e].pool as int == p && (live ==> inputs.best()[e] matches Some(Ok(_)))
}

spec fn per_pool(inputs: Inputs<'_>, live: bool) -> spec_fn(int) -> nat {
    |p: int| count(inputs.entries.len() as int, within(inputs, p, live))
}

/// Counting pool by pool is counting the relays of all the pools.
proof fn lemma_count_by_pool(inputs: Inputs<'_>, at: Seq<int>, live: bool)
    requires
        at.no_duplicates(),
    ensures
        sum_of(at, per_pool(inputs, live)) == count(
            inputs.entries.len() as int,
            among(inputs, at, live),
        ),
    decreases at.len(),
{
    let n = inputs.entries.len() as int;
    let all = among(inputs, at, live);
    if at.len() == 0 {
        lemma_count_none(n, all);
    } else {
        let t = at.drop_last();
        let x = at.last();
        let front = among(inputs, t, live);
        let last = within(inputs, x, live);
        lemma_count_by_pool(inputs, t, live);
        assert forall|e: int| 0 <= e < n implies #[trigger] all(e) == (front(e) || last(e)) && !(
        front(e) && last(e)) by {
            lemma_in_front(at, inputs.entries[e].pool as int);
        }
        lemma_count_apart(n, all, front, last);
    }
}

proof fn lemma_in_front(at: Seq<int>, x: int)
    requires
        at.no_duplicates(),
        at.len() > 0,
    ensures
        at.contains(x) <==> at.drop_last().contains(x) || x == at.last(),
        !(at.drop_last().contains(x) && x == at.last()),
{
    let t = at.drop_last();
    if t.contains(x) {
        let i = t.index_of(x);
        assert(at[i] == x);
    }
    if at.contains(x) {
        let i = at.index_of(x);
        if i < t.len() {
            assert(t[i] == x);
        }
    }
    assert(at[at.len() - 1] == at.last());
}

proof fn lemma_count_none(n: int, p: spec_fn(int) -> bool)
    requires
        forall|i: int| 0 <= i < n ==> !#[trigger] p(i),
    ensures
        count(n, p) == 0,
    decreases n,
{
    if n > 0 {
        lemma_count_none(n - 1, p);
    }
}

proof fn lemma_count_apart(
    n: int,
    p: spec_fn(int) -> bool,
    q: spec_fn(int) -> bool,
    r: spec_fn(int) -> bool,
)
    requires
        forall|i: int| 0 <= i < n ==> #[trigger] p(i) == (q(i) || r(i)) && !(q(i) && r(i)),
    ensures
        count(n, p) == count(n, q) + count(n, r),
    decreases n,
{
    if n > 0 {
        lemma_count_apart(n - 1, p, q, r);
        assert(p(n - 1) == (q(n - 1) || r(n - 1)));
    }
}

/// The relays of a row are the relay entries of its pools, and those that it
/// counts as reachable are the ones of them that answered.
pub proof fn rows_count_the_relays_of_their_pools(inputs: Inputs<'_>, i: int)
    requires
        inputs.wf(),
        0 <= i < operators_of(inputs.stats()).len(),
    ensures
        ({
            let row = operators_of(inputs.stats())[i];
            let at = pools_of(inputs.stats(), i);
            let n = inputs.entries.len() as int;
            &&& row.relays_total == count(n, |e: int| at.contains(inputs.entries[e].pool as int))
            &&& row.relays_reachable == count(
                n,
                |e: int|
                    at.contains(inputs.entries[e].pool as int) && inputs.best()[e] matches Some(
                        Ok(_),
                    ),
            )
        }),
{
    let stats = inputs.stats();
    let at = pools_of(stats, i);
    let n = inputs.entries.len() as int;
    lemma_select(
        stats.len() as int,
        run_by(stats, crate::table::distinct_names(operator_keys(stats))[i]),
    );
    lemma_count_by_pool(inputs, at, false);
    lemma_count_by_pool(inputs, at, true);
    lemma_per_pool(inputs, at);
    lemma_select_same(
        n,
        |e: int| at.contains(inputs.entries[e].pool as int),
        among(inputs, at, false),
    );
    lemma_select_same(
        n,
        |e: int|
            at.contains(inputs.entries[e].pool as int) && inputs.best()[e] matches Some(Ok(_)),
        among(inputs, at, true),
    );
}

proof fn lemma_per_pool(inputs: Inputs<'_>, at: Seq<int>)
    requires
        inputs.wf(),
        forall|j: int| 0 <= j < at.len() ==> 0 <= #[trigger] at[j] < inputs.pools,
    ensures
        sum_of(at, per_pool(inputs, false)) == sum_of(
            at,
            crate::operators::totals(inputs.stats()),
        ),
        sum_of(at, per_pool(inputs, true)) == sum_of(
            at,
            crate::operators::reachables(inputs.stats()),
        ),
    decreases at.len(),
{
    if at.len() > 0 {
        let t = at.drop_last();
        assert forall|j: int| 0 <= j < t.len() implies 0 <= #[trigger] t[j] < inputs.pools by {
            assert(t[j] == at[j]);
        }
        lemma_per_pool(inputs, t);
        let p = at[at.len() - 1];
        let n = inputs.entries.len() as int;
        lemma_pool_counts(inputs, p);
        lemma_select_same(n, |e: int| inputs.entries[e].pool == p, within(inputs, p, false));
        lemma_select_same(
            n,
            |e: int| inputs.entries[e].pool as int == p && inputs.best()[e] matches Some(Ok(_)),
            within(inputs, p, true),
        );
    }
}

/// The rows together count every relay entry once, and every one that answered.
pub proof fn rows_share_out_the_relays(inputs: Inputs<'_>)
    requires
        inputs.wf(),
    ensures
        ({
            let rows = operators_of(inputs.stats());
            let n = inputs.entries.len() as int;
            &&& sum_below(rows.len() as int, |i: int| rows[i].relays_total as nat) == n
            &&& sum_below(rows.len() as int, |i: int| rows[i].relays_reachable as nat) == count(
                n,
                |e: int| inputs.best()[e] matches Some(Ok(_)),
            )
        }),
{
    let stats = inputs.stats();
    let n = inputs.entries.len() as int;
    let m = inputs.pools as int;
    let at = Seq::new(inputs.pools as nat, |p: int| p);
    rows_share_out_the_pools(stats);
    lemma_count_by_pool(inputs, at, false);
    lemma_count_by_pool(inputs, at, true);
    lemma_per_pool(inputs, at);
    lemma_sum_all(m, crate::operators::totals(stats));
    lemma_sum_all(m, crate::operators::reachables(stats));
    lemma_sum_even(m, |p: int| stats[p].relays_total as nat, crate::operators::totals(stats));
    lemma_sum_even(
        m,
        |p: int| stats[p].relays_reachable as nat,
        crate::operators::reachables(stats),
    );
    assert forall|e: int| 0 <= e < n implies at.contains(
        #[trigger] inputs.entries[e].pool as int,
    ) by {
        assert(at[inputs.entries[e].pool as int] == inputs.entries[e].pool as int);
    }
    lemma_select_same(n, among(inputs, at, false), |e: int| true);
    lemma_select_same(
        n,
        among(inputs, at, true),
        |e: int| inputs.best()[e] matches Some(Ok(_)),
    );
    lemma_count_every(n);
}

proof fn lemma_sum_all(n: int, f: spec_fn(int) -> nat)
    requires
        n >= 0,
    ensures
        sum_of(Seq::new(n as nat, |p: int| p), f) == sum_below(n, f),
    decreases n,
{
    if n > 0 {
        lemma_sum_all(n - 1, f);
        assert(Seq::new(n as nat, |p: int| p).drop_last() =~= Seq::new((n - 1) as nat, |p: int| p));
    }
}

proof fn lemma_count_every(n: int)
    requires
        n >= 0,
    ensures
        count(n, |e: int| true) == n,
    decreases n,
{
    if n > 0 {
        lemma_count_every(n - 1);
    }
}

/// What a pool counts is what there is.
pub proof fn lemma_pool_counts(inputs: Inputs<'_>, p: int)
    requires
        inputs.wf(),
        0 <= p < inputs.pools,
    ensures
        inputs.stats()[p].relays_total == relays_of(inputs, p),
        inputs.stats()[p].relays_reachable == answers_of(inputs, p),
        answers_of(inputs, p) == count(
            inputs.entries.len() as int,
            |e: int| inputs.entries[e].pool as int == p && inputs.best()[e] matches Some(Ok(_)),
        ),
{
    let n = inputs.entries.len() as int;
    lemma_select_same(
        n,
        |e: int| inputs.entries[e].pool == p,
        crate::standing::of_pool(inputs.entries, p),
    );
    let live = |e: int| inputs.entries[e].pool == p && inputs.best()[e] matches Some(Ok(_));
    lemma_select_same(n, live, crate::standing::ok_of_pool(inputs.entries, inputs.best(), p));
    lemma_select_same(
        n,
        live,
        |e: int| inputs.entries[e].pool as int == p && inputs.best()[e] matches Some(Ok(_)),
    );
    crate::standing::lemma_ok_bounded(inputs, p);
    lemma_select(n, crate::standing::of_pool(inputs.entries, p));
}

/// Two pools are of one operator when they have the same registered name or
/// ticker's pool id, when their relays share the domain that is all there is
/// to tell them by, or when the same relays are; and pools that are told by
/// different ids, or by different domains, are not.
pub proof fn operators_are_merged_by_identity(pools: Seq<PoolStatView>, p: int, q: int)
    requires
        0 <= p < pools.len(),
        0 <= q < pools.len(),
    ensures
        ({
            let (a, b) = (pools[p], pools[q]);
            let (x, y) = (
                crate::pools::shared_domain(a.relays),
                crate::pools::shared_domain(b.relays),
            );
            let one = exists|i: int|
                0 <= i < operators_of(pools).len() && #[trigger] pools_of(pools, i).contains(p)
                    && pools_of(pools, i).contains(q);
            &&& !anonymous(a) && !anonymous(b) ==> (one <==> a.meta->0.pool_id
                == b.meta->0.pool_id)
            &&& anonymous(a) && anonymous(b) && x is Some && y is Some ==> (one <==> x == y)
            &&& a.meta is None && b.meta is None && x is None && y is None && a.relays.to_set()
                == b.relays.to_set() ==> one
        }),
{
    let (a, b) = (pools[p], pools[q]);
    let i = crate::operators::every_pool_has_one_operator(pools, p);
    let j = crate::operators::every_pool_has_one_operator(pools, q);
    let names = crate::table::distinct_names(operator_keys(pools));
    lemma_select(pools.len() as int, run_by(pools, names[i]));
    lemma_select(pools.len() as int, run_by(pools, names[j]));
    assert(run_by(pools, names[i])(p) && run_by(pools, names[j])(q));
    crate::table::distinct_names_are_those_held(operator_keys(pools));
    if operator_key(a) == operator_key(b) {
        crate::table::lemma_ascending_distinct(names, i, j);
        assert(pools_of(pools, i).contains(q));
    }
    if exists|k: int|
        0 <= k < operators_of(pools).len() && #[trigger] pools_of(pools, k).contains(p)
            && pools_of(pools, k).contains(q) {
        let k = choose|k: int|
            0 <= k < operators_of(pools).len() && #[trigger] pools_of(pools, k).contains(p)
                && pools_of(pools, k).contains(q);
        assert(i == k && j == k);
        assert(operator_key(a) == operator_key(b));
        let (x, y) = (crate::pools::shared_domain(a.relays), crate::pools::shared_domain(b.relays));
        if anonymous(a) && anonymous(b) && x is Some && y is Some {
            let lead = "domain:"@;
            assert((lead + x->0).skip(lead.len() as int) =~= x->0);
            assert((lead + y->0).skip(lead.len() as int) =~= y->0);
        }
    }
    if a.relays.to_set() == b.relays.to_set() {
        assert forall|t: Seq<char>| a.relays.contains(t) <==> b.relays.contains(t) by {
            assert(a.relays.to_set().contains(t) <==> b.relays.to_set().contains(t));
        }
        crate::table::distinct_names_of_the_same_set(a.relays, b.relays);
    }
}

/// Has the pool neither a ticker nor a name?
pub open spec fn anonymous(p: PoolStatView) -> bool {
    p.meta matches Some(m) ==> m.ticker is None && m.name is None
}

/// A row is listed by the id, the ticker and the name that its first pool is
/// registered with; a pool that the index does not know by its first relay, and
/// one that only a domain tells by that domain.
pub proof fn rows_are_named_as_their_first_pool(pools: Seq<PoolStatView>, i: int)
    requires
        0 <= i < operators_of(pools).len(),
    ensures
        ({
            let row = operators_of(pools)[i];
            let first = pools[pools_of(pools, i)[0]];
            &&& first.meta matches Some(m) ==> {
                &&& row.pool_id == m.pool_id
                &&& m.ticker matches Some(t) ==> row.ticker == t
                &&& m.name matches Some(n) ==> row.name == n
                &&& m.ticker is None ==> row.ticker.len() == 0
            }
            &&& first.meta is None && first.relays.len() > 0 ==> row.pool_id == first.relays[0]
            &&& first.meta is None ==> row.ticker.len() == 0
            &&& anonymous(first) ==> match crate::pools::shared_domain(first.relays) {
                Some(d) => row.name == d,
                None => row.name.len() == 0,
            }
        }),
{
}

} // verus!
