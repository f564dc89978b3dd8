//! Counting and selecting positions.

use vstd::prelude::*;

verus! {

/// The positions below `n` where `p` holds, in ascending order.
pub open spec fn select(n: int, p: spec_fn(int) -> bool) -> Seq<int>
    decreases n,
{
    if n <= 0 {
        Seq::empty()
    } else if p(n - 1) {
        select(n - 1, p).push(n - 1)
    } else {
        select(n - 1, p)
    }
}

/// How many positions below `n` have `p`.
pub open spec fn count(n: int, p: spec_fn(int) -> bool) -> nat {
    select(n, p).len()
}

/// `select` holds exactly the positions that it is meant to, in ascending order.
pub proof fn lemma_select(n: int, p: spec_fn(int) -> bool)
    ensures
        forall|i: int| select(n, p).contains(i) <==> 0 <= i < n && p(i),
        forall|a: int, b: int|
            0 <= a < b < select(n, p).len() ==> select(n, p)[a] < select(n, p)[b],
        forall|a: int|
            0 <= a < select(n, p).len() ==> 0 <= #[trigger] select(n, p)[a] < n && p(
                select(n, p)[a],
            ),
        n >= 0 ==> select(n, p).len() <= n,
    decreases n,
{
    if n > 0 {
        lemma_select(n - 1, p);
        let s = select(n - 1, p);
        let t = select(n, p);
        assert forall|i: int| t.contains(i) <==> 0 <= i < n && p(i) by {
            if t.contains(i) {
                let a = choose|a: int| 0 <= a < t.len() && t[a] == i;
                if a < s.len() {
                    assert(s[a] == i);
                    assert(s.contains(i));
                }
            }
            if 0 <= i < n && p(i) {
                if i < n - 1 {
                    assert(s.contains(i));
                    let a = choose|a: int| 0 <= a < s.len() && s[a] == i;
                    assert(t[a] == i);
                } else {
                    assert(t[t.len() - 1] == i);
                }
            }
        }
        assert forall|a: int| 0 <= a < t.len() implies 0 <= #[trigger] t[a] < n && p(t[a]) by {
            if a < s.len() {
                assert(t[a] == s[a]);
                assert(s.contains(s[a]));
            }
        }
        assert forall|a: int, b: int| 0 <= a < b < t.len() implies t[a] < t[b] by {
            if b < s.len() {
                assert(s[a] < s[b]);
            } else {
                assert(t[a] == s[a]);
                assert(s.contains(s[a]));
            }
        }
    }
}

/// Conditions that agree below `n` select the same positions.
pub proof fn lemma_select_same(n: int, p: spec_fn(int) -> bool, q: spec_fn(int) -> bool)
    requires
        forall|i: int| 0 <= i < n ==> #[trigger] p(i) == q(i),
    ensures
        select(n, p) == select(n, q),
    decreases n,
{
    if n > 0 {
        lemma_select_same(n - 1, p, q);
    }
}

/// A weaker condition holds at least as often.
pub proof fn lemma_count_grows(n: int, p: spec_fn(int) -> bool, q: spec_fn(int) -> bool)
    requires
        forall|i: int| 0 <= i < n && #[trigger] p(i) ==> q(i),
    ensures
        count(n, p) <= count(n, q),
    decreases n,
{
    if n > 0 {
        lemma_count_grows(n - 1, p, q);
    }
}

/// The sum of `f` over the positions `at`.
pub open spec fn sum_of(at: Seq<int>, f: spec_fn(int) -> nat) -> nat
    decreases at.len(),
{
    if at.len() == 0 {
        0
    } else {
        sum_of(at.drop_last(), f) + f(at.last())
    }
}

/// The sum of `f` over the positions below `n`.
pub open spec fn sum_below(n: int, f: spec_fn(int) -> nat) -> nat
    decreases n,
{
    if n <= 0 {
        0
    } else {
        sum_below(n - 1, f) + f(n - 1)
    }
}

/// One more position adds its value.
pub proof fn lemma_sum_push(at: Seq<int>, i: int, f: spec_fn(int) -> nat)
    ensures
        sum_of(at.push(i), f) == sum_of(at, f) + f(i),
{
    assert(at.push(i).drop_last() =~= at);
}

/// Selected positions add up to no more than all of them.
pub proof fn lemma_sum_selected(n: int, p: spec_fn(int) -> bool, f: spec_fn(int) -> nat)
    ensures
        sum_of(select(n, p), f) <= sum_below(n, f),
    decreases n,
{
    if n > 0 {
        lemma_sum_selected(n - 1, p, f);
        if p(n - 1) {
            lemma_sum_push(select(n - 1, p), n - 1, f);
        }
    }
}

/// The sum grows with the number of positions.
pub proof fn lemma_sum_grows(a: int, b: int, f: spec_fn(int) -> nat)
    requires
        a <= b,
    ensures
        sum_below(a, f) <= sum_below(b, f),
    decreases b - a,
{
    if a < b {
        lemma_sum_grows(a, b - 1, f);
    }
}

/// A part of the positions adds up to no more than all of them.
pub proof fn lemma_sum_part(at: Seq<int>, k: int, f: spec_fn(int) -> nat)
    requires
        0 <= k <= at.len(),
    ensures
        sum_of(at.take(k), f) <= sum_of(at, f),
    decreases at.len(),
{
    if k < at.len() {
        lemma_sum_part(at.drop_last(), k, f);
        assert(at.drop_last().take(k) =~= at.take(k));
    } else {
        assert(at.take(k) =~= at);
    }
}

/// What is nowhere larger adds up to no more.
pub proof fn lemma_sum_pointwise(n: int, f: spec_fn(int) -> nat, g: spec_fn(int) -> nat)
    requires
        forall|i: int| 0 <= i < n ==> #[trigger] f(i) <= g(i),
    ensures
        sum_below(n, f) <= sum_below(n, g),
    decreases n,
{
    if n > 0 {
        lemma_sum_pointwise(n - 1, f, g);
    }
}

/// One more at one place makes the sum one more.
pub proof fn lemma_sum_step(n: int, f: spec_fn(int) -> nat, g: spec_fn(int) -> nat, q: int)
    requires
        forall|i: int|
            0 <= i < n ==> #[trigger] f(i) == g(i) + if i == q {
                1nat
            } else {
                0
            },
    ensures
        sum_below(n, f) == sum_below(n, g) + if 0 <= q < n {
            1nat
        } else {
            0
        },
    decreases n,
{
    if n > 0 {
        lemma_sum_step(n - 1, f, g, q);
    }
}

/// Squares add up to no more than the square of the sum.
pub proof fn lemma_sum_squares(n: int, f: spec_fn(int) -> nat, g: spec_fn(int) -> nat)
    requires
        forall|i: int| 0 <= i < n ==> #[trigger] f(i) <= g(i) * g(i),
    ensures
        sum_below(n, f) <= sum_below(n, g) * sum_below(n, g),
    decreases n,
{
    if n > 0 {
        lemma_sum_squares(n - 1, f, g);
        let s = sum_below(n - 1, g);
        let x = g(n - 1);
        assert(f(n - 1) <= x * x);
        assert((s + x) * (s + x) >= s * s + x * x) by (nonlinear_arith);
    } else {
        assert(0nat * 0nat == 0nat);
    }
}

} // verus!
