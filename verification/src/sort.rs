//! Stable sorting.

use vstd::prelude::*;

verus! {

/// A type whose values have a rank in some listing.
pub trait Ranked: Sized {
    /// Is `self` listed ahead of `other`? Values that are not ahead of each
    /// other keep the order they came in.
    spec fn ahead(&self, other: &Self) -> bool;

    fn is_ahead(&self, other: &Self) -> (r: bool)
        ensures
            r == self.ahead(other),
    ;
}

/// `x` placed in `s` behind everything that it is not ahead of, counted from
/// the end.
pub open spec fn inserted<T: Ranked>(s: Seq<T>, x: T) -> Seq<T>
    decreases s.len(),
{
    if s.len() > 0 && x.ahead(&s.last()) {
        inserted(s.drop_last(), x).push(s.last())
    } else {
        s.push(x)
    }
}

/// `s` by rank, values of one rank in the order that `s` has them in.
pub open spec fn sorted<T: Ranked>(s: Seq<T>) -> Seq<T>
    decreases s.len(),
{
    if s.len() == 0 {
        s
    } else {
        inserted(sorted(s.drop_last()), s.last())
    }
}

/// `x` placed in `s` behind everything that `ahead` does not put it ahead of,
/// counted from the end.
pub open spec fn inserted_by<U>(s: Seq<U>, x: U, ahead: spec_fn(U, U) -> bool) -> Seq<U>
    decreases s.len(),
{
    if s.len() > 0 && ahead(x, s.last()) {
        inserted_by(s.drop_last(), x, ahead).push(s.last())
    } else {
        s.push(x)
    }
}

/// `s` in the order of `ahead`, ties in the order that `s` has them in.
pub open spec fn sorted_by<U>(s: Seq<U>, ahead: spec_fn(U, U) -> bool) -> Seq<U>
    decreases s.len(),
{
    if s.len() == 0 {
        s
    } else {
        inserted_by(sorted_by(s.drop_last(), ahead), s.last(), ahead)
    }
}

proof fn lemma_inserted_map_on<T: Ranked, U>(
    s: Seq<T>,
    x: T,
    f: spec_fn(T) -> U,
    ahead: spec_fn(U, U) -> bool,
    on: spec_fn(T) -> bool,
)
    requires
        forall|a: T, b: T| on(a) && on(b) ==> #[trigger] a.ahead(&b) == ahead(f(a), f(b)),
        forall|i: int| 0 <= i < s.len() ==> on(#[trigger] s[i]),
        on(x),
    ensures
        inserted(s, x).map_values(f) == inserted_by(s.map_values(f), f(x), ahead),
    decreases s.len(),
{
    let m = s.map_values(f);
    if s.len() > 0 {
        let t = s.drop_last();
        assert(on(s[s.len() - 1]));
        assert(m.last() == f(s.last()));
        assert(m.drop_last() =~= t.map_values(f));
        assert forall|i: int| 0 <= i < t.len() implies on(#[trigger] t[i]) by {
            assert(t[i] == s[i]);
        }
        lemma_inserted_map_on(t, x, f, ahead, on);
    }
    assert(inserted(s, x).map_values(f) =~= inserted_by(m, f(x), ahead));
}

/// Sorting values sorts what they stand for, where the two orders agree on
/// the values.
pub proof fn lemma_sorted_map_on<T: Ranked, U>(
    s: Seq<T>,
    f: spec_fn(T) -> U,
    ahead: spec_fn(U, U) -> bool,
    on: spec_fn(T) -> bool,
)
    requires
        forall|a: T, b: T| on(a) && on(b) ==> #[trigger] a.ahead(&b) == ahead(f(a), f(b)),
        forall|i: int| 0 <= i < s.len() ==> on(#[trigger] s[i]),
    ensures
        sorted(s).map_values(f) == sorted_by(s.map_values(f), ahead),
    decreases s.len(),
{
    let m = s.map_values(f);
    if s.len() > 0 {
        let t = s.drop_last();
        assert forall|i: int| 0 <= i < t.len() implies on(#[trigger] t[i]) by {
            assert(t[i] == s[i]);
        }
        lemma_sorted_map_on(t, f, ahead, on);
        assert(m.drop_last() =~= t.map_values(f));
        let r = sorted(t);
        assert forall|i: int| 0 <= i < r.len() implies on(#[trigger] r[i]) by {
            let j = lemma_sorted_from(t, i);
            assert(t[j] == r[i]);
        }
        assert(on(s[s.len() - 1]));
        lemma_inserted_map_on(r, s.last(), f, ahead, on);
    } else {
        assert(sorted(s).map_values(f) =~= sorted_by(m, ahead));
    }
}

/// Sorting values sorts what they stand for.
pub proof fn lemma_sorted_map<T: Ranked, U>(
    s: Seq<T>,
    f: spec_fn(T) -> U,
    ahead: spec_fn(U, U) -> bool,
)
    requires
        forall|a: T, b: T| #[trigger] a.ahead(&b) == ahead(f(a), f(b)),
    ensures
        sorted(s).map_values(f) == sorted_by(s.map_values(f), ahead),
{
    lemma_sorted_map_on(s, f, ahead, |x: T| true);
}

/// Sorting keeps every value, as often as it occurs.
pub proof fn lemma_sorted_by_multiset<U>(s: Seq<U>, ahead: spec_fn(U, U) -> bool)
    ensures
        sorted_by(s, ahead).len() == s.len(),
        sorted_by(s, ahead).to_multiset() == s.to_multiset(),
    decreases s.len(),
{
    broadcast use vstd::seq_lib::group_to_multiset_ensures;

    if s.len() > 0 {
        lemma_sorted_by_multiset(s.drop_last(), ahead);
        lemma_inserted_by_multiset(sorted_by(s.drop_last(), ahead), s.last(), ahead);
        assert(s =~= s.drop_last().push(s.last()));
    }
}

proof fn lemma_inserted_by_multiset<U>(s: Seq<U>, x: U, ahead: spec_fn(U, U) -> bool)
    ensures
        inserted_by(s, x, ahead).len() == s.len() + 1,
        inserted_by(s, x, ahead).to_multiset() == s.to_multiset().insert(x),
    decreases s.len(),
{
    broadcast use vstd::seq_lib::group_to_multiset_ensures;

    if s.len() > 0 && ahead(x, s.last()) {
        lemma_inserted_by_multiset(s.drop_last(), x, ahead);
        assert(s =~= s.drop_last().push(s.last()));
        assert(inserted_by(s, x, ahead).to_multiset() =~= s.to_multiset().insert(x));
    }
}

/// Does `ahead` rank all values, possibly with ties?
pub open spec fn ranks_all<U>(ahead: spec_fn(U, U) -> bool) -> bool {
    &&& forall|a: U, b: U| #[trigger] ahead(a, b) ==> !ahead(b, a)
    &&& forall|a: U, b: U, c: U|
        #![trigger ahead(a, b), ahead(b, c)]
        !ahead(a, b) && !ahead(b, c) ==> !ahead(a, c)
}

proof fn lemma_inserted_by_in_order<U>(s: Seq<U>, x: U, ahead: spec_fn(U, U) -> bool)
    requires
        ranks_all(ahead),
        forall|i: int, j: int| 0 <= i < j < s.len() ==> !ahead(#[trigger] s[j], #[trigger] s[i]),
    ensures
        forall|i: int, j: int|
            0 <= i < j < inserted_by(s, x, ahead).len() ==> !ahead(
                #[trigger] inserted_by(s, x, ahead)[j],
                #[trigger] inserted_by(s, x, ahead)[i],
            ),
        forall|i: int|
            0 <= i < inserted_by(s, x, ahead).len() ==> #[trigger] inserted_by(s, x, ahead)[i] == x
                || s.contains(inserted_by(s, x, ahead)[i]),
    decreases s.len(),
{
    let r = inserted_by(s, x, ahead);
    lemma_inserted_by_multiset(s, x, ahead);
    if s.len() > 0 && ahead(x, s.last()) {
        let t = s.drop_last();
        let last = s[s.len() - 1];
        assert forall|i: int, j: int| 0 <= i < j < t.len() implies !ahead(
            #[trigger] t[j],
            #[trigger] t[i],
        ) by {
            assert(t[i] == s[i] && t[j] == s[j]);
        }
        lemma_inserted_by_in_order(t, x, ahead);
        lemma_inserted_by_multiset(t, x, ahead);
        let front = inserted_by(t, x, ahead);
        assert forall|i: int| 0 <= i < r.len() implies #[trigger] r[i] == x || s.contains(r[i]) by {
            if i < front.len() {
                assert(r[i] == front[i]);
                if front[i] != x {
                    let m = choose|m: int| 0 <= m < t.len() && t[m] == front[i];
                    assert(s[m] == front[i]);
                }
            } else {
                assert(s[s.len() - 1] == r[i]);
            }
        }
        assert forall|i: int, j: int| 0 <= i < j < r.len() implies !ahead(
            #[trigger] r[j],
            #[trigger] r[i],
        ) by {
            if j < front.len() {
                assert(r[i] == front[i] && r[j] == front[j]);
            } else {
                assert(r[i] == front[i] && r[j] == last);
                if front[i] != x {
                    let m = choose|m: int| 0 <= m < t.len() && t[m] == front[i];
                    assert(s[m] == front[i]);
                    assert(!ahead(s[s.len() - 1], s[m]));
                }
            }
        }
    } else {
        assert forall|i: int| 0 <= i < r.len() implies #[trigger] r[i] == x || s.contains(r[i]) by {
            if i < s.len() {
                assert(s[i] == r[i]);
            }
        }
        assert forall|i: int, j: int| 0 <= i < j < r.len() implies !ahead(
            #[trigger] r[j],
            #[trigger] r[i],
        ) by {
            if j < s.len() {
                assert(r[i] == s[i] && r[j] == s[j]);
            } else {
                let n = s.len() - 1;
                assert(r[i] == s[i] && r[j] == x);
                if i < n {
                    assert(!ahead(s[n], s[i]));
                    assert(!ahead(x, s[n]));
                }
            }
        }
    }
}

/// Sorting by a ranking leaves nothing ahead of what stands before it.
pub proof fn sorted_by_is_in_order<U>(s: Seq<U>, ahead: spec_fn(U, U) -> bool)
    requires
        ranks_all(ahead),
    ensures
        forall|i: int, j: int|
            0 <= i < j < sorted_by(s, ahead).len() ==> !ahead(
                #[trigger] sorted_by(s, ahead)[j],
                #[trigger] sorted_by(s, ahead)[i],
            ),
    decreases s.len(),
{
    if s.len() > 0 {
        sorted_by_is_in_order(s.drop_last(), ahead);
        lemma_inserted_by_in_order(sorted_by(s.drop_last(), ahead), s.last(), ahead);
    }
}

/// Every value of the sorted sequence stands somewhere in the unsorted one.
pub proof fn lemma_sorted_by_from<U>(s: Seq<U>, ahead: spec_fn(U, U) -> bool, i: int) -> (j: int)
    requires
        0 <= i < sorted_by(s, ahead).len(),
    ensures
        0 <= j < s.len(),
        s[j] == sorted_by(s, ahead)[i],
{
    broadcast use vstd::seq_lib::group_to_multiset_ensures;

    lemma_sorted_by_multiset(s, ahead);
    let x = sorted_by(s, ahead)[i];
    assert(sorted_by(s, ahead).contains(x));
    assert(s.to_multiset().count(x) > 0);
    assert(s.contains(x));
    choose|j: int| 0 <= j < s.len() && s[j] == x
}

/// Is the rank a strict order with ties on the values of `s`?
pub open spec fn is_ranking<T: Ranked>(s: Seq<T>) -> bool {
    &&& forall|i: int, j: int|
        #![trigger s[i], s[j]]
        0 <= i < s.len() && 0 <= j < s.len() && s[i].ahead(&s[j]) ==> !s[j].ahead(&s[i])
    &&& forall|i: int, j: int, k: int|
        #![trigger s[i], s[j], s[k]]
        0 <= i < s.len() && 0 <= j < s.len() && 0 <= k < s.len() && !s[i].ahead(&s[j])
            && !s[j].ahead(&s[k]) ==> !s[i].ahead(&s[k])
}

/// Nothing in `s` is ahead of what stands before it.
pub open spec fn in_order<T: Ranked>(s: Seq<T>) -> bool {
    forall|i: int, j: int|
        #![trigger s[i], s[j]]
        0 <= i < j < s.len() ==> !s[j].ahead(&s[i])
}

proof fn lemma_inserted_multiset<T: Ranked>(s: Seq<T>, x: T)
    ensures
        inserted(s, x).len() == s.len() + 1,
        inserted(s, x).to_multiset() == s.to_multiset().insert(x),
    decreases s.len(),
{
    broadcast use vstd::seq_lib::group_to_multiset_ensures;

    if s.len() > 0 && x.ahead(&s.last()) {
        lemma_inserted_multiset(s.drop_last(), x);
        assert(s =~= s.drop_last().push(s.last()));
        assert(inserted(s, x).to_multiset() =~= s.to_multiset().insert(x));
    }
}

/// Sorting keeps every value, as often as it occurs.
pub proof fn sorting_keeps_every_value<T: Ranked>(s: Seq<T>)
    ensures
        sorted(s).len() == s.len(),
        sorted(s).to_multiset() == s.to_multiset(),
    decreases s.len(),
{
    broadcast use vstd::seq_lib::group_to_multiset_ensures;

    if s.len() > 0 {
        sorting_keeps_every_value(s.drop_last());
        lemma_inserted_multiset(sorted(s.drop_last()), s.last());
        assert(s =~= s.drop_last().push(s.last()));
    }
}

/// Every value of the sorted sequence stands somewhere in the unsorted one.
pub proof fn lemma_sorted_from<T: Ranked>(s: Seq<T>, i: int) -> (j: int)
    requires
        0 <= i < sorted(s).len(),
    ensures
        0 <= j < s.len(),
        s[j] == sorted(s)[i],
{
    broadcast use vstd::seq_lib::group_to_multiset_ensures;

    sorting_keeps_every_value(s);
    let x = sorted(s)[i];
    assert(sorted(s).contains(x));
    assert(s.to_multiset().count(x) > 0);
    assert(s.contains(x));
    choose|j: int| 0 <= j < s.len() && s[j] == x
}

proof fn lemma_inserted_from<T: Ranked>(s: Seq<T>, x: T, i: int)
    requires
        0 <= i < inserted(s, x).len(),
    ensures
        inserted(s, x)[i] == x || s.contains(inserted(s, x)[i]),
    decreases s.len(),
{
    let r = inserted(s, x);
    if s.len() > 0 && x.ahead(&s.last()) {
        lemma_inserted_multiset(s.drop_last(), x);
        if i < r.len() - 1 {
            lemma_inserted_from(s.drop_last(), x, i);
            if r[i] != x {
                let j = choose|j: int| 0 <= j < s.len() - 1 && s.drop_last()[j] == r[i];
                assert(s[j] == r[i]);
            }
        } else {
            assert(s[s.len() - 1] == r[i]);
        }
    } else if i < s.len() {
        assert(s[i] == r[i]);
    }
}

proof fn lemma_inserted_in_order<T: Ranked>(s: Seq<T>, x: T)
    requires
        in_order(s),
        is_ranking(s.push(x)),
    ensures
        in_order(inserted(s, x)),
    decreases s.len(),
{
    let r = inserted(s, x);
    let all = s.push(x);
    lemma_inserted_multiset(s, x);
    if s.len() > 0 && x.ahead(&s.last()) {
        let t = s.drop_last();
        let shorter = t.push(x);
        assert(is_ranking(shorter)) by {
            assert forall|i: int| 0 <= i < shorter.len() implies (exists|a: int|
                0 <= a < all.len() && all[a] == #[trigger] shorter[i]) by {
                if i < t.len() {
                    assert(all[i] == shorter[i]);
                } else {
                    assert(all[s.len() as int] == shorter[i]);
                }
            }
        }
        assert(in_order(t)) by {
            assert forall|i: int, j: int|
            #![trigger t[i], t[j]]
            0 <= i < j < t.len() implies !t[j].ahead(&t[i]) by {
                assert(t[j] == s[j] && t[i] == s[i]);
            }
        }
        lemma_inserted_in_order(t, x);
        lemma_inserted_multiset(t, x);
        let front = inserted(t, x);
        assert forall|i: int, j: int|
            #![trigger r[i], r[j]]
            0 <= i < j < r.len() implies !r[j].ahead(&r[i]) by {
            if j < front.len() {
                assert(r[j] == front[j] && r[i] == front[i]);
            } else {
                assert(r[i] == front[i]);
                lemma_inserted_from(t, x, i);
                if front[i] == x {
                    assert(all[s.len() - 1] == s.last() && all[s.len() as int] == x);
                } else {
                    let m = choose|m: int| 0 <= m < t.len() && t[m] == front[i];
                    assert(s[m] == front[i]);
                    assert(!s[s.len() - 1].ahead(&s[m]));
                }
            }
        }
    } else {
        assert forall|i: int, j: int|
            #![trigger r[i], r[j]]
            0 <= i < j < r.len() implies !r[j].ahead(&r[i]) by {
            if j < s.len() {
                assert(r[j] == s[j] && r[i] == s[i]);
            } else {
                let n = s.len() - 1;
                assert(all[n] == s.last() && all[s.len() as int] == x && all[i] == s[i]);
                if i < n {
                    assert(!s[n].ahead(&s[i]));
                    assert(!all[s.len() as int].ahead(&all[n]));
                    assert(!all[n].ahead(&all[i]));
                }
            }
        }
    }
}

/// Sorting by a ranking leaves nothing ahead of what stands before it.
pub proof fn sorting_puts_in_order<T: Ranked>(s: Seq<T>)
    requires
        is_ranking(s),
    ensures
        in_order(sorted(s)),
    decreases s.len(),
{
    if s.len() > 0 {
        let t = s.drop_last();
        assert(is_ranking(t)) by {
            assert forall|i: int| 0 <= i < t.len() implies #[trigger] t[i] == s[i] by {}
        }
        sorting_puts_in_order(t);
        let m = sorted(t);
        sorting_keeps_every_value(t);
        let all = m.push(s.last());
        assert(is_ranking(all)) by {
            assert forall|i: int| 0 <= i < all.len() implies (exists|a: int|
                0 <= a < s.len() && s[a] == #[trigger] all[i]) by {
                if i < m.len() {
                    let j = lemma_sorted_from(t, i);
                    assert(s[j] == all[i]);
                } else {
                    assert(s[s.len() - 1] == all[i]);
                }
            }
        }
        lemma_inserted_in_order(m, s.last());
    }
}

/// Sort by rank.
pub fn sort<T: Ranked>(v: Vec<T>) -> (out: Vec<T>)
    ensures
        out@ == sorted(v@),
{
    let ghost all = v@;
    let mut out: Vec<T> = Vec::new();
    for x in it: v.into_iter()
        invariant
            it.seq() == all,
            out@ == sorted(all.take(it.index())),
    {
        let ghost s = out@;
        let mut j: usize = out.len();
        assert(s.take(j as int) =~= s);
        assert(inserted(s.take(j as int), x) + s.skip(j as int) =~= inserted(s, x));
        while j > 0 && x.is_ahead(&out[j - 1])
            invariant
                j <= s.len(),
                out@ == s,
                inserted(s, x) == inserted(s.take(j as int), x) + s.skip(j as int),
            decreases j,
        {
            assert(s.take(j as int).drop_last() =~= s.take(j - 1));
            assert(inserted(s.take(j as int), x) + s.skip(j as int) =~= inserted(s.take(j - 1), x)
                + s.skip(j - 1));
            j -= 1;
        }
        assert(inserted(s, x) =~= s.insert(j as int, x));
        out.insert(j, x);
        assert(all.take(it.index() + 1).drop_last() =~= all.take(it.index()));
        assert(all.take(it.index() + 1).last() == x);
    }
    assert(all.take(all.len() as int) =~= all);
    out
}

} // verus!
