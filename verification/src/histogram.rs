//! Buckets in the Prometheus `le` sense. Values are fractions; bounds are
//! given in thousandths.

use vstd::prelude::*;

use crate::text::{decimal_chars, string_of};

verus! {

/// A fraction.
#[derive(Clone, Copy, Debug, PartialEq, Eq, Structural)]
pub struct Ratio {
    pub num: u64,
    pub den: u64,
}

impl DeepView for Ratio {
    type V = Ratio;

    open spec fn deep_view(&self) -> Ratio {
        *self
    }
}

/// Is `v` at most `bound` thousandths?
pub open spec fn at_most(v: Ratio, bound: u64) -> bool {
    v.num * 1000 <= bound * v.den
}

pub fn is_at_most(v: Ratio, bound: u64) -> (r: bool)
    ensures
        r == at_most(v, bound),
{
    assert(v.num * 1000 <= u128::MAX && bound * v.den <= u128::MAX) by (nonlinear_arith)
        requires
            v.num <= u64::MAX,
            v.den <= u64::MAX,
            bound <= u64::MAX,
    ;
    (v.num as u128) * 1000 <= (bound as u128) * (v.den as u128)
}

/// Which of the values `s` are at most `bound`.
pub open spec fn low_values(s: Seq<Ratio>, bound: u64) -> spec_fn(int) -> bool {
    |i: int| at_most(s[i], bound)
}

/// Cumulative buckets in the Prometheus `le` sense.
#[derive(Clone, Debug)]
pub struct Histogram {
    /// In thousandths.
    pub bounds: Vec<u64>,
    /// How many of the observed values each bound covers.
    pub counts: Vec<u64>,
    /// The values, in the order in which they were observed; their sum is the
    /// histogram's.
    pub observed: Vec<Ratio>,
    pub count: u64,
}

impl Histogram {
    pub open spec fn wf(&self) -> bool {
        &&& self.counts.len() == self.bounds.len()
        &&& self.count == self.observed.len()
        &&& forall|b: int|
            0 <= b < self.counts.len() ==> (#[trigger] self.counts[b]) == crate::count::count(
                self.observed.len() as int,
                low_values(self.observed@, self.bounds[b]),
            )
    }

    pub fn new(bounds: &[u64]) -> (h: Self)
        ensures
            h.wf(),
            h.bounds@ == bounds@,
            h.observed.len() == 0,
    {
        let mut own: Vec<u64> = Vec::new();
        let mut counts: Vec<u64> = Vec::new();
        let mut i: usize = 0;
        while i < bounds.len()
            invariant
                i <= bounds.len(),
                own@ == bounds@.take(i as int),
                counts.len() == i,
                forall|j: int| 0 <= j < i ==> counts[j] == 0,
            decreases bounds.len() - i,
        {
            own.push(bounds[i]);
            counts.push(0);
            i += 1;
        }
        Histogram { bounds: own, counts, observed: Vec::new(), count: 0 }
    }

    pub fn observe(&mut self, v: Ratio)
        requires
            old(self).wf(),
        ensures
            final(self).wf(),
            final(self).bounds == old(self).bounds,
            final(self).observed@ == old(self).observed@.push(v),
    {
        let ghost before = *self;
        let ghost n = before.observed.len() as int;
        self.observed.push(v);
        let ghost all = self.observed@;
        let mut i: usize = 0;
        while i < self.bounds.len()
            invariant
                i <= self.bounds.len(),
                n == before.observed.len(),
                before.wf(),
                self.bounds == before.bounds,
                self.counts.len() == self.bounds.len(),
                self.observed@ == all,
                all == before.observed@.push(v),
                forall|b: int|
                    i <= b < self.counts.len() ==> self.counts[b] == before.counts[b],
                forall|b: int|
                    0 <= b < i ==> (#[trigger] self.counts[b]) == crate::count::count(
                        n + 1,
                        low_values(all, self.bounds[b]),
                    ),
            decreases self.bounds.len() - i,
        {
            proof {
                let p = low_values(before.observed@, self.bounds[i as int]);
                let q = low_values(all, self.bounds[i as int]);
                assert(before.counts[i as int] == crate::count::count(n, p));
                crate::count::lemma_select_same(n, p, q);
                crate::count::lemma_select(n, q);
                assert(all[n] == v);
                assert(self.observed.len() == n + 1);
            }
            if is_at_most(v, self.bounds[i]) {
                let c: u64 = self.counts[i];
                self.counts.set(i, c + 1);
            }
            i += 1;
        }
        self.count = self.observed.len() as u64;
    }

    /// The histogram of `values`.
    pub fn of(bounds: &[u64], values: &[Ratio]) -> (h: Self)
        ensures
            h.wf(),
            h.bounds@ == bounds@,
            h.observed@ == values@,
    {
        let mut h = Histogram::new(bounds);
        let mut i: usize = 0;
        while i < values.len()
            invariant
                i <= values.len(),
                h.wf(),
                h.bounds@ == bounds@,
                h.observed@ == values@.take(i as int),
            decreases values.len() - i,
        {
            h.observe(values[i]);
            i += 1;
        }
        h
    }

    /// A higher bound covers at least as many values, and none covers more
    /// than there are.
    pub proof fn buckets_are_cumulative(&self, a: int, b: int)
        requires
            self.wf(),
            0 <= a < self.bounds.len(),
            0 <= b < self.bounds.len(),
            self.bounds[a] <= self.bounds[b],
        ensures
            self.counts[a] <= self.counts[b] <= self.count,
    {
        let n = self.observed.len() as int;
        let p = low_values(self.observed@, self.bounds[a]);
        let q = low_values(self.observed@, self.bounds[b]);
        assert forall|i: int| 0 <= i < n && #[trigger] p(i) implies q(i) by {
            lemma_at_most_grows(self.observed[i], self.bounds[a], self.bounds[b]);
        }
        crate::count::lemma_count_grows(n, p, q);
        crate::count::lemma_select(n, q);
    }
}

/// What is at most one bound is at most any higher one.
pub proof fn lemma_at_most_grows(v: Ratio, a: u64, b: u64)
    requires
        at_most(v, a),
        a <= b,
    ensures
        at_most(v, b),
{
    assert(a * v.den <= b * v.den) by (nonlinear_arith)
        requires
            a <= b,
            0 <= v.den,
    ;
}

/// Which items have a value.
pub open spec fn have_value(values: Seq<Option<Ratio>>) -> spec_fn(int) -> bool {
    |i: int| values[i] is Some
}

/// Which items have a value of at most `bound`.
pub open spec fn have_low_value(values: Seq<Option<Ratio>>, bound: u64) -> spec_fn(int) -> bool {
    |i: int| values[i] matches Some(v) && at_most(v, bound)
}

/// Places as whole numbers.
pub open spec fn places(v: Seq<usize>) -> Seq<int> {
    Seq::new(v.len(), |i: int| v[i] as int)
}

/// Items gathered per `le` bound, cumulative like Prometheus buckets: what an
/// item weighs, one relay or the stake of a pool, is the reader's.
#[derive(Clone, Debug)]
pub struct Cumulative {
    /// In thousandths.
    pub bounds: Vec<u64>,
    /// Per bound, the items whose value it covers.
    pub values: Vec<Vec<usize>>,
    /// All items that have a value.
    pub total: Vec<usize>,
}

impl Cumulative {
    /// Does this hold the items with `values`, one for each item?
    pub open spec fn holds(&self, values: Seq<Option<Ratio>>, n: int) -> bool {
        &&& self.values.len() == self.bounds.len()
        &&& places(self.total@) == crate::count::select(n, have_value(values))
        &&& forall|b: int|
            0 <= b < self.values.len() ==> places((#[trigger] self.values[b])@)
                == crate::count::select(n, have_low_value(values, self.bounds[b]))
    }

    pub fn new(bounds: &[u64]) -> (c: Self)
        ensures
            c.bounds@ == bounds@,
            c.values.len() == bounds.len(),
            forall|b: int| 0 <= b < c.values.len() ==> (#[trigger] c.values[b]).len() == 0,
            c.total.len() == 0,
    {
        let mut own: Vec<u64> = Vec::new();
        let mut values: Vec<Vec<usize>> = Vec::new();
        let mut i: usize = 0;
        while i < bounds.len()
            invariant
                i <= bounds.len(),
                own@ == bounds@.take(i as int),
                values.len() == i,
                forall|b: int| 0 <= b < i ==> (#[trigger] values[b]).len() == 0,
            decreases bounds.len() - i,
        {
            own.push(bounds[i]);
            values.push(Vec::new());
            i += 1;
        }
        Cumulative { bounds: own, values, total: Vec::new() }
    }

    pub fn observe(&mut self, v: Ratio, item: usize)
        requires
            old(self).values.len() == old(self).bounds.len(),
        ensures
            final(self).bounds == old(self).bounds,
            final(self).values.len() == old(self).values.len(),
            final(self).total@ == old(self).total@.push(item),
            forall|b: int|
                0 <= b < final(self).values.len() ==> (#[trigger] final(self).values[b])@
                    == if at_most(v, old(self).bounds[b]) {
                    old(self).values[b]@.push(item)
                } else {
                    old(self).values[b]@
                },
    {
        let ghost before = *self;
        let mut i: usize = 0;
        while i < self.bounds.len()
            invariant
                i <= self.bounds.len(),
                before.values.len() == before.bounds.len(),
                self.bounds == before.bounds,
                self.total == before.total,
                self.values.len() == before.values.len(),
                forall|b: int|
                    i <= b < self.values.len() ==> (#[trigger] self.values[b])@
                        == before.values[b]@,
                forall|b: int|
                    0 <= b < i ==> (#[trigger] self.values[b])@ == if at_most(
                        v,
                        before.bounds[b],
                    ) {
                        before.values[b]@.push(item)
                    } else {
                        before.values[b]@
                    },
            decreases self.bounds.len() - i,
        {
            if is_at_most(v, self.bounds[i]) {
                self.values[i].push(item);
            }
            i += 1;
        }
        self.total.push(item);
    }

    /// The items that have a value, each under the bounds that cover it.
    pub fn of(bounds: &[u64], values: &[Option<Ratio>]) -> (c: Self)
        ensures
            c.bounds@ == bounds@,
            c.holds(values@, values.len() as int),
    {
        let mut c = Cumulative::new(bounds);
        assert(places(c.total@) =~= Seq::<int>::empty());
        assert forall|b: int| 0 <= b < c.values.len() implies places((#[trigger] c.values[b])@)
            == crate::count::select(0, have_low_value(values@, c.bounds[b])) by {
            assert(places(c.values[b]@) =~= Seq::<int>::empty());
        }
        let mut i: usize = 0;
        while i < values.len()
            invariant
                i <= values.len(),
                c.bounds@ == bounds@,
                c.holds(values@, i as int),
            decreases values.len() - i,
        {
            if let Some(v) = values[i] {
                let ghost before = c;
                c.observe(v, i);
                assert(places(c.total@) =~= places(before.total@).push(i as int));
                assert forall|b: int| 0 <= b < c.values.len() implies places(
                    (#[trigger] c.values[b])@,
                ) == crate::count::select(i + 1, have_low_value(values@, c.bounds[b])) by {
                    assert(places(before.values[b]@) == crate::count::select(
                        i as int,
                        have_low_value(values@, c.bounds[b]),
                    ));
                    if at_most(v, c.bounds[b]) {
                        assert(places(c.values[b]@) =~= places(before.values[b]@).push(i as int));
                    }
                }
            }
            i += 1;
        }
        c
    }

    /// A higher bound covers whatever a lower one does, and none covers
    /// anything that has no value.
    pub proof fn buckets_are_cumulative(
        &self,
        values: Seq<Option<Ratio>>,
        n: int,
        a: int,
        b: int,
        item: int,
    )
        requires
            self.holds(values, n),
            0 <= a < self.bounds.len(),
            0 <= b < self.bounds.len(),
            self.bounds[a] <= self.bounds[b],
            places(self.values[a]@).contains(item),
        ensures
            places(self.values[b]@).contains(item),
            places(self.total@).contains(item),
    {
        crate::count::lemma_select(n, have_low_value(values, self.bounds[a]));
        crate::count::lemma_select(n, have_low_value(values, self.bounds[b]));
        crate::count::lemma_select(n, have_value(values));
        assert(have_low_value(values, self.bounds[a])(item));
        lemma_at_most_grows(values[item]->0, self.bounds[a], self.bounds[b]);
    }
}

pub const REACHABILITY_BOUNDS: [u64; 5] = [0, 250, 500, 750, 1000];

pub const RTT_BOUNDS: [u64; 13] = [
    50,
    100,
    250,
    500,
    1000,
    2500,
    5000,
    10000,
    15000,
    20000,
    30000,
    45000,
    60000,
];

pub const WITHIN_BOUNDS: [u64; 9] = [1000, 2500, 5000, 10000, 15000, 20000, 30000, 45000, 60000];

pub const LAG_BOUNDS: [u64; 8] = [0, 1000, 2000, 5000, 10000, 50000, 100000, 1000000];

/// The decimals behind the point of `r` thousandths, as many as it takes.
pub open spec fn decimals(r: int) -> Seq<char> {
    if r == 0 {
        Seq::empty()
    } else if r % 100 == 0 {
        seq!['.', crate::text::digit_char(r / 100)]
    } else if r % 10 == 0 {
        seq!['.', crate::text::digit_char(r / 100), crate::text::digit_char(r / 10 % 10)]
    } else {
        seq![
            '.',
            crate::text::digit_char(r / 100),
            crate::text::digit_char(r / 10 % 10),
            crate::text::digit_char(r % 10),
        ]
    }
}

/// `bound` thousandths as a decimal number.
pub open spec fn bound_text(bound: u64) -> Seq<char> {
    crate::text::decimal(bound as nat / 1000) + decimals(bound as int % 1000)
}

/// `bound` thousandths as a decimal number.
pub fn bound_label(bound: u64) -> (s: String)
    ensures
        s@ == bound_text(bound),
{
    let mut v = decimal_chars(bound / 1000);
    let ghost front = v@;
    let r: u64 = bound % 1000;
    if r != 0 {
        v.push('.');
        v.push((48u8 + (r / 100) as u8) as char);
        if r % 100 != 0 {
            v.push((48u8 + (r / 10 % 10) as u8) as char);
            if r % 10 != 0 {
                v.push((48u8 + (r % 10) as u8) as char);
            }
        }
    }
    assert(v@ =~= front + decimals(r as int));
    string_of(v.as_slice())
}

} // verus!
