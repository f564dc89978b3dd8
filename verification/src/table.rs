//! Tables keyed by text and kept in key order.

use vstd::prelude::*;

use crate::text::{place, Place};

verus! {

/// Keys in strictly ascending order, each with its value.
pub struct Table<V> {
    pub keys: Vec<String>,
    pub values: Vec<V>,
}

/// Are the texts in strictly ascending order?
pub open spec fn ascending(s: Seq<Seq<char>>) -> bool {
    forall|i: int, j: int| 0 <= i < j < s.len() ==> crate::text::before(s[i], s[j])
}

/// No two places of an ascending sequence hold the same text.
pub proof fn lemma_ascending_distinct(s: Seq<Seq<char>>, i: int, j: int)
    requires
        ascending(s),
        0 <= i < s.len(),
        0 <= j < s.len(),
        s[i] == s[j],
    ensures
        i == j,
{
    crate::text::lemma_before_irreflexive(s[i]);
    if i < j {
        assert(crate::text::before(s[i], s[j]));
    } else if j < i {
        assert(crate::text::before(s[j], s[i]));
    }
}

/// `s`, which ascends, with `k` in its place.
pub open spec fn with_name(s: Seq<Seq<char>>, k: Seq<char>) -> Seq<Seq<char>>
    decreases s.len(),
{
    if s.len() == 0 {
        seq![k]
    } else if s.last() == k {
        s
    } else if crate::text::before(k, s.last()) {
        with_name(s.drop_last(), k).push(s.last())
    } else {
        s.push(k)
    }
}

/// The texts of `s`, each once, in ascending order.
pub open spec fn distinct_names(s: Seq<Seq<char>>) -> Seq<Seq<char>>
    decreases s.len(),
{
    if s.len() == 0 {
        s
    } else {
        with_name(distinct_names(s.drop_last()), s.last())
    }
}

/// A text that is there already changes nothing.
proof fn lemma_with_name_known(s: Seq<Seq<char>>, k: Seq<char>)
    requires
        ascending(s),
        s.contains(k),
    ensures
        with_name(s, k) == s,
    decreases s.len(),
{
    let i = choose|i: int| 0 <= i < s.len() && s[i] == k;
    if s.last() != k {
        assert(crate::text::before(s[i], s[s.len() - 1]));
        let t = s.drop_last();
        assert(t[i] == k);
        assert(ascending(t)) by {
            assert forall|a: int, b: int| 0 <= a < b < t.len() implies crate::text::before(
                t[a],
                t[b],
            ) by {
                assert(t[a] == s[a] && t[b] == s[b]);
            }
        }
        lemma_with_name_known(t, k);
        assert(t.push(s.last()) =~= s);
    }
}

/// A new text goes to where it belongs.
proof fn lemma_with_name_new(s: Seq<Seq<char>>, k: Seq<char>, r: int)
    requires
        0 <= r <= s.len(),
        forall|i: int| 0 <= i < r ==> crate::text::before(#[trigger] s[i], k),
        forall|i: int| r <= i < s.len() ==> crate::text::before(k, #[trigger] s[i]),
    ensures
        with_name(s, k) == s.insert(r, k),
    decreases s.len(),
{
    crate::text::lemma_before_irreflexive(k);
    if s.len() > 0 {
        let t = s.drop_last();
        let last = s[s.len() - 1];
        if r < s.len() {
            assert(crate::text::before(k, last));
            assert forall|i: int| 0 <= i < r implies crate::text::before(#[trigger] t[i], k) by {
                assert(t[i] == s[i]);
            }
            assert forall|i: int| r <= i < t.len() implies crate::text::before(
                k,
                #[trigger] t[i],
            ) by {
                assert(t[i] == s[i]);
            }
            lemma_with_name_new(t, k, r);
            assert(t.insert(r, k).push(last) =~= s.insert(r, k));
        } else {
            assert(crate::text::before(last, k));
            if crate::text::before(k, last) {
                crate::text::lemma_before_transitive(k, last, k);
            }
            assert(s.push(k) =~= s.insert(r, k));
        }
    } else {
        assert(seq![k] =~= s.insert(r, k));
    }
}

/// Where a new text belongs in an ascending sequence.
proof fn lemma_rank(s: Seq<Seq<char>>, k: Seq<char>) -> (r: int)
    requires
        ascending(s),
        !s.contains(k),
    ensures
        0 <= r <= s.len(),
        forall|i: int| 0 <= i < r ==> crate::text::before(#[trigger] s[i], k),
        forall|i: int| r <= i < s.len() ==> crate::text::before(k, #[trigger] s[i]),
    decreases s.len(),
{
    if s.len() == 0 {
        0
    } else {
        let n = s.len() - 1;
        let t = s.drop_last();
        crate::text::lemma_before_total(s[n], k);
        assert(s[n] != k);
        if crate::text::before(s[n], k) {
            assert forall|i: int| 0 <= i < s.len() implies crate::text::before(
                #[trigger] s[i],
                k,
            ) by {
                if i < n {
                    crate::text::lemma_before_transitive(s[i], s[n], k);
                }
            }
            s.len() as int
        } else {
            assert forall|a: int, b: int| 0 <= a < b < t.len() implies crate::text::before(
                t[a],
                t[b],
            ) by {
                assert(t[a] == s[a] && t[b] == s[b]);
            }
            assert(!t.contains(k)) by {
                if t.contains(k) {
                    let i = choose|i: int| 0 <= i < t.len() && t[i] == k;
                    assert(s[i] == k);
                }
            }
            let r = lemma_rank(t, k);
            assert forall|i: int| 0 <= i < r implies crate::text::before(#[trigger] s[i], k) by {
                assert(t[i] == s[i]);
            }
            assert forall|i: int| r <= i < s.len() implies crate::text::before(
                k,
                #[trigger] s[i],
            ) by {
                if i < n {
                    assert(t[i] == s[i]);
                }
            }
            r
        }
    }
}

/// Putting texts in their places leaves them ascending, and adds one.
proof fn lemma_with_name(s: Seq<Seq<char>>, k: Seq<char>)
    requires
        ascending(s),
    ensures
        ascending(with_name(s, k)),
        forall|x: Seq<char>| with_name(s, k).contains(x) <==> s.contains(x) || x == k,
{
    if s.contains(k) {
        lemma_with_name_known(s, k);
    } else {
        let r = lemma_rank(s, k);
        lemma_with_name_new(s, k, r);
        let t = s.insert(r, k);
        assert forall|a: int, b: int| 0 <= a < b < t.len() implies crate::text::before(
            t[a],
            t[b],
        ) by {
            let a0 = if a < r { a } else { a - 1 };
            let b0 = if b < r { b } else { b - 1 };
            if a == r {
                assert(crate::text::before(k, s[b0]));
            } else if b == r {
                assert(crate::text::before(s[a0], k));
            } else {
                assert(crate::text::before(s[a0], s[b0]));
            }
        }
        assert forall|x: Seq<char>| t.contains(x) <==> s.contains(x) || x == k by {
            if s.contains(x) {
                let i = choose|i: int| 0 <= i < s.len() && s[i] == x;
                assert(t[if i < r { i } else { i + 1 }] == x);
            }
            if t.contains(x) {
                let i = choose|i: int| 0 <= i < t.len() && t[i] == x;
                if i != r {
                    assert(s[if i < r { i } else { i - 1 }] == x);
                }
            }
            assert(t[r] == k);
        }
    }
}

/// The distinct texts of a sequence ascend, and are the ones that it holds.
pub proof fn distinct_names_are_those_held(s: Seq<Seq<char>>)
    ensures
        ascending(distinct_names(s)),
        forall|x: Seq<char>| distinct_names(s).contains(x) <==> s.contains(x),
        distinct_names(s).len() <= s.len(),
    decreases s.len(),
{
    if s.len() > 0 {
        let t = s.drop_last();
        distinct_names_are_those_held(t);
        lemma_with_name(distinct_names(t), s.last());
        assert forall|x: Seq<char>| s.contains(x) <==> t.contains(x) || x == s.last() by {
            if s.contains(x) {
                let i = choose|i: int| 0 <= i < s.len() && s[i] == x;
                if i < t.len() {
                    assert(t[i] == x);
                }
            }
            if t.contains(x) {
                let i = choose|i: int| 0 <= i < t.len() && t[i] == x;
                assert(s[i] == x);
            }
            assert(s[s.len() - 1] == s.last());
        }
        if distinct_names(t).contains(s.last()) {
            lemma_with_name_known(distinct_names(t), s.last());
        } else {
            let r = lemma_rank(distinct_names(t), s.last());
            lemma_with_name_new(distinct_names(t), s.last(), r);
        }
    }
}

/// The last of ascending texts comes after all others.
proof fn lemma_last_of(s: Seq<Seq<char>>, x: Seq<char>)
    requires
        ascending(s),
        s.contains(x),
        x != s.last(),
    ensures
        crate::text::before(x, s.last()),
{
    let i = s.index_of(x);
    assert(crate::text::before(s[i], s[s.len() - 1]));
}

proof fn lemma_ascending_same(a: Seq<Seq<char>>, b: Seq<Seq<char>>)
    requires
        ascending(a),
        ascending(b),
        forall|x: Seq<char>| a.contains(x) <==> b.contains(x),
    ensures
        a == b,
    decreases a.len(),
{
    if a.len() == 0 {
        if b.len() > 0 {
            assert(b.contains(b[0]));
        }
        assert(a =~= b);
    } else {
        assert(a.contains(a[a.len() - 1]));
        assert(b.contains(a.last()));
        assert(b.contains(b[b.len() - 1]));
        assert(a.contains(b.last()));
        if a.last() != b.last() {
            lemma_last_of(a, b.last());
            lemma_last_of(b, a.last());
            crate::text::lemma_before_transitive(a.last(), b.last(), a.last());
            crate::text::lemma_before_irreflexive(a.last());
        }
        let x = a.drop_last();
        let y = b.drop_last();
        assert forall|t: Seq<char>| x.contains(t) <==> y.contains(t) by {
            lemma_drop_last_holds(a, t);
            lemma_drop_last_holds(b, t);
        }
        lemma_ascending_same(x, y);
        assert(a =~= x.push(a.last()));
        assert(b =~= y.push(b.last()));
    }
}

proof fn lemma_drop_last_holds(s: Seq<Seq<char>>, t: Seq<char>)
    requires
        ascending(s),
        s.len() > 0,
    ensures
        s.drop_last().contains(t) <==> s.contains(t) && t != s.last(),
{
    let front = s.drop_last();
    if front.contains(t) {
        let i = front.index_of(t);
        assert(s[i] == t);
        if t == s.last() {
            lemma_ascending_distinct(s, i, s.len() - 1);
        }
    }
    if s.contains(t) && t != s.last() {
        let i = s.index_of(t);
        assert(front[i] == t);
    }
}

/// Which names are distinct depends on which are held, not on their order or
/// number.
pub proof fn distinct_names_of_the_same_set(a: Seq<Seq<char>>, b: Seq<Seq<char>>)
    requires
        forall|x: Seq<char>| a.contains(x) <==> b.contains(x),
    ensures
        distinct_names(a) == distinct_names(b),
{
    distinct_names_are_those_held(a);
    distinct_names_are_those_held(b);
    assert forall|x: Seq<char>| distinct_names(a).contains(x) <==> distinct_names(b).contains(x) by {
        assert(a.contains(x) <==> b.contains(x));
    }
    lemma_ascending_same(distinct_names(a), distinct_names(b));
}

impl<V> View for Table<V> {
    type V = Map<Seq<char>, V>;

    open spec fn view(&self) -> Map<Seq<char>, V> {
        Map::new(
            |k: Seq<char>| self.names().contains(k),
            |k: Seq<char>| self.values[self.names().index_of(k)],
        )
    }
}

impl<V> Table<V> {
    /// The keys, in order.
    pub open spec fn names(&self) -> Seq<Seq<char>> {
        self.keys.deep_view()
    }

    pub open spec fn wf(&self) -> bool {
        &&& self.keys.len() == self.values.len()
        &&& ascending(self.names())
    }

    /// What stands at place `i` is what the table holds under the key there.
    pub proof fn lemma_place(&self, i: int)
        requires
            self.wf(),
            0 <= i < self.keys.len(),
        ensures
            self@.contains_key(self.keys[i]@),
            self@[self.keys[i]@] == self.values[i],
    {
        let names = self.names();
        assert(names[i] == self.keys[i]@);
        assert(names.contains(names[i]));
        let k = names.index_of(names[i]);
        assert(0 <= k < names.len() && names[k] == names[i]);
        lemma_ascending_distinct(names, i, k);
    }

    /// A key that the table holds stands at some place.
    pub proof fn lemma_key(&self, k: Seq<char>) -> (i: int)
        requires
            self.wf(),
            self@.contains_key(k),
        ensures
            0 <= i < self.keys.len(),
            self.keys[i]@ == k,
            self.values[i] == self@[k],
    {
        let i = choose|i: int| 0 <= i < self.names().len() && self.names()[i] == k;
        self.lemma_place(i);
        i
    }

    pub fn new() -> (t: Self)
        ensures
            t.wf(),
            t@ == Map::<Seq<char>, V>::empty(),
            t.keys.len() == 0,
    {
        let t = Table { keys: Vec::new(), values: Vec::new() };
        assert(t@ =~= Map::<Seq<char>, V>::empty());
        t
    }

    /// Where `key` stands, or where it would have to be inserted.
    pub fn find(&self, key: &str) -> (r: (bool, usize))
        requires
            self.wf(),
        ensures
            r.1 <= self.keys.len(),
            r.0 == self@.contains_key(key@),
            r.0 ==> r.1 < self.keys.len() && self.keys[r.1 as int]@ == key@ && self.values[r.1 as int]
                == self@[key@],
            !r.0 ==> forall|i: int|
                0 <= i < r.1 ==> crate::text::before(#[trigger] self.names()[i], key@),
            !r.0 ==> forall|i: int|
                r.1 <= i < self.keys.len() ==> crate::text::before(
                    key@,
                    #[trigger] self.names()[i],
                ),
    {
        let mut lo: usize = 0;
        let mut hi: usize = self.keys.len();
        while lo < hi
            invariant
                lo <= hi <= self.keys.len(),
                self.wf(),
                forall|i: int|
                    0 <= i < lo ==> crate::text::before(#[trigger] self.names()[i], key@),
                forall|i: int|
                    hi <= i < self.keys.len() ==> crate::text::before(
                        key@,
                        #[trigger] self.names()[i],
                    ),
            decreases hi - lo,
        {
            let mid: usize = lo + (hi - lo) / 2;
            assert(self.names()[mid as int] == self.keys[mid as int]@);
            match place(self.keys[mid].as_str(), key) {
                Place::Same => {
                    proof {
                        self.lemma_place(mid as int);
                    }
                    return (true, mid);
                },
                Place::Before => {
                    assert forall|i: int| 0 <= i < mid + 1 implies crate::text::before(
                        #[trigger] self.names()[i],
                        key@,
                    ) by {
                        if i < mid {
                            crate::text::lemma_before_transitive(
                                self.names()[i],
                                self.names()[mid as int],
                                key@,
                            );
                        }
                    }
                    lo = mid + 1;
                },
                Place::After => {
                    assert forall|i: int| mid <= i < self.keys.len() implies crate::text::before(
                        key@,
                        #[trigger] self.names()[i],
                    ) by {
                        if i > mid {
                            crate::text::lemma_before_transitive(
                                key@,
                                self.names()[mid as int],
                                self.names()[i],
                            );
                        }
                    }
                    hi = mid;
                },
            }
        }
        proof {
            if self@.contains_key(key@) {
                let i = self.lemma_key(key@);
                crate::text::lemma_before_irreflexive(key@);
                assert(self.names()[i] == key@);
            }
        }
        (false, lo)
    }

    pub fn get(&self, key: &str) -> (r: Option<&V>)
        requires
            self.wf(),
        ensures
            r is Some <==> self@.contains_key(key@),
            r matches Some(v) ==> *v == self@[key@],
    {
        let (found, i) = self.find(key);
        if found {
            Some(&self.values[i])
        } else {
            None
        }
    }

    /// Make sure that the table holds `key`, with `value` when it is new to
    /// it, and say where it stands.
    pub fn slot(&mut self, key: &str, value: V) -> (i: usize)
        requires
            old(self).wf(),
        ensures
            final(self).wf(),
            i < final(self).keys.len(),
            final(self).keys[i as int]@ == key@,
            old(self)@.contains_key(key@) ==> *final(self) == *old(self),
            final(self)@ == if old(self)@.contains_key(key@) {
                old(self)@
            } else {
                old(self)@.insert(key@, value)
            },
            final(self).values[i as int] == final(self)@[key@],
            final(self).names() == with_name(old(self).names(), key@),
    {
        let (found, i) = self.find(key);
        if found {
            proof {
                assert(self.names()[i as int] == key@);
                lemma_with_name_known(self.names(), key@);
            }
            return i;
        }
        proof {
            lemma_with_name_new(self.names(), key@, i as int);
        }
        let ghost before_names = self.names();
        let ghost before_map = self@;
        let ghost before_values = self.values@;
        let ghost before_self = *self;
        self.keys.insert(i, key.to_owned());
        self.values.insert(i, value);
        proof {
            assert(self.names() =~= before_names.insert(i as int, key@));
            assert forall|a: int, b: int| 0 <= a < b < self.names().len() implies crate::text::before(
                self.names()[a],
                self.names()[b],
            ) by {
                let a0 = if a < i { a } else { a - 1 };
                let b0 = if b < i { b } else { b - 1 };
                if a == i {
                    assert(crate::text::before(key@, before_names[b0]));
                } else if b == i {
                    assert(crate::text::before(before_names[a0], key@));
                } else {
                    assert(crate::text::before(before_names[a0], before_names[b0]));
                }
            }
            self.lemma_place(i as int);
            assert forall|k: Seq<char>| self@.contains_key(k) <==> before_map.insert(
                key@,
                value,
            ).contains_key(k) by {
                if self@.contains_key(k) && k != key@ {
                    let j = self.lemma_key(k);
                    let j0 = if j < i { j } else { j - 1 };
                    assert(before_names[j0] == k);
                }
                if before_map.contains_key(k) {
                    let j = before_self.lemma_key(k);
                    let j1 = if j < i { j } else { j + 1 };
                    assert(self.names()[j1] == k);
                }
            }
            assert forall|k: Seq<char>| self@.contains_key(k) implies self@[k] == before_map.insert(
                key@,
                value,
            )[k] by {
                if k != key@ {
                    let j = self.lemma_key(k);
                    let j0 = if j < i { j } else { j - 1 };
                    assert(before_names[j0] == k);
                    before_self.lemma_place(j0);
                }
            }
            assert(self@ =~= before_map.insert(key@, value));
        }
        i
    }

    /// Replace the value at place `i`.
    pub fn set(&mut self, i: usize, value: V)
        requires
            old(self).wf(),
            i < old(self).keys.len(),
        ensures
            final(self).wf(),
            final(self).keys == old(self).keys,
            final(self).values@ == old(self).values@.update(i as int, value),
            final(self)@ == old(self)@.insert(old(self).keys[i as int]@, value),
    {
        let ghost before_self = *self;
        self.values.set(i, value);
        proof {
            let key = self.keys[i as int]@;
            before_self.lemma_place(i as int);
            assert forall|k: Seq<char>| self@.contains_key(k) implies self@[k]
                == before_self@.insert(key, value)[k] by {
                let j = self.lemma_key(k);
                before_self.lemma_place(j);
                if j == i {
                } else if k == key {
                    lemma_ascending_distinct(self.names(), i as int, j);
                }
            }
            assert(self@ =~= before_self@.insert(key, value));
        }
    }
}

/// The texts that `s` holds, each once, in ascending order.
pub fn distinct(s: &[String]) -> (v: Vec<String>)
    ensures
        v.deep_view() == distinct_names(s.deep_view()),
{
    let ghost all = s.deep_view();
    let mut t: Table<u8> = Table::new();
    let mut i: usize = 0;
    assert(all.take(0) =~= Seq::<Seq<char>>::empty());
    assert(t.names() =~= Seq::<Seq<char>>::empty());
    while i < s.len()
        invariant
            i <= s.len(),
            t.wf(),
            all == s.deep_view(),
            t.names() == distinct_names(all.take(i as int)),
        decreases s.len() - i,
    {
        assert(all.take(i + 1).drop_last() =~= all.take(i as int));
        assert(all.take(i + 1).last() == s[i as int]@);
        let _ = t.slot(s[i].as_str(), 0);
        i += 1;
    }
    assert(all.take(i as int) =~= all);
    t.keys
}

} // verus!
