//! Operators: pools merged by who runs them, and the lists made of them.

use vstd::prelude::*;

use crate::histogram::Ratio;
use crate::ip::parse_sock;
use crate::pools::{operator_domain, PoolMeta, PoolMetaView};
use crate::reasons::rank_reasons;
use crate::sort::{sort, Ranked};
use crate::stake::{copy_sum, Share};
use crate::table::distinct;
use crate::text::{chars_of, join, put};

verus! {

/// How much of a pool answered: none of its relays, some, or all.
#[derive(Clone, Copy, Debug, PartialEq, Eq, Structural)]
pub enum Reach {
    Unreached,
    Partial,
    Full,
}

impl Reach {
    pub const ALL: [Reach; 3] = [Reach::Unreached, Reach::Partial, Reach::Full];

    pub open spec fn name(self) -> Seq<char> {
        match self {
            Reach::Unreached => "none"@,
            Reach::Partial => "partial"@,
            Reach::Full => "full"@,
        }
    }

    pub fn label(self) -> (s: &'static str)
        ensures
            s@ == self.name(),
    {
        match self {
            Reach::Unreached => "none",
            Reach::Partial => "partial",
            Reach::Full => "full",
        }
    }
}

#[derive(Clone, Debug)]
pub struct PoolStat {
    pub index: usize,
    pub relays_total: usize,
    pub relays_reachable: usize,
    pub reach: Reach,
    /// The share of the pool's relays that answered.
    pub fraction: Ratio,
    /// Per relay, the chance that a node using it reaches a working one: the
    /// weighted fraction is their sum over `relays_total`, 0 without relays.
    pub chances: Vec<Ratio>,
    pub fastest_rtt_ms: Option<u64>,
    /// From the pool index, when one was given and a relay matched.
    pub meta: Option<PoolMeta>,
    /// Relays the index matched only through their octet reversal.
    pub relays_reversed: usize,
    /// Why relays failed, distinct, most common first; empty when all answered.
    pub reasons: Vec<&'static str>,
    /// Distinct socket addresses the pool's relays resolved to.
    pub endpoints: Vec<String>,
    /// The pool's relay entries as written in the snapshot.
    pub relays: Vec<String>,
}

pub struct PoolStatView {
    pub index: usize,
    pub relays_total: usize,
    pub relays_reachable: usize,
    pub reach: Reach,
    pub fraction: Ratio,
    pub chances: Seq<Ratio>,
    pub fastest_rtt_ms: Option<u64>,
    pub meta: Option<PoolMetaView>,
    pub relays_reversed: usize,
    pub reasons: Seq<Seq<char>>,
    pub endpoints: Seq<Seq<char>>,
    pub relays: Seq<Seq<char>>,
}

impl DeepView for PoolStat {
    type V = PoolStatView;

    open spec fn deep_view(&self) -> PoolStatView {
        PoolStatView {
            index: self.index,
            relays_total: self.relays_total,
            relays_reachable: self.relays_reachable,
            reach: self.reach,
            fraction: self.fraction,
            chances: self.chances@,
            fastest_rtt_ms: self.fastest_rtt_ms,
            meta: self.meta.deep_view(),
            relays_reversed: self.relays_reversed,
            reasons: self.reasons.deep_view(),
            endpoints: self.endpoints.deep_view(),
            relays: self.relays.deep_view(),
        }
    }
}

/// One line of the outreach list. Pools that share an identity, the same
/// pool id from the index or, without one, the same relay set, are one
/// operator and are merged, so every row is a distinct series.
#[derive(Clone, Debug)]
pub struct OutreachRow {
    pub pool_id: String,
    pub ticker: String,
    pub name: String,
    pub reach: Reach,
    pub pools: u64,
    pub relays_total: u64,
    pub relays_reachable: u64,
    /// Relays named only through their octet reversal.
    pub relays_reversed: u64,
    /// Distinct socket addresses behind all the operator's relays.
    pub endpoints: u64,
    /// Why relays failed, distinct and most common first, comma separated.
    pub reasons: String,
    pub stake: Vec<Share>,
    pub relays: Vec<String>,
}

pub struct OutreachRowView {
    pub pool_id: Seq<char>,
    pub ticker: Seq<char>,
    pub name: Seq<char>,
    pub reach: Reach,
    pub pools: int,
    pub relays_total: int,
    pub relays_reachable: int,
    pub relays_reversed: int,
    pub endpoints: int,
    pub reasons: Seq<char>,
    pub stake: Seq<Share>,
    pub relays: Seq<Seq<char>>,
}

impl DeepView for OutreachRow {
    type V = OutreachRowView;

    open spec fn deep_view(&self) -> OutreachRowView {
        OutreachRowView {
            pool_id: self.pool_id@,
            ticker: self.ticker@,
            name: self.name@,
            reach: self.reach,
            pools: self.pools as int,
            relays_total: self.relays_total as int,
            relays_reachable: self.relays_reachable as int,
            relays_reversed: self.relays_reversed as int,
            endpoints: self.endpoints as int,
            reasons: self.reasons@,
            stake: self.stake@,
            relays: self.relays.deep_view(),
        }
    }
}

/// A copy of texts.
pub fn copy_texts(s: &[String]) -> (v: Vec<String>)
    ensures
        v.deep_view() == s.deep_view(),
{
    let mut v: Vec<String> = Vec::new();
    let mut i: usize = 0;
    while i < s.len()
        invariant
            i <= s.len(),
            v.len() == i,
            forall|j: int| 0 <= j < i ==> v[j] == s[j],
        decreases s.len() - i,
    {
        v.push(s[i].clone());
        i += 1;
    }
    assert(v.deep_view() =~= s.deep_view());
    v
}

impl OutreachRow {
    pub fn copy(&self) -> (r: Self)
        ensures
            r.deep_view() == self.deep_view(),
    {
        OutreachRow {
            pool_id: self.pool_id.clone(),
            ticker: self.ticker.clone(),
            name: self.name.clone(),
            reach: self.reach,
            pools: self.pools,
            relays_total: self.relays_total,
            relays_reachable: self.relays_reachable,
            relays_reversed: self.relays_reversed,
            endpoints: self.endpoints,
            reasons: self.reasons.clone(),
            stake: copy_sum(self.stake.as_slice()),
            relays: copy_texts(self.relays.as_slice()),
        }
    }
}

// Distinct endpoints.

/// Which keys are IPv4 socket addresses.
pub open spec fn v4_keys(keys: Seq<Seq<char>>) -> spec_fn(int) -> bool {
    |i: int| crate::ip::sock_of(keys[i]) matches Some(s) && s.ip is V4
}

/// Which keys are IPv6 socket addresses.
pub open spec fn v6_keys(keys: Seq<Seq<char>>) -> spec_fn(int) -> bool {
    |i: int| crate::ip::sock_of(keys[i]) matches Some(s) && s.ip is V6
}

/// Which keys are names.
pub open spec fn name_keys(keys: Seq<Seq<char>>) -> spec_fn(int) -> bool {
    |i: int| crate::ip::sock_of(keys[i]) is None
}

/// How many relay hosts stand behind these endpoint keys. A dual-stacked host
/// is one relay, so the larger address family counts and the smaller is
/// assumed to be the same hosts; a name that never resolved counts as one.
pub open spec fn hosts(keys: Seq<Seq<char>>) -> nat {
    let n = keys.len() as int;
    let v4 = crate::count::count(n, v4_keys(keys));
    let v6 = crate::count::count(n, v6_keys(keys));
    let names = crate::count::count(n, name_keys(keys));
    if v4 >= v6 {
        v4 + names
    } else {
        v6 + names
    }
}

/// How many relay hosts stand behind these endpoint keys.
pub fn distinct_endpoints(keys: &[String]) -> (n: u64)
    ensures
        n == hosts(keys.deep_view()),
{
    let ghost all = keys.deep_view();
    let mut v4: u64 = 0;
    let mut v6: u64 = 0;
    let mut names: u64 = 0;
    let mut i: usize = 0;
    while i < keys.len()
        invariant
            i <= keys.len(),
            all == keys.deep_view(),
            v4 + v6 + names == i,
            v4 == crate::count::count(i as int, v4_keys(all)),
            v6 == crate::count::count(i as int, v6_keys(all)),
            names == crate::count::count(i as int, name_keys(all)),
        decreases keys.len() - i,
    {
        assert(all[i as int] == keys[i as int]@);
        match parse_sock(chars_of(keys[i].as_str()).as_slice()) {
            Some(s) => if s.ip.is_v4() {
                v4 += 1;
            } else {
                v6 += 1;
            },
            None => {
                names += 1;
            },
        }
        i += 1;
    }
    if v4 >= v6 {
        v4 + names
    } else {
        v6 + names
    }
}

// Operators.

/// Does nothing but its relays tell who runs the pool?
pub open spec fn is_anonymous(p: PoolStatView) -> bool {
    match p.meta {
        Some(m) => m.ticker is None && m.name is None,
        None => true,
    }
}

/// The domain that tells who runs the pool.
pub open spec fn telling_domain(p: PoolStatView) -> Option<Seq<char>> {
    if is_anonymous(p) {
        crate::pools::shared_domain(p.relays)
    } else {
        None
    }
}

/// What pools of one operator have in common.
pub open spec fn operator_key(p: PoolStatView) -> Seq<char> {
    match (telling_domain(p), p.meta) {
        (Some(d), _) => "domain:"@ + d,
        (None, Some(m)) => m.pool_id,
        (None, None) => crate::text::joined(crate::table::distinct_names(p.relays), ", "@),
    }
}

/// The keys of all pools.
pub open spec fn operator_keys(pools: Seq<PoolStatView>) -> Seq<Seq<char>> {
    Seq::new(pools.len(), |i: int| operator_key(pools[i]))
}

/// Which pools have the key `k`.
pub open spec fn run_by(pools: Seq<PoolStatView>, k: Seq<char>) -> spec_fn(int) -> bool {
    |i: int| operator_key(pools[i]) == k
}

pub open spec fn totals(pools: Seq<PoolStatView>) -> spec_fn(int) -> nat {
    |i: int| pools[i].relays_total as nat
}

pub open spec fn reachables(pools: Seq<PoolStatView>) -> spec_fn(int) -> nat {
    |i: int| pools[i].relays_reachable as nat
}

pub open spec fn reverseds(pools: Seq<PoolStatView>) -> spec_fn(int) -> nat {
    |i: int| pools[i].relays_reversed as nat
}

/// The pools among `at` with reach `r`.
pub open spec fn with_reach(pools: Seq<PoolStatView>, r: Reach) -> spec_fn(int) -> nat {
    |i: int|
        if pools[i].reach == r {
            1nat
        } else {
            0nat
        }
}

/// `s` and then those of `more` that are not there yet.
pub open spec fn with_new(s: Seq<Seq<char>>, more: Seq<Seq<char>>) -> Seq<Seq<char>>
    decreases more.len(),
{
    if more.len() == 0 {
        s
    } else {
        let front = with_new(s, more.drop_last());
        if front.contains(more.last()) {
            front
        } else {
            front.push(more.last())
        }
    }
}

/// The relays of the pools at `at`, each once, as they come.
pub open spec fn all_relays(pools: Seq<PoolStatView>, at: Seq<int>) -> Seq<Seq<char>>
    decreases at.len(),
{
    if at.len() == 0 {
        Seq::empty()
    } else {
        with_new(all_relays(pools, at.drop_last()), pools[at.last()].relays)
    }
}

/// The endpoints of the pools at `at`, each once, as they come.
pub open spec fn all_endpoints(pools: Seq<PoolStatView>, at: Seq<int>) -> Seq<Seq<char>>
    decreases at.len(),
{
    if at.len() == 0 {
        Seq::empty()
    } else {
        with_new(all_endpoints(pools, at.drop_last()), pools[at.last()].endpoints)
    }
}

/// A pool's reasons, weighted by its ranking, so the first stays first.
pub open spec fn pool_reasons(reasons: Seq<Seq<char>>) -> Seq<(Seq<char>, u128)> {
    Seq::new(reasons.len(), |i: int| (reasons[i], (reasons.len() - i) as u128))
}

/// The reasons of the pools at `at`.
pub open spec fn all_reasons(pools: Seq<PoolStatView>, at: Seq<int>) -> Seq<(Seq<char>, u128)>
    decreases at.len(),
{
    if at.len() == 0 {
        Seq::empty()
    } else {
        all_reasons(pools, at.drop_last()) + pool_reasons(pools[at.last()].reasons)
    }
}

/// The whole stake of each pool at `at`.
pub open spec fn all_stake(pools: Seq<PoolStatView>, at: Seq<int>) -> Seq<Share> {
    Seq::new(at.len(), |i: int| Share { pool: pools[at[i]].index, parts: 1 })
}

pub open spec fn or_empty(s: Option<Seq<char>>) -> Seq<char> {
    match s {
        Some(t) => t,
        None => Seq::empty(),
    }
}

/// The pool id by which an operator is listed: that of its first pool, or the
/// first relay where the pool has none.
pub open spec fn listed_id(p: PoolStatView) -> Seq<char> {
    match p.meta {
        Some(m) => m.pool_id,
        None => if p.relays.len() > 0 {
            p.relays[0]
        } else {
            Seq::empty()
        },
    }
}

pub open spec fn listed_ticker(p: PoolStatView) -> Seq<char> {
    match p.meta {
        Some(m) => or_empty(m.ticker),
        None => Seq::empty(),
    }
}

/// The name by which an operator is listed: that of its first pool, or the
/// domain of its relays.
pub open spec fn listed_name(p: PoolStatView) -> Seq<char> {
    match p.meta {
        Some(m) => if m.name is Some {
            m.name->0
        } else {
            or_empty(telling_domain(p))
        },
        None => or_empty(telling_domain(p)),
    }
}

/// The reach of an operator: full or none where all its pools are.
pub open spec fn merged_reach(pools: Seq<PoolStatView>, at: Seq<int>) -> Reach {
    if crate::count::sum_of(at, with_reach(pools, Reach::Full)) == at.len() {
        Reach::Full
    } else if crate::count::sum_of(at, with_reach(pools, Reach::Unreached)) == at.len() {
        Reach::Unreached
    } else {
        Reach::Partial
    }
}

/// The row of the pools at `at`.
pub open spec fn row_of(pools: Seq<PoolStatView>, at: Seq<int>) -> OutreachRowView {
    OutreachRowView {
        pool_id: listed_id(pools[at[0]]),
        ticker: listed_ticker(pools[at[0]]),
        name: listed_name(pools[at[0]]),
        reach: merged_reach(pools, at),
        pools: at.len() as int,
        relays_total: crate::count::sum_of(at, totals(pools)) as int,
        relays_reachable: crate::count::sum_of(at, reachables(pools)) as int,
        relays_reversed: crate::count::sum_of(at, reverseds(pools)) as int,
        endpoints: hosts(all_endpoints(pools, at)) as int,
        reasons: crate::text::joined(crate::reasons::ranked(all_reasons(pools, at)), ", "@),
        stake: all_stake(pools, at),
        relays: all_relays(pools, at),
    }
}

/// One row per operator, by key. Pools are merged by the identity the index
/// gave them; pools whose registration carries no ticker or name are merged by
/// the domain their relays share, which is the only handle there is on them.
pub open spec fn operators_of(pools: Seq<PoolStatView>) -> Seq<OutreachRowView> {
    let names = crate::table::distinct_names(operator_keys(pools));
    Seq::new(
        names.len(),
        |i: int|
            row_of(pools, crate::count::select(pools.len() as int, run_by(pools, names[i]))),
    )
}

/// The square of the number of reasons, which bounds what they weigh.
pub open spec fn reason_squares(pools: Seq<PoolStatView>) -> spec_fn(int) -> nat {
    |i: int| pools[i].reasons.len() * pools[i].reasons.len()
}

/// Can everything about the pools be added up?
pub open spec fn sums_fit(pools: Seq<PoolStatView>) -> bool {
    let n = pools.len() as int;
    &&& crate::count::sum_below(n, totals(pools)) <= u64::MAX
    &&& crate::count::sum_below(n, reachables(pools)) <= u64::MAX
    &&& crate::count::sum_below(n, reverseds(pools)) <= u64::MAX
    &&& crate::count::sum_below(n, reason_squares(pools)) <= u128::MAX
}

fn pool_domain(p: &PoolStat) -> (r: Option<String>)
    ensures
        r.deep_view() == telling_domain(p.deep_view()),
{
    let anonymous = match &p.meta {
        Some(m) => m.ticker.is_none() && m.name.is_none(),
        None => true,
    };
    if anonymous {
        operator_domain(p.relays.as_slice())
    } else {
        None
    }
}

fn pool_key(p: &PoolStat) -> (s: String)
    ensures
        s@ == operator_key(p.deep_view()),
{
    match (pool_domain(p), &p.meta) {
        (Some(d), _) => {
            let mut s = "domain:".to_owned();
            put(&mut s, d.as_str());
            s
        },
        (None, Some(m)) => m.pool_id.clone(),
        (None, None) => join(distinct(p.relays.as_slice()).as_slice(), ", "),
    }
}

fn text_or_empty(s: &Option<String>) -> (r: String)
    ensures
        r@ == or_empty(s.deep_view()),
{
    match s {
        Some(t) => t.clone(),
        None => String::new(),
    }
}

fn find_text(s: &[String], t: &String) -> (r: bool)
    ensures
        r == s.deep_view().contains(t@),
{
    let ghost all = s.deep_view();
    let mut i: usize = 0;
    while i < s.len()
        invariant
            i <= s.len(),
            all == s.deep_view(),
            forall|j: int| 0 <= j < i ==> all[j] != t@,
        decreases s.len() - i,
    {
        assert(all[i as int] == s[i as int]@);
        if s[i] == *t {
            return true;
        }
        i += 1;
    }
    false
}

/// Append those of `more` that are not there yet.
pub fn add_new(v: &mut Vec<String>, more: &[String])
    ensures
        final(v).deep_view() == with_new(old(v).deep_view(), more.deep_view()),
{
    let ghost start = v.deep_view();
    let ghost all = more.deep_view();
    let mut i: usize = 0;
    assert(all.take(0) =~= Seq::<Seq<char>>::empty());
    while i < more.len()
        invariant
            i <= more.len(),
            all == more.deep_view(),
            v.deep_view() == with_new(start, all.take(i as int)),
        decreases more.len() - i,
    {
        assert(all.take(i + 1).drop_last() =~= all.take(i as int));
        assert(all.take(i + 1).last() == more[i as int]@);
        if !find_text(v.as_slice(), &more[i]) {
            let ghost front = v.deep_view();
            v.push(more[i].clone());
            assert(v.deep_view() =~= front.push(more[i as int]@));
        }
        i += 1;
    }
    assert(all.take(i as int) =~= all);
}

proof fn lemma_total_weight_concat(a: Seq<(Seq<char>, u128)>, b: Seq<(Seq<char>, u128)>)
    ensures
        crate::reasons::total_weight(a + b) == crate::reasons::total_weight(a)
            + crate::reasons::total_weight(b),
    decreases b.len(),
{
    if b.len() == 0 {
        assert(a + b =~= a);
    } else {
        lemma_total_weight_concat(a, b.drop_last());
        assert((a + b).drop_last() =~= a + b.drop_last());
    }
}

proof fn lemma_pool_reasons_weight(reasons: Seq<Seq<char>>, k: int)
    requires
        0 <= k <= reasons.len() <= usize::MAX,
    ensures
        crate::reasons::total_weight(pool_reasons(reasons).take(k)) <= k * reasons.len(),
    decreases k,
{
    let s = pool_reasons(reasons);
    if k == 0 {
        assert(s.take(0) =~= Seq::empty());
    } else {
        lemma_pool_reasons_weight(reasons, k - 1);
        assert(s.take(k).drop_last() =~= s.take(k - 1));
        assert(s.take(k).last().1 == reasons.len() - (k - 1));
        assert((k - 1) * reasons.len() + reasons.len() == k * reasons.len()) by (nonlinear_arith);
    }
}

/// The reasons of some pools weigh no more than the squares of their numbers.
proof fn lemma_all_reasons_weight(pools: Seq<PoolStatView>, at: Seq<int>)
    requires
        forall|i: int|
            0 <= i < at.len() ==> pools[#[trigger] at[i]].reasons.len() <= usize::MAX,
    ensures
        crate::reasons::total_weight(all_reasons(pools, at)) <= crate::count::sum_of(
            at,
            reason_squares(pools),
        ),
    decreases at.len(),
{
    if at.len() > 0 {
        let front = at.drop_last();
        assert forall|i: int| 0 <= i < front.len() implies pools[#[trigger] front[i]].reasons.len()
            <= usize::MAX by {
            assert(front[i] == at[i]);
        }
        lemma_all_reasons_weight(pools, front);
        let last = at[at.len() - 1];
        let r = pools[last].reasons;
        lemma_pool_reasons_weight(r, r.len() as int);
        assert(pool_reasons(r).take(r.len() as int) =~= pool_reasons(r));
        lemma_total_weight_concat(all_reasons(pools, front), pool_reasons(r));
    }
}

/// Append a pool's reasons, weighted by its ranking.
fn add_reasons(items: &mut Vec<(&'static str, u128)>, reasons: &[&'static str])
    ensures
        final(items).deep_view() == old(items).deep_view() + pool_reasons(reasons.deep_view()),
{
    let ghost start = items.deep_view();
    let ghost more = pool_reasons(reasons.deep_view());
    let mut i: usize = 0;
    assert(start + more.take(0) =~= start);
    while i < reasons.len()
        invariant
            i <= reasons.len(),
            more == pool_reasons(reasons.deep_view()),
            items.deep_view() == start + more.take(i as int),
        decreases reasons.len() - i,
    {
        let ghost now = items.deep_view();
        let x: (&'static str, u128) = (reasons[i], (reasons.len() - i) as u128);
        assert(more[i as int] == (reasons[i as int]@, (reasons.len() - i) as u128));
        items.push(x);
        assert(items.deep_view() =~= now.push(more[i as int]));
        assert(start + more.take(i + 1) =~= now.push(more[i as int]));
        i += 1;
    }
    assert(more.take(i as int) =~= more);
}

/// Words with `sep` between them.
pub fn join_words(words: &[&'static str], sep: &str) -> (s: String)
    ensures
        s@ == crate::text::joined(words.deep_view(), sep@),
{
    let mut v: Vec<String> = Vec::new();
    let mut i: usize = 0;
    while i < words.len()
        invariant
            i <= words.len(),
            v.len() == i,
            forall|j: int| 0 <= j < i ==> (#[trigger] v[j])@ == words[j]@,
        decreases words.len() - i,
    {
        v.push(words[i].to_owned());
        i += 1;
    }
    assert(v.deep_view() =~= words.deep_view());
    join(v.as_slice(), sep)
}

/// The places where `keys` has `key`.
pub fn members(keys: &[String], key: &String) -> (v: Vec<usize>)
    ensures
        crate::histogram::places(v@) == crate::count::select(
            keys.len() as int,
            has_key(keys.deep_view(), key@),
        ),
        forall|i: int| 0 <= i < v.len() ==> (#[trigger] v[i]) < keys.len(),
{
    let ghost all = keys.deep_view();
    let mut v: Vec<usize> = Vec::new();
    let mut i: usize = 0;
    assert(crate::histogram::places(v@) =~= Seq::<int>::empty());
    while i < keys.len()
        invariant
            i <= keys.len(),
            all == keys.deep_view(),
            crate::histogram::places(v@) == crate::count::select(i as int, has_key(all, key@)),
            forall|j: int| 0 <= j < v.len() ==> (#[trigger] v[j]) < keys.len(),
        decreases keys.len() - i,
    {
        assert(all[i as int] == keys[i as int]@);
        if keys[i] == *key {
            let ghost front = crate::histogram::places(v@);
            v.push(i);
            assert(crate::histogram::places(v@) =~= front.push(i as int));
        }
        i += 1;
    }
    v
}

/// Which places hold the text `k`.
pub open spec fn has_key(keys: Seq<Seq<char>>, k: Seq<char>) -> spec_fn(int) -> bool {
    |i: int| keys[i] == k
}

/// The row of the pools at `at`, of which there is one.
fn merge(pools: &[PoolStat], at: &[usize]) -> (row: OutreachRow)
    requires
        at.len() > 0,
        forall|i: int| 0 <= i < at.len() ==> (#[trigger] at[i]) < pools.len(),
        crate::count::sum_of(crate::histogram::places(at@), totals(pools.deep_view())) <= u64::MAX,
        crate::count::sum_of(crate::histogram::places(at@), reachables(pools.deep_view()))
            <= u64::MAX,
        crate::count::sum_of(crate::histogram::places(at@), reverseds(pools.deep_view()))
            <= u64::MAX,
        crate::count::sum_of(crate::histogram::places(at@), reason_squares(pools.deep_view()))
            <= u128::MAX,
    ensures
        row.deep_view() == row_of(pools.deep_view(), crate::histogram::places(at@)),
{
    let ghost ps = pools.deep_view();
    let ghost all = crate::histogram::places(at@);
    let first = &pools[at[0]];
    assert(ps[all[0]] == first.deep_view());
    let domain = pool_domain(first);
    let pool_id = match &first.meta {
        Some(m) => m.pool_id.clone(),
        None => if first.relays.len() > 0 {
            first.relays[0].clone()
        } else {
            String::new()
        },
    };
    let ticker = match &first.meta {
        Some(m) => text_or_empty(&m.ticker),
        None => String::new(),
    };
    let name = match &first.meta {
        Some(m) => match &m.name {
            Some(n) => n.clone(),
            None => text_or_empty(&domain),
        },
        None => text_or_empty(&domain),
    };
    let mut relays_total: u64 = 0;
    let mut relays_reachable: u64 = 0;
    let mut relays_reversed: u64 = 0;
    let mut full: usize = 0;
    let mut none: usize = 0;
    let mut relays: Vec<String> = Vec::new();
    let mut endpoints: Vec<String> = Vec::new();
    let mut items: Vec<(&'static str, u128)> = Vec::new();
    let mut stake: Vec<Share> = Vec::new();
    let mut i: usize = 0;
    assert(all.take(0) =~= Seq::<int>::empty());
    assert(relays.deep_view() =~= Seq::<Seq<char>>::empty());
    assert(endpoints.deep_view() =~= Seq::<Seq<char>>::empty());
    assert(items.deep_view() =~= Seq::<(Seq<char>, u128)>::empty());
    assert(stake@ =~= all_stake(ps, all.take(0)));
    while i < at.len()
        invariant
            i <= at.len(),
            ps == pools.deep_view(),
            all == crate::histogram::places(at@),
            forall|i: int| 0 <= i < at.len() ==> (#[trigger] at[i]) < pools.len(),
            crate::count::sum_of(all, totals(ps)) <= u64::MAX,
            crate::count::sum_of(all, reachables(ps)) <= u64::MAX,
            crate::count::sum_of(all, reverseds(ps)) <= u64::MAX,
            relays_total == crate::count::sum_of(all.take(i as int), totals(ps)),
            relays_reachable == crate::count::sum_of(all.take(i as int), reachables(ps)),
            relays_reversed == crate::count::sum_of(all.take(i as int), reverseds(ps)),
            full <= i,
            none <= i,
            full == crate::count::sum_of(all.take(i as int), with_reach(ps, Reach::Full)),
            none == crate::count::sum_of(all.take(i as int), with_reach(ps, Reach::Unreached)),
            relays.deep_view() == all_relays(ps, all.take(i as int)),
            endpoints.deep_view() == all_endpoints(ps, all.take(i as int)),
            items.deep_view() == all_reasons(ps, all.take(i as int)),
            stake@ == all_stake(ps, all.take(i as int)),
        decreases at.len() - i,
    {
        let p = &pools[at[i]];
        let ghost k = all[i as int];
        assert(ps[k] == p.deep_view());
        proof {
            assert(all.take(i + 1) =~= all.take(i as int).push(k));
            assert(all.take(i + 1).drop_last() =~= all.take(i as int));
            crate::count::lemma_sum_push(all.take(i as int), k, totals(ps));
            crate::count::lemma_sum_push(all.take(i as int), k, reachables(ps));
            crate::count::lemma_sum_push(all.take(i as int), k, reverseds(ps));
            crate::count::lemma_sum_push(all.take(i as int), k, with_reach(ps, Reach::Full));
            crate::count::lemma_sum_push(all.take(i as int), k, with_reach(ps, Reach::Unreached));
            crate::count::lemma_sum_part(all, i + 1, totals(ps));
            crate::count::lemma_sum_part(all, i + 1, reachables(ps));
            crate::count::lemma_sum_part(all, i + 1, reverseds(ps));
        }
        relays_total = relays_total + p.relays_total as u64;
        relays_reachable = relays_reachable + p.relays_reachable as u64;
        relays_reversed = relays_reversed + p.relays_reversed as u64;
        match p.reach {
            Reach::Full => {
                full += 1;
            },
            Reach::Unreached => {
                none += 1;
            },
            Reach::Partial => {},
        }
        add_new(&mut relays, p.relays.as_slice());
        add_new(&mut endpoints, p.endpoints.as_slice());
        add_reasons(&mut items, p.reasons.as_slice());
        stake.push(Share { pool: p.index, parts: 1 });
        assert(stake@ =~= all_stake(ps, all.take(i + 1)));
        i += 1;
    }
    assert(all.take(i as int) =~= all);
    proof {
        assert forall|i: int| 0 <= i < all.len() implies ps[#[trigger] all[i]].reasons.len()
            <= usize::MAX by {
            assert(at[i] < pools.len());
            assert(ps[all[i]].reasons.len() == pools[all[i]].reasons.len());
        }
        lemma_all_reasons_weight(ps, all);
    }
    let ranking = rank_reasons(items.as_slice());
    let reach = if full == at.len() {
        Reach::Full
    } else if none == at.len() {
        Reach::Unreached
    } else {
        Reach::Partial
    };
    OutreachRow {
        pool_id,
        ticker,
        name,
        reach,
        pools: at.len() as u64,
        relays_total,
        relays_reachable,
        relays_reversed,
        endpoints: distinct_endpoints(endpoints.as_slice()),
        reasons: join_words(ranking.as_slice(), ", "),
        stake,
        relays,
    }
}

/// One row per operator, by key.
pub fn operators(pools: &[PoolStat]) -> (rows: Vec<OutreachRow>)
    requires
        sums_fit(pools.deep_view()),
    ensures
        rows.deep_view() == operators_of(pools.deep_view()),
{
    let ghost ps = pools.deep_view();
    let mut keys: Vec<String> = Vec::new();
    let mut i: usize = 0;
    while i < pools.len()
        invariant
            i <= pools.len(),
            ps == pools.deep_view(),
            keys.len() == i,
            forall|j: int| 0 <= j < i ==> (#[trigger] keys[j])@ == operator_key(ps[j]),
        decreases pools.len() - i,
    {
        assert(ps[i as int] == pools[i as int].deep_view());
        keys.push(pool_key(&pools[i]));
        i += 1;
    }
    let ghost all = operator_keys(ps);
    assert(keys.deep_view() =~= all);
    let names = distinct(keys.as_slice());
    let ghost order = names.deep_view();
    let ghost n = ps.len() as int;
    proof {
        crate::table::distinct_names_are_those_held(all);
    }
    let mut rows: Vec<OutreachRow> = Vec::new();
    let mut i: usize = 0;
    while i < names.len()
        invariant
            i <= names.len(),
            ps == pools.deep_view(),
            all == operator_keys(ps),
            keys.deep_view() == all,
            keys.len() == pools.len(),
            n == ps.len(),
            order == names.deep_view(),
            sums_fit(ps),
            forall|k: Seq<char>| order.contains(k) ==> #[trigger] all.contains(k),
            rows.len() == i,
            forall|j: int|
                0 <= j < i ==> (#[trigger] rows[j]).deep_view() == row_of(
                    ps,
                    crate::count::select(n, run_by(ps, order[j])),
                ),
        decreases names.len() - i,
    {
        assert(order[i as int] == names[i as int]@);
        let ghost k = order[i as int];
        let at = members(keys.as_slice(), &names[i]);
        proof {
            assert(order.contains(k));
            assert(all.contains(k));
            let p = has_key(all, k);
            let q = run_by(ps, k);
            crate::count::lemma_select_same(n, p, q);
            crate::count::lemma_select(n, q);
            let j = choose|j: int| 0 <= j < all.len() && all[j] == k;
            assert(q(j));
            assert(crate::count::select(n, q).contains(j));
            crate::count::lemma_sum_selected(n, q, totals(ps));
            crate::count::lemma_sum_selected(n, q, reachables(ps));
            crate::count::lemma_sum_selected(n, q, reverseds(ps));
            crate::count::lemma_sum_selected(n, q, reason_squares(ps));
            assert(at.len() == crate::histogram::places(at@).len());
        }
        rows.push(merge(pools, at.as_slice()));
        i += 1;
    }
    assert(rows.deep_view() =~= operators_of(ps));
    rows
}

// The lists.

/// Which operators are not fully reachable.
pub open spec fn lacking(rows: Seq<OutreachRowView>) -> spec_fn(int) -> bool {
    |i: int| rows[i].reach != Reach::Full
}

/// The operator with the larger key first.
pub open spec fn larger_key(keys: Seq<u64>) -> spec_fn(int, int) -> bool {
    |a: int, b: int| keys[a] > keys[b]
}

/// The first `limit` of `s`.
pub open spec fn at_most_first(s: Seq<int>, limit: usize) -> Seq<int> {
    if s.len() <= limit {
        s
    } else {
        s.take(limit as int)
    }
}

/// The rows at the places `at`.
pub open spec fn rows_at(rows: Seq<OutreachRowView>, at: Seq<int>) -> Seq<OutreachRowView> {
    Seq::new(at.len(), |i: int| rows[at[i]])
}

/// The places of the operators not fully reachable, largest stake first, at
/// most `limit`. `keys` ranks their stake.
pub open spec fn outreach_places(
    rows: Seq<OutreachRowView>,
    keys: Seq<u64>,
    limit: usize,
) -> Seq<int> {
    at_most_first(
        crate::sort::sorted_by(
            crate::count::select(rows.len() as int, lacking(rows)),
            larger_key(keys),
        ),
        limit,
    )
}

/// How many hosts an operator's pools are spread over, at least one.
pub open spec fn spread(r: OutreachRowView) -> int {
    if r.endpoints < 1 {
        1
    } else {
        r.endpoints
    }
}

/// Which operators have at least as many pools as endpoints.
pub open spec fn crowded(rows: Seq<OutreachRowView>) -> spec_fn(int) -> bool {
    |i: int| rows[i].pools >= spread(rows[i])
}

/// More pools per endpoint first, then the larger key.
pub open spec fn denser(rows: Seq<OutreachRowView>, keys: Seq<u64>) -> spec_fn(int, int) -> bool {
    |a: int, b: int|
        {
            let x = rows[a].pools * spread(rows[b]);
            let y = rows[b].pools * spread(rows[a]);
            x > y || (x == y && keys[a] > keys[b])
        }
}

/// The places of the operators with the most pools per distinct relay
/// endpoint, at most `limit`. Only operators with at least as many pools as
/// endpoints qualify, so a single pool behind one relay is listed, one behind
/// two is not.
pub open spec fn thin_places(
    rows: Seq<OutreachRowView>,
    keys: Seq<u64>,
    limit: usize,
) -> Seq<int> {
    at_most_first(
        crate::sort::sorted_by(
            crate::count::select(rows.len() as int, crowded(rows)),
            denser(rows, keys),
        ),
        limit,
    )
}

struct Pick {
    at: usize,
    key: u64,
}

impl Ranked for Pick {
    closed spec fn ahead(&self, other: &Self) -> bool {
        self.key > other.key
    }

    fn is_ahead(&self, other: &Self) -> bool {
        self.key > other.key
    }
}

struct Dense {
    at: usize,
    pools: u64,
    spread: u64,
    key: u64,
}

impl Ranked for Dense {
    closed spec fn ahead(&self, other: &Self) -> bool {
        let x = self.pools * other.spread;
        let y = other.pools * self.spread;
        x > y || (x == y && self.key > other.key)
    }

    fn is_ahead(&self, other: &Self) -> bool {
        assert(self.pools * other.spread <= u128::MAX && other.pools * self.spread <= u128::MAX)
            by (nonlinear_arith)
            requires
                self.pools <= u64::MAX,
                self.spread <= u64::MAX,
                other.pools <= u64::MAX,
                other.spread <= u64::MAX,
        ;
        let x: u128 = (self.pools as u128) * (other.spread as u128);
        let y: u128 = (other.pools as u128) * (self.spread as u128);
        x > y || (x == y && self.key > other.key)
    }
}

/// The rows at the first `limit` of the places `at`.
fn take_rows(rows: &[OutreachRow], at: &[usize], limit: usize) -> (out: Vec<OutreachRow>)
    requires
        forall|i: int| 0 <= i < at.len() ==> (#[trigger] at[i]) < rows.len(),
    ensures
        out.deep_view() == rows_at(
            rows.deep_view(),
            at_most_first(crate::histogram::places(at@), limit),
        ),
{
    let ghost all = rows.deep_view();
    let ghost chosen = at_most_first(crate::histogram::places(at@), limit);
    let mut out: Vec<OutreachRow> = Vec::new();
    let mut i: usize = 0;
    while i < at.len() && i < limit
        invariant
            i <= at.len(),
            i <= limit,
            all == rows.deep_view(),
            chosen == at_most_first(crate::histogram::places(at@), limit),
            forall|i: int| 0 <= i < at.len() ==> (#[trigger] at[i]) < rows.len(),
            out.len() == i,
            forall|j: int| 0 <= j < i ==> (#[trigger] out[j]).deep_view() == all[chosen[j]],
        decreases at.len() - i,
    {
        assert(chosen[i as int] == at[i as int]);
        assert(all[at[i as int] as int] == rows[at[i as int] as int].deep_view());
        out.push(rows[at[i]].copy());
        i += 1;
    }
    assert(out.deep_view() =~= rows_at(all, chosen));
    out
}

/// Operators not fully reachable, largest stake first, at most `limit`.
/// `keys` ranks the operators' stake.
pub fn outreach(operators: &[OutreachRow], keys: &[u64], limit: usize) -> (out: Vec<OutreachRow>)
    requires
        keys.len() >= operators.len(),
    ensures
        out.deep_view() == rows_at(
            operators.deep_view(),
            outreach_places(operators.deep_view(), keys@, limit),
        ),
{
    let ghost rows = operators.deep_view();
    let ghost f = |p: Pick| p.at as int;
    let mut v: Vec<Pick> = Vec::new();
    let mut i: usize = 0;
    assert(v@.map_values(f) =~= Seq::<int>::empty());
    while i < operators.len()
        invariant
            i <= operators.len(),
            keys.len() >= operators.len(),
            rows == operators.deep_view(),
            f == (|p: Pick| p.at as int),
            forall|j: int|
                0 <= j < v.len() ==> (#[trigger] v[j]).at < operators.len() && v[j].key
                    == keys[v[j].at as int],
            v@.map_values(f) == crate::count::select(i as int, lacking(rows)),
        decreases operators.len() - i,
    {
        assert(rows[i as int].reach == operators[i as int].reach);
        if operators[i].reach != Reach::Full {
            let ghost front = v@.map_values(f);
            v.push(Pick { at: i, key: keys[i] });
            assert(v@.map_values(f) =~= front.push(i as int));
        }
        i += 1;
    }
    let ghost unsorted = v@;
    let v = sort(v);
    proof {
        crate::sort::sorting_keeps_every_value(unsorted);
        lemma_picks(unsorted, keys@);
        assert forall|j: int| 0 <= j < v.len() implies (#[trigger] v[j]).at < operators.len() by {
            let k = crate::sort::lemma_sorted_from(unsorted, j);
            assert(unsorted[k] == v[j]);
        }
    }
    let mut at: Vec<usize> = Vec::new();
    let mut i: usize = 0;
    while i < v.len()
        invariant
            i <= v.len(),
            at.len() == i,
            forall|j: int| 0 <= j < v.len() ==> (#[trigger] v[j]).at < operators.len(),
            forall|j: int| 0 <= j < i ==> (#[trigger] at[j]) == v[j].at,
        decreases v.len() - i,
    {
        at.push(v[i].at);
        i += 1;
    }
    assert(crate::histogram::places(at@) =~= v@.map_values(f));
    take_rows(operators, at.as_slice(), limit)
}

proof fn lemma_picks(s: Seq<Pick>, keys: Seq<u64>)
    requires
        forall|j: int| 0 <= j < s.len() ==> (#[trigger] s[j]).key == keys[s[j].at as int],
    ensures
        crate::sort::sorted(s).map_values(|p: Pick| p.at as int) == crate::sort::sorted_by(
            s.map_values(|p: Pick| p.at as int),
            larger_key(keys),
        ),
{
    crate::sort::lemma_sorted_map_on(
        s,
        |p: Pick| p.at as int,
        larger_key(keys),
        |p: Pick| p.key == keys[p.at as int],
    );
}

/// Operators with the most pools per distinct relay endpoint, at most
/// `limit`. `keys` ranks the operators' stake.
pub fn thin(operators: &[OutreachRow], keys: &[u64], limit: usize) -> (out: Vec<OutreachRow>)
    requires
        keys.len() >= operators.len(),
    ensures
        out.deep_view() == rows_at(
            operators.deep_view(),
            thin_places(operators.deep_view(), keys@, limit),
        ),
{
    let ghost rows = operators.deep_view();
    let ghost f = |p: Dense| p.at as int;
    let mut v: Vec<Dense> = Vec::new();
    let mut i: usize = 0;
    assert(v@.map_values(f) =~= Seq::<int>::empty());
    while i < operators.len()
        invariant
            i <= operators.len(),
            keys.len() >= operators.len(),
            rows == operators.deep_view(),
            f == (|p: Dense| p.at as int),
            forall|j: int|
                0 <= j < v.len() ==> (#[trigger] v[j]).at < operators.len() && is_dense(
                    v[j],
                    rows,
                    keys@,
                ),
            v@.map_values(f) == crate::count::select(i as int, crowded(rows)),
        decreases operators.len() - i,
    {
        assert(rows[i as int] == operators[i as int].deep_view());
        let spread: u64 = if operators[i].endpoints < 1 {
            1
        } else {
            operators[i].endpoints
        };
        if operators[i].pools >= spread {
            let ghost front = v@.map_values(f);
            v.push(Dense { at: i, pools: operators[i].pools, spread, key: keys[i] });
            assert(v@.map_values(f) =~= front.push(i as int));
        }
        i += 1;
    }
    let ghost unsorted = v@;
    let v = sort(v);
    proof {
        crate::sort::sorting_keeps_every_value(unsorted);
        crate::sort::lemma_sorted_map_on(
            unsorted,
            f,
            denser(rows, keys@),
            |p: Dense| is_dense(p, rows, keys@),
        );
        assert forall|j: int| 0 <= j < v.len() implies (#[trigger] v[j]).at < operators.len() by {
            let k = crate::sort::lemma_sorted_from(unsorted, j);
            assert(unsorted[k] == v[j]);
        }
    }
    let mut at: Vec<usize> = Vec::new();
    let mut i: usize = 0;
    while i < v.len()
        invariant
            i <= v.len(),
            at.len() == i,
            forall|j: int| 0 <= j < v.len() ==> (#[trigger] v[j]).at < operators.len(),
            forall|j: int| 0 <= j < i ==> (#[trigger] at[j]) == v[j].at,
        decreases v.len() - i,
    {
        at.push(v[i].at);
        i += 1;
    }
    assert(crate::histogram::places(at@) =~= v@.map_values(f));
    take_rows(operators, at.as_slice(), limit)
}

spec fn is_dense(p: Dense, rows: Seq<OutreachRowView>, keys: Seq<u64>) -> bool {
    &&& p.pools == rows[p.at as int].pools
    &&& p.spread == spread(rows[p.at as int])
    &&& p.key == keys[p.at as int]
}

// What holds of operators and lists.

/// The places of the pools of the operator at `i`.
pub open spec fn pools_of(pools: Seq<PoolStatView>, i: int) -> Seq<int> {
    crate::count::select(
        pools.len() as int,
        run_by(pools, crate::table::distinct_names(operator_keys(pools))[i]),
    )
}

/// Every pool is of one operator, and every operator has a pool.
pub proof fn every_pool_has_one_operator(pools: Seq<PoolStatView>, p: int) -> (i: int)
    requires
        0 <= p < pools.len(),
    ensures
        0 <= i < operators_of(pools).len(),
        pools_of(pools, i).contains(p),
        forall|j: int|
            0 <= j < operators_of(pools).len() && #[trigger] pools_of(pools, j).contains(p) ==> j
                == i,
        forall|j: int|
            0 <= j < operators_of(pools).len() ==> (#[trigger] pools_of(pools, j)).len() > 0,
{
    let keys = operator_keys(pools);
    let names = crate::table::distinct_names(keys);
    crate::table::distinct_names_are_those_held(keys);
    assert(keys[p] == operator_key(pools[p]));
    assert(keys.contains(keys[p]));
    let i = names.index_of(keys[p]);
    crate::count::lemma_select(pools.len() as int, run_by(pools, names[i]));
    assert(run_by(pools, names[i])(p));
    assert forall|j: int|
        0 <= j < operators_of(pools).len() && #[trigger] pools_of(pools, j).contains(p) implies j
        == i by {
        crate::count::lemma_select(pools.len() as int, run_by(pools, names[j]));
        assert(run_by(pools, names[j])(p));
        crate::table::lemma_ascending_distinct(names, i, j);
    }
    assert forall|j: int| 0 <= j < operators_of(pools).len() implies (#[trigger] pools_of(
        pools,
        j,
    )).len() > 0 by {
        assert(names.contains(names[j]));
        assert(keys.contains(names[j]));
        let q = keys.index_of(names[j]);
        crate::count::lemma_select(pools.len() as int, run_by(pools, names[j]));
        assert(run_by(pools, names[j])(q));
        assert(pools_of(pools, j).contains(q));
    }
    i
}

/// Do only its relays tell the pool from others?
pub open spec fn is_nameless(p: PoolStatView) -> bool {
    telling_domain(p) is None && p.meta is None
}

/// Two operators known by the domain of their relays have different names, two
/// known by a pool id have different pool ids, and two known by their relays
/// alone have different sets of relays.
pub proof fn operators_are_told_apart(pools: Seq<PoolStatView>, i: int, j: int)
    requires
        0 <= i < j < operators_of(pools).len(),
    ensures
        ({
            let a = pools[pools_of(pools, i)[0]];
            let b = pools[pools_of(pools, j)[0]];
            let rows = operators_of(pools);
            &&& telling_domain(a) is Some && telling_domain(b) is Some ==> rows[i].name
                != rows[j].name
            &&& telling_domain(a) is None && telling_domain(b) is None && a.meta is Some && b.meta
                is Some ==> rows[i].pool_id != rows[j].pool_id
            &&& is_nameless(a) && is_nameless(b) ==> a.relays.to_set() != b.relays.to_set()
        }),
{
    let names = crate::table::distinct_names(operator_keys(pools));
    crate::table::distinct_names_are_those_held(operator_keys(pools));
    if names[i] == names[j] {
        crate::table::lemma_ascending_distinct(names, i, j);
    }
    lemma_first_pool(pools, i);
    lemma_first_pool(pools, j);
    let a = pools[pools_of(pools, i)[0]];
    let b = pools[pools_of(pools, j)[0]];
    if a.relays.to_set() == b.relays.to_set() {
        assert forall|x: Seq<char>| a.relays.contains(x) <==> b.relays.contains(x) by {
            assert(a.relays.to_set().contains(x) <==> b.relays.to_set().contains(x));
        }
        crate::table::distinct_names_of_the_same_set(a.relays, b.relays);
    }
}

/// Are the pools such that what they are told apart by is unambiguous? A pool
/// id stands for one registration and is not also the name that a pool without
/// one is listed by; where only the relays tell pools apart, no relay holds the
/// separator that lists are written with, and what they are told apart by is
/// not the key of a pool that has a name.
pub open spec fn unambiguous(pools: Seq<PoolStatView>) -> bool {
    &&& forall|p: int, q: int|
        #![trigger pools[p], pools[q]]
        0 <= p < pools.len() && 0 <= q < pools.len() && pools[p].meta is Some ==> if pools[q].meta
            is Some {
            listed_id(pools[p]) == listed_id(pools[q]) ==> pools[p].meta == pools[q].meta
        } else {
            listed_id(pools[p]) != listed_id(pools[q])
        }
    &&& forall|p: int, q: int|
        #![trigger pools[p], pools[q]]
        0 <= p < pools.len() && 0 <= q < pools.len() && is_nameless(pools[p]) && !is_nameless(
            pools[q],
        ) ==> operator_key(pools[p]) != operator_key(pools[q])
    &&& forall|p: int, k: int|
        #![trigger pools[p].relays[k]]
        0 <= p < pools.len() && is_nameless(pools[p]) && 0 <= k < pools[p].relays.len()
            ==> !crate::text::has_text(pools[p].relays[k], ", "@)
}

pub proof fn lemma_with_new_holds(s: Seq<Seq<char>>, more: Seq<Seq<char>>, x: Seq<char>)
    ensures
        with_new(s, more).contains(x) <==> s.contains(x) || more.contains(x),
    decreases more.len(),
{
    if more.len() > 0 {
        let m = more.drop_last();
        let front = with_new(s, m);
        let all = with_new(s, more);
        lemma_with_new_holds(s, m, x);
        assert(more =~= m.push(more.last()));
        assert(more.contains(x) <==> m.contains(x) || x == more.last()) by {
            if m.contains(x) {
                assert(more[m.index_of(x)] == x);
            }
            if x == more.last() {
                assert(more[more.len() - 1] == x);
            }
            if more.contains(x) && x != more.last() {
                assert(m[more.index_of(x)] == x);
            }
        }
        if !front.contains(more.last()) {
            if front.contains(x) {
                assert(all[front.index_of(x)] == x);
            }
            if x == more.last() {
                assert(all[all.len() - 1] == x);
            }
            if all.contains(x) && x != more.last() {
                assert(front[all.index_of(x)] == x);
            }
        }
    } else {
        assert(!more.contains(x));
    }
}

/// The relays of an operator are those of its pools.
pub proof fn lemma_all_relays_holds(pools: Seq<PoolStatView>, at: Seq<int>, x: Seq<char>)
    ensures
        all_relays(pools, at).contains(x) <==> exists|k: int|
            0 <= k < at.len() && pools[#[trigger] at[k]].relays.contains(x),
    decreases at.len(),
{
    if at.len() > 0 {
        let front = at.drop_last();
        lemma_all_relays_holds(pools, front, x);
        lemma_with_new_holds(all_relays(pools, front), pools[at.last()].relays, x);
        if all_relays(pools, front).contains(x) {
            let k = choose|k: int|
                0 <= k < front.len() && pools[#[trigger] front[k]].relays.contains(x);
            assert(pools[at[k]].relays.contains(x));
        }
        if pools[at.last()].relays.contains(x) {
            assert(pools[at[at.len() - 1]].relays.contains(x));
        }
        if exists|k: int| 0 <= k < at.len() && pools[#[trigger] at[k]].relays.contains(x) {
            let k = choose|k: int| 0 <= k < at.len() && pools[#[trigger] at[k]].relays.contains(x);
            if k < front.len() {
                assert(pools[front[k]].relays.contains(x));
            }
        }
    }
}

proof fn lemma_no_joints(s: Seq<Seq<char>>, t: Seq<Seq<char>>)
    requires
        crate::text::parts_lack(s, ", "@),
        forall|x: Seq<char>| t.contains(x) ==> s.contains(x),
    ensures
        crate::text::parts_lack(t, ", "@),
{
    assert forall|k: int| 0 <= k < t.len() implies !crate::text::has_text(
        #[trigger] t[k],
        ", "@,
    ) by {
        assert(t.contains(t[k]));
        let m = s.index_of(t[k]);
        assert(s[m] == t[k]);
    }
}

/// Lists that are written alike hold the same distinct names, but for an empty
/// list and one that holds nothing but the empty name.
proof fn lemma_written_alike(a: Seq<Seq<char>>, b: Seq<Seq<char>>)
    requires
        crate::text::parts_lack(a, ", "@),
        crate::text::parts_lack(b, ", "@),
        crate::text::joined(a, ", "@) == crate::text::joined(b, ", "@),
    ensures
        a.len() > 0 && b.len() > 0 ==> a == b,
        a.len() == 0 && b.len() > 0 ==> b == seq![Seq::<char>::empty()],
{
    reveal_strlit(", ");
    if a.len() > 0 && b.len() > 0 {
        crate::text::lemma_joined_apart(a, b, ", "@);
    } else if b.len() > 0 {
        let e = seq![Seq::<char>::empty()];
        assert forall|k: int| 0 <= k < e.len() implies !crate::text::has_text(
            #[trigger] e[k],
            ", "@,
        ) by {
            if crate::text::has_text(e[k], ", "@) {
                let i = choose|i: int| crate::text::stands_at(e[k], ", "@, i);
                assert(false);
            }
        }
        crate::text::lemma_joined_apart(e, b, ", "@);
    }
}

/// What a list of relays that tell an operator apart is written as.
spec fn set_text(relays: Seq<Seq<char>>) -> Seq<char> {
    crate::text::joined(crate::table::distinct_names(relays), ", "@)
}

/// The key of nameless pools is that of all their relays together.
proof fn lemma_nameless_key(pools: Seq<PoolStatView>, at: Seq<int>, key: Seq<char>)
    requires
        at.len() > 0,
        forall|k: int|
            0 <= k < at.len() ==> is_nameless(pools[#[trigger] at[k]]) && operator_key(pools[at[k]])
                == key && crate::text::parts_lack(pools[at[k]].relays, ", "@),
    ensures
        crate::text::parts_lack(all_relays(pools, at), ", "@),
        set_text(all_relays(pools, at)) == key,
{
    let all = all_relays(pools, at);
    assert forall|k: int| 0 <= k < all.len() implies !crate::text::has_text(
        #[trigger] all[k],
        ", "@,
    ) by {
        assert(all.contains(all[k]));
        lemma_all_relays_holds(pools, at, all[k]);
        let m = choose|m: int| 0 <= m < at.len() && pools[#[trigger] at[m]].relays.contains(all[k]);
        let r = pools[at[m]].relays;
        assert(r[r.index_of(all[k])] == all[k]);
    }
    if all.len() == 0 {
        let r = pools[at[0]].relays;
        if r.len() > 0 {
            assert(r.contains(r[0]));
            lemma_all_relays_holds(pools, at, r[0]);
        }
        assert(r =~= all);
    } else {
        assert(all.contains(all[0]));
        lemma_all_relays_holds(pools, at, all[0]);
        let q = choose|m: int| 0 <= m < at.len() && pools[#[trigger] at[m]].relays.contains(all[0]);
        let mine = pools[at[q]].relays;
        crate::table::distinct_names_are_those_held(mine);
        lemma_no_joints(mine, crate::table::distinct_names(mine));
        assert forall|x: Seq<char>| all.contains(x) <==> mine.contains(x) by {
            lemma_all_relays_holds(pools, at, x);
            if mine.contains(x) {
                assert(pools[at[q]].relays.contains(x));
            }
            if all.contains(x) {
                let k = choose|k: int|
                    0 <= k < at.len() && pools[#[trigger] at[k]].relays.contains(x);
                let theirs = pools[at[k]].relays;
                crate::table::distinct_names_are_those_held(theirs);
                lemma_no_joints(theirs, crate::table::distinct_names(theirs));
                assert(crate::table::distinct_names(theirs).contains(x));
                assert(crate::table::distinct_names(mine).contains(all[0]));
                lemma_written_alike(
                    crate::table::distinct_names(theirs),
                    crate::table::distinct_names(mine),
                );
            }
        }
        crate::table::distinct_names_of_the_same_set(all, mine);
    }
}

/// The pools of an operator whose first pool is nameless all are.
proof fn lemma_nameless_row(pools: Seq<PoolStatView>, i: int)
    requires
        unambiguous(pools),
        0 <= i < operators_of(pools).len(),
        is_nameless(pools[pools_of(pools, i)[0]]),
    ensures
        crate::text::parts_lack(operators_of(pools)[i].relays, ", "@),
        set_text(operators_of(pools)[i].relays) == crate::table::distinct_names(
            operator_keys(pools),
        )[i],
{
    let key = crate::table::distinct_names(operator_keys(pools))[i];
    let at = pools_of(pools, i);
    lemma_first_pool(pools, i);
    crate::count::lemma_select(pools.len() as int, run_by(pools, key));
    assert forall|k: int| 0 <= k < at.len() implies is_nameless(pools[#[trigger] at[k]])
        && operator_key(pools[at[k]]) == key && crate::text::parts_lack(
        pools[at[k]].relays,
        ", "@,
    ) by {
        assert(run_by(pools, key)(at[k]));
        assert(run_by(pools, key)(at[0]));
        let p = pools[at[0]];
        let q = pools[at[k]];
        assert(operator_key(p) == operator_key(q));
        assert forall|m: int| 0 <= m < q.relays.len() implies !crate::text::has_text(
            #[trigger] q.relays[m],
            ", "@,
        ) by {
            assert(pools[at[k]].relays[m] == q.relays[m]);
        }
    }
    lemma_nameless_key(pools, at, key);
}

/// The labels by which rows are told apart.
pub open spec fn identity_of(r: OutreachRowView) -> (Seq<char>, Seq<char>, Seq<char>, Seq<char>) {
    (r.pool_id, r.ticker, r.name, crate::text::joined(r.relays, ", "@))
}

/// Every row is a distinct series: no two rows share the labels that name the
/// operator and its relays.
pub proof fn every_row_is_a_distinct_series(pools: Seq<PoolStatView>, i: int, j: int)
    requires
        unambiguous(pools),
        0 <= i < operators_of(pools).len(),
        0 <= j < operators_of(pools).len(),
        i != j,
    ensures
        identity_of(operators_of(pools)[i]) != identity_of(operators_of(pools)[j]),
{
    let rows = operators_of(pools);
    let names = crate::table::distinct_names(operator_keys(pools));
    crate::table::distinct_names_are_those_held(operator_keys(pools));
    if names[i] == names[j] {
        crate::table::lemma_ascending_distinct(names, i, j);
    }
    lemma_first_pool(pools, i);
    lemma_first_pool(pools, j);
    let (p, q) = (pools_of(pools, i)[0], pools_of(pools, j)[0]);
    crate::count::lemma_select(pools.len() as int, run_by(pools, names[i]));
    crate::count::lemma_select(pools.len() as int, run_by(pools, names[j]));
    let (a, b) = (pools[p], pools[q]);
    if is_nameless(a) && is_nameless(b) {
        lemma_nameless_row(pools, i);
        lemma_nameless_row(pools, j);
        if identity_of(rows[i]) == identity_of(rows[j]) {
            let (s, t) = (rows[i].relays, rows[j].relays);
            lemma_written_alike(s, t);
            lemma_written_alike(t, s);
            lemma_empty_names();
            if s.len() == 0 && t.len() == 0 {
                assert(s =~= t);
            }
            if s.len() == 0 {
                assert(s =~= Seq::empty());
            }
            if t.len() == 0 {
                assert(t =~= Seq::empty());
            }
        }
    }
}

/// No names and one empty name are written alike.
proof fn lemma_empty_names()
    ensures
        set_text(Seq::empty()) == set_text(seq![Seq::<char>::empty()]),
{
    let e = seq![Seq::<char>::empty()];
    let d = crate::table::distinct_names(e);
    crate::table::distinct_names_are_those_held(e);
    if d.len() > 0 {
        assert(d.contains(d[0]));
        assert(e.contains(d[0]));
    }
}

pub proof fn lemma_first_pool(pools: Seq<PoolStatView>, i: int)
    requires
        0 <= i < operators_of(pools).len(),
    ensures
        pools_of(pools, i).len() > 0,
        operator_key(pools[pools_of(pools, i)[0]]) == crate::table::distinct_names(
            operator_keys(pools),
        )[i],
{
    let keys = operator_keys(pools);
    let names = crate::table::distinct_names(keys);
    crate::table::distinct_names_are_those_held(keys);
    assert(names.contains(names[i]));
    assert(keys.contains(names[i]));
    let q = keys.index_of(names[i]);
    crate::count::lemma_select(pools.len() as int, run_by(pools, names[i]));
    assert(run_by(pools, names[i])(q));
    assert(pools_of(pools, i).contains(q));
    assert(run_by(pools, names[i])(pools_of(pools, i)[0]));
}

/// Is `at` a list of `limit` or fewer of the places below `n` that have `p`,
/// none of them twice?
pub open spec fn lists_some(at: Seq<int>, n: int, p: spec_fn(int) -> bool, limit: usize) -> bool {
    &&& at.len() <= limit
    &&& at.no_duplicates()
    &&& forall|i: int| 0 <= i < at.len() ==> 0 <= #[trigger] at[i] < n && p(at[i])
}

proof fn lemma_listed(
    n: int,
    p: spec_fn(int) -> bool,
    ahead: spec_fn(int, int) -> bool,
    limit: usize,
)
    requires
        n >= 0,
        crate::sort::ranks_all(ahead),
    ensures
        ({
            let s = crate::sort::sorted_by(crate::count::select(n, p), ahead);
            let at = at_most_first(s, limit);
            &&& lists_some(at, n, p, limit)
            &&& forall|i: int, j: int|
                0 <= i < j < at.len() ==> !ahead(#[trigger] at[j], #[trigger] at[i])
            &&& at.len() == limit || at.len() == crate::count::count(n, p)
            &&& forall|i: int, k: int|
                #![trigger at[i], p(k)]
                0 <= i < at.len() && 0 <= k < n && p(k) && !at.contains(k) ==> !ahead(k, at[i])
        }),
{
    broadcast use vstd::seq_lib::group_to_multiset_ensures;

    let all = crate::count::select(n, p);
    let s = crate::sort::sorted_by(all, ahead);
    let at = at_most_first(s, limit);
    crate::count::lemma_select(n, p);
    crate::sort::lemma_sorted_by_multiset(all, ahead);
    crate::sort::sorted_by_is_in_order(all, ahead);
    assert(all.no_duplicates());
    all.lemma_multiset_has_no_duplicates();
    s.lemma_multiset_has_no_duplicates_conv();
    assert forall|i: int| 0 <= i < at.len() implies 0 <= #[trigger] at[i] < n && p(at[i]) by {
        let j = crate::sort::lemma_sorted_by_from(all, ahead, i);
        assert(all[j] == at[i]);
    }
    assert forall|i: int, j: int| 0 <= i < j < at.len() implies !ahead(
        #[trigger] at[j],
        #[trigger] at[i],
    ) by {
        assert(at[i] == s[i] && at[j] == s[j]);
    }
    assert forall|i: int, k: int|
        #![trigger at[i], p(k)]
        0 <= i < at.len() && 0 <= k < n && p(k) && !at.contains(k) implies !ahead(k, at[i]) by {
        assert(all.contains(k));
        assert(s.to_multiset().count(k) > 0);
        assert(s.contains(k));
        let m = s.index_of(k);
        if m < at.len() {
            assert(at[m] == k);
        }
        assert(s[i] == at[i]);
        assert(!ahead(s[m], s[i]));
    }
}

/// The outreach list holds operators that are not fully reachable, none of
/// them twice and no more than `limit`, with the most stake first; one that is
/// left out has no more stake than any that is listed.
pub proof fn outreach_lists_the_most_stake(
    rows: Seq<OutreachRowView>,
    keys: Seq<u64>,
    limit: usize,
)
    ensures
        ({
            let at = outreach_places(rows, keys, limit);
            &&& lists_some(at, rows.len() as int, lacking(rows), limit)
            &&& at.len() == limit || at.len() == crate::count::count(
                rows.len() as int,
                lacking(rows),
            )
            &&& forall|i: int, j: int|
                0 <= i < j < at.len() ==> keys[#[trigger] at[i]] >= keys[#[trigger] at[j]]
            &&& forall|i: int, k: int|
                #![trigger at[i], lacking(rows)(k)]
                0 <= i < at.len() && 0 <= k < rows.len() && lacking(rows)(k) && !at.contains(k)
                    ==> keys[k] <= keys[at[i]]
        }),
{
    assert(crate::sort::ranks_all(larger_key(keys)));
    lemma_listed(rows.len() as int, lacking(rows), larger_key(keys), limit);
    let at = outreach_places(rows, keys, limit);
    assert forall|i: int, j: int| 0 <= i < j < at.len() implies keys[#[trigger] at[i]]
        >= keys[#[trigger] at[j]] by {
        assert(!larger_key(keys)(at[j], at[i]));
    }
    assert forall|i: int, k: int|
        #![trigger at[i], lacking(rows)(k)]
        0 <= i < at.len() && 0 <= k < rows.len() && lacking(rows)(k) && !at.contains(
            k,
        ) implies keys[k] <= keys[at[i]] by {
        assert(!larger_key(keys)(k, at[i]));
    }
}

proof fn lemma_denser_ranks(rows: Seq<OutreachRowView>, keys: Seq<u64>)
    ensures
        crate::sort::ranks_all(denser(rows, keys)),
{
    let d = denser(rows, keys);
    assert forall|a: int, b: int, c: int|
        #![trigger d(a, b), d(b, c)]
        !d(a, b) && !d(b, c) implies !d(a, c) by {
        let (pa, pb, pc) = (rows[a].pools, rows[b].pools, rows[c].pools);
        let (sa, sb, sc) = (spread(rows[a]), spread(rows[b]), spread(rows[c]));
        assert(pa * sc <= pc * sa) by (nonlinear_arith)
            requires
                pa * sb <= pb * sa,
                pb * sc <= pc * sb,
                sa >= 1,
                sb >= 1,
                sc >= 1,
        ;
        if pa * sc == pc * sa {
            assert(pa * sb == pb * sa && pb * sc == pc * sb) by (nonlinear_arith)
                requires
                    pa * sc == pc * sa,
                    pa * sb <= pb * sa,
                    pb * sc <= pc * sb,
                    sa >= 1,
                    sb >= 1,
                    sc >= 1,
            ;
        }
    }
}

/// The thin list holds operators with at least as many pools as hosts, none of
/// them twice and no more than `limit`, the densest first and among equally
/// dense ones that with the most stake; one that is left out is no denser than
/// any that is listed, and has no more stake than one that is as dense.
pub proof fn thin_lists_the_densest(rows: Seq<OutreachRowView>, keys: Seq<u64>, limit: usize)
    ensures
        ({
            let at = thin_places(rows, keys, limit);
            &&& lists_some(at, rows.len() as int, crowded(rows), limit)
            &&& at.len() == limit || at.len() == crate::count::count(
                rows.len() as int,
                crowded(rows),
            )
            &&& forall|i: int, j: int|
                0 <= i < j < at.len() ==> at_least_as_dense(
                    rows,
                    keys,
                    #[trigger] at[i],
                    #[trigger] at[j],
                )
            &&& forall|i: int, k: int|
                #![trigger at[i], crowded(rows)(k)]
                0 <= i < at.len() && 0 <= k < rows.len() && crowded(rows)(k) && !at.contains(k)
                    ==> at_least_as_dense(rows, keys, at[i], k)
        }),
{
    lemma_denser_ranks(rows, keys);
    lemma_listed(rows.len() as int, crowded(rows), denser(rows, keys), limit);
    let at = thin_places(rows, keys, limit);
    assert forall|i: int, j: int| 0 <= i < j < at.len() implies at_least_as_dense(
        rows,
        keys,
        #[trigger] at[i],
        #[trigger] at[j],
    ) by {
        assert(!denser(rows, keys)(at[j], at[i]));
    }
    assert forall|i: int, k: int|
        #![trigger at[i], crowded(rows)(k)]
        0 <= i < at.len() && 0 <= k < rows.len() && crowded(rows)(k) && !at.contains(
            k,
        ) implies at_least_as_dense(rows, keys, at[i], k) by {
        assert(!denser(rows, keys)(k, at[i]));
    }
}

/// Has the operator at `a` at least as many pools per host as that at `b`, and
/// at least the stake where it has as many?
pub open spec fn at_least_as_dense(
    rows: Seq<OutreachRowView>,
    keys: Seq<u64>,
    a: int,
    b: int,
) -> bool {
    let x = rows[a].pools * spread(rows[b]);
    let y = rows[b].pools * spread(rows[a]);
    x >= y && (x == y ==> keys[a] >= keys[b])
}

} // verus!
