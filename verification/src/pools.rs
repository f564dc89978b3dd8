//! Optional pool identities, matched to snapshot entries by relay address.
//!
//! The peer snapshot names no pools, only stake shares and relays. A pool
//! index built from the same ledger registrations, db-sync's `pool_relay`
//! rows for instance, gives each entry back its pool id, ticker and name.
//! It is a list of `{pool_id, ticker, name, relays}` records, relays as
//! `host:port`, `[v6]:port`, or a bare SRV name.

use vstd::prelude::*;
use vstd::slice::slice_subrange;

use crate::ip::{parse_ip, reverse_octets, write_ip, write_sock, Ip};
use crate::table::Table;
use crate::text::{
    chars_of, decimal_chars, find_char, lower, parse_unsigned, rfind_char, same, split as pieces_of,
    string_of, trim, trim_end, Class, Place,
};

verus! {

#[derive(Clone, Debug, PartialEq, Eq)]
pub struct PoolMeta {
    pub pool_id: String,
    pub ticker: Option<String>,
    pub name: Option<String>,
}

pub struct PoolMetaView {
    pub pool_id: Seq<char>,
    pub ticker: Option<Seq<char>>,
    pub name: Option<Seq<char>>,
}

impl DeepView for PoolMeta {
    type V = PoolMetaView;

    open spec fn deep_view(&self) -> PoolMetaView {
        PoolMetaView {
            pool_id: self.pool_id@,
            ticker: self.ticker.deep_view(),
            name: self.name.deep_view(),
        }
    }
}

pub fn copy_text(s: &Option<String>) -> (r: Option<String>)
    ensures
        r == *s,
{
    match s {
        Some(s) => Some(s.clone()),
        None => None,
    }
}

impl PoolMeta {
    pub fn copy(&self) -> (r: Self)
        ensures
            r == *self,
    {
        PoolMeta {
            pool_id: self.pool_id.clone(),
            ticker: copy_text(&self.ticker),
            name: copy_text(&self.name),
        }
    }
}

/// One record of the index.
#[derive(Clone, Debug)]
pub struct Record {
    pub pool_id: String,
    pub ticker: Option<String>,
    pub name: Option<String>,
    pub relays: Vec<String>,
}

pub struct RecordView {
    pub pool_id: Seq<char>,
    pub ticker: Option<Seq<char>>,
    pub name: Option<Seq<char>>,
    pub relays: Seq<Seq<char>>,
}

impl DeepView for Record {
    type V = RecordView;

    open spec fn deep_view(&self) -> RecordView {
        RecordView {
            pool_id: self.pool_id@,
            ticker: self.ticker.deep_view(),
            name: self.name.deep_view(),
            relays: self.relays.deep_view(),
        }
    }
}

// Relay addresses.

/// A relay's host in its one spelling: no space around it, no dots at its
/// end, no brackets, lower case.
pub open spec fn host_of(address: Seq<char>) -> Seq<char> {
    crate::text::lowered(
        crate::text::trimmed(
            crate::text::trimmed_end(crate::text::trimmed(address, Class::White), Class::Dot),
            Class::Bracket,
        ),
    )
}

/// One spelling for a relay however it was written: lower case, no trailing
/// dot, IP literals in canonical form, the port appended when there is one.
pub open spec fn key_of(address: Seq<char>, port: Option<u16>) -> Seq<char> {
    let host = host_of(address);
    match (crate::ip::ip_of(host), port) {
        (Some(ip), Some(p)) => crate::ip::sock_text(ip, p),
        (Some(ip), None) => crate::ip::ip_text(ip),
        (None, Some(p)) => host + seq![':'] + crate::text::decimal(p as nat),
        (None, None) => host,
    }
}

fn normal_host(address: &[char]) -> (v: Vec<char>)
    ensures
        v@ == host_of(address@),
{
    lower(trim(trim_end(trim(address, Class::White), Class::Dot), Class::Bracket))
}

/// One spelling for a relay however it was written.
pub fn relay_key(address: &str, port: Option<u16>) -> (s: String)
    ensures
        s@ == key_of(address@, port),
{
    let host = normal_host(chars_of(address).as_slice());
    let v = match (parse_ip(host.as_slice()), port) {
        (Some(ip), Some(p)) => write_sock(ip, p),
        (Some(ip), None) => write_ip(ip),
        (None, Some(p)) => {
            let digits = decimal_chars(p as u64);
            let mut v: Vec<char> = Vec::new();
            v.extend_from_slice(host.as_slice());
            v.push(':');
            v.extend_from_slice(digits.as_slice());
            assert(v@ =~= host@ + seq![':'] + digits@);
            v
        },
        (None, None) => host,
    };
    string_of(v.as_slice())
}

/// A port number, when the text is one.
pub open spec fn port_of(s: Seq<char>) -> Option<u16> {
    match crate::text::unsigned(s, u16::MAX as nat) {
        Some(n) => Some(n as u16),
        None => None,
    }
}

/// The host and port of an index relay string: `[host]:port`, `host:port`,
/// or a host alone. A single colon with a numeric tail is host:port; more
/// colons is a bare IPv6.
pub open spec fn split_of(relay: Seq<char>) -> (Seq<char>, Option<u16>) {
    let s = crate::text::trimmed(relay, Class::White);
    let rest = s.skip(1);
    let k = crate::text::first_at(rest, ']');
    let c = crate::text::last_at(s, ':');
    if s.len() > 0 && s[0] == '[' && k < rest.len() {
        let tail = rest.skip(k + 1);
        (
            rest.take(k),
            if tail.len() > 0 && tail[0] == ':' {
                port_of(tail.skip(1))
            } else {
                None
            },
        )
    } else if c >= 0 && !s.take(c).contains(':') && port_of(s.skip(c + 1)) is Some {
        (s.take(c), port_of(s.skip(c + 1)))
    } else {
        (s, None)
    }
}

fn parse_port(s: &[char]) -> (r: Option<u16>)
    ensures
        r == port_of(s@),
{
    match parse_unsigned(s, u16::MAX as u64) {
        Some(n) => Some(n as u16),
        None => None,
    }
}

/// Split an index relay string into host and optional port.
pub fn split(relay: &str) -> (r: (String, Option<u16>))
    ensures
        (r.0@, r.1) == split_of(relay@),
{
    let v = chars_of(relay);
    let s = trim(v.as_slice(), Class::White);
    if s.len() > 0 && s[0] == '[' {
        let rest = slice_subrange(s, 1, s.len());
        assert(rest@ =~= s@.skip(1));
        let k: usize = find_char(rest, ']');
        if k < rest.len() {
            let host = slice_subrange(rest, 0, k);
            assert(host@ =~= rest@.take(k as int));
            let tail = slice_subrange(rest, k + 1, rest.len());
            assert(tail@ =~= rest@.skip(k + 1));
            let port = if tail.len() > 0 && tail[0] == ':' {
                let digits = slice_subrange(tail, 1, tail.len());
                assert(digits@ =~= tail@.skip(1));
                parse_port(digits)
            } else {
                None
            };
            return (string_of(host), port);
        }
    }
    let c: usize = rfind_char(s, ':');
    if c > 0 {
        let host = slice_subrange(s, 0, c - 1);
        assert(host@ =~= s@.take(c - 1));
        let tail = slice_subrange(s, c, s.len());
        assert(tail@ =~= s@.skip(c as int));
        let again: usize = find_char(host, ':');
        proof {
            crate::text::lemma_first_at(host@, ':');
        }
        if again == host.len() {
            if let Some(p) = parse_port(tail) {
                return (string_of(host), Some(p));
            }
        }
    }
    (string_of(s), None)
}

// The index.

/// An empty text reads as unknown.
pub open spec fn known(s: Option<Seq<char>>) -> Option<Seq<char>> {
    match s {
        Some(t) => if t.len() == 0 {
            None
        } else {
            Some(t)
        },
        None => None,
    }
}

/// What a record says of its pool.
pub open spec fn meta_of(r: RecordView) -> PoolMetaView {
    PoolMetaView { pool_id: r.pool_id, ticker: known(r.ticker), name: known(r.name) }
}

/// The key under which an index relay string is found.
pub open spec fn index_key(relay: Seq<char>) -> Seq<char> {
    key_of(split_of(relay).0, split_of(relay).1)
}

/// Does one of `metas` carry the pool id `id`?
pub open spec fn has_id(metas: Seq<PoolMetaView>, id: Seq<char>) -> bool {
    exists|i: int| 0 <= i < metas.len() && (#[trigger] metas[i]).pool_id == id
}

/// `metas` with `m` behind them, unless its pool id is there already.
pub open spec fn with_meta(metas: Seq<PoolMetaView>, m: PoolMetaView) -> Seq<PoolMetaView> {
    if has_id(metas, m.pool_id) {
        metas
    } else {
        metas.push(m)
    }
}

/// The pools that the relays `relays`, all of the pool `m`, add to those
/// registered under `key`.
pub open spec fn with_relays(
    metas: Seq<PoolMetaView>,
    relays: Seq<Seq<char>>,
    m: PoolMetaView,
    key: Seq<char>,
) -> Seq<PoolMetaView>
    decreases relays.len(),
{
    if relays.len() == 0 {
        metas
    } else {
        let front = with_relays(metas, relays.drop_last(), m, key);
        if index_key(relays.last()) == key {
            with_meta(front, m)
        } else {
            front
        }
    }
}

/// The pools that `records` register a relay under `key` for, each once, in
/// the order of the records.
pub open spec fn registered_in(records: Seq<RecordView>, key: Seq<char>) -> Seq<PoolMetaView>
    decreases records.len(),
{
    if records.len() == 0 {
        Seq::empty()
    } else {
        with_relays(
            registered_in(records.drop_last(), key),
            records.last().relays,
            meta_of(records.last()),
            key,
        )
    }
}

pub struct PoolIndex {
    /// A relay can be registered by several pools, one operator's fleet.
    pub by_relay: Table<Vec<PoolMeta>>,
    pub pools: usize,
}

fn keep_known(s: Option<String>) -> (r: Option<String>)
    ensures
        r.deep_view() == known(s.deep_view()),
{
    match s {
        Some(t) => if chars_of(t.as_str()).len() == 0 {
            None
        } else {
            Some(t)
        },
        None => None,
    }
}

fn find_id(metas: &[PoolMeta], id: &str) -> (r: bool)
    ensures
        r == has_id(metas.deep_view(), id@),
{
    let mut i: usize = 0;
    while i < metas.len()
        invariant
            i <= metas.len(),
            forall|j: int| 0 <= j < i ==> (#[trigger] metas.deep_view()[j]).pool_id != id@,
        decreases metas.len() - i,
    {
        assert(metas.deep_view()[i as int].pool_id == metas[i as int].pool_id@);
        if same(metas[i].pool_id.as_str(), id) {
            return true;
        }
        i += 1;
    }
    false
}

fn copy_metas(metas: &[PoolMeta]) -> (v: Vec<PoolMeta>)
    ensures
        v.deep_view() == metas.deep_view(),
{
    let mut v: Vec<PoolMeta> = Vec::new();
    let mut i: usize = 0;
    while i < metas.len()
        invariant
            i <= metas.len(),
            v.len() == i,
            forall|j: int| 0 <= j < i ==> v[j] == metas[j],
        decreases metas.len() - i,
    {
        v.push(metas[i].copy());
        i += 1;
    }
    assert(v.deep_view() =~= metas.deep_view());
    v
}

/// What a table of pools holds under `key`; nothing when it has no such key.
pub open spec fn held(t: Table<Vec<PoolMeta>>, key: Seq<char>) -> Seq<PoolMetaView> {
    if t@.contains_key(key) {
        t@[key].deep_view()
    } else {
        Seq::empty()
    }
}

/// Register `meta` for one relay.
fn register(t: &mut Table<Vec<PoolMeta>>, relay: &str, meta: &PoolMeta)
    requires
        old(t).wf(),
    ensures
        final(t).wf(),
        forall|k: Seq<char>| #[trigger]
            held(*final(t), k) == if index_key(relay@) == k {
                with_meta(held(*old(t), k), meta.deep_view())
            } else {
                held(*old(t), k)
            },
{
    let (host, port) = split(relay);
    let key = relay_key(host.as_str(), port);
    let ghost start = *t;
    let i: usize = t.slot(key.as_str(), Vec::new());
    let ghost mid = *t;
    assert forall|k: Seq<char>| held(mid, k) == held(start, k) by {
        let none: Seq<PoolMetaView> = Seq::empty();
        if !start@.contains_key(key@) && k == key@ {
            assert(mid@[k].deep_view() =~= none);
        }
    }
    if !find_id(t.values[i].as_slice(), meta.pool_id.as_str()) {
        let mut v = copy_metas(t.values[i].as_slice());
        let ghost front = v.deep_view();
        v.push(meta.copy());
        assert(v.deep_view() =~= front.push(meta.deep_view()));
        t.set(i, v);
    }
}

impl PoolIndex {
    /// The pools registered under `key`.
    pub open spec fn registered(&self, key: Seq<char>) -> Seq<PoolMetaView> {
        held(self.by_relay, key)
    }

    pub open spec fn wf(&self) -> bool {
        self.by_relay.wf()
    }

    pub fn from_records(records: Vec<Record>) -> (idx: Self)
        ensures
            idx.wf(),
            idx.pools == records.len(),
            forall|k: Seq<char>| #[trigger]
                idx.registered(k) == registered_in(records.deep_view(), k),
    {
        let mut t: Table<Vec<PoolMeta>> = Table::new();
        let ghost all = records.deep_view();
        let pools: usize = records.len();
        for r in it: records.into_iter()
            invariant
                t.wf(),
                it.seq() == records@,
                all == records.deep_view(),
                forall|k: Seq<char>| #[trigger]
                    held(t, k) == registered_in(all.take(it.index()), k),
        {
            let ghost n = it.index();
            let ghost view = r.deep_view();
            assert(all.take(n + 1).last() == view);
            assert(all.take(n + 1).drop_last() =~= all.take(n));
            let ghost start = t;
            let meta = PoolMeta {
                pool_id: r.pool_id,
                ticker: keep_known(r.ticker),
                name: keep_known(r.name),
            };
            assert(meta.deep_view() == meta_of(view));
            let relays = r.relays;
            let ghost names = relays.deep_view();
            assert(names =~= view.relays);
            let mut j: usize = 0;
            assert(names.take(0) =~= Seq::<Seq<char>>::empty());
            while j < relays.len()
                invariant
                    j <= relays.len(),
                    t.wf(),
                    names == relays.deep_view(),
                    forall|k: Seq<char>| #[trigger]
                        held(t, k) == with_relays(
                            held(start, k),
                            names.take(j as int),
                            meta.deep_view(),
                            k,
                        ),
                decreases relays.len() - j,
            {
                assert(names.take(j + 1).drop_last() =~= names.take(j as int));
                assert(names.take(j + 1).last() == relays[j as int]@);
                register(&mut t, relays[j].as_str(), &meta);
                j += 1;
            }
            assert(names.take(j as int) =~= names);
        }
        assert(all.take(all.len() as int) =~= all);
        PoolIndex { by_relay: t, pools }
    }

    fn find(&self, key: &str) -> (r: Option<&Vec<PoolMeta>>)
        requires
            self.wf(),
        ensures
            r matches Some(v) ==> v.deep_view() == self.registered(key@),
            r is None ==> self.registered(key@).len() == 0,
    {
        self.by_relay.get(key)
    }
}

// Identities.

/// Is `id` the pool id at place `i`?
pub open spec fn with_id(cast: Seq<PoolMetaView>, id: Seq<char>) -> spec_fn(int) -> bool {
    |i: int| cast[i].pool_id == id
}

/// How many of `cast` are for the pool `id`.
pub open spec fn votes(cast: Seq<PoolMetaView>, id: Seq<char>) -> nat {
    crate::count::count(cast.len() as int, with_id(cast, id))
}

/// Does the pool `a` get the better of the pool `b`? More votes do, and the
/// lexically smaller id where the votes are equal.
pub open spec fn beats(cast: Seq<PoolMetaView>, a: Seq<char>, b: Seq<char>) -> bool {
    votes(cast, a) > votes(cast, b) || (votes(cast, a) == votes(cast, b) && crate::text::before(
        a,
        b,
    ))
}

/// Does the vote at place `k` go first to the pool that beats all others?
pub open spec fn wins(cast: Seq<PoolMetaView>, k: int) -> bool {
    &&& 0 <= k < cast.len()
    &&& forall|j: int| 0 <= j < k ==> (#[trigger] cast[j]).pool_id != cast[k].pool_id
    &&& forall|j: int|
        0 <= j < cast.len() ==> (#[trigger] cast[j]).pool_id == cast[k].pool_id || beats(
            cast,
            cast[k].pool_id,
            cast[j].pool_id,
        )
}

proof fn lemma_beats_transitive(
    cast: Seq<PoolMetaView>,
    a: Seq<char>,
    b: Seq<char>,
    c: Seq<char>,
)
    requires
        beats(cast, a, b),
        beats(cast, b, c),
    ensures
        beats(cast, a, c),
{
    if votes(cast, a) == votes(cast, b) && votes(cast, b) == votes(cast, c) {
        crate::text::lemma_before_transitive(a, b, c);
    }
}

/// A vote has one winner.
pub proof fn one_winner(cast: Seq<PoolMetaView>, a: int, b: int)
    requires
        wins(cast, a),
        wins(cast, b),
    ensures
        a == b,
{
    let x = cast[a].pool_id;
    let y = cast[b].pool_id;
    if x != y {
        assert(beats(cast, x, y));
        assert(beats(cast, y, x));
        lemma_beats_transitive(cast, x, y, x);
        crate::text::lemma_before_irreflexive(x);
    }
}

fn count_votes(cast: &[&PoolMeta], id: &str) -> (n: usize)
    ensures
        n == votes(cast.deep_view(), id@),
{
    let ghost m = cast.deep_view();
    let mut n: usize = 0;
    let mut i: usize = 0;
    while i < cast.len()
        invariant
            i <= cast.len(),
            m == cast.deep_view(),
            n <= i,
            n == crate::count::count(i as int, with_id(m, id@)),
        decreases cast.len() - i,
    {
        assert(m[i as int].pool_id == cast[i as int].pool_id@);
        if same(cast[i].pool_id.as_str(), id) {
            n += 1;
        }
        i += 1;
    }
    n
}

/// The place of the first vote for the winner.
fn elect(cast: &[&PoolMeta]) -> (r: Option<usize>)
    ensures
        r is None <==> cast.len() == 0,
        r matches Some(k) ==> wins(cast.deep_view(), k as int),
{
    if cast.len() == 0 {
        return None;
    }
    let ghost m = cast.deep_view();
    let mut best: usize = 0;
    assert(m[0].pool_id == cast[0].pool_id@);
    let mut most: usize = count_votes(cast, cast[0].pool_id.as_str());
    let mut i: usize = 1;
    while i < cast.len()
        invariant
            m == cast.deep_view(),
            best < i <= cast.len(),
            most == votes(m, m[best as int].pool_id),
            forall|j: int|
                0 <= j < best ==> (#[trigger] m[j]).pool_id != m[best as int].pool_id,
            forall|j: int|
                0 <= j < i ==> (#[trigger] m[j]).pool_id == m[best as int].pool_id || beats(
                    m,
                    m[best as int].pool_id,
                    m[j].pool_id,
                ),
        decreases cast.len() - i,
    {
        let ghost x = m[best as int].pool_id;
        let ghost y = m[i as int].pool_id;
        assert(x == cast[best as int].pool_id@ && y == cast[i as int].pool_id@);
        let n: usize = count_votes(cast, cast[i].pool_id.as_str());
        let place = crate::text::place(cast[i].pool_id.as_str(), cast[best].pool_id.as_str());
        proof {
            crate::text::lemma_before_total(x, y);
            crate::text::lemma_before_irreflexive(x);
            crate::text::lemma_before_irreflexive(y);
        }
        if n > most || (n == most && place == Place::Before) {
            proof {
                assert(beats(m, y, x));
                assert forall|j: int| 0 <= j < i implies beats(m, y, #[trigger] m[j].pool_id) by {
                    if m[j].pool_id != x {
                        lemma_beats_transitive(m, y, x, m[j].pool_id);
                    }
                }
            }
            best = i;
            most = n;
        }
        i += 1;
    }
    Some(best)
}

/// The pools that the relays are registered to, relay by relay.
pub open spec fn named_by(idx: PoolIndex, relays: Seq<(Seq<char>, Option<u16>)>) -> Seq<
    PoolMetaView,
>
    decreases relays.len(),
{
    if relays.len() == 0 {
        Seq::empty()
    } else {
        named_by(idx, relays.drop_last()) + idx.registered(
            key_of(relays.last().0, relays.last().1),
        )
    }
}

/// The key of a relay with its octets reversed, when it is an IPv4 literal.
pub open spec fn reversal_key(address: Seq<char>, port: Option<u16>) -> Option<Seq<char>> {
    match crate::ip::ip_of(host_of(address)) {
        Some(Ip::V4(a)) => Some(
            key_of(crate::ip::v4_text(crate::ip::reversed(a)), port),
        ),
        _ => None,
    }
}

/// Is the relay known to the index only with its octets reversed?
pub open spec fn only_reversed(idx: PoolIndex, relay: (Seq<char>, Option<u16>)) -> bool {
    idx.registered(key_of(relay.0, relay.1)).len() == 0 && reversal_key(relay.0, relay.1) is Some
}

/// The pools that a relay is registered to, as it is written or else with its
/// octets reversed.
pub open spec fn owners(idx: PoolIndex, relay: (Seq<char>, Option<u16>)) -> Seq<PoolMetaView> {
    if only_reversed(idx, relay) {
        idx.registered(reversal_key(relay.0, relay.1)->0)
    } else {
        idx.registered(key_of(relay.0, relay.1))
    }
}

/// The pools that the relays are registered to in either spelling.
pub open spec fn owned_by(idx: PoolIndex, relays: Seq<(Seq<char>, Option<u16>)>) -> Seq<
    PoolMetaView,
>
    decreases relays.len(),
{
    if relays.len() == 0 {
        Seq::empty()
    } else {
        owned_by(idx, relays.drop_last()) + owners(idx, relays.last())
    }
}

/// Which relays name the pool `id` only through their octet reversal.
pub open spec fn names_reversed(
    idx: PoolIndex,
    relays: Seq<(Seq<char>, Option<u16>)>,
    id: Seq<char>,
) -> spec_fn(int) -> bool {
    |i: int| only_reversed(idx, relays[i]) && has_id(owners(idx, relays[i]), id)
}

/// The pool behind a set of relays.
#[derive(Clone, Debug)]
pub struct Identity {
    pub meta: PoolMeta,
    /// Relays that name it only through their octet reversal.
    pub reversed: usize,
}

/// Append what `more` holds.
fn add_all<'a>(cast: &mut Vec<&'a PoolMeta>, more: &'a Vec<PoolMeta>)
    ensures
        final(cast).deep_view() == old(cast).deep_view() + more.deep_view(),
{
    let ghost front = cast.deep_view();
    let mut i: usize = 0;
    assert(front + more.deep_view().take(0) =~= front);
    while i < more.len()
        invariant
            i <= more.len(),
            cast.deep_view() == front + more.deep_view().take(i as int),
        decreases more.len() - i,
    {
        let ghost now = cast.deep_view();
        cast.push(&more[i]);
        assert(cast.deep_view() =~= now.push(more.deep_view()[i as int]));
        assert(front + more.deep_view().take(i + 1) =~= now.push(more.deep_view()[i as int]));
        i += 1;
    }
    assert(more.deep_view().take(i as int) =~= more.deep_view());
}

fn reversed_key(address: &str, port: Option<u16>) -> (r: Option<String>)
    ensures
        r.deep_view() == reversal_key(address@, port),
{
    let host = normal_host(chars_of(address).as_slice());
    match parse_ip(host.as_slice()) {
        Some(Ip::V4(a)) => {
            let text = string_of(crate::ip::write_v4(reverse_octets(a)).as_slice());
            Some(relay_key(text.as_str(), port))
        },
        _ => None,
    }
}

impl PoolIndex {
    /// The pool most of these relays are registered to; ties go to the
    /// lexically smallest pool id so the answer is stable between runs.
    pub fn identify(&self, relays: &[(&str, Option<u16>)]) -> (r: Option<PoolMeta>)
        requires
            self.wf(),
        ensures
            r is None <==> named_by(*self, relays.deep_view()).len() == 0,
            r matches Some(m) ==> exists|k: int| #[trigger]
                wins(named_by(*self, relays.deep_view()), k) && m.deep_view() == named_by(
                    *self,
                    relays.deep_view(),
                )[k],
    {
        let ghost all = relays.deep_view();
        let mut cast: Vec<&PoolMeta> = Vec::new();
        let mut i: usize = 0;
        assert(all.take(0) =~= Seq::empty());
        assert(cast.deep_view() =~= Seq::empty());
        while i < relays.len()
            invariant
                i <= relays.len(),
                self.wf(),
                all == relays.deep_view(),
                cast.deep_view() == named_by(*self, all.take(i as int)),
            decreases relays.len() - i,
        {
            let (address, port) = relays[i];
            assert(all[i as int] == (address@, port));
            assert(all.take(i + 1).drop_last() =~= all.take(i as int));
            let key = relay_key(address, port);
            let ghost front = cast.deep_view();
            if let Some(v) = self.find(key.as_str()) {
                add_all(&mut cast, v);
            } else {
                assert(front + self.registered(key@) =~= front);
            }
            i += 1;
        }
        assert(all.take(i as int) =~= all);
        match elect(cast.as_slice()) {
            Some(k) => {
                let m = cast[k].copy();
                assert(m.deep_view() == cast.deep_view()[k as int]);
                Some(m)
            },
            None => None,
        }
    }

    /// Like `identify`, with an IPv4 literal that the index does not know as
    /// written looked up with its octets reversed.
    pub fn identity(&self, relays: &[(&str, Option<u16>)]) -> (r: Option<Identity>)
        requires
            self.wf(),
        ensures
            r is None <==> owned_by(*self, relays.deep_view()).len() == 0,
            r matches Some(x) ==> exists|k: int| #[trigger]
                wins(owned_by(*self, relays.deep_view()), k) && x.meta.deep_view() == owned_by(
                    *self,
                    relays.deep_view(),
                )[k],
            r matches Some(x) ==> x.reversed == crate::count::count(
                relays.len() as int,
                names_reversed(*self, relays.deep_view(), x.meta.pool_id@),
            ),
    {
        let ghost all = relays.deep_view();
        let mut cast: Vec<&PoolMeta> = Vec::new();
        let mut i: usize = 0;
        assert(all.take(0) =~= Seq::empty());
        assert(cast.deep_view() =~= Seq::empty());
        while i < relays.len()
            invariant
                i <= relays.len(),
                self.wf(),
                all == relays.deep_view(),
                cast.deep_view() == owned_by(*self, all.take(i as int)),
            decreases relays.len() - i,
        {
            let (address, port) = relays[i];
            assert(all[i as int] == (address@, port));
            assert(all.take(i + 1).drop_last() =~= all.take(i as int));
            let ghost front = cast.deep_view();
            let (found, _) = self.owners_of(address, port);
            if let Some(v) = found {
                add_all(&mut cast, v);
            } else {
                assert(front + owners(*self, all[i as int]) =~= front);
            }
            i += 1;
        }
        assert(all.take(i as int) =~= all);
        let meta = match elect(cast.as_slice()) {
            Some(k) => {
                let m = cast[k].copy();
                assert(m.deep_view() == cast.deep_view()[k as int]);
                m
            },
            None => {
                return None;
            },
        };
        let mut reversed: usize = 0;
        let mut i: usize = 0;
        while i < relays.len()
            invariant
                i <= relays.len(),
                self.wf(),
                all == relays.deep_view(),
                reversed <= i,
                reversed == crate::count::count(
                    i as int,
                    names_reversed(*self, all, meta.pool_id@),
                ),
            decreases relays.len() - i,
        {
            let (address, port) = relays[i];
            assert(all[i as int] == (address@, port));
            let (found, other) = self.owners_of(address, port);
            if other {
                if let Some(v) = found {
                    if find_id(v.as_slice(), meta.pool_id.as_str()) {
                        reversed += 1;
                    }
                }
            }
            i += 1;
        }
        Some(Identity { meta, reversed })
    }

    /// The pools behind a relay, and whether they were found with its octets
    /// reversed.
    fn owners_of(&self, address: &str, port: Option<u16>) -> (r: (Option<&Vec<PoolMeta>>, bool))
        requires
            self.wf(),
        ensures
            r.1 == only_reversed(*self, (address@, port)),
            r.0 matches Some(v) ==> v.deep_view() == owners(*self, (address@, port)),
            r.0 is None ==> owners(*self, (address@, port)).len() == 0,
    {
        let key = relay_key(address, port);
        let direct = self.find(key.as_str());
        if let Some(v) = direct {
            if v.len() > 0 {
                return (direct, false);
            }
        }
        match reversed_key(address, port) {
            Some(k) => (self.find(k.as_str()), true),
            None => (direct, false),
        }
    }
}

// Operators.

/// The domain of a relay written as `host:port`, or as a bare SRV name: the
/// last two labels of its host. An IP literal has none.
pub open spec fn domain_of(relay: Seq<char>) -> Option<Seq<char>> {
    let host = host_of(split_of(relay).0);
    let labels = crate::text::pieces(host, '.');
    if crate::ip::ip_of(host) is Some || labels.len() < 2 {
        None
    } else {
        Some(labels[labels.len() - 2] + seq!['.'] + labels.last())
    }
}

/// The domain that all of `relays` share.
pub open spec fn shared_domain(relays: Seq<Seq<char>>) -> Option<Seq<char>> {
    if relays.len() > 0 && (forall|i: int|
        0 <= i < relays.len() ==> domain_of(#[trigger] relays[i]) == domain_of(relays[0])) {
        domain_of(relays[0])
    } else {
        None
    }
}

fn relay_domain(relay: &str) -> (r: Option<String>)
    ensures
        r.deep_view() == domain_of(relay@),
{
    let (address, _) = split(relay);
    let host = normal_host(chars_of(address.as_str()).as_slice());
    let labels = pieces_of(host.as_slice(), '.');
    assert(forall|i: int| 0 <= i < labels.len() ==> crate::text::views(labels@)[i] == labels[i]@);
    if parse_ip(host.as_slice()).is_some() || labels.len() < 2 {
        return None;
    }
    let mut v: Vec<char> = Vec::new();
    v.extend_from_slice(labels[labels.len() - 2].as_slice());
    v.push('.');
    v.extend_from_slice(labels[labels.len() - 1].as_slice());
    assert(v@ =~= labels[labels.len() - 2]@ + seq!['.'] + labels[labels.len() - 1]@);
    Some(string_of(v.as_slice()))
}

fn same_text(a: &Option<String>, b: &Option<String>) -> (r: bool)
    ensures
        r == (a.deep_view() == b.deep_view()),
{
    match (a, b) {
        (Some(x), Some(y)) => same(x.as_str(), y.as_str()),
        (None, None) => true,
        _ => false,
    }
}

/// The domain that the relays of an operator share, when they do.
pub fn operator_domain(relays: &[String]) -> (r: Option<String>)
    ensures
        r.deep_view() == shared_domain(relays.deep_view()),
{
    if relays.len() == 0 {
        return None;
    }
    let ghost all = relays.deep_view();
    let first = relay_domain(relays[0].as_str());
    assert(all[0] == relays[0]@);
    let mut i: usize = 1;
    while i < relays.len()
        invariant
            1 <= i <= relays.len(),
            all == relays.deep_view(),
            first.deep_view() == domain_of(all[0]),
            forall|j: int| 0 <= j < i ==> domain_of(#[trigger] all[j]) == domain_of(all[0]),
        decreases relays.len() - i,
    {
        assert(all[i as int] == relays[i as int]@);
        let d = relay_domain(relays[i].as_str());
        if !same_text(&d, &first) {
            return None;
        }
        i += 1;
    }
    first
}

// What holds of keys.

/// The case that a relay is written in does not matter.
pub proof fn keys_ignore_case(a: Seq<char>, b: Seq<char>, port: Option<u16>)
    requires
        crate::text::lowered(a) == crate::text::lowered(b),
    ensures
        key_of(a, port) == key_of(b, port),
{
    lemma_host_lowered(a);
    lemma_host_lowered(b);
}

proof fn lemma_host_lowered(a: Seq<char>)
    ensures
        host_of(a) == crate::text::trimmed(
            crate::text::trimmed_end(
                crate::text::trimmed(crate::text::lowered(a), Class::White),
                Class::Dot,
            ),
            Class::Bracket,
        ),
{
    let x = crate::text::trimmed(a, Class::White);
    let y = crate::text::trimmed_end(x, Class::Dot);
    crate::text::lemma_trimmed_lowered(a, Class::White);
    crate::text::lemma_trimmed_lowered(x, Class::Dot);
    crate::text::lemma_trimmed_lowered(y, Class::Bracket);
}

/// A dot at the end of a relay's name does not matter.
pub proof fn keys_ignore_a_trailing_dot(a: Seq<char>, port: Option<u16>)
    requires
        a.len() > 0,
        !Class::White.has(a.last()),
    ensures
        key_of(a.push('.'), port) == key_of(a, port),
{
    let t = crate::text::trimmed_start(a, Class::White);
    let dotted = t.push('.');
    crate::text::lemma_trimmed_start_push(a, '.', Class::White);
    crate::text::lemma_trimmed_start_last(a, Class::White);
    assert(dotted.drop_last() =~= t);
    assert(crate::text::trimmed(a.push('.'), Class::White) == dotted);
    assert(crate::text::trimmed(a, Class::White) == t);
    assert(crate::text::trimmed_end(dotted, Class::Dot) == crate::text::trimmed_end(
        t,
        Class::Dot,
    ));
}

/// However an address is spelled, its key is its one canonical spelling.
pub proof fn keys_of_one_address_agree(a: Seq<char>, b: Seq<char>, port: Option<u16>)
    requires
        crate::ip::ip_of(host_of(a)) is Some,
        crate::ip::ip_of(host_of(a)) == crate::ip::ip_of(host_of(b)),
    ensures
        key_of(a, port) == key_of(b, port),
{
}

} // verus!
