//! From the snapshot's relay lines to the addresses that get probed.

use vstd::prelude::*;

use crate::ip::{parse_ip, parse_sock, write_addr, write_sock, Ip, SockAddr};
use crate::net::format_host_port;
use crate::pools::relay_key;
use crate::snapshot::{Pool, RelayView, Snapshot};
use crate::sort::{sort, Ranked};
use crate::table::{distinct, Table};
use crate::text::{chars_of, put, string_of, trim, trim_end, Class};

verus! {

/// One relay line from the snapshot, tied to its pool. No port means the
/// address is an SRV record name, as the ledger and the snapshot both write it.
#[derive(Clone, Debug)]
pub struct Entry {
    pub pool: usize,
    pub address: String,
    pub port: Option<u16>,
}

pub struct EntryView {
    pub pool: usize,
    pub address: Seq<char>,
    pub port: Option<u16>,
}

impl DeepView for Entry {
    type V = EntryView;

    open spec fn deep_view(&self) -> EntryView {
        EntryView { pool: self.pool, address: self.address@, port: self.port }
    }
}

impl Entry {
    pub fn is_srv(&self) -> (r: bool)
        ensures
            r == (self.port is None),
    {
        self.port.is_none()
    }
}

/// One address actually probed. Entries that resolve to the same socket
/// address share an endpoint and inherit its result. An SRV entry appears in
/// one endpoint per target.
#[derive(Clone, Debug)]
pub struct Endpoint {
    pub key: String,
    pub entries: Vec<usize>,
    /// Per entry, the SRV weight that led it here; None for a plain relay.
    pub weights: Vec<Option<u16>>,
    /// Every address the key resolved to, kept so unreachable endpoints can
    /// still be placed in a network.
    pub addrs: Vec<Ip>,
    pub dns_error: Option<String>,
    /// Known only from an earlier run's report, not from this run's lookups.
    pub remembered: bool,
    /// When a remembered address was last returned by a lookup.
    pub last_seen: Option<u64>,
}

pub struct EndpointView {
    pub key: Seq<char>,
    pub entries: Seq<usize>,
    pub weights: Seq<Option<u16>>,
    pub addrs: Seq<Ip>,
    pub dns_error: Option<Seq<char>>,
    pub remembered: bool,
    pub last_seen: Option<u64>,
}

impl DeepView for Endpoint {
    type V = EndpointView;

    open spec fn deep_view(&self) -> EndpointView {
        EndpointView {
            key: self.key@,
            entries: self.entries@,
            weights: self.weights@,
            addrs: self.addrs@,
            dns_error: self.dns_error.deep_view(),
            remembered: self.remembered,
            last_seen: self.last_seen,
        }
    }
}

/// Addresses seen behind relay names in earlier runs, from the previous
/// report. A name that hands out a subset of its records per lookup, as
/// Route 53 multivalue answers do with at most eight, is completed across
/// runs this way; an address not seen for `REMEMBER_SECS` is forgotten.
pub struct Memory<'a> {
    pub targets: &'a Table<Vec<(String, u64)>>,
    pub now: u64,
}

pub const REMEMBER_SECS: u64 = 86400;

pub struct Resolved {
    pub endpoints: Vec<Endpoint>,
    /// Per entry, why its SRV lookup produced no targets. None for plain entries
    /// and for SRV entries that resolved.
    pub srv_errors: Vec<Option<String>>,
}

// Entries.

/// The relays of each pool.
pub open spec fn listings<S>(pools: Seq<Pool<S>>) -> Seq<Seq<RelayView>> {
    Seq::new(pools.len(), |i: int| pools[i].relays.deep_view())
}

/// The relays of one pool as entries.
pub open spec fn pool_entries(pool: int, relays: Seq<RelayView>) -> Seq<EntryView> {
    Seq::new(
        relays.len(),
        |i: int|
            EntryView { pool: pool as usize, address: relays[i].address, port: relays[i].port },
    )
}

/// Every relay as an entry, pool by pool.
pub open spec fn entries_of(lists: Seq<Seq<RelayView>>) -> Seq<EntryView>
    decreases lists.len(),
{
    if lists.len() == 0 {
        Seq::empty()
    } else {
        entries_of(lists.drop_last()) + pool_entries(lists.len() - 1, lists.last())
    }
}

/// Every relay line of the snapshot, pool by pool.
pub fn entries<S>(snapshot: &Snapshot<S>) -> (v: Vec<Entry>)
    ensures
        v.deep_view() == entries_of(listings(snapshot.pools@)),
{
    let ghost all = listings(snapshot.pools@);
    let mut v: Vec<Entry> = Vec::new();
    let mut p: usize = 0;
    assert(v.deep_view() =~= Seq::<EntryView>::empty());
    while p < snapshot.pools.len()
        invariant
            p <= snapshot.pools.len(),
            all == listings(snapshot.pools@),
            v.deep_view() == entries_of(all.take(p as int)),
        decreases snapshot.pools.len() - p,
    {
        let relays = &snapshot.pools[p].relays;
        let ghost front = v.deep_view();
        let ghost list = relays.deep_view();
        assert(all.take(p + 1).drop_last() =~= all.take(p as int));
        assert(all.take(p + 1).last() == list);
        let mut i: usize = 0;
        assert(front + pool_entries(p as int, list).take(0) =~= front);
        while i < relays.len()
            invariant
                i <= relays.len(),
                list == relays.deep_view(),
                v.deep_view() == front + pool_entries(p as int, list).take(i as int),
            decreases relays.len() - i,
        {
            let ghost now = v.deep_view();
            let e = Entry { pool: p, address: relays[i].address.clone(), port: relays[i].port };
            assert(e.deep_view() == pool_entries(p as int, list)[i as int]);
            v.push(e);
            assert(v.deep_view() =~= now.push(e.deep_view()));
            assert(front + pool_entries(p as int, list).take(i + 1) =~= now.push(e.deep_view()));
            i += 1;
        }
        assert(pool_entries(p as int, list).take(i as int) =~= pool_entries(p as int, list));
        p += 1;
    }
    assert(all.take(p as int) =~= all);
    v
}

/// Every entry belongs to a pool, and no pool comes before an earlier one.
pub proof fn entries_name_their_pools(lists: Seq<Seq<RelayView>>)
    requires
        lists.len() <= usize::MAX,
    ensures
        forall|i: int|
            0 <= i < entries_of(lists).len() ==> (#[trigger] entries_of(lists)[i]).pool
                < lists.len(),
        forall|i: int, j: int|
            0 <= i < j < entries_of(lists).len() ==> entries_of(lists)[i].pool <= entries_of(
                lists,
            )[j].pool,
    decreases lists.len(),
{
    if lists.len() > 0 {
        let front = lists.drop_last();
        entries_name_their_pools(front);
        let e = entries_of(lists);
        let n = entries_of(front).len();
        assert forall|i: int| 0 <= i < e.len() implies (#[trigger] e[i]).pool < lists.len() by {
            if i < n {
                assert(e[i] == entries_of(front)[i]);
            }
        }
        assert forall|i: int, j: int| 0 <= i < j < e.len() implies e[i].pool <= e[j].pool by {
            if i < n {
                assert(e[i] == entries_of(front)[i]);
            }
            if j < n {
                assert(e[j] == entries_of(front)[j]);
            }
        }
    }
}

// Targets.

/// A host and port to probe on behalf of an entry.
#[derive(Clone, Debug)]
pub struct Target {
    pub entry: usize,
    pub host: String,
    pub port: u16,
    /// SRV weight; None for a plain relay.
    pub weight: Option<u16>,
}

pub struct TargetView {
    pub entry: usize,
    pub host: Seq<char>,
    pub port: u16,
    pub weight: Option<u16>,
}

impl DeepView for Target {
    type V = TargetView;

    open spec fn deep_view(&self) -> TargetView {
        TargetView {
            entry: self.entry,
            host: self.host@,
            port: self.port,
            weight: self.weight,
        }
    }
}

/// Top-priority SRV targets as host, port and weight, or why there were none.
pub type SrvTargets = Result<Vec<(String, u16, u16)>, String>;

/// One record of an SRV answer.
#[derive(Clone, Debug)]
pub struct SrvRecord {
    pub priority: u16,
    pub target: String,
    pub port: u16,
    pub weight: u16,
}

pub struct SrvRecordView {
    pub priority: u16,
    pub target: Seq<char>,
    pub port: u16,
    pub weight: u16,
}

impl DeepView for SrvRecord {
    type V = SrvRecordView;

    open spec fn deep_view(&self) -> SrvRecordView {
        SrvRecordView {
            priority: self.priority,
            target: self.target@,
            port: self.port,
            weight: self.weight,
        }
    }
}

/// The name to ask for the SRV records of `name`: its one absolute form.
pub fn srv_query(name: &str) -> (s: String)
    ensures
        s@ == crate::text::trimmed_end(name@, Class::Dot).push('.'),
{
    let v = chars_of(name);
    let mut s = string_of(trim_end(v.as_slice(), Class::Dot));
    s.push('.');
    s
}

/// Why the SRV lookup of `name` failed.
pub fn srv_failed(name: &str, cause: &str) -> (s: String)
    ensures
        s@ == "SRV lookup failed for "@ + name@ + ": "@ + cause@,
{
    let mut s = "SRV lookup failed for ".to_owned();
    put(&mut s, name);
    put(&mut s, ": ");
    put(&mut s, cause);
    s
}

/// Why no SRV lookup could be made.
pub fn srv_unavailable(cause: &str) -> (s: String)
    ensures
        s@ == "SRV resolver unavailable: "@ + cause@,
{
    let mut s = "SRV resolver unavailable: ".to_owned();
    put(&mut s, cause);
    s
}

/// The lowest priority value among `records`.
pub open spec fn best_priority(records: Seq<SrvRecordView>) -> u16
    decreases records.len(),
{
    if records.len() <= 1 {
        records[0].priority
    } else {
        let front = best_priority(records.drop_last());
        if records.last().priority < front {
            records.last().priority
        } else {
            front
        }
    }
}

/// The targets at priority `best`, in order.
pub open spec fn targets_at(records: Seq<SrvRecordView>, best: u16) -> Seq<(Seq<char>, u16, u16)>
    decreases records.len(),
{
    if records.len() == 0 {
        Seq::empty()
    } else {
        let front = targets_at(records.drop_last(), best);
        let r = records.last();
        if r.priority == best {
            front.push((crate::text::trimmed_end(r.target, Class::Dot), r.port, r.weight))
        } else {
            front
        }
    }
}

/// The SRV targets a node would choose between: every record at the lowest
/// priority value present, as host and port.
pub fn top_targets(name: &str, records: &[SrvRecord]) -> (r: SrvTargets)
    ensures
        r is Ok <==> records.len() > 0,
        r matches Ok(v) ==> v.deep_view() == targets_at(
            records.deep_view(),
            best_priority(records.deep_view()),
        ),
        r matches Err(m) ==> m@ == "no SRV records for "@ + name@,
{
    if records.len() == 0 {
        let mut m = "no SRV records for ".to_owned();
        put(&mut m, name);
        return Err(m);
    }
    let ghost all = records.deep_view();
    let mut best: u16 = records[0].priority;
    assert(all[0].priority == best);
    assert(all.take(1)[0] == all[0]);
    let mut i: usize = 1;
    while i < records.len()
        invariant
            1 <= i <= records.len(),
            all == records.deep_view(),
            best == best_priority(all.take(i as int)),
        decreases records.len() - i,
    {
        assert(all.take(i + 1).drop_last() =~= all.take(i as int));
        assert(all.take(i + 1).last() == records[i as int].deep_view());
        if records[i].priority < best {
            best = records[i].priority;
        }
        i += 1;
    }
    assert(all.take(i as int) =~= all);
    let mut v: Vec<(String, u16, u16)> = Vec::new();
    let mut i: usize = 0;
    assert(v.deep_view() =~= Seq::<(Seq<char>, u16, u16)>::empty());
    while i < records.len()
        invariant
            i <= records.len(),
            all == records.deep_view(),
            v.deep_view() == targets_at(all.take(i as int), best),
        decreases records.len() - i,
    {
        assert(all.take(i + 1).drop_last() =~= all.take(i as int));
        assert(all.take(i + 1).last() == records[i as int].deep_view());
        if records[i].priority == best {
            let ghost front = v.deep_view();
            let host = chars_of(records[i].target.as_str());
            let x = (
                string_of(trim_end(host.as_slice(), Class::Dot)),
                records[i].port,
                records[i].weight,
            );
            v.push(x);
            assert(v.deep_view() =~= front.push((x.0@, x.1, x.2)));
        }
        i += 1;
    }
    assert(all.take(i as int) =~= all);
    Ok(v)
}

/// No record has a lower priority value than the one chosen, and some record
/// has that one.
pub proof fn best_priority_is_the_lowest(records: Seq<SrvRecordView>)
    requires
        records.len() > 0,
    ensures
        forall|i: int|
            0 <= i < records.len() ==> best_priority(records) <= (#[trigger] records[i]).priority,
        exists|i: int|
            0 <= i < records.len() && best_priority(records) == (#[trigger] records[i]).priority,
    decreases records.len(),
{
    if records.len() > 1 {
        let t = records.drop_last();
        best_priority_is_the_lowest(t);
        assert forall|i: int| 0 <= i < records.len() implies best_priority(records) <= (
        #[trigger] records[i]).priority by {
            if i < t.len() {
                assert(t[i] == records[i]);
            }
        }
        let j = choose|j: int|
            0 <= j < t.len() && best_priority(t) == (#[trigger] t[j]).priority;
        assert(records[j] == t[j]);
        assert(records[records.len() - 1] == records.last());
    } else {
        assert(best_priority(records) == records[0].priority);
    }
}

/// The targets of the plain entries, in their order.
pub open spec fn plain_targets(entries: Seq<EntryView>) -> Seq<TargetView>
    decreases entries.len(),
{
    if entries.len() == 0 {
        Seq::empty()
    } else {
        let front = plain_targets(entries.drop_last());
        let e = entries.last();
        match e.port {
            Some(port) => front.push(
                TargetView {
                    entry: (entries.len() - 1) as usize,
                    host: e.address,
                    port,
                    weight: None,
                },
            ),
            None => front,
        }
    }
}

/// The targets that one SRV lookup gave an entry.
pub open spec fn found_targets(entry: usize, found: Seq<(Seq<char>, u16, u16)>) -> Seq<TargetView> {
    Seq::new(
        found.len(),
        |i: int|
            TargetView {
                entry,
                host: found[i].0,
                port: found[i].1,
                weight: Some(found[i].2),
            },
    )
}

/// What an SRV lookup gave.
pub open spec fn srv_view(r: SrvTargets) -> Result<Seq<(Seq<char>, u16, u16)>, Seq<char>> {
    match r {
        Ok(v) => Ok(v.deep_view()),
        Err(m) => Err(m@),
    }
}

/// What SRV lookups gave, each for an entry.
pub open spec fn lookups(looked: Seq<(usize, SrvTargets)>) -> Seq<
    (usize, Result<Seq<(Seq<char>, u16, u16)>, Seq<char>>),
> {
    Seq::new(looked.len(), |i: int| (looked[i].0, srv_view(looked[i].1)))
}

/// The targets that SRV lookups gave, in the order of the lookups.
pub open spec fn srv_targets(
    looked: Seq<(usize, Result<Seq<(Seq<char>, u16, u16)>, Seq<char>>)>,
) -> Seq<TargetView>
    decreases looked.len(),
{
    if looked.len() == 0 {
        Seq::empty()
    } else {
        let front = srv_targets(looked.drop_last());
        match looked.last().1 {
            Ok(found) => front + found_targets(looked.last().0, found),
            Err(_) => front,
        }
    }
}

/// Why the SRV lookup of entry `e` gave no targets, by the last lookup that
/// failed for it.
pub open spec fn srv_error(
    looked: Seq<(usize, Result<Seq<(Seq<char>, u16, u16)>, Seq<char>>)>,
    e: int,
) -> Option<Seq<char>>
    decreases looked.len(),
{
    if looked.len() == 0 {
        None
    } else {
        match looked.last().1 {
            Err(m) => if looked.last().0 == e {
                Some(m)
            } else {
                srv_error(looked.drop_last(), e)
            },
            Ok(_) => srv_error(looked.drop_last(), e),
        }
    }
}

/// The places of the SRV entries.
pub open spec fn is_srv_at(entries: Seq<EntryView>) -> spec_fn(int) -> bool {
    |i: int| entries[i].port is None
}

/// The entries to look up as SRV record names.
pub fn srv_entries(entries: &[Entry]) -> (v: Vec<usize>)
    ensures
        v@.map_values(|i: usize| i as int) == crate::count::select(
            entries.len() as int,
            is_srv_at(entries.deep_view()),
        ),
{
    let ghost all = entries.deep_view();
    let mut v: Vec<usize> = Vec::new();
    let mut i: usize = 0;
    let ghost f = |i: usize| i as int;
    assert(v@.map_values(f) =~= Seq::<int>::empty());
    while i < entries.len()
        invariant
            i <= entries.len(),
            all == entries.deep_view(),
            f == (|i: usize| i as int),
            v@.map_values(f) == crate::count::select(i as int, is_srv_at(all)),
        decreases entries.len() - i,
    {
        assert(all[i as int].port == entries[i as int].port);
        if entries[i].is_srv() {
            let ghost front = v@.map_values(f);
            v.push(i);
            assert(v@.map_values(f) =~= front.push(i as int));
        }
        i += 1;
    }
    v
}

/// The targets of the plain entries, then those that the SRV lookups gave, and
/// per entry why its SRV lookup gave none.
pub fn plan(entries: &[Entry], looked: &[(usize, SrvTargets)]) -> (r: (
    Vec<Target>,
    Vec<Option<String>>,
))
    requires
        forall|i: int| 0 <= i < looked.len() ==> (#[trigger] looked[i]).0 < entries.len(),
    ensures
        r.0.deep_view() == plain_targets(entries.deep_view()) + srv_targets(lookups(looked@)),
        r.1.len() == entries.len(),
        forall|e: int|
            0 <= e < entries.len() ==> (#[trigger] r.1[e]).deep_view() == srv_error(
                lookups(looked@),
                e,
            ),
{
    let ghost all = entries.deep_view();
    let ghost given = lookups(looked@);
    let mut targets: Vec<Target> = Vec::new();
    let mut errors: Vec<Option<String>> = Vec::new();
    let mut i: usize = 0;
    assert(targets.deep_view() =~= Seq::<TargetView>::empty());
    assert(given.take(0) =~= Seq::empty());
    while i < entries.len()
        invariant
            i <= entries.len(),
            all == entries.deep_view(),
            errors.len() == i,
            forall|e: int| 0 <= e < i ==> (#[trigger] errors[e]) is None,
            targets.deep_view() == plain_targets(all.take(i as int)),
        decreases entries.len() - i,
    {
        assert(all.take(i + 1).drop_last() =~= all.take(i as int));
        assert(all.take(i + 1).last() == entries[i as int].deep_view());
        if let Some(port) = entries[i].port {
            let ghost front = targets.deep_view();
            let t = Target { entry: i, host: entries[i].address.clone(), port, weight: None };
            targets.push(t);
            assert(targets.deep_view() =~= front.push(t.deep_view()));
        }
        errors.push(None);
        i += 1;
    }
    assert(all.take(i as int) =~= all);
    let ghost plain = targets.deep_view();
    let mut k: usize = 0;
    assert(plain + srv_targets(given.take(0)) =~= plain);
    while k < looked.len()
        invariant
            k <= looked.len(),
            given == lookups(looked@),
            forall|i: int| 0 <= i < looked.len() ==> (#[trigger] looked[i]).0 < entries.len(),
            errors.len() == entries.len(),
            targets.deep_view() == plain + srv_targets(given.take(k as int)),
            forall|e: int|
                0 <= e < entries.len() ==> (#[trigger] errors[e]).deep_view() == srv_error(
                    given.take(k as int),
                    e,
                ),
        decreases looked.len() - k,
    {
        let ghost part = given.take(k + 1);
        assert(part.drop_last() =~= given.take(k as int));
        assert(part.last() == (looked[k as int].0, srv_view(looked[k as int].1)));
        let entry: usize = looked[k].0;
        let ghost before_errors = errors@;
        match &looked[k].1 {
            Ok(found) => {
                let ghost front = targets.deep_view();
                let ghost names = found.deep_view();
                let ghost more = found_targets(entry, names);
                let mut j: usize = 0;
                assert(front + more.take(0) =~= front);
                while j < found.len()
                    invariant
                        j <= found.len(),
                        names == found.deep_view(),
                        more == found_targets(entry, names),
                        targets.deep_view() == front + more.take(j as int),
                    decreases found.len() - j,
                {
                    let ghost now = targets.deep_view();
                    let t = Target {
                        entry,
                        host: found[j].0.clone(),
                        port: found[j].1,
                        weight: Some(found[j].2),
                    };
                    assert(names[j as int].0 == found[j as int].0@);
                    assert(t.deep_view() == more[j as int]);
                    targets.push(t);
                    assert(targets.deep_view() =~= now.push(t.deep_view()));
                    assert(front + more.take(j + 1) =~= now.push(more[j as int]));
                    j += 1;
                }
                assert(more.take(j as int) =~= more);
                assert(plain + srv_targets(part) =~= front + more);
            },
            Err(m) => {
                errors.set(entry, Some(m.clone()));
            },
        }
        assert forall|e: int| 0 <= e < entries.len() implies (#[trigger] errors[e]).deep_view()
            == srv_error(part, e) by {
            assert(before_errors[e].deep_view() == srv_error(given.take(k as int), e));
        }
        k += 1;
    }
    assert(given.take(k as int) =~= given);
    (targets, errors)
}

// Addresses.

/// What became of a target's host.
#[derive(Clone, Debug)]
pub struct Looked {
    pub target: usize,
    /// The socket address of a host that is an IP literal.
    pub literal: Option<String>,
    /// The socket addresses that a name resolved to.
    pub addrs: Vec<String>,
    pub dns_error: Option<String>,
}

pub struct LookedView {
    pub target: usize,
    pub literal: Option<Seq<char>>,
    pub addrs: Seq<Seq<char>>,
    pub dns_error: Option<Seq<char>>,
}

impl DeepView for Looked {
    type V = LookedView;

    open spec fn deep_view(&self) -> LookedView {
        LookedView {
            target: self.target,
            literal: self.literal.deep_view(),
            addrs: self.addrs.deep_view(),
            dns_error: self.dns_error.deep_view(),
        }
    }
}

impl Ranked for Looked {
    open spec fn ahead(&self, other: &Self) -> bool {
        self.target < other.target
    }

    fn is_ahead(&self, other: &Self) -> bool {
        self.target < other.target
    }
}

/// The order of the targets.
pub open spec fn by_target() -> spec_fn(LookedView, LookedView) -> bool {
    |a: LookedView, b: LookedView| a.target < b.target
}

/// The address that a host is a literal of.
pub open spec fn literal_of(host: Seq<char>) -> Option<Ip> {
    crate::ip::ip_of(crate::text::trimmed(host, Class::Bracket))
}

/// A target whose host is a literal needs no lookup.
pub open spec fn literal_at(targets: Seq<TargetView>, t: int) -> Option<LookedView> {
    match literal_of(targets[t].host) {
        Some(ip) => Some(
            LookedView {
                target: t as usize,
                literal: Some(crate::ip::sock_text(ip, targets[t].port)),
                addrs: Seq::empty(),
                dns_error: None,
            },
        ),
        None => None,
    }
}

/// The first `n` targets whose hosts are literals.
pub open spec fn literals(targets: Seq<TargetView>, n: int) -> Seq<LookedView>
    decreases n,
{
    if n <= 0 {
        Seq::empty()
    } else {
        match literal_at(targets, n - 1) {
            Some(l) => literals(targets, n - 1).push(l),
            None => literals(targets, n - 1),
        }
    }
}

/// Which targets need a lookup.
pub open spec fn is_name_at(targets: Seq<TargetView>) -> spec_fn(int) -> bool {
    |t: int| literal_of(targets[t].host) is None
}

/// Take the targets whose hosts are IP literals, and the places of those that
/// have to be looked up.
pub fn sift(targets: &[Target]) -> (r: (Vec<Looked>, Vec<usize>))
    ensures
        r.0.deep_view() == literals(targets.deep_view(), targets.len() as int),
        r.1@.map_values(|i: usize| i as int) == crate::count::select(
            targets.len() as int,
            is_name_at(targets.deep_view()),
        ),
{
    let ghost all = targets.deep_view();
    let ghost f = |i: usize| i as int;
    let mut looked: Vec<Looked> = Vec::new();
    let mut names: Vec<usize> = Vec::new();
    let mut t: usize = 0;
    assert(looked.deep_view() =~= Seq::<LookedView>::empty());
    assert(names@.map_values(f) =~= Seq::<int>::empty());
    while t < targets.len()
        invariant
            t <= targets.len(),
            all == targets.deep_view(),
            f == (|i: usize| i as int),
            looked.deep_view() == literals(all, t as int),
            names@.map_values(f) == crate::count::select(t as int, is_name_at(all)),
        decreases targets.len() - t,
    {
        assert(all[t as int] == targets[t as int].deep_view());
        let host = chars_of(targets[t].host.as_str());
        match parse_ip(trim(host.as_slice(), Class::Bracket)) {
            Some(ip) => {
                let ghost front = looked.deep_view();
                let key = string_of(write_sock(ip, targets[t].port).as_slice());
                let addrs: Vec<String> = Vec::new();
                let l = Looked { target: t, literal: Some(key), addrs, dns_error: None };
                assert(l.deep_view().addrs =~= Seq::<Seq<char>>::empty());
                assert(l.deep_view() == literal_at(all, t as int)->0);
                looked.push(l);
                assert(looked.deep_view() =~= front.push(l.deep_view()));
            },
            None => {
                let ghost front = names@.map_values(f);
                names.push(t);
                assert(names@.map_values(f) =~= front.push(t as int));
            },
        }
        t += 1;
    }
    (looked, names)
}

/// The texts of socket addresses.
pub open spec fn sock_texts(addrs: Seq<SockAddr>) -> Seq<Seq<char>> {
    Seq::new(addrs.len(), |i: int| crate::ip::addr_text(addrs[i]))
}

/// What a lookup says of target `t`.
pub open spec fn looked_view(t: usize, answer: Result<Seq<SockAddr>, Seq<char>>) -> LookedView {
    match answer {
        Ok(addrs) => LookedView {
            target: t,
            literal: None,
            addrs: sock_texts(addrs),
            dns_error: if addrs.len() == 0 {
                Some("no addresses"@)
            } else {
                None
            },
        },
        Err(m) => LookedView {
            target: t,
            literal: None,
            addrs: Seq::empty(),
            dns_error: Some(m),
        },
    }
}

/// What a lookup gave.
pub open spec fn answer_view(r: Result<Vec<SockAddr>, String>) -> Result<
    Seq<SockAddr>,
    Seq<char>,
> {
    match r {
        Ok(v) => Ok(v@),
        Err(m) => Err(m@),
    }
}

/// Take note of what a lookup gave for the target `t`.
pub fn looked_up(t: usize, answer: &Result<Vec<SockAddr>, String>) -> (l: Looked)
    ensures
        l.deep_view() == looked_view(t, answer_view(*answer)),
{
    match answer {
        Ok(found) => {
            let mut addrs: Vec<String> = Vec::new();
            let mut i: usize = 0;
            while i < found.len()
                invariant
                    i <= found.len(),
                    addrs.len() == i,
                    forall|j: int|
                        0 <= j < i ==> (#[trigger] addrs[j])@ == crate::ip::addr_text(
                            found[j],
                        ),
                decreases found.len() - i,
            {
                let s = string_of(write_addr(found[i]).as_slice());
                addrs.push(s);
                i += 1;
            }
            assert(addrs.deep_view() =~= sock_texts(found@));
            let dns_error = if addrs.len() == 0 {
                Some("no addresses".to_owned())
            } else {
                None
            };
            Looked { target: t, literal: None, addrs, dns_error }
        },
        Err(m) => {
            let addrs: Vec<String> = Vec::new();
            assert(addrs.deep_view() =~= Seq::<Seq<char>>::empty());
            Looked { target: t, literal: None, addrs, dns_error: Some(m.clone()) }
        },
    }
}

/// The lookups in the order of their targets.
fn in_target_order(looked: Vec<Looked>) -> (out: Vec<Looked>)
    ensures
        out.deep_view() == crate::sort::sorted_by(looked.deep_view(), by_target()),
        forall|i: int|
            0 <= i < out.len() ==> exists|j: int|
                0 <= j < looked.len() && #[trigger] looked[j] == #[trigger] out[i],
{
    let ghost all = looked@;
    let out = sort(looked);
    proof {
        let f = |l: Looked| l.deep_view();
        crate::sort::lemma_sorted_map(all, f, by_target());
        assert(all.map_values(f) =~= looked.deep_view());
        assert(out@.map_values(f) =~= out.deep_view());
        assert forall|i: int| 0 <= i < out.len() implies exists|j: int|
            0 <= j < looked.len() && #[trigger] looked[j] == #[trigger] out[i] by {
            let j = crate::sort::lemma_sorted_from(all, i);
            assert(looked[j] == out[i]);
        }
    }
    out
}

// Endpoints.

/// One entry arriving at one key.
pub struct Arrival {
    pub key: Seq<char>,
    pub entry: usize,
    pub weight: Option<u16>,
    pub dns_error: Option<Seq<char>>,
    /// When the key was last seen, for one that is only remembered.
    pub seen: Option<u64>,
}

/// The keys that a target is probed under: its literal address, or the
/// addresses that its name resolved to, or its own name.
pub open spec fn keys_of(target: TargetView, l: LookedView) -> Seq<Seq<char>> {
    match l.literal {
        Some(k) => seq![k],
        None => if l.addrs.len() == 0 {
            seq![crate::net::host_port(target.host, target.port)]
        } else {
            l.addrs
        },
    }
}

/// The arrivals of one target.
pub open spec fn arrivals_of(target: TargetView, l: LookedView) -> Seq<Arrival> {
    let keys = keys_of(target, l);
    Seq::new(
        keys.len(),
        |i: int|
            Arrival {
                key: keys[i],
                entry: target.entry,
                weight: target.weight,
                dns_error: l.dns_error,
                seen: None,
            },
    )
}

/// The arrivals of this run's lookups.
pub open spec fn looked_arrivals(targets: Seq<TargetView>, looked: Seq<LookedView>) -> Seq<Arrival>
    decreases looked.len(),
{
    if looked.len() == 0 {
        Seq::empty()
    } else {
        looked_arrivals(targets, looked.drop_last()) + arrivals_of(
            targets[looked.last().target as int],
            looked.last(),
        )
    }
}

/// Is target `t` a plain name, one that memory can complete? An SRV lookup
/// returns every target, and a literal is its own address.
pub open spec fn is_plain_name(
    targets: Seq<TargetView>,
    looked: Seq<LookedView>,
    t: int,
) -> bool {
    targets[t].weight is None && !(exists|j: int|
        0 <= j < looked.len() && (#[trigger] looked[j]).target == t && looked[j].literal is Some)
}

/// Is an address last seen at `seen` still remembered?
pub open spec fn is_fresh(now: u64, seen: u64) -> bool {
    now - seen <= REMEMBER_SECS
}

/// The arrivals that memory adds to a target, from the addresses `seen`.
pub open spec fn recalled(
    target: TargetView,
    seen: Seq<(Seq<char>, u64)>,
    now: u64,
) -> Seq<Arrival>
    decreases seen.len(),
{
    if seen.len() == 0 {
        Seq::empty()
    } else {
        let front = recalled(target, seen.drop_last(), now);
        let (key, last) = seen.last();
        if is_fresh(now, last) && crate::ip::sock_of(key) is Some {
            front.push(
                Arrival { key, entry: target.entry, weight: None, dns_error: None, seen: Some(last) },
            )
        } else {
            front
        }
    }
}

/// The addresses that memory holds for a target.
pub open spec fn memory_of(
    memory: Map<Seq<char>, Seq<(Seq<char>, u64)>>,
    target: TargetView,
) -> Seq<(Seq<char>, u64)> {
    let key = crate::pools::key_of(target.host, Some(target.port));
    if memory.contains_key(key) {
        memory[key]
    } else {
        Seq::empty()
    }
}

/// The arrivals that memory adds to the first `n` targets.
pub open spec fn recalled_arrivals(
    targets: Seq<TargetView>,
    looked: Seq<LookedView>,
    memory: Map<Seq<char>, Seq<(Seq<char>, u64)>>,
    now: u64,
    n: int,
) -> Seq<Arrival>
    decreases n,
{
    if n <= 0 {
        Seq::empty()
    } else {
        let front = recalled_arrivals(targets, looked, memory, now, n - 1);
        if is_plain_name(targets, looked, n - 1) {
            front + recalled(targets[n - 1], memory_of(memory, targets[n - 1]), now)
        } else {
            front
        }
    }
}

/// What a memory holds.
pub open spec fn memory_view(t: Table<Vec<(String, u64)>>) -> Map<
    Seq<char>,
    Seq<(Seq<char>, u64)>,
> {
    t@.map_values(|v: Vec<(String, u64)>| v.deep_view())
}

/// Every arrival, in the order in which they are taken.
pub open spec fn arrivals(
    targets: Seq<TargetView>,
    looked: Seq<LookedView>,
    memory: Option<Memory<'_>>,
) -> Seq<Arrival> {
    let now = looked_arrivals(targets, looked);
    match memory {
        Some(m) => now + recalled_arrivals(
            targets,
            looked,
            memory_view(*m.targets),
            m.now,
            targets.len() as int,
        ),
        None => now,
    }
}

/// Where `x` first stands in `s`; the length of `s` when it does not.
pub open spec fn first_place(s: Seq<usize>, x: usize) -> int
    decreases s.len(),
{
    if s.len() == 0 || s[0] == x {
        0
    } else {
        1 + first_place(s.drop_first(), x)
    }
}

/// Entries and their weights, with one more entry. An entry that is there
/// already adds its weight: two SRV records of one name landing on the same
/// endpoint.
pub open spec fn with_entry(
    at: (Seq<usize>, Seq<Option<u16>>),
    entry: usize,
    weight: Option<u16>,
) -> (Seq<usize>, Seq<Option<u16>>) {
    let i = first_place(at.0, entry);
    if i < at.0.len() {
        match (weight, at.1[i]) {
            (Some(w), Some(have)) => (
                at.0,
                at.1.update(
                    i,
                    Some(
                        if have + w > u16::MAX {
                            u16::MAX
                        } else {
                            (have + w) as u16
                        },
                    ),
                ),
            ),
            _ => at,
        }
    } else {
        (at.0.push(entry), at.1.push(weight))
    }
}

/// The entries at `key` and their weights.
pub open spec fn gathered(arr: Seq<Arrival>, key: Seq<char>) -> (Seq<usize>, Seq<Option<u16>>)
    decreases arr.len(),
{
    if arr.len() == 0 {
        (Seq::empty(), Seq::empty())
    } else {
        let front = gathered(arr.drop_last(), key);
        if arr.last().key == key {
            with_entry(front, arr.last().entry, arr.last().weight)
        } else {
            front
        }
    }
}

/// The first arrival at `key`.
pub open spec fn first_arrival(arr: Seq<Arrival>, key: Seq<char>) -> Arrival
    decreases arr.len(),
{
    if arr.len() > 0 && arr[0].key != key {
        first_arrival(arr.drop_first(), key)
    } else {
        arr[0]
    }
}

/// The endpoint at `key`. How it came about is told by the first arrival.
pub open spec fn endpoint_of(arr: Seq<Arrival>, key: Seq<char>) -> EndpointView {
    let first = first_arrival(arr, key);
    EndpointView {
        key,
        entries: gathered(arr, key).0,
        weights: gathered(arr, key).1,
        addrs: match crate::ip::sock_of(key) {
            Some(s) => seq![s.ip],
            None => Seq::empty(),
        },
        dns_error: first.dns_error,
        remembered: first.seen is Some,
        last_seen: first.seen,
    }
}

/// The keys of arrivals.
pub open spec fn arrival_keys(arr: Seq<Arrival>) -> Seq<Seq<char>> {
    Seq::new(arr.len(), |i: int| arr[i].key)
}

/// One endpoint for each key, by key.
pub open spec fn endpoints_of(arr: Seq<Arrival>) -> Seq<EndpointView> {
    let keys = crate::table::distinct_names(arrival_keys(arr));
    Seq::new(keys.len(), |i: int| endpoint_of(arr, keys[i]))
}

struct Came {
    key: String,
    entry: usize,
    weight: Option<u16>,
    dns_error: Option<String>,
    seen: Option<u64>,
}

impl DeepView for Came {
    type V = Arrival;

    closed spec fn deep_view(&self) -> Arrival {
        Arrival {
            key: self.key@,
            entry: self.entry,
            weight: self.weight,
            dns_error: self.dns_error.deep_view(),
            seen: self.seen,
        }
    }
}

/// Take the arrivals of one target.
fn arrive(out: &mut Vec<Came>, target: &Target, l: &Looked)
    ensures
        final(out).deep_view() == old(out).deep_view() + arrivals_of(
            target.deep_view(),
            l.deep_view(),
        ),
{
    let ghost start = out.deep_view();
    let ghost more = arrivals_of(target.deep_view(), l.deep_view());
    match &l.literal {
        Some(k) => {
            let c = Came {
                key: k.clone(),
                entry: target.entry,
                weight: target.weight,
                dns_error: crate::pools::copy_text(&l.dns_error),
                seen: None,
            };
            out.push(c);
            assert(more =~= seq![c.deep_view()]);
            assert(out.deep_view() =~= start + more);
        },
        None => if l.addrs.len() == 0 {
            let c = Came {
                key: format_host_port(target.host.as_str(), target.port),
                entry: target.entry,
                weight: target.weight,
                dns_error: crate::pools::copy_text(&l.dns_error),
                seen: None,
            };
            out.push(c);
            assert(more =~= seq![c.deep_view()]);
            assert(out.deep_view() =~= start + more);
        } else {
            let mut i: usize = 0;
            assert(start + more.take(0) =~= start);
            assert(more.len() == l.addrs.len());
            while i < l.addrs.len()
                invariant
                    i <= l.addrs.len(),
                    l.literal is None,
                    l.addrs.len() > 0,
                    more == arrivals_of(target.deep_view(), l.deep_view()),
                    more.len() == l.addrs.len(),
                    out.deep_view() == start + more.take(i as int),
                decreases l.addrs.len() - i,
            {
                let ghost now = out.deep_view();
                let c = Came {
                    key: l.addrs[i].clone(),
                    entry: target.entry,
                    weight: target.weight,
                    dns_error: crate::pools::copy_text(&l.dns_error),
                    seen: None,
                };
                assert(l.deep_view().addrs[i as int] == l.addrs[i as int]@);
                assert(c.deep_view() == more[i as int]);
                out.push(c);
                assert(out.deep_view() =~= now.push(c.deep_view()));
                assert(start + more.take(i + 1) =~= now.push(more[i as int]));
                i += 1;
            }
            assert(more.take(i as int) =~= more);
        },
    }
}

/// Take the arrivals that memory adds to one target.
fn recall(out: &mut Vec<Came>, target: &Target, seen: &[(String, u64)], now: u64)
    ensures
        final(out).deep_view() == old(out).deep_view() + recalled(
            target.deep_view(),
            seen.deep_view(),
            now,
        ),
{
    let ghost start = out.deep_view();
    let ghost all = seen.deep_view();
    let ghost t = target.deep_view();
    let mut i: usize = 0;
    assert(all.take(0) =~= Seq::empty());
    assert(start + recalled(t, all.take(0), now) =~= start);
    while i < seen.len()
        invariant
            i <= seen.len(),
            t == target.deep_view(),
            all == seen.deep_view(),
            out.deep_view() == start + recalled(t, all.take(i as int), now),
        decreases seen.len() - i,
    {
        assert(all.take(i + 1).drop_last() =~= all.take(i as int));
        assert(all.take(i + 1).last() == (seen[i as int].0@, seen[i as int].1));
        let last: u64 = seen[i].1;
        let fresh = last >= now || now - last <= REMEMBER_SECS;
        if fresh && parse_sock(chars_of(seen[i].0.as_str()).as_slice()).is_some() {
            let ghost before = out.deep_view();
            let ghost front = recalled(t, all.take(i as int), now);
            let c = Came {
                key: seen[i].0.clone(),
                entry: target.entry,
                weight: None,
                dns_error: None,
                seen: Some(last),
            };
            out.push(c);
            assert(out.deep_view() =~= before.push(c.deep_view()));
            assert(start + front.push(c.deep_view()) =~= (start + front).push(c.deep_view()));
        }
        i += 1;
    }
    assert(all.take(i as int) =~= all);
}

/// Is target `t` a plain name?
fn plain_name(targets: &[Target], looked: &[Looked], t: usize) -> (r: bool)
    requires
        t < targets.len(),
    ensures
        r == is_plain_name(targets.deep_view(), looked.deep_view(), t as int),
{
    let ghost ls = looked.deep_view();
    assert(targets.deep_view()[t as int].weight == targets[t as int].weight);
    if targets[t].weight.is_some() {
        return false;
    }
    let mut j: usize = 0;
    while j < looked.len()
        invariant
            j <= looked.len(),
            ls == looked.deep_view(),
            forall|i: int|
                0 <= i < j ==> !((#[trigger] ls[i]).target == t && ls[i].literal is Some),
        decreases looked.len() - j,
    {
        assert(ls[j as int].target == looked[j as int].target);
        assert(ls[j as int].literal == looked[j as int].literal.deep_view());
        if looked[j].target == t && looked[j].literal.is_some() {
            return false;
        }
        j += 1;
    }
    true
}

/// Every arrival.
fn all_arrivals(targets: &[Target], looked: &[Looked], memory: Option<&Memory<'_>>) -> (out: Vec<
    Came,
>)
    requires
        forall|i: int| 0 <= i < looked.len() ==> (#[trigger] looked[i]).target < targets.len(),
        memory matches Some(m) ==> m.targets.wf(),
    ensures
        out.deep_view() == arrivals(
            targets.deep_view(),
            looked.deep_view(),
            match memory {
                Some(m) => Some(*m),
                None => None,
            },
        ),
{
    let ghost ts = targets.deep_view();
    let ghost ls = looked.deep_view();
    let mut out: Vec<Came> = Vec::new();
    let mut i: usize = 0;
    assert(ls.take(0) =~= Seq::empty());
    assert(out.deep_view() =~= Seq::<Arrival>::empty());
    while i < looked.len()
        invariant
            i <= looked.len(),
            ts == targets.deep_view(),
            ls == looked.deep_view(),
            forall|i: int| 0 <= i < looked.len() ==> (#[trigger] looked[i]).target < targets.len(),
            out.deep_view() == looked_arrivals(ts, ls.take(i as int)),
        decreases looked.len() - i,
    {
        assert(ls.take(i + 1).drop_last() =~= ls.take(i as int));
        assert(ls.take(i + 1).last() == looked[i as int].deep_view());
        let t: usize = looked[i].target;
        assert(ts[t as int] == targets[t as int].deep_view());
        arrive(&mut out, &targets[t], &looked[i]);
        i += 1;
    }
    assert(ls.take(i as int) =~= ls);
    if let Some(m) = memory {
        let ghost start = out.deep_view();
        let ghost held = memory_view(*m.targets);
        let mut t: usize = 0;
        assert(start + recalled_arrivals(ts, ls, held, m.now, 0) =~= start);
        while t < targets.len()
            invariant
                t <= targets.len(),
                m.targets.wf(),
                ts == targets.deep_view(),
                ls == looked.deep_view(),
                held == memory_view(*m.targets),
                out.deep_view() == start + recalled_arrivals(ts, ls, held, m.now, t as int),
            decreases targets.len() - t,
        {
            assert(ts[t as int] == targets[t as int].deep_view());
            let ghost front = recalled_arrivals(ts, ls, held, m.now, t as int);
            if plain_name(targets, looked, t) {
                let key = relay_key(targets[t].host.as_str(), Some(targets[t].port));
                if let Some(seen) = m.targets.get(key.as_str()) {
                    assert(memory_of(held, ts[t as int]) == seen.deep_view());
                    recall(&mut out, &targets[t], seen.as_slice(), m.now);
                    let ghost more = recalled(ts[t as int], seen.deep_view(), m.now);
                    assert((start + front) + more =~= start + (front + more));
                } else {
                    assert(front + Seq::<Arrival>::empty() =~= front);
                }
            }
            t += 1;
        }
    }
    out
}

proof fn lemma_first_place(s: Seq<usize>, x: usize, k: int)
    requires
        0 <= k <= s.len(),
        k < s.len() ==> s[k] == x,
        forall|i: int| 0 <= i < k ==> s[i] != x,
    ensures
        first_place(s, x) == k,
    decreases s.len(),
{
    if k > 0 {
        assert(s[0] != x);
        lemma_first_place(s.drop_first(), x, k - 1);
    }
}

fn find_entry(entries: &[usize], entry: usize) -> (i: usize)
    ensures
        i <= entries.len(),
        i == first_place(entries@, entry),
{
    let mut i: usize = 0;
    while i < entries.len() && entries[i] != entry
        invariant
            i <= entries.len(),
            forall|j: int| 0 <= j < i ==> entries[j] != entry,
        decreases entries.len() - i,
    {
        i += 1;
    }
    proof {
        lemma_first_place(entries@, entry, i as int);
    }
    i
}

pub proof fn lemma_first_arrival(arr: Seq<Arrival>, key: Seq<char>, k: int)
    requires
        0 <= k < arr.len(),
        arr[k].key == key,
        forall|i: int| 0 <= i < k ==> (#[trigger] arr[i]).key != key,
    ensures
        first_arrival(arr, key) == arr[k],
    decreases arr.len(),
{
    if k > 0 {
        assert(arr[0].key != key);
        let t = arr.drop_first();
        assert(t[k - 1] == arr[k]);
        assert forall|i: int| 0 <= i < k - 1 implies (#[trigger] t[i]).key != key by {
            assert(t[i] == arr[i + 1]);
        }
        lemma_first_arrival(t, key, k - 1);
    }
}

/// The endpoint at `key`, where something arrived.
fn endpoint_at(came: &[Came], key: &String) -> (ep: Endpoint)
    requires
        arrival_keys(came.deep_view()).contains(key@),
    ensures
        ep.deep_view() == endpoint_of(came.deep_view(), key@),
{
    let ghost arr = came.deep_view();
    let mut entries: Vec<usize> = Vec::new();
    let mut weights: Vec<Option<u16>> = Vec::new();
    let mut first: usize = came.len();
    let mut i: usize = 0;
    assert(arr.take(0) =~= Seq::empty());
    assert(entries@ =~= Seq::<usize>::empty());
    assert(weights@ =~= Seq::<Option<u16>>::empty());
    while i < came.len()
        invariant
            i <= came.len(),
            arr == came.deep_view(),
            entries.len() == weights.len(),
            (entries@, weights@) == gathered(arr.take(i as int), key@),
            first < i || first == came.len(),
            first < i ==> arr[first as int].key == key@,
            forall|j: int|
                0 <= j < i && (j < first || first == came.len()) ==> (#[trigger] arr[j]).key
                    != key@,
        decreases came.len() - i,
    {
        assert(arr.take(i + 1).drop_last() =~= arr.take(i as int));
        assert(arr.take(i + 1).last() == came[i as int].deep_view());
        assert(arr[i as int].key == came[i as int].key@);
        if came[i].key == *key {
            if first == came.len() {
                first = i;
            }
            let k: usize = find_entry(entries.as_slice(), came[i].entry);
            if k < entries.len() {
                if let (Some(w), Some(have)) = (came[i].weight, weights[k]) {
                    let sum: u16 = if have as u32 + w as u32 > u16::MAX as u32 {
                        u16::MAX
                    } else {
                        have + w
                    };
                    weights.set(k, Some(sum));
                }
            } else {
                entries.push(came[i].entry);
                weights.push(came[i].weight);
            }
        }
        i += 1;
    }
    assert(arr.take(i as int) =~= arr);
    proof {
        let k = choose|k: int| 0 <= k < arr.len() && arrival_keys(arr)[k] == key@;
        assert(arr[k].key == key@);
        lemma_first_arrival(arr, key@, first as int);
        assert(arr[first as int] == came[first as int].deep_view());
    }
    let mut addrs: Vec<Ip> = Vec::new();
    if let Some(s) = parse_sock(chars_of(key.as_str()).as_slice()) {
        addrs.push(s.ip);
    }
    let ep = Endpoint {
        key: key.clone(),
        entries,
        weights,
        addrs,
        dns_error: crate::pools::copy_text(&came[first].dns_error),
        remembered: came[first].seen.is_some(),
        last_seen: came[first].seen,
    };
    assert(ep.deep_view().addrs =~= endpoint_of(arr, key@).addrs);
    ep
}

/// One endpoint per socket address. A name with several addresses becomes
/// one endpoint per address, as a node treats each as its own peer; an
/// address shared by names and literals is one endpoint with every entry on
/// it. A name that did not resolve keeps one endpoint under its own name.
/// Addresses a plain name resolved to in earlier runs, but not this one, are
/// added as remembered endpoints while they are within `REMEMBER_SECS`.
pub fn assemble(targets: &[Target], looked: &[Looked], memory: Option<&Memory<'_>>) -> (out: Vec<
    Endpoint,
>)
    requires
        forall|i: int| 0 <= i < looked.len() ==> (#[trigger] looked[i]).target < targets.len(),
        memory matches Some(m) ==> m.targets.wf(),
    ensures
        out.deep_view() == endpoints_of(
            arrivals(
                targets.deep_view(),
                looked.deep_view(),
                match memory {
                    Some(m) => Some(*m),
                    None => None,
                },
            ),
        ),
{
    let came = all_arrivals(targets, looked, memory);
    let ghost arr = came.deep_view();
    let mut keys: Vec<String> = Vec::new();
    let mut i: usize = 0;
    while i < came.len()
        invariant
            i <= came.len(),
            arr == came.deep_view(),
            keys.len() == i,
            forall|j: int| 0 <= j < i ==> (#[trigger] keys[j])@ == arr[j].key,
        decreases came.len() - i,
    {
        keys.push(came[i].key.clone());
        assert(arr[i as int].key == came[i as int].key@);
        i += 1;
    }
    assert(keys.deep_view() =~= arrival_keys(arr));
    let names = distinct(keys.as_slice());
    let ghost order = crate::table::distinct_names(arrival_keys(arr));
    proof {
        crate::table::distinct_names_are_those_held(arrival_keys(arr));
    }
    let mut out: Vec<Endpoint> = Vec::new();
    let mut i: usize = 0;
    while i < names.len()
        invariant
            i <= names.len(),
            arr == came.deep_view(),
            order == names.deep_view(),
            forall|k: Seq<char>|
                order.contains(k) ==> #[trigger] arrival_keys(arr).contains(k),
            out.len() == i,
            forall|j: int| 0 <= j < i ==> (#[trigger] out[j]).deep_view() == endpoint_of(arr, order[j]),
        decreases names.len() - i,
    {
        assert(order[i as int] == names[i as int]@);
        assert(order.contains(order[i as int]));
        assert(arrival_keys(arr).contains(order[i as int]));
        out.push(endpoint_at(came.as_slice(), &names[i]));
        i += 1;
    }
    assert(out.deep_view() =~= endpoints_of(arr));
    out
}

/// What the lookups of names gave, as views.
pub open spec fn answers_of(
    answers: Seq<(usize, Result<Vec<SockAddr>, String>)>,
) -> Seq<LookedView> {
    Seq::new(answers.len(), |i: int| looked_view(answers[i].0, answer_view(answers[i].1)))
}

/// The endpoints of `targets`, given what the lookups of their names gave, in
/// whatever order that came.
pub fn group(
    targets: &[Target],
    answers: &[(usize, Result<Vec<SockAddr>, String>)],
    memory: Option<&Memory<'_>>,
) -> (out: Vec<Endpoint>)
    requires
        forall|i: int| 0 <= i < answers.len() ==> (#[trigger] answers[i]).0 < targets.len(),
        memory matches Some(m) ==> m.targets.wf(),
    ensures
        out.deep_view() == endpoints_of(
            arrivals(
                targets.deep_view(),
                crate::sort::sorted_by(
                    literals(targets.deep_view(), targets.len() as int) + answers_of(answers@),
                    by_target(),
                ),
                match memory {
                    Some(m) => Some(*m),
                    None => None,
                },
            ),
        ),
{
    let (mut looked, _) = sift(targets);
    let ghost lits = looked.deep_view();
    proof {
        lemma_literals_in_range(targets.deep_view(), targets.len() as int);
        assert forall|i: int| 0 <= i < looked.len() implies (#[trigger] looked[i]).target
            < targets.len() by {
            assert(lits[i].target == looked[i].target);
        }
    }
    let mut i: usize = 0;
    let ghost given = answers_of(answers@);
    assert(lits + given.take(0) =~= lits);
    while i < answers.len()
        invariant
            i <= answers.len(),
            given == answers_of(answers@),
            forall|i: int| 0 <= i < answers.len() ==> (#[trigger] answers[i]).0 < targets.len(),
            forall|i: int| 0 <= i < looked.len() ==> (#[trigger] looked[i]).target < targets.len(),
            looked.deep_view() == lits + given.take(i as int),
        decreases answers.len() - i,
    {
        let ghost now = looked.deep_view();
        let l = looked_up(answers[i].0, &answers[i].1);
        assert(l.deep_view() == given[i as int]);
        assert(l.deep_view().target == l.target);
        looked.push(l);
        assert(looked.deep_view() =~= now.push(l.deep_view()));
        assert(lits + given.take(i + 1) =~= now.push(given[i as int]));
        i += 1;
    }
    assert(given.take(i as int) =~= given);
    let looked = in_target_order(looked);
    assemble(targets, looked.as_slice(), memory)
}

proof fn lemma_literals_in_range(targets: Seq<TargetView>, n: int)
    requires
        n <= targets.len() <= usize::MAX,
    ensures
        forall|i: int|
            0 <= i < literals(targets, n).len() ==> (#[trigger] literals(targets, n)[i]).target < n,
    decreases n,
{
    if n > 0 {
        lemma_literals_in_range(targets, n - 1);
        let s = literals(targets, n);
        let t = literals(targets, n - 1);
        assert forall|i: int| 0 <= i < s.len() implies (#[trigger] s[i]).target < n by {
            if i < t.len() {
                assert(s[i] == t[i]);
            }
        }
    }
}

// What holds of every set of endpoints.

/// There is one endpoint per key, and the keys ascend.
pub proof fn endpoints_are_distinct(arr: Seq<Arrival>, i: int, j: int)
    requires
        0 <= i < j < endpoints_of(arr).len(),
    ensures
        crate::text::before(endpoints_of(arr)[i].key, endpoints_of(arr)[j].key),
        endpoints_of(arr)[i].key != endpoints_of(arr)[j].key,
{
    let keys = crate::table::distinct_names(arrival_keys(arr));
    crate::table::distinct_names_are_those_held(arrival_keys(arr));
    assert(crate::text::before(keys[i], keys[j]));
    crate::text::lemma_before_irreflexive(keys[i]);
}

/// Whatever arrives somewhere is listed there: the endpoint of its key has
/// its entry.
pub proof fn no_arrival_is_lost(arr: Seq<Arrival>, a: int) -> (i: int)
    requires
        0 <= a < arr.len(),
    ensures
        0 <= i < endpoints_of(arr).len(),
        endpoints_of(arr)[i].key == arr[a].key,
        endpoints_of(arr)[i].entries.contains(arr[a].entry),
{
    let keys = crate::table::distinct_names(arrival_keys(arr));
    crate::table::distinct_names_are_those_held(arrival_keys(arr));
    assert(arrival_keys(arr)[a] == arr[a].key);
    assert(arrival_keys(arr).contains(arr[a].key));
    let i = choose|i: int| 0 <= i < keys.len() && keys[i] == arr[a].key;
    lemma_gathered_has(arr, arr[a].key, a);
    i
}

pub proof fn lemma_first_place_bounds(s: Seq<usize>, x: usize)
    ensures
        0 <= first_place(s, x) <= s.len(),
        first_place(s, x) < s.len() <==> s.contains(x),
        first_place(s, x) < s.len() ==> s[first_place(s, x)] == x,
    decreases s.len(),
{
    if s.len() > 0 && s[0] != x {
        let t = s.drop_first();
        lemma_first_place_bounds(t, x);
        if t.contains(x) {
            let i = choose|i: int| 0 <= i < t.len() && t[i] == x;
            assert(s[i + 1] == x);
        }
        if s.contains(x) {
            let i = choose|i: int| 0 <= i < s.len() && s[i] == x;
            assert(t[i - 1] == x);
        }
    }
}

proof fn lemma_gathered_has(arr: Seq<Arrival>, key: Seq<char>, a: int)
    requires
        0 <= a < arr.len(),
        arr[a].key == key,
    ensures
        gathered(arr, key).0.contains(arr[a].entry),
    decreases arr.len(),
{
    let front = gathered(arr.drop_last(), key);
    let all = gathered(arr, key);
    let last = arr.last();
    if last.key == key {
        lemma_first_place_bounds(front.0, last.entry);
        if first_place(front.0, last.entry) < front.0.len() {
            assert(all.0 == front.0);
        } else {
            assert(all.0[front.0.len() as int] == last.entry);
        }
    }
    if a < arr.len() - 1 {
        lemma_gathered_has(arr.drop_last(), key, a);
        let i = choose|i: int| 0 <= i < front.0.len() && front.0[i] == arr[a].entry;
        assert(all.0[i] == arr[a].entry);
    }
}

pub proof fn lemma_gathered_sound(arr: Seq<Arrival>, key: Seq<char>)
    ensures
        gathered(arr, key).0.len() == gathered(arr, key).1.len(),
        gathered(arr, key).0.no_duplicates(),
        forall|e: usize| #[trigger]
            gathered(arr, key).0.contains(e) ==> exists|a: int|
                0 <= a < arr.len() && (#[trigger] arr[a]).entry == e && arr[a].key == key,
    decreases arr.len(),
{
    if arr.len() > 0 {
        let t = arr.drop_last();
        let last = arr.last();
        lemma_gathered_sound(t, key);
        let front = gathered(t, key);
        let all = gathered(arr, key);
        lemma_first_place_bounds(front.0, last.entry);
        assert forall|e: usize| #[trigger] all.0.contains(e) implies exists|a: int|
            0 <= a < arr.len() && (#[trigger] arr[a]).entry == e && arr[a].key == key by {
            if front.0.contains(e) {
                let a = choose|a: int|
                    0 <= a < t.len() && (#[trigger] t[a]).entry == e && t[a].key == key;
                assert(arr[a] == t[a]);
            } else {
                let i = choose|i: int| 0 <= i < all.0.len() && all.0[i] == e;
                if i < front.0.len() {
                    assert(front.0[i] == e);
                }
                assert(arr[arr.len() - 1].entry == e);
            }
        }
    }
}

/// An endpoint lists an entry at most once, with one weight for each, and
/// only entries that arrived at its key.
pub proof fn endpoints_list_their_arrivals(arr: Seq<Arrival>, i: int)
    requires
        0 <= i < endpoints_of(arr).len(),
    ensures
        endpoints_of(arr)[i].entries.len() == endpoints_of(arr)[i].weights.len(),
        endpoints_of(arr)[i].entries.no_duplicates(),
        forall|e: usize| #[trigger]
            endpoints_of(arr)[i].entries.contains(e) ==> exists|a: int|
                0 <= a < arr.len() && (#[trigger] arr[a]).entry == e && arr[a].key
                    == endpoints_of(arr)[i].key,
{
    lemma_gathered_sound(arr, endpoints_of(arr)[i].key);
}

proof fn lemma_recalled(target: TargetView, seen: Seq<(Seq<char>, u64)>, now: u64, a: int)
    requires
        0 <= a < recalled(target, seen, now).len(),
    ensures
        recalled(target, seen, now)[a].seen matches Some(t) && is_fresh(now, t),
        recalled(target, seen, now)[a].weight is None,
        recalled(target, seen, now)[a].entry == target.entry,
    decreases seen.len(),
{
    let front = recalled(target, seen.drop_last(), now);
    if a < front.len() {
        lemma_recalled(target, seen.drop_last(), now, a);
    }
}

proof fn lemma_recalled_arrivals(
    targets: Seq<TargetView>,
    looked: Seq<LookedView>,
    memory: Map<Seq<char>, Seq<(Seq<char>, u64)>>,
    now: u64,
    n: int,
    a: int,
)
    requires
        0 <= n <= targets.len(),
        0 <= a < recalled_arrivals(targets, looked, memory, now, n).len(),
    ensures
        recalled_arrivals(targets, looked, memory, now, n)[a].seen matches Some(t) && is_fresh(
            now,
            t,
        ),
        recalled_arrivals(targets, looked, memory, now, n)[a].weight is None,
        exists|t: int|
            0 <= t < n && #[trigger] is_plain_name(targets, looked, t) && targets[t].entry
                == recalled_arrivals(targets, looked, memory, now, n)[a].entry,
    decreases n,
{
    let front = recalled_arrivals(targets, looked, memory, now, n - 1);
    if a < front.len() {
        lemma_recalled_arrivals(targets, looked, memory, now, n - 1, a);
        let t = choose|t: int|
            0 <= t < n - 1 && #[trigger] is_plain_name(targets, looked, t) && targets[t].entry
                == front[a].entry;
        assert(is_plain_name(targets, looked, t));
    } else {
        lemma_recalled(
            targets[n - 1],
            memory_of(memory, targets[n - 1]),
            now,
            a - front.len(),
        );
        assert(is_plain_name(targets, looked, n - 1));
    }
}

proof fn lemma_looked_unseen(targets: Seq<TargetView>, looked: Seq<LookedView>, a: int)
    requires
        0 <= a < looked_arrivals(targets, looked).len(),
    ensures
        looked_arrivals(targets, looked)[a].seen is None,
    decreases looked.len(),
{
    let front = looked_arrivals(targets, looked.drop_last());
    if a < front.len() {
        lemma_looked_unseen(targets, looked.drop_last(), a);
    }
}

/// Where `key` first arrives.
proof fn lemma_comes_first(arr: Seq<Arrival>, key: Seq<char>) -> (a: int)
    requires
        arrival_keys(arr).contains(key),
    ensures
        0 <= a < arr.len(),
        first_arrival(arr, key) == arr[a],
        arr[a].key == key,
        forall|b: int| 0 <= b < a ==> (#[trigger] arr[b]).key != key,
    decreases arr.len(),
{
    let i = choose|i: int| 0 <= i < arrival_keys(arr).len() && arrival_keys(arr)[i] == key;
    if arr[0].key != key {
        let rest = arr.drop_first();
        assert(arrival_keys(rest)[i - 1] == key);
        let a = lemma_comes_first(rest, key);
        assert forall|b: int| 0 <= b < a + 1 implies (#[trigger] arr[b]).key != key by {
            if b > 0 {
                assert(rest[b - 1].key != key);
            }
        }
        a + 1
    } else {
        0
    }
}

/// A remembered endpoint was seen within the time that addresses are
/// remembered for, and no lookup of this run returned it.
pub proof fn only_fresh_addresses_are_remembered(
    targets: Seq<TargetView>,
    looked: Seq<LookedView>,
    memory: Memory<'_>,
    i: int,
)
    requires
        0 <= i < endpoints_of(arrivals(targets, looked, Some(memory))).len(),
        endpoints_of(arrivals(targets, looked, Some(memory)))[i].remembered,
    ensures
        endpoints_of(arrivals(targets, looked, Some(memory)))[i].last_seen matches Some(t)
            && is_fresh(memory.now, t),
        !arrival_keys(looked_arrivals(targets, looked)).contains(
            endpoints_of(arrivals(targets, looked, Some(memory)))[i].key,
        ),
{
    let arr = arrivals(targets, looked, Some(memory));
    let now = looked_arrivals(targets, looked);
    let keys = crate::table::distinct_names(arrival_keys(arr));
    crate::table::distinct_names_are_those_held(arrival_keys(arr));
    let key = keys[i];
    assert(keys.contains(key));
    let a = lemma_comes_first(arr, key);
    if a < now.len() {
        assert(arr[a] == now[a]);
        lemma_looked_unseen(targets, looked, a);
    }
    lemma_recalled_arrivals(
        targets,
        looked,
        memory_view(*memory.targets),
        memory.now,
        targets.len() as int,
        a - now.len(),
    );
    if arrival_keys(now).contains(key) {
        let b = choose|b: int| 0 <= b < arrival_keys(now).len() && arrival_keys(now)[b] == key;
        assert(arr[b] == now[b]);
    }
}

/// Without a memory nothing is remembered.
pub proof fn nothing_is_remembered_without_a_memory(
    targets: Seq<TargetView>,
    looked: Seq<LookedView>,
    i: int,
)
    requires
        0 <= i < endpoints_of(arrivals(targets, looked, None)).len(),
    ensures
        !endpoints_of(arrivals(targets, looked, None))[i].remembered,
{
    let arr = arrivals(targets, looked, None);
    let keys = crate::table::distinct_names(arrival_keys(arr));
    crate::table::distinct_names_are_those_held(arrival_keys(arr));
    assert(keys.contains(keys[i]));
    let a = lemma_comes_first(arr, keys[i]);
    lemma_looked_unseen(targets, looked, a);
}

} // verus!
