//! Relays and stake by the autonomous system that hosts them.

use vstd::prelude::*;

use crate::asn::{special_use, AsInfo, AsInfoView, AsnDb};
use crate::ip::Ip;
use crate::operators::{has_key, members};
use crate::probe::{outcome, outcomes_of, Outcome, OutcomeView};
use crate::reasons::find_addr;
use crate::resolve::{Endpoint, EndpointView, Entry};
use crate::sort::{sort, Ranked};
use crate::stake::{copy_sum, Share};
use crate::table::distinct;
use crate::text::{number, same};

verus! {

/// Relay entries hosted in one autonomous system, with each entry carrying an
/// equal share of its pool's stake.
#[derive(Clone, Debug)]
pub struct AsnGroup {
    /// The AS number, or `other`, `private`, `reserved`, `unrouted` or
    /// `unresolved` for the buckets.
    pub asn: String,
    pub name: String,
    pub relays: u64,
    pub relays_reachable: u64,
    pub stake: Vec<Share>,
    pub stake_reachable: Vec<Share>,
}

pub struct AsnGroupView {
    pub asn: Seq<char>,
    pub name: Seq<char>,
    pub relays: nat,
    pub relays_reachable: nat,
    pub stake: Seq<Share>,
    pub stake_reachable: Seq<Share>,
}

impl DeepView for AsnGroup {
    type V = AsnGroupView;

    open spec fn deep_view(&self) -> AsnGroupView {
        AsnGroupView {
            asn: self.asn@,
            name: self.name@,
            relays: self.relays as nat,
            relays_reachable: self.relays_reachable as nat,
            stake: self.stake@,
            stake_reachable: self.stake_reachable@,
        }
    }
}

impl AsnGroup {
    pub fn copy(&self) -> (r: Self)
        ensures
            r.deep_view() == self.deep_view(),
    {
        AsnGroup {
            asn: self.asn.clone(),
            name: self.name.clone(),
            relays: self.relays,
            relays_reachable: self.relays_reachable,
            stake: copy_sum(self.stake.as_slice()),
            stake_reachable: copy_sum(self.stake_reachable.as_slice()),
        }
    }
}

impl Ranked for AsnGroup {
    open spec fn ahead(&self, other: &Self) -> bool {
        self.relays > other.relays
    }

    fn is_ahead(&self, other: &Self) -> bool {
        self.relays > other.relays
    }
}

/// The address of an entry: the one that answered, or the first one it
/// resolved to.
pub open spec fn entry_ip(
    endpoints: Seq<EndpointView>,
    at: Seq<int>,
    best: Option<OutcomeView>,
) -> Option<Ip> {
    match best {
        Some(Ok(r)) => Some(r.peer.ip),
        _ => crate::reasons::first_addr(endpoints, at),
    }
}

/// What the database says of an address that may be absent.
pub open spec fn placed(db: AsnDb, ip: Option<Ip>) -> Option<AsInfoView> {
    match ip {
        Some(ip) => db.says(ip),
        None => None,
    }
}

/// The AS number of an entry, or a bucket for one that has none: `unresolved`
/// never got an address, `private` and `reserved` have one in special-use
/// space, `unrouted` has a public one no AS announces.
pub open spec fn network_key(db: AsnDb, ip: Option<Ip>) -> Seq<char> {
    match (placed(db, ip), ip) {
        (Some(a), _) => crate::text::decimal(a.asn as nat),
        (None, Some(ip)) => match crate::asn::use_of(ip) {
            Some(u) => u.name(),
            None => "unrouted"@,
        },
        (None, None) => "unresolved"@,
    }
}

/// The name of an entry's AS; a bucket is its own name.
pub open spec fn network_name(db: AsnDb, ip: Option<Ip>) -> Seq<char> {
    match placed(db, ip) {
        Some(a) => a.name,
        None => network_key(db, ip),
    }
}

/// The entries of a census, as far as their networks go.
pub struct Hosted {
    pub keys: Seq<Seq<char>>,
    pub names: Seq<Seq<char>>,
    pub reached: Seq<bool>,
    pub shares: Seq<Share>,
}

impl Hosted {
    /// The entries in the network `k`.
    pub open spec fn at(self, k: Seq<char>) -> Seq<int> {
        crate::count::select(self.keys.len() as int, has_key(self.keys, k))
    }

    /// The shares of those of the entries `at` that answered.
    pub open spec fn reachable(self, at: Seq<int>) -> Seq<Share>
        decreases at.len(),
    {
        if at.len() == 0 {
            Seq::empty()
        } else {
            let front = self.reachable(at.drop_last());
            if self.reached[at.last()] {
                front.push(self.shares[at.last()])
            } else {
                front
            }
        }
    }

    /// The group of the entries in the network `k`. It is named as its first
    /// entry is.
    pub open spec fn group(self, k: Seq<char>) -> AsnGroupView {
        let at = self.at(k);
        AsnGroupView {
            asn: k,
            name: self.names[at[0]],
            relays: at.len(),
            relays_reachable: self.reachable(at).len(),
            stake: crate::stake::terms(self.shares, at),
            stake_reachable: self.reachable(at),
        }
    }

    /// The groups of all networks, by key.
    pub open spec fn groups(self) -> Seq<AsnGroupView> {
        let names = crate::table::distinct_names(self.keys);
        Seq::new(names.len(), |i: int| self.group(names[i]))
    }

    /// Every AS seen, most relays first.
    pub open spec fn table(self) -> Seq<AsnGroupView> {
        crate::sort::sorted_by(self.groups(), more_relays())
    }
}

/// More relays first.
pub open spec fn more_relays() -> spec_fn(AsnGroupView, AsnGroupView) -> bool {
    |a: AsnGroupView, b: AsnGroupView| a.relays > b.relays
}

/// Is a group listed on its own? The buckets are, and the ASes that host at
/// least `min` relays.
pub open spec fn is_listed(g: AsnGroupView, min: usize) -> bool {
    g.asn == "private"@ || g.asn == "reserved"@ || g.asn == "unrouted"@ || g.asn == "unresolved"@
        || g.relays >= min
}

/// The groups listed on their own.
pub open spec fn listed(table: Seq<AsnGroupView>, min: usize) -> Seq<AsnGroupView>
    decreases table.len(),
{
    if table.len() == 0 {
        Seq::empty()
    } else if is_listed(table.last(), min) {
        listed(table.drop_last(), min).push(table.last())
    } else {
        listed(table.drop_last(), min)
    }
}

/// The groups not listed on their own, taken together.
pub open spec fn folded(table: Seq<AsnGroupView>, min: usize) -> AsnGroupView
    decreases table.len(),
{
    if table.len() == 0 {
        AsnGroupView {
            asn: "other"@,
            name: "other"@,
            relays: 0,
            relays_reachable: 0,
            stake: Seq::empty(),
            stake_reachable: Seq::empty(),
        }
    } else {
        let front = folded(table.drop_last(), min);
        let g = table.last();
        if is_listed(g, min) {
            front
        } else {
            AsnGroupView {
                relays: front.relays + g.relays,
                relays_reachable: front.relays_reachable + g.relays_reachable,
                stake: front.stake + g.stake,
                stake_reachable: front.stake_reachable + g.stake_reachable,
                ..front
            }
        }
    }
}

/// The groups for the metrics: small ASes folded into `other`.
pub open spec fn metrics_of(table: Seq<AsnGroupView>, min: usize) -> Seq<AsnGroupView> {
    if folded(table, min).relays > 0 {
        listed(table, min).push(folded(table, min))
    } else {
        listed(table, min)
    }
}

/// Where the entries are hosted.
pub open spec fn hosted(
    db: AsnDb,
    ips: Seq<Option<Ip>>,
    best: Seq<Option<OutcomeView>>,
    shares: Seq<Share>,
) -> Hosted {
    Hosted {
        keys: Seq::new(ips.len(), |i: int| network_key(db, ips[i])),
        names: Seq::new(ips.len(), |i: int| network_name(db, ips[i])),
        reached: Seq::new(ips.len(), |i: int| crate::outcomes::reached(best[i])),
        shares,
    }
}

/// The group of the entries at `at`, which are all of the network `key`.
fn gather(
    key: &String,
    names: &[String],
    reached: &[bool],
    shares: &[Share],
    at: &[usize],
    Ghost(h): Ghost<Hosted>,
) -> (g: AsnGroup)
    requires
        at.len() > 0,
        h.names == names.deep_view(),
        h.reached == reached@,
        h.shares == shares@,
        crate::histogram::places(at@) == h.at(key@),
        forall|i: int|
            0 <= i < at.len() ==> (#[trigger] at[i]) < names.len() && at[i] < reached.len()
                && at[i] < shares.len(),
    ensures
        g.deep_view() == h.group(key@),
        g.relays == g.stake.len(),
        g.relays_reachable == g.stake_reachable.len(),
{
    let ghost all = crate::histogram::places(at@);
    let mut stake: Vec<Share> = Vec::new();
    let mut stake_reachable: Vec<Share> = Vec::new();
    let mut i: usize = 0;
    assert(all.take(0) =~= Seq::<int>::empty());
    assert(stake@ =~= crate::stake::terms(h.shares, all.take(0)));
    while i < at.len()
        invariant
            i <= at.len(),
            all == crate::histogram::places(at@),
            h.reached == reached@,
            h.shares == shares@,
            forall|i: int|
                0 <= i < at.len() ==> (#[trigger] at[i]) < names.len() && at[i] < reached.len()
                    && at[i] < shares.len(),
            stake@ == crate::stake::terms(h.shares, all.take(i as int)),
            stake_reachable@ == h.reachable(all.take(i as int)),
        decreases at.len() - i,
    {
        let e: usize = at[i];
        assert(all.take(i + 1).drop_last() =~= all.take(i as int));
        assert(all.take(i + 1).last() == e);
        stake.push(shares[e]);
        assert(stake@ =~= crate::stake::terms(h.shares, all.take(i + 1)));
        if reached[e] {
            stake_reachable.push(shares[e]);
        }
        i += 1;
    }
    assert(all.take(i as int) =~= all);
    assert(all[0] == at[0]);
    assert(names.deep_view()[at[0] as int] == names[at[0] as int]@);
    AsnGroup {
        asn: key.clone(),
        name: names[at[0]].clone(),
        relays: stake.len() as u64,
        relays_reachable: stake_reachable.len() as u64,
        stake,
        stake_reachable,
    }
}

/// Append a sum to another.
fn add_sum(v: &mut Vec<Share>, more: &[Share])
    ensures
        final(v)@ == old(v)@ + more@,
{
    let ghost start = v@;
    let mut i: usize = 0;
    assert(start + more@.take(0) =~= start);
    while i < more.len()
        invariant
            i <= more.len(),
            v@ == start + more@.take(i as int),
        decreases more.len() - i,
    {
        v.push(more[i]);
        assert(start + more@.take(i + 1) =~= (start + more@.take(i as int)).push(more[i as int]));
        i += 1;
    }
    assert(more@.take(i as int) =~= more@);
}

fn keeps(g: &AsnGroup, min: usize) -> (r: bool)
    ensures
        r == is_listed(g.deep_view(), min),
{
    same(g.asn.as_str(), "private") || same(g.asn.as_str(), "reserved") || same(
        g.asn.as_str(),
        "unrouted",
    ) || same(g.asn.as_str(), "unresolved") || g.relays >= min as u64
}

/// Fold small ASes into `other`.
fn fold_small(table: &[AsnGroup], min: usize) -> (out: Vec<AsnGroup>)
    requires
        forall|i: int|
            0 <= i < table.len() ==> (#[trigger] table[i]).relays == table[i].stake.len()
                && table[i].relays_reachable == table[i].stake_reachable.len(),
    ensures
        out.deep_view() == metrics_of(table.deep_view(), min),
{
    let ghost all = table.deep_view();
    let mut out: Vec<AsnGroup> = Vec::new();
    let mut stake: Vec<Share> = Vec::new();
    let mut stake_reachable: Vec<Share> = Vec::new();
    let mut i: usize = 0;
    assert(all.take(0) =~= Seq::<AsnGroupView>::empty());
    assert(out.deep_view() =~= Seq::<AsnGroupView>::empty());
    assert(stake@ =~= Seq::<Share>::empty());
    assert(stake_reachable@ =~= Seq::<Share>::empty());
    while i < table.len()
        invariant
            i <= table.len(),
            all == table.deep_view(),
            forall|i: int|
                0 <= i < table.len() ==> (#[trigger] table[i]).relays == table[i].stake.len()
                    && table[i].relays_reachable == table[i].stake_reachable.len(),
            out.deep_view() == listed(all.take(i as int), min),
            ({
                let f = folded(all.take(i as int), min);
                &&& f.stake == stake@
                &&& f.stake_reachable == stake_reachable@
                &&& f.relays == stake.len()
                &&& f.relays_reachable == stake_reachable.len()
                &&& f.asn == "other"@
                &&& f.name == "other"@
            }),
        decreases table.len() - i,
    {
        assert(all.take(i + 1).drop_last() =~= all.take(i as int));
        assert(all.take(i + 1).last() == table[i as int].deep_view());
        if keeps(&table[i], min) {
            let ghost front = out.deep_view();
            let g = table[i].copy();
            out.push(g);
            assert(out.deep_view() =~= front.push(g.deep_view()));
        } else {
            add_sum(&mut stake, table[i].stake.as_slice());
            add_sum(&mut stake_reachable, table[i].stake_reachable.as_slice());
        }
        i += 1;
    }
    assert(all.take(i as int) =~= all);
    if stake.len() > 0 {
        let ghost front = out.deep_view();
        let g = AsnGroup {
            asn: "other".to_owned(),
            name: "other".to_owned(),
            relays: stake.len() as u64,
            relays_reachable: stake_reachable.len() as u64,
            stake,
            stake_reachable,
        };
        out.push(g);
        assert(out.deep_view() =~= front.push(g.deep_view()));
    }
    out
}

/// The addresses of all entries.
pub open spec fn entry_ips(
    endpoints: Seq<EndpointView>,
    best: Seq<Option<OutcomeView>>,
    entries: nat,
) -> Seq<Option<Ip>> {
    Seq::new(
        entries,
        |e: int| entry_ip(endpoints, crate::outcomes::found_at(endpoints, e as usize), best[e]),
    )
}

/// Per entry, the AS that it is placed in.
pub open spec fn placements(db: Option<&AsnDb>, ips: Seq<Option<Ip>>) -> Seq<Option<AsInfoView>> {
    Seq::new(
        ips.len(),
        |e: int|
            match db {
                Some(d) => placed(*d, ips[e]),
                None => None,
            },
    )
}

/// Place every entry in an AS by the address that answered, or the first
/// address it resolved to, and total relays and stake per AS. The metrics
/// view folds ASes hosting fewer than `min_relays` entries into `other`;
/// entries with no address land in `unresolved`, those whose address no AS
/// announces in `unrouted`. Without a database nothing is placed or totalled.
pub fn asn_groups(
    entries: &[Entry],
    endpoints: &[Endpoint],
    entry_endpoints: &[Vec<usize>],
    entry_outcome: &[Option<Outcome>],
    shares: &[Share],
    asn_db: Option<&AsnDb>,
    min_relays: usize,
) -> (r: (Vec<Option<AsInfo>>, Vec<AsnGroup>, Vec<AsnGroup>))
    requires
        entry_endpoints.len() == entries.len(),
        entry_outcome.len() == entries.len(),
        shares.len() == entries.len(),
        asn_db matches Some(d) ==> d.wf(),
        forall|e: int|
            0 <= e < entries.len() ==> crate::histogram::places((#[trigger] entry_endpoints[e])@)
                == crate::outcomes::found_at(endpoints.deep_view(), e as usize),
    ensures
        ({
            let best = outcomes_of(entry_outcome@);
            let ips = entry_ips(endpoints.deep_view(), best, entries.len() as nat);
            &&& r.0.deep_view() == placements(asn_db, ips)
            &&& match asn_db {
                Some(d) => {
                    let h = hosted(*d, ips, best, shares@);
                    &&& r.1.deep_view() == h.table()
                    &&& r.2.deep_view() == metrics_of(h.table(), min_relays)
                },
                None => r.1.len() == 0 && r.2.len() == 0,
            }
        }),
{
    let ghost eps = endpoints.deep_view();
    let ghost best = outcomes_of(entry_outcome@);
    let ghost ips = entry_ips(eps, best, entries.len() as nat);
    let mut placed_in: Vec<Option<AsInfo>> = Vec::new();
    let db = match asn_db {
        Some(d) => d,
        None => {
            let mut i: usize = 0;
            while i < entries.len()
                invariant
                    i <= entries.len(),
                    placed_in.len() == i,
                    forall|e: int| 0 <= e < i ==> (#[trigger] placed_in[e]) is None,
                decreases entries.len() - i,
            {
                placed_in.push(None);
                i += 1;
            }
            assert(placed_in.deep_view() =~= placements(asn_db, ips));
            return (placed_in, Vec::new(), Vec::new());
        },
    };
    let ghost h = hosted(*db, ips, best, shares@);
    let mut keys: Vec<String> = Vec::new();
    let mut names: Vec<String> = Vec::new();
    let mut reached: Vec<bool> = Vec::new();
    let mut i: usize = 0;
    while i < entries.len()
        invariant
            i <= entries.len(),
            entry_endpoints.len() == entries.len(),
            entry_outcome.len() == entries.len(),
            db.wf(),
            eps == endpoints.deep_view(),
            best == outcomes_of(entry_outcome@),
            ips == entry_ips(eps, best, entries.len() as nat),
            h == hosted(*db, ips, best, shares@),
            forall|e: int|
                0 <= e < entries.len() ==> crate::histogram::places(
                    (#[trigger] entry_endpoints[e])@,
                ) == crate::outcomes::found_at(eps, e as usize),
            placed_in.len() == i,
            keys.len() == i,
            names.len() == i,
            reached.len() == i,
            forall|e: int|
                0 <= e < i ==> (#[trigger] placed_in[e]).deep_view() == placed(*db, ips[e]),
            forall|e: int| 0 <= e < i ==> (#[trigger] keys[e])@ == h.keys[e],
            forall|e: int| 0 <= e < i ==> (#[trigger] names[e])@ == h.names[e],
            forall|e: int| 0 <= e < i ==> (#[trigger] reached[e]) == h.reached[e],
        decreases entries.len() - i,
    {
        assert(best[i as int] == match entry_outcome[i as int] {
            Some(o) => Some(outcome(o)),
            None => None,
        });
        let at = entry_endpoints[i].as_slice();
        proof {
            crate::count::lemma_select(eps.len() as int, crate::outcomes::lists(eps, i));
            assert(crate::histogram::places(at@) == crate::outcomes::found_at(eps, i));
            assert forall|j: int| 0 <= j < at.len() implies (#[trigger] at[j]) < endpoints.len() by {
                assert(crate::histogram::places(at@)[j] == at[j]);
            }
        }
        let (ip, ok): (Option<Ip>, bool) = match &entry_outcome[i] {
            Some(Ok(r)) => (Some(r.peer.ip), true),
            _ => (find_addr(endpoints, at), false),
        };
        assert(ip == ips[i as int]);
        let info: Option<AsInfo> = match ip {
            Some(a) => match db.lookup(a) {
                Some(x) => Some(x.copy()),
                None => None,
            },
            None => None,
        };
        assert(info.deep_view() == placed(*db, ips[i as int]));
        let (key, name): (String, String) = match (&info, ip) {
            (Some(a), _) => (number(a.asn as u64), a.name.clone()),
            (None, Some(a)) => match special_use(a) {
                Some(u) => (u.label().to_owned(), u.label().to_owned()),
                None => ("unrouted".to_owned(), "unrouted".to_owned()),
            },
            (None, None) => ("unresolved".to_owned(), "unresolved".to_owned()),
        };
        placed_in.push(info);
        keys.push(key);
        names.push(name);
        reached.push(ok);
        i += 1;
    }
    assert(placed_in.deep_view() =~= placements(asn_db, ips));
    assert(keys.deep_view() =~= h.keys);
    assert(names.deep_view() =~= h.names);
    assert(reached@ =~= h.reached);
    let order = distinct(keys.as_slice());
    let ghost sorted_keys = order.deep_view();
    proof {
        crate::table::distinct_names_are_those_held(h.keys);
    }
    let mut groups: Vec<AsnGroup> = Vec::new();
    let mut i: usize = 0;
    while i < order.len()
        invariant
            i <= order.len(),
            sorted_keys == order.deep_view(),
            keys.deep_view() == h.keys,
            names.deep_view() == h.names,
            reached@ == h.reached,
            shares@ == h.shares,
            keys.len() == entries.len(),
            names.len() == entries.len(),
            reached.len() == entries.len(),
            shares.len() == entries.len(),
            forall|k: Seq<char>| sorted_keys.contains(k) ==> #[trigger] h.keys.contains(k),
            groups.len() == i,
            forall|j: int|
                0 <= j < i ==> (#[trigger] groups[j]).deep_view() == h.group(sorted_keys[j])
                    && groups[j].relays == groups[j].stake.len() && groups[j].relays_reachable
                    == groups[j].stake_reachable.len(),
        decreases order.len() - i,
    {
        let ghost k = sorted_keys[i as int];
        assert(k == order[i as int]@);
        let at = members(keys.as_slice(), &order[i]);
        proof {
            assert(sorted_keys.contains(k));
            assert(h.keys.contains(k));
            let j = choose|j: int| 0 <= j < h.keys.len() && h.keys[j] == k;
            crate::count::lemma_select(h.keys.len() as int, has_key(h.keys, k));
            assert(has_key(h.keys, k)(j));
            assert(h.at(k).contains(j));
            assert(at.len() == crate::histogram::places(at@).len());
        }
        let g = gather(
            &order[i],
            names.as_slice(),
            reached.as_slice(),
            shares,
            at.as_slice(),
            Ghost(h),
        );
        groups.push(g);
        i += 1;
    }
    assert(groups.deep_view() =~= h.groups());
    let ghost unsorted = groups@;
    let table = sort(groups);
    proof {
        let f = |g: AsnGroup| g.deep_view();
        crate::sort::lemma_sorted_map(unsorted, f, more_relays());
        assert(unsorted.map_values(f) =~= h.groups());
        assert(table@.map_values(f) =~= table.deep_view());
        crate::sort::sorting_keeps_every_value(unsorted);
        assert forall|i: int| 0 <= i < table.len() implies (#[trigger] table[i]).relays
            == table[i].stake.len() && table[i].relays_reachable == table[i].stake_reachable.len() by {
            let j = crate::sort::lemma_sorted_from(unsorted, i);
            assert(unsorted[j] == table[i]);
        }
    }
    let metrics = fold_small(table.as_slice(), min_relays);
    (placed_in, table, metrics)
}

// What holds of the groups.

/// The relays of all groups.
pub open spec fn relays_in(table: Seq<AsnGroupView>) -> nat
    decreases table.len(),
{
    if table.len() == 0 {
        0
    } else {
        relays_in(table.drop_last()) + table.last().relays
    }
}

/// The answering relays of all groups.
pub open spec fn reachable_in(table: Seq<AsnGroupView>) -> nat
    decreases table.len(),
{
    if table.len() == 0 {
        0
    } else {
        reachable_in(table.drop_last()) + table.last().relays_reachable
    }
}

proof fn lemma_relays_push(table: Seq<AsnGroupView>, g: AsnGroupView)
    ensures
        relays_in(table.push(g)) == relays_in(table) + g.relays,
        reachable_in(table.push(g)) == reachable_in(table) + g.relays_reachable,
{
    assert(table.push(g).drop_last() =~= table);
}

proof fn lemma_relays_inserted(
    s: Seq<AsnGroupView>,
    g: AsnGroupView,
    ahead: spec_fn(AsnGroupView, AsnGroupView) -> bool,
)
    ensures
        relays_in(crate::sort::inserted_by(s, g, ahead)) == relays_in(s) + g.relays,
    decreases s.len(),
{
    if s.len() > 0 && ahead(g, s.last()) {
        lemma_relays_inserted(s.drop_last(), g, ahead);
        lemma_relays_push(crate::sort::inserted_by(s.drop_last(), g, ahead), s.last());
    } else {
        lemma_relays_push(s, g);
    }
}

proof fn lemma_relays_sorted(
    s: Seq<AsnGroupView>,
    ahead: spec_fn(AsnGroupView, AsnGroupView) -> bool,
)
    ensures
        relays_in(crate::sort::sorted_by(s, ahead)) == relays_in(s),
    decreases s.len(),
{
    if s.len() > 0 {
        lemma_relays_sorted(s.drop_last(), ahead);
        lemma_relays_inserted(crate::sort::sorted_by(s.drop_last(), ahead), s.last(), ahead);
    }
}

/// How many of the first `n` entries are in each network.
spec fn sizes(h: Hosted, n: int) -> spec_fn(int) -> nat {
    |i: int| crate::count::count(n, has_key(h.keys, crate::table::distinct_names(h.keys)[i]))
}

proof fn lemma_sizes(h: Hosted, n: int)
    requires
        0 <= n <= h.keys.len(),
    ensures
        crate::count::sum_below(
            crate::table::distinct_names(h.keys).len() as int,
            sizes(h, n),
        ) == n,
    decreases n,
{
    let names = crate::table::distinct_names(h.keys);
    let m = names.len() as int;
    if n == 0 {
        lemma_no_sizes(h, m);
    } else {
        lemma_sizes(h, n - 1);
        let k = h.keys[n - 1];
        crate::table::distinct_names_are_those_held(h.keys);
        assert(h.keys.contains(k));
        let q = names.index_of(k);
        assert forall|i: int| 0 <= i < m implies #[trigger] sizes(h, n)(i) == sizes(h, n - 1)(i)
            + if i == q {
            1nat
        } else {
            0
        } by {
            if names[i] == names[q] {
                crate::table::lemma_ascending_distinct(names, i, q);
            }
        }
        crate::count::lemma_sum_step(m, sizes(h, n), sizes(h, n - 1), q);
    }
}

proof fn lemma_no_sizes(h: Hosted, m: int)
    ensures
        crate::count::sum_below(m, sizes(h, 0)) == 0,
    decreases m,
{
    if m > 0 {
        lemma_no_sizes(h, m - 1);
    }
}

proof fn lemma_relays_of_groups(h: Hosted, m: int)
    requires
        0 <= m <= h.groups().len(),
    ensures
        relays_in(h.groups().take(m)) == crate::count::sum_below(
            m,
            sizes(h, h.keys.len() as int),
        ),
    decreases m,
{
    if m > 0 {
        lemma_relays_of_groups(h, m - 1);
        assert(h.groups().take(m).drop_last() =~= h.groups().take(m - 1));
        assert(h.groups()[m - 1].relays == sizes(h, h.keys.len() as int)(m - 1));
    }
}

/// Every entry is in one network: the relays of the table add up to all.
pub proof fn networks_share_out_the_entries(h: Hosted)
    ensures
        relays_in(h.table()) == h.keys.len(),
{
    lemma_sizes(h, h.keys.len() as int);
    lemma_relays_of_groups(h, h.groups().len() as int);
    assert(h.groups().take(h.groups().len() as int) =~= h.groups());
    lemma_relays_sorted(h.groups(), more_relays());
}

/// The table goes from more relays to fewer.
pub proof fn larger_networks_lead(h: Hosted, i: int, j: int)
    requires
        0 <= i < j < h.table().len(),
    ensures
        h.table()[i].relays >= h.table()[j].relays,
{
    assert(crate::sort::ranks_all(more_relays()));
    crate::sort::sorted_by_is_in_order(h.groups(), more_relays());
    assert(!more_relays()(h.table()[j], h.table()[i]));
}

proof fn lemma_folded(table: Seq<AsnGroupView>, min: usize)
    ensures
        relays_in(listed(table, min)) + folded(table, min).relays == relays_in(table),
        reachable_in(listed(table, min)) + folded(table, min).relays_reachable == reachable_in(
            table,
        ),
    decreases table.len(),
{
    if table.len() > 0 {
        lemma_folded(table.drop_last(), min);
        if is_listed(table.last(), min) {
            lemma_relays_push(listed(table.drop_last(), min), table.last());
        }
    }
}

/// Do no more relays of each network answer than it hosts?
pub open spec fn answers_fit(table: Seq<AsnGroupView>) -> bool {
    forall|i: int|
        0 <= i < table.len() ==> (#[trigger] table[i]).relays_reachable <= table[i].relays
}

proof fn lemma_live_at_most(h: Hosted, at: Seq<int>)
    ensures
        h.reachable(at).len() <= at.len(),
    decreases at.len(),
{
    if at.len() > 0 {
        lemma_live_at_most(h, at.drop_last());
    }
}

/// No more relays of a network answer than it hosts.
pub proof fn networks_answer_with_what_they_host(h: Hosted)
    ensures
        answers_fit(h.table()),
{
    let table = h.table();
    assert forall|i: int| 0 <= i < table.len() implies (#[trigger] table[i]).relays_reachable
        <= table[i].relays by {
        let j = crate::sort::lemma_sorted_by_from(h.groups(), more_relays(), i);
        lemma_live_at_most(h, h.at(crate::table::distinct_names(h.keys)[j]));
    }
}

proof fn lemma_folded_fits(table: Seq<AsnGroupView>, min: usize)
    requires
        answers_fit(table),
    ensures
        folded(table, min).relays_reachable <= folded(table, min).relays,
    decreases table.len(),
{
    if table.len() > 0 {
        let front = table.drop_last();
        assert forall|i: int| 0 <= i < front.len() implies (#[trigger] front[i]).relays_reachable
            <= front[i].relays by {
            assert(front[i] == table[i]);
        }
        lemma_folded_fits(front, min);
        assert(table[table.len() - 1] == table.last());
    }
}

/// Folding small networks loses no relay, nor one that answered.
pub proof fn folding_keeps_every_relay(table: Seq<AsnGroupView>, min: usize)
    requires
        answers_fit(table),
    ensures
        relays_in(metrics_of(table, min)) == relays_in(table),
        reachable_in(metrics_of(table, min)) == reachable_in(table),
{
    lemma_folded(table, min);
    lemma_folded_fits(table, min);
    lemma_relays_push(listed(table, min), folded(table, min));
}

} // verus!
