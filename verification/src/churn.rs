//! Run-to-run churn: which relays changed state or network since the last
//! report, read from the previous report before it is overwritten.

use vstd::prelude::*;

use crate::asn::{AsInfo, AsInfoView};
use crate::pools::relay_key;
use crate::probe::{outcome, outcomes_of, Outcome, OutcomeView};
use crate::resolve::{Entry, EntryView};
use crate::stake::Share;
use crate::table::Table;

verus! {

#[derive(Clone, Copy, Debug, PartialEq, Eq, Structural)]
pub struct PrevState {
    pub reachable: bool,
    pub asn: Option<u32>,
}

/// Relay states from the previous report, keyed like the pool index keys relays.
pub struct Previous {
    pub by_key: Table<PrevState>,
    pub timestamp_seconds: u64,
}

/// One relay of the previous report.
#[derive(Clone, Debug)]
pub struct PrevRelay {
    pub address: String,
    pub port: Option<u16>,
    pub reachable: bool,
    pub asn: Option<u32>,
}

pub struct PrevRelayView {
    pub address: Seq<char>,
    pub port: Option<u16>,
    pub reachable: bool,
    pub asn: Option<u32>,
}

impl DeepView for PrevRelay {
    type V = PrevRelayView;

    open spec fn deep_view(&self) -> PrevRelayView {
        PrevRelayView {
            address: self.address@,
            port: self.port,
            reachable: self.reachable,
            asn: self.asn,
        }
    }
}

/// What the previous report says of each relay. Every pool listing the same
/// relay saw the same result, so the first one counts.
pub open spec fn states_of(relays: Seq<PrevRelayView>) -> Map<Seq<char>, PrevState>
    decreases relays.len(),
{
    if relays.len() == 0 {
        Map::empty()
    } else {
        let front = states_of(relays.drop_last());
        let r = relays.last();
        let key = crate::pools::key_of(r.address, r.port);
        if front.contains_key(key) {
            front
        } else {
            front.insert(key, PrevState { reachable: r.reachable, asn: r.asn })
        }
    }
}

impl Previous {
    pub open spec fn wf(&self) -> bool {
        self.by_key.wf()
    }

    pub fn from_relays(relays: &[PrevRelay], timestamp_seconds: u64) -> (p: Self)
        ensures
            p.wf(),
            p.by_key@ == states_of(relays.deep_view()),
            p.timestamp_seconds == timestamp_seconds,
    {
        let ghost all = relays.deep_view();
        let mut by_key: Table<PrevState> = Table::new();
        let mut i: usize = 0;
        assert(all.take(0) =~= Seq::empty());
        while i < relays.len()
            invariant
                i <= relays.len(),
                all == relays.deep_view(),
                by_key.wf(),
                by_key@ == states_of(all.take(i as int)),
            decreases relays.len() - i,
        {
            assert(all.take(i + 1).drop_last() =~= all.take(i as int));
            assert(all.take(i + 1).last() == relays[i as int].deep_view());
            let key = relay_key(relays[i].address.as_str(), relays[i].port);
            let state = PrevState { reachable: relays[i].reachable, asn: relays[i].asn };
            let _ = by_key.slot(key.as_str(), state);
            i += 1;
        }
        assert(all.take(i as int) =~= all);
        Previous { by_key, timestamp_seconds }
    }
}

/// What one relay did since the last run.
#[derive(Clone, Copy, Debug, PartialEq, Eq, Structural)]
pub enum Change {
    BecameReachable,
    BecameUnreachable,
}

#[derive(Clone, Debug)]
pub struct Churn {
    pub previous_timestamp_seconds: u64,
    /// Distinct relays that changed state, and the stake behind them with each
    /// pool split evenly over its relays.
    pub to_reachable: u64,
    pub to_unreachable: u64,
    pub stake_to_reachable: Vec<Share>,
    pub stake_to_unreachable: Vec<Share>,
    /// Distinct relays that resolved into a different autonomous system.
    pub moved_network: u64,
}

/// This run and the previous one, entry by entry.
pub struct Runs {
    /// The entries' keys.
    pub keys: Seq<Seq<char>>,
    pub previous: Map<Seq<char>, PrevState>,
    /// Which entries answered in this run, and where they are.
    pub reached: Seq<bool>,
    pub asn: Seq<Option<u32>>,
}

/// The keys of entries.
pub open spec fn entry_keys(entries: Seq<EntryView>) -> Seq<Seq<char>> {
    Seq::new(entries.len(), |i: int| crate::pools::key_of(entries[i].address, entries[i].port))
}

/// Which entries answered.
pub open spec fn answered(best: Seq<Option<OutcomeView>>) -> Seq<bool> {
    Seq::new(best.len(), |i: int| best[i] matches Some(Ok(_)))
}

/// The numbers of the autonomous systems.
pub open spec fn numbers(asn: Seq<Option<AsInfoView>>) -> Seq<Option<u32>> {
    Seq::new(
        asn.len(),
        |i: int|
            match asn[i] {
                Some(a) => Some(a.asn),
                None => None,
            },
    )
}

impl Runs {
    /// Was the relay of entry `i` in the previous report?
    pub open spec fn known(self, i: int) -> bool {
        self.previous.contains_key(self.keys[i])
    }

    /// What the relay of entry `i` did since. A relay absent from the previous
    /// report is new to the snapshot and did neither.
    pub open spec fn change(self, i: int) -> Option<Change> {
        if !self.known(i) {
            None
        } else {
            match (self.previous[self.keys[i]].reachable, self.reached[i]) {
                (false, true) => Some(Change::BecameReachable),
                (true, false) => Some(Change::BecameUnreachable),
                _ => None,
            }
        }
    }

    /// Is entry `i` the first one of its relay?
    pub open spec fn first(self, i: int) -> bool {
        forall|j: int| 0 <= j < i ==> #[trigger] self.keys[j] != self.keys[i]
    }

    /// Is the relay of entry `i` in another autonomous system than before?
    pub open spec fn moved(self, i: int) -> bool {
        &&& self.known(i)
        &&& self.previous[self.keys[i]].asn matches Some(a)
        &&& self.asn[i] matches Some(b)
        &&& a != b
    }

    /// The entries that changed in the way `c`.
    pub open spec fn changed(self, c: Change) -> spec_fn(int) -> bool {
        |i: int| self.change(i) == Some(c)
    }

    /// The relays that changed in the way `c`, each by its first entry.
    pub open spec fn relay_changed(self, c: Change) -> spec_fn(int) -> bool {
        |i: int| self.first(i) && self.change(i) == Some(c)
    }

    /// The relays that moved, each by its first entry.
    pub open spec fn relay_moved(self) -> spec_fn(int) -> bool {
        |i: int| self.first(i) && self.moved(i)
    }
}

/// Do `c` and `changes` say how the runs differ? `shares` is the stake behind
/// each entry: it counts per entry, the relay itself once.
pub open spec fn is_diff(
    c: Churn,
    changes: Seq<Option<Change>>,
    runs: Runs,
    shares: Seq<Share>,
    previous_timestamp_seconds: u64,
) -> bool {
    let n = runs.keys.len() as int;
    let up = Change::BecameReachable;
    let down = Change::BecameUnreachable;
    &&& c.previous_timestamp_seconds == previous_timestamp_seconds
    &&& c.to_reachable == crate::count::count(n, runs.relay_changed(up))
    &&& c.to_unreachable == crate::count::count(n, runs.relay_changed(down))
    &&& c.stake_to_reachable@ == crate::stake::terms(
        shares,
        crate::count::select(n, runs.changed(up)),
    )
    &&& c.stake_to_unreachable@ == crate::stake::terms(
        shares,
        crate::count::select(n, runs.changed(down)),
    )
    &&& c.moved_network == crate::count::count(n, runs.relay_moved())
    &&& changes == Seq::new(runs.keys.len(), |i: int| runs.change(i))
}

/// Diff this run against the previous one. Relays absent from the previous
/// report are new to the snapshot and count as neither. `shares` is the stake
/// behind each entry: it counts per entry, the relay itself once.
pub fn diff(
    prev: &Previous,
    entries: &[Entry],
    entry_outcome: &[Option<Outcome>],
    entry_asn: &[Option<AsInfo>],
    shares: &[Share],
) -> (r: (Churn, Vec<Option<Change>>))
    requires
        prev.wf(),
        entry_outcome.len() >= entries.len(),
        entry_asn.len() >= entries.len(),
        shares.len() >= entries.len(),
    ensures
        is_diff(
            r.0,
            r.1@,
            Runs {
                keys: entry_keys(entries.deep_view()),
                previous: prev.by_key@,
                reached: answered(outcomes_of(entry_outcome@)),
                asn: numbers(entry_asn.deep_view()),
            },
            shares@,
            prev.timestamp_seconds,
        ),
{
    let ghost runs = Runs {
        keys: entry_keys(entries.deep_view()),
        previous: prev.by_key@,
        reached: answered(outcomes_of(entry_outcome@)),
        asn: numbers(entry_asn.deep_view()),
    };
    let ghost up = Change::BecameReachable;
    let ghost down = Change::BecameUnreachable;
    let mut to_reachable: u64 = 0;
    let mut to_unreachable: u64 = 0;
    let mut moved_network: u64 = 0;
    let mut stake_up: Vec<Share> = Vec::new();
    let mut stake_down: Vec<Share> = Vec::new();
    let mut changes: Vec<Option<Change>> = Vec::new();
    let mut seen: Table<u8> = Table::new();
    let mut i: usize = 0;
    while i < entries.len()
        invariant
            i <= entries.len(),
            prev.wf(),
            seen.wf(),
            entry_outcome.len() >= entries.len(),
            entry_asn.len() >= entries.len(),
            shares.len() >= entries.len(),
            runs.keys == entry_keys(entries.deep_view()),
            runs.previous == prev.by_key@,
            runs.reached == answered(outcomes_of(entry_outcome@)),
            runs.asn == numbers(entry_asn.deep_view()),
            up == Change::BecameReachable,
            down == Change::BecameUnreachable,
            to_reachable <= i,
            to_unreachable <= i,
            moved_network <= i,
            to_reachable == crate::count::count(i as int, runs.relay_changed(up)),
            to_unreachable == crate::count::count(i as int, runs.relay_changed(down)),
            moved_network == crate::count::count(i as int, runs.relay_moved()),
            stake_up@ == crate::stake::terms(
                shares@,
                crate::count::select(i as int, runs.changed(up)),
            ),
            stake_down@ == crate::stake::terms(
                shares@,
                crate::count::select(i as int, runs.changed(down)),
            ),
            changes.len() == i,
            forall|j: int| 0 <= j < i ==> changes[j] == runs.change(j),
            forall|k: Seq<char>| #[trigger]
                seen@.contains_key(k) <==> exists|j: int|
                    0 <= j < i && #[trigger] runs.keys[j] == k && runs.known(j),
        decreases entries.len() - i,
    {
        let key = relay_key(entries[i].address.as_str(), entries[i].port);
        assert(entries.deep_view()[i as int] == entries[i as int].deep_view());
        assert(runs.keys[i as int] == key@);
        let ghost up_terms = stake_up@;
        let ghost down_terms = stake_down@;
        let mut change: Option<Change> = None;
        if let Some(p) = prev.by_key.get(key.as_str()) {
            let reached = matches!(entry_outcome[i], Some(Ok(_)));
            assert(outcomes_of(entry_outcome@)[i as int] == match entry_outcome[i as int] {
                Some(o) => Some(outcome(o)),
                None => None,
            });
            assert(reached == runs.reached[i as int]);
            if !p.reachable && reached {
                change = Some(Change::BecameReachable);
                stake_up.push(shares[i]);
            } else if p.reachable && !reached {
                change = Some(Change::BecameUnreachable);
                stake_down.push(shares[i]);
            }
            assert(change == runs.change(i as int));
            let (old_one, _) = seen.find(key.as_str());
            proof {
                if !old_one {
                    assert forall|j: int| 0 <= j < i implies #[trigger] runs.keys[j] != key@ by {
                        if runs.keys[j] == key@ {
                            assert(runs.known(j));
                            assert(seen@.contains_key(key@));
                        }
                    }
                }
                assert(runs.first(i as int) == !old_one);
            }
            if !old_one {
                match change {
                    Some(Change::BecameReachable) => {
                        to_reachable += 1;
                    },
                    Some(Change::BecameUnreachable) => {
                        to_unreachable += 1;
                    },
                    None => {},
                }
                let now: Option<u32> = match &entry_asn[i] {
                    Some(a) => Some(a.asn),
                    None => None,
                };
                assert(entry_asn.deep_view()[i as int] == entry_asn[i as int].deep_view());
                assert(now == runs.asn[i as int]);
                if let (Some(a), Some(b)) = (p.asn, now) {
                    if a != b {
                        moved_network += 1;
                    }
                }
            }
            let ghost before = seen@;
            let _ = seen.slot(key.as_str(), 0);
            assert forall|k: Seq<char>| #[trigger] seen@.contains_key(k) <==> exists|j: int|
                0 <= j < i + 1 && #[trigger] runs.keys[j] == k && runs.known(j) by {
                if seen@.contains_key(k) {
                    if before.contains_key(k) {
                        let j = choose|j: int|
                            0 <= j < i && #[trigger] runs.keys[j] == k && runs.known(j);
                        assert(runs.keys[j] == k);
                    } else {
                        assert(runs.keys[i as int] == k && runs.known(i as int));
                    }
                }
            }
        } else {
            assert forall|k: Seq<char>| #[trigger] seen@.contains_key(k) <==> exists|j: int|
                0 <= j < i + 1 && #[trigger] runs.keys[j] == k && runs.known(j) by {
                if exists|j: int| 0 <= j < i + 1 && #[trigger] runs.keys[j] == k && runs.known(j) {
                    let j = choose|j: int|
                        0 <= j < i + 1 && #[trigger] runs.keys[j] == k && runs.known(j);
                    assert(j < i);
                }
            }
        }
        assert(change == runs.change(i as int));
        changes.push(change);
        assert(stake_up@ =~= crate::stake::terms(
            shares@,
            crate::count::select(i + 1, runs.changed(up)),
        ));
        assert(stake_down@ =~= crate::stake::terms(
            shares@,
            crate::count::select(i + 1, runs.changed(down)),
        ));
        i += 1;
    }
    assert(changes@ =~= Seq::new(runs.keys.len(), |i: int| runs.change(i)));
    (
        Churn {
            previous_timestamp_seconds: prev.timestamp_seconds,
            to_reachable,
            to_unreachable,
            stake_to_reachable: stake_up,
            stake_to_unreachable: stake_down,
            moved_network,
        },
        changes,
    )
}

/// When nothing changed since the previous report, nothing is counted.
pub proof fn no_change_no_churn(runs: Runs, c: Change)
    requires
        forall|i: int|
            0 <= i < runs.keys.len() && runs.known(i) ==> runs.previous[#[trigger] runs.keys[i]].reachable
                == runs.reached[i],
    ensures
        crate::count::count(runs.keys.len() as int, runs.relay_changed(c)) == 0,
        crate::count::select(runs.keys.len() as int, runs.changed(c)).len() == 0,
{
    let n = runs.keys.len() as int;
    crate::count::lemma_select(n, runs.relay_changed(c));
    crate::count::lemma_select(n, runs.changed(c));
    let a = crate::count::select(n, runs.relay_changed(c));
    let b = crate::count::select(n, runs.changed(c));
    if a.len() > 0 {
        assert(runs.relay_changed(c)(a[0]));
        assert(runs.keys[a[0]] == runs.keys[a[0]]);
    }
    if b.len() > 0 {
        assert(runs.changed(c)(b[0]));
        assert(runs.keys[b[0]] == runs.keys[b[0]]);
    }
}

/// A relay is counted at most once, however many entries list it.
pub proof fn a_relay_changes_once(runs: Runs, c: Change, i: int, j: int)
    requires
        0 <= i < j,
        runs.keys[i] == runs.keys[j],
    ensures
        !runs.relay_changed(c)(j),
{
}

/// A relay of the previous report by its key.
pub open spec fn prev_key(r: PrevRelayView) -> Seq<char> {
    crate::pools::key_of(r.address, r.port)
}

/// What is said of a relay is what the report said of it under one of its
/// spellings.
pub proof fn states_come_from_the_report(relays: Seq<PrevRelayView>, key: Seq<char>)
    ensures
        states_of(relays).contains_key(key) <==> exists|k: int|
            0 <= k < relays.len() && prev_key(#[trigger] relays[k]) == key,
        states_of(relays).contains_key(key) ==> exists|k: int|
            0 <= k < relays.len() && prev_key(#[trigger] relays[k]) == key && states_of(
                relays,
            )[key] == (PrevState { reachable: relays[k].reachable, asn: relays[k].asn }),
    decreases relays.len(),
{
    if relays.len() > 0 {
        let t = relays.drop_last();
        let front = states_of(t);
        let n = relays.len() - 1;
        states_come_from_the_report(t, key);
        assert(relays[n] == relays.last());
        if front.contains_key(key) {
            let k = choose|k: int|
                0 <= k < t.len() && prev_key(#[trigger] t[k]) == key && front[key] == (PrevState {
                    reachable: t[k].reachable,
                    asn: t[k].asn,
                });
            assert(relays[k] == t[k]);
        } else {
            if prev_key(relays.last()) == key {
                assert(prev_key(relays[n]) == key);
            }
            assert forall|k: int| 0 <= k < n implies prev_key(#[trigger] relays[k]) != key by {
                assert(t[k] == relays[k]);
            }
        }
    }
}

} // verus!
