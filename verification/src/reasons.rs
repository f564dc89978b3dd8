//! Why relays returned no tip.

use vstd::prelude::*;

use crate::asn::{special_use, AsnDb, SpecialUse};
use crate::ip::Ip;
use crate::probe::{outcome, outcomes_of, Outcome, OutcomeView, Stage};
use crate::resolve::{Endpoint, EndpointView, Entry};
use crate::reversed::Shadow;
use crate::sort::{sort, Ranked};
use crate::table::distinct;
use crate::text::{chars_of, contains_text, lower, same};

verus! {

pub const CONNECT_REASONS: [&'static str; 4] = ["timeout", "refused", "unreachable", "other"];

/// What the socket said when the connect stage failed. Refused means a live
/// host with nothing on the port, unreachable a route that does not exist.
pub open spec fn connect_reason_of(error: Seq<char>) -> Seq<char> {
    let e = crate::text::lowered(error);
    if crate::text::has_text(e, "timeout"@) || crate::text::has_text(e, "timed out"@) {
        "timeout"@
    } else if crate::text::has_text(e, "refused"@) {
        "refused"@
    } else if crate::text::has_text(e, "unreachable"@) || crate::text::has_text(e, "no route"@) {
        "unreachable"@
    } else {
        "other"@
    }
}

fn mentions(e: &[char], words: &str) -> (r: bool)
    ensures
        r == crate::text::has_text(e@, words@),
{
    contains_text(e, chars_of(words).as_slice())
}

/// What the socket said when the connect stage failed.
pub fn connect_reason(error: &str) -> (s: &'static str)
    ensures
        s@ == connect_reason_of(error@),
{
    let v = lower(chars_of(error).as_slice());
    let e = v.as_slice();
    if mentions(e, "timeout") || mentions(e, "timed out") {
        "timeout"
    } else if mentions(e, "refused") {
        "refused"
    } else if mentions(e, "unreachable") || mentions(e, "no route") {
        "unreachable"
    } else {
        "other"
    }
}

/// The first address of the first endpoint that has one.
pub open spec fn first_addr(endpoints: Seq<EndpointView>, at: Seq<int>) -> Option<Ip>
    decreases at.len(),
{
    if at.len() == 0 {
        None
    } else if endpoints[at[0]].addrs.len() > 0 {
        Some(endpoints[at[0]].addrs[0])
    } else {
        first_addr(endpoints, at.drop_first())
    }
}

/// Why an address that was dialled, or could not be, did not answer: the kind
/// of address, or else what the socket said.
pub open spec fn address_reason(addr: Option<Ip>, db: Option<&AsnDb>, error: Seq<char>) -> Seq<
    char,
> {
    match addr {
        Some(ip) => match crate::asn::use_of(ip) {
            Some(SpecialUse::Private) => "private address"@,
            Some(SpecialUse::Reserved) => "reserved address"@,
            None => if db matches Some(d) && d.says(ip) is None {
                "unrouted address"@
            } else {
                connect_reason_of(error)
            },
        },
        None => connect_reason_of(error),
    }
}

/// Why one relay entry returned no tip. The reversed spelling answering
/// comes first because it explains the failure on its own; then the kind of
/// address the entry resolved to; then what the socket or protocol said.
pub open spec fn reason_of(
    best: Option<OutcomeView>,
    reversed: Option<bool>,
    addr: Option<Ip>,
    db: Option<&AsnDb>,
) -> Option<Seq<char>> {
    match best {
        Some(Err(f)) => Some(
            if reversed == Some(true) {
                "reversed ipv4"@
            } else {
                match f.stage {
                    Stage::Srv => "srv"@,
                    Stage::Dns => "dns"@,
                    Stage::Handshake => "handshake"@,
                    Stage::Chainsync => "chainsync"@,
                    Stage::Address => address_reason(addr, db, f.error),
                    Stage::Connect => address_reason(addr, db, f.error),
                }
            },
        ),
        _ => None,
    }
}

pub fn find_addr(endpoints: &[Endpoint], at: &[usize]) -> (r: Option<Ip>)
    requires
        forall|j: int| 0 <= j < at.len() ==> (#[trigger] at[j]) < endpoints.len(),
    ensures
        r == first_addr(endpoints.deep_view(), crate::histogram::places(at@)),
{
    let ghost eps = endpoints.deep_view();
    let ghost all = crate::histogram::places(at@);
    let mut j: usize = 0;
    assert(all.skip(0) =~= all);
    while j < at.len()
        invariant
            j <= at.len(),
            eps == endpoints.deep_view(),
            forall|j: int| 0 <= j < at.len() ==> (#[trigger] at[j]) < endpoints.len(),
            all == crate::histogram::places(at@),
            first_addr(eps, all) == first_addr(eps, all.skip(j as int)),
        decreases at.len() - j,
    {
        assert(all.skip(j as int).drop_first() =~= all.skip(j + 1));
        let x: usize = at[j];
        assert(eps[x as int].addrs == endpoints[x as int].addrs@);
        if endpoints[x].addrs.len() > 0 {
            return Some(endpoints[x].addrs[0]);
        }
        j += 1;
    }
    None
}

fn addr_reason(addr: Option<Ip>, db: Option<&AsnDb>, error: &str) -> (s: &'static str)
    requires
        db matches Some(d) ==> d.wf(),
    ensures
        s@ == address_reason(addr, db, error@),
{
    match addr {
        Some(ip) => match special_use(ip) {
            Some(SpecialUse::Private) => "private address",
            Some(SpecialUse::Reserved) => "reserved address",
            None => match db {
                Some(d) => if d.lookup(ip).is_none() {
                    "unrouted address"
                } else {
                    connect_reason(error)
                },
                None => connect_reason(error),
            },
        },
        None => connect_reason(error),
    }
}

/// Why each entry returned no tip; none for one that did.
pub fn entry_reasons(
    entries: &[Entry],
    endpoints: &[Endpoint],
    entry_endpoints: &[Vec<usize>],
    entry_outcome: &[Option<Outcome>],
    shadow: &Shadow,
    asn_db: Option<&AsnDb>,
) -> (out: Vec<Option<&'static str>>)
    requires
        entry_endpoints.len() >= entries.len(),
        entry_outcome.len() >= entries.len(),
        shadow.reachable.len() >= entries.len(),
        forall|i: int, j: int|
            #![trigger entry_endpoints[i][j]]
            0 <= i < entries.len() && 0 <= j < entry_endpoints[i].len() ==> entry_endpoints[i][j]
                < endpoints.len(),
        asn_db matches Some(d) ==> d.wf(),
    ensures
        out.len() == entries.len(),
        forall|i: int|
            0 <= i < entries.len() ==> (#[trigger] out[i]).deep_view() == reason_of(
                outcomes_of(entry_outcome@)[i],
                shadow.reachable[i],
                first_addr(endpoints.deep_view(), crate::histogram::places(entry_endpoints[i]@)),
                asn_db,
            ),
{
    let mut out: Vec<Option<&'static str>> = Vec::new();
    let ghost eps = endpoints.deep_view();
    let mut i: usize = 0;
    while i < entries.len()
        invariant
            i <= entries.len(),
            entry_endpoints.len() >= entries.len(),
            entry_outcome.len() >= entries.len(),
            shadow.reachable.len() >= entries.len(),
            forall|i: int, j: int|
                #![trigger entry_endpoints[i][j]]
                0 <= i < entries.len() && 0 <= j < entry_endpoints[i].len()
                    ==> entry_endpoints[i][j] < endpoints.len(),
            asn_db matches Some(d) ==> d.wf(),
            eps == endpoints.deep_view(),
            out.len() == i,
            forall|k: int|
                0 <= k < i ==> (#[trigger] out[k]).deep_view() == reason_of(
                    outcomes_of(entry_outcome@)[k],
                    shadow.reachable[k],
                    first_addr(eps, crate::histogram::places(entry_endpoints[k]@)),
                    asn_db,
                ),
        decreases entries.len() - i,
    {
        assert(outcomes_of(entry_outcome@)[i as int] == match entry_outcome[i as int] {
            Some(o) => Some(outcome(o)),
            None => None,
        });
        let r: Option<&'static str> = match &entry_outcome[i] {
            Some(Err(f)) => {
                let reversed = match shadow.reachable[i] {
                    Some(b) => b,
                    None => false,
                };
                let at = entry_endpoints[i].as_slice();
                assert forall|j: int| 0 <= j < at.len() implies (#[trigger] at[j])
                    < endpoints.len() by {
                    assert(entry_endpoints[i as int][j] < endpoints.len());
                }
                if reversed {
                    Some("reversed ipv4")
                } else {
                    match f.stage {
                        Stage::Srv => Some("srv"),
                        Stage::Dns => Some("dns"),
                        Stage::Handshake => Some("handshake"),
                        Stage::Chainsync => Some("chainsync"),
                        Stage::Address => Some(
                            addr_reason(find_addr(endpoints, at), asn_db, f.error.as_str()),
                        ),
                        Stage::Connect => Some(
                            addr_reason(find_addr(endpoints, at), asn_db, f.error.as_str()),
                        ),
                    }
                }
            },
            _ => None,
        };
        out.push(r);
        i += 1;
    }
    out
}

// Ranking.

/// What the reason `k` weighs among `items`.
pub open spec fn weight_of(items: Seq<(Seq<char>, u128)>, k: Seq<char>) -> nat
    decreases items.len(),
{
    if items.len() == 0 {
        0
    } else {
        weight_of(items.drop_last(), k) + if items.last().0 == k {
            items.last().1 as nat
        } else {
            0
        }
    }
}

/// What all reasons weigh.
pub open spec fn total_weight(items: Seq<(Seq<char>, u128)>) -> nat
    decreases items.len(),
{
    if items.len() == 0 {
        0
    } else {
        total_weight(items.drop_last()) + items.last().1 as nat
    }
}

/// The reasons of `items`.
pub open spec fn reasons_in(items: Seq<(Seq<char>, u128)>) -> Seq<Seq<char>> {
    Seq::new(items.len(), |i: int| items[i].0)
}

/// Each reason once, alphabetically, with its weight.
pub open spec fn weighed(items: Seq<(Seq<char>, u128)>) -> Seq<(Seq<char>, nat)> {
    let names = crate::table::distinct_names(reasons_in(items));
    Seq::new(names.len(), |i: int| (names[i], weight_of(items, names[i])))
}

/// The heavier one first.
pub open spec fn heavier() -> spec_fn((Seq<char>, nat), (Seq<char>, nat)) -> bool {
    |a: (Seq<char>, nat), b: (Seq<char>, nat)| a.1 > b.1
}

/// Distinct reasons, most common first, ties alphabetical.
pub open spec fn ranked(items: Seq<(Seq<char>, u128)>) -> Seq<Seq<char>> {
    let s = crate::sort::sorted_by(weighed(items), heavier());
    Seq::new(s.len(), |i: int| s[i].0)
}

/// Do texts that weigh the same stand in alphabetical order?
spec fn ties_ascend(s: Seq<(Seq<char>, nat)>) -> bool {
    forall|i: int, j: int|
        0 <= i < j < s.len() && (#[trigger] s[i]).1 == (#[trigger] s[j]).1 ==> crate::text::before(
            s[i].0,
            s[j].0,
        )
}

proof fn lemma_inserted_ties(s: Seq<(Seq<char>, nat)>, x: (Seq<char>, nat))
    requires
        ties_ascend(s),
        forall|i: int| 0 <= i < s.len() ==> crate::text::before((#[trigger] s[i]).0, x.0),
    ensures
        ties_ascend(crate::sort::inserted_by(s, x, heavier())),
        forall|y: (Seq<char>, nat)|
            #[trigger] crate::sort::inserted_by(s, x, heavier()).contains(y) ==> s.contains(y) || y
                == x,
    decreases s.len(),
{
    let all = crate::sort::inserted_by(s, x, heavier());
    if s.len() > 0 && heavier()(x, s.last()) {
        let front = s.drop_last();
        let put = crate::sort::inserted_by(front, x, heavier());
        assert(ties_ascend(front));
        lemma_inserted_ties(front, x);
        assert forall|i: int, j: int|
            0 <= i < j < all.len() && (#[trigger] all[i]).1 == (#[trigger] all[j]).1 implies
            crate::text::before(all[i].0, all[j].0) by {
            assert(all[i] == put[i]);
            if j < put.len() {
                assert(all[j] == put[j]);
            } else {
                assert(put.contains(put[i]));
                if all[i] != x {
                    let k = front.index_of(all[i]);
                    assert(s[k] == all[i]);
                }
            }
        }
        assert forall|y: (Seq<char>, nat)| #[trigger] all.contains(y) implies s.contains(y) || y
            == x by {
            let i = all.index_of(y);
            if i < put.len() {
                assert(put[i] == y);
                assert(put.contains(y));
                if y != x {
                    assert(s[front.index_of(y)] == y);
                }
            } else {
                assert(s[s.len() - 1] == y);
            }
        }
    } else {
        assert forall|y: (Seq<char>, nat)| #[trigger] all.contains(y) implies s.contains(y) || y
            == x by {
            let i = all.index_of(y);
            if i < s.len() {
                assert(s[i] == y);
            }
        }
    }
}

proof fn lemma_sorted_ties(w: Seq<(Seq<char>, nat)>)
    requires
        forall|i: int, j: int|
            0 <= i < j < w.len() ==> crate::text::before((#[trigger] w[i]).0, (#[trigger] w[j]).0),
    ensures
        ties_ascend(crate::sort::sorted_by(w, heavier())),
    decreases w.len(),
{
    if w.len() > 0 {
        let front = w.drop_last();
        let s = crate::sort::sorted_by(front, heavier());
        lemma_sorted_ties(front);
        assert forall|i: int| 0 <= i < s.len() implies crate::text::before(
            (#[trigger] s[i]).0,
            w.last().0,
        ) by {
            let j = crate::sort::lemma_sorted_by_from(front, heavier(), i);
            assert(w[j] == front[j]);
        }
        lemma_inserted_ties(s, w.last());
    }
}

proof fn lemma_weight_without(a: Seq<(Seq<char>, u128)>, i: int, k: Seq<char>)
    requires
        0 <= i < a.len(),
    ensures
        weight_of(a, k) == weight_of(a.remove(i), k) + if a[i].0 == k {
            a[i].1 as nat
        } else {
            0
        },
    decreases a.len(),
{
    if i == a.len() - 1 {
        assert(a.remove(i) =~= a.drop_last());
    } else {
        lemma_weight_without(a.drop_last(), i, k);
        assert(a.remove(i).drop_last() =~= a.drop_last().remove(i));
        assert(a.remove(i).last() == a.last());
    }
}

proof fn lemma_weight_in_any_order(
    a: Seq<(Seq<char>, u128)>,
    b: Seq<(Seq<char>, u128)>,
    k: Seq<char>,
)
    requires
        a.to_multiset() == b.to_multiset(),
    ensures
        weight_of(a, k) == weight_of(b, k),
    decreases b.len(),
{
    broadcast use vstd::seq_lib::group_to_multiset_ensures;

    assert(a.len() == a.to_multiset().len());
    assert(b.len() == b.to_multiset().len());
    if b.len() > 0 {
        let x = b.last();
        assert(b.contains(b[b.len() - 1]));
        assert(a.to_multiset().count(x) > 0);
        assert(a.contains(x));
        let i = a.index_of(x);
        assert(b.remove(b.len() - 1) =~= b.drop_last());
        assert(a.remove(i).to_multiset() =~= b.drop_last().to_multiset());
        lemma_weight_in_any_order(a.remove(i), b.drop_last(), k);
        lemma_weight_without(a, i, k);
    }
}

/// The order in which reasons are given does not matter.
pub proof fn reasons_rank_in_any_order(a: Seq<(Seq<char>, u128)>, b: Seq<(Seq<char>, u128)>)
    requires
        a.to_multiset() == b.to_multiset(),
    ensures
        ranked(a) == ranked(b),
{
    broadcast use vstd::seq_lib::group_to_multiset_ensures;

    let (x, y) = (reasons_in(a), reasons_in(b));
    assert forall|t: Seq<char>| x.contains(t) <==> y.contains(t) by {
        if x.contains(t) {
            let i = x.index_of(t);
            assert(a.contains(a[i]));
            assert(b.to_multiset().count(a[i]) > 0);
            assert(y[b.index_of(a[i])] == t);
        }
        if y.contains(t) {
            let i = y.index_of(t);
            assert(b.contains(b[i]));
            assert(a.to_multiset().count(b[i]) > 0);
            assert(x[a.index_of(b[i])] == t);
        }
    }
    crate::table::distinct_names_of_the_same_set(x, y);
    let names = crate::table::distinct_names(x);
    assert forall|i: int| 0 <= i < names.len() implies weight_of(a, names[i]) == weight_of(
        b,
        #[trigger] names[i],
    ) by {
        lemma_weight_in_any_order(a, b, names[i]);
    }
    assert(weighed(a) =~= weighed(b));
}

/// Ranking lists every reason given once, the heavier ones first and those that
/// weigh the same alphabetically.
pub proof fn reasons_are_ranked(items: Seq<(Seq<char>, u128)>)
    ensures
        forall|x: Seq<char>|
            ranked(items).contains(x) <==> #[trigger] reasons_in(items).contains(x),
        forall|i: int, j: int|
            0 <= i < j < ranked(items).len() ==> {
                &&& #[trigger] ranked(items)[i] != #[trigger] ranked(items)[j]
                &&& weight_of(items, ranked(items)[i]) >= weight_of(items, ranked(items)[j])
                &&& weight_of(items, ranked(items)[i]) == weight_of(items, ranked(items)[j])
                    ==> crate::text::before(ranked(items)[i], ranked(items)[j])
            },
{
    broadcast use vstd::seq_lib::group_to_multiset_ensures;

    let names = crate::table::distinct_names(reasons_in(items));
    let w = weighed(items);
    let s = crate::sort::sorted_by(w, heavier());
    let out = ranked(items);
    crate::table::distinct_names_are_those_held(reasons_in(items));
    crate::sort::lemma_sorted_by_multiset(w, heavier());
    assert(crate::sort::ranks_all(heavier()));
    crate::sort::sorted_by_is_in_order(w, heavier());
    assert forall|i: int, j: int| 0 <= i < j < w.len() implies w[i] != w[j] by {
        if names[i] == names[j] {
            crate::table::lemma_ascending_distinct(names, i, j);
        }
    }
    assert(w.no_duplicates());
    w.lemma_multiset_has_no_duplicates();
    s.lemma_multiset_has_no_duplicates_conv();
    assert forall|i: int| 0 <= i < s.len() implies (#[trigger] s[i]).1 == weight_of(
        items,
        s[i].0,
    ) && names.contains(s[i].0) by {
        let j = crate::sort::lemma_sorted_by_from(w, heavier(), i);
        assert(names[j] == s[i].0);
    }
    assert forall|x: Seq<char>| out.contains(x) <==> #[trigger] reasons_in(items).contains(x) by {
        if out.contains(x) {
            let i = choose|i: int| 0 <= i < out.len() && out[i] == x;
            assert(names.contains(s[i].0));
        }
        if reasons_in(items).contains(x) {
            assert(names.contains(x));
            let j = names.index_of(x);
            assert(w[j].0 == x);
            assert(w.contains(w[j]));
            assert(s.to_multiset().count(w[j]) > 0);
            assert(s.contains(w[j]));
            let i = s.index_of(w[j]);
            assert(out[i] == x);
        }
    }
    lemma_sorted_ties(w);
    assert forall|i: int, j: int| 0 <= i < j < out.len() implies {
        &&& #[trigger] out[i] != #[trigger] out[j]
        &&& weight_of(items, out[i]) >= weight_of(items, out[j])
        &&& weight_of(items, out[i]) == weight_of(items, out[j]) ==> crate::text::before(
            out[i],
            out[j],
        )
    } by {
        assert(!heavier()(s[j], s[i]));
        assert(s[i].1 == weight_of(items, s[i].0) && s[j].1 == weight_of(items, s[j].0));
        assert(s[i] != s[j]);
    }
}

struct Weighed {
    reason: &'static str,
    weight: u128,
}

impl Ranked for Weighed {
    closed spec fn ahead(&self, other: &Self) -> bool {
        self.weight > other.weight
    }

    fn is_ahead(&self, other: &Self) -> bool {
        self.weight > other.weight
    }
}

proof fn lemma_weight_bounded(items: Seq<(Seq<char>, u128)>, k: Seq<char>, n: int)
    requires
        0 <= n <= items.len(),
    ensures
        weight_of(items.take(n), k) <= total_weight(items),
    decreases items.len() - n, n,
{
    if n < items.len() {
        lemma_weight_bounded(items.drop_last(), k, n);
        assert(items.drop_last().take(n) =~= items.take(n));
    } else {
        assert(items.take(n) =~= items);
        lemma_weight_total(items, k);
    }
}

proof fn lemma_weight_total(items: Seq<(Seq<char>, u128)>, k: Seq<char>)
    ensures
        weight_of(items, k) <= total_weight(items),
    decreases items.len(),
{
    if items.len() > 0 {
        lemma_weight_total(items.drop_last(), k);
    }
}

/// A reason that is among `items`, with its weight.
fn weigh_reason(items: &[(&'static str, u128)], name: &str) -> (w: Weighed)
    requires
        reasons_in(items.deep_view()).contains(name@),
        total_weight(items.deep_view()) <= u128::MAX,
    ensures
        w.reason@ == name@,
        w.weight == weight_of(items.deep_view(), name@),
{
    let ghost all = items.deep_view();
    let mut found: usize = items.len();
    let mut weight: u128 = 0;
    let mut i: usize = 0;
    assert(all.take(0) =~= Seq::empty());
    while i < items.len()
        invariant
            i <= items.len(),
            all == items.deep_view(),
            total_weight(all) <= u128::MAX,
            weight == weight_of(all.take(i as int), name@),
            found < i || found == items.len(),
            found < i ==> items[found as int].0@ == name@,
            found == items.len() ==> forall|j: int|
                0 <= j < i ==> (#[trigger] all[j]).0 != name@,
        decreases items.len() - i,
    {
        assert(all.take(i + 1).drop_last() =~= all.take(i as int));
        assert(all[i as int] == (items[i as int].0@, items[i as int].1));
        proof {
            lemma_weight_bounded(all, name@, i + 1);
        }
        if same(items[i].0, name) {
            weight = weight + items[i].1;
            found = i;
        }
        i += 1;
    }
    assert(all.take(i as int) =~= all);
    proof {
        let k = choose|k: int| 0 <= k < all.len() && reasons_in(all)[k] == name@;
        assert(all[k].0 == name@);
    }
    Weighed { reason: items[found].0, weight }
}

/// Distinct reasons, most common first, ties alphabetical.
pub fn rank_reasons(counts: &[(&'static str, u128)]) -> (out: Vec<&'static str>)
    requires
        total_weight(counts.deep_view()) <= u128::MAX,
    ensures
        out.deep_view() == ranked(counts.deep_view()),
{
    let ghost all = counts.deep_view();
    let mut names: Vec<String> = Vec::new();
    let mut i: usize = 0;
    while i < counts.len()
        invariant
            i <= counts.len(),
            all == counts.deep_view(),
            names.len() == i,
            forall|j: int| 0 <= j < i ==> (#[trigger] names[j])@ == all[j].0,
        decreases counts.len() - i,
    {
        assert(all[i as int].0 == counts[i as int].0@);
        names.push(counts[i].0.to_owned());
        i += 1;
    }
    assert(names.deep_view() =~= reasons_in(all));
    let names = distinct(names.as_slice());
    let ghost order = names.deep_view();
    proof {
        crate::table::distinct_names_are_those_held(reasons_in(all));
    }
    let mut v: Vec<Weighed> = Vec::new();
    let mut i: usize = 0;
    while i < names.len()
        invariant
            i <= names.len(),
            all == counts.deep_view(),
            total_weight(all) <= u128::MAX,
            order == names.deep_view(),
            forall|k: Seq<char>| order.contains(k) ==> #[trigger] reasons_in(all).contains(k),
            v.len() == i,
            forall|j: int|
                0 <= j < i ==> (#[trigger] v[j]).reason@ == order[j] && v[j].weight == weight_of(
                    all,
                    order[j],
                ),
        decreases names.len() - i,
    {
        assert(order[i as int] == names[i as int]@);
        assert(order.contains(order[i as int]));
        assert(reasons_in(all).contains(order[i as int]));
        v.push(weigh_reason(counts, names[i].as_str()));
        i += 1;
    }
    let ghost f = |w: Weighed| (w.reason@, w.weight as nat);
    let ghost unsorted = v@;
    let v = sort(v);
    proof {
        crate::sort::lemma_sorted_map(unsorted, f, heavier());
        assert(unsorted.map_values(f) =~= weighed(all));
    }
    let ghost s = crate::sort::sorted_by(weighed(all), heavier());
    assert(v@.map_values(f) == s);
    let mut out: Vec<&'static str> = Vec::new();
    let mut i: usize = 0;
    while i < v.len()
        invariant
            i <= v.len(),
            v@.map_values(f) == s,
            f == (|w: Weighed| (w.reason@, w.weight as nat)),
            out.len() == i,
            forall|j: int| 0 <= j < i ==> (#[trigger] out[j])@ == s[j].0,
        decreases v.len() - i,
    {
        assert(v@.map_values(f)[i as int] == f(v[i as int]));
        out.push(v[i].reason);
        i += 1;
    }
    assert(out.deep_view() =~= ranked(all));
    out
}

} // verus!
