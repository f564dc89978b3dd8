//! What the networks of a census say of the addresses of its relays.

use vstd::prelude::*;

use crate::asn::{use_of, AsnDb, SpecialUse};
use crate::census::{places_entries, Census};
use crate::count::{count, lemma_select, lemma_select_same, select};
use crate::ip::Ip;
use crate::networks::{entry_ips, hosted, network_key, AsnGroupView, Hosted};
use crate::operators::has_key;
use crate::standing::Inputs;
use crate::text::decimal;

verus! {

// Addresses.

/// Is there an address for the relay entry `e`: did a peer answer for it, or
/// did one of its endpoints resolve?
pub open spec fn has_address(inputs: Inputs<'_>, e: int) -> bool {
    ||| inputs.best()[e] matches Some(Ok(_))
    ||| exists|x: int|
        0 <= x < inputs.endpoints.len() && #[trigger] inputs.endpoints[x].entries.contains(
            e as usize,
        ) && inputs.endpoints[x].addrs.len() > 0
}

/// The address of the relay entry `e`.
pub open spec fn address_of(inputs: Inputs<'_>, e: int) -> Option<Ip> {
    entry_ips(inputs.endpoints, inputs.best(), inputs.entries.len())[e]
}

/// The address of a relay is the one of the peer that answered. Where none
/// did, it is the first address of the first endpoint of the relay that
/// resolved, and there is none where none of them did.
pub proof fn relays_are_where_they_answered(inputs: Inputs<'_>, e: int)
    requires
        0 <= e < inputs.entries.len(),
    ensures
        address_of(inputs, e) is Some <==> has_address(inputs, e),
        inputs.best()[e] matches Some(Ok(r)) ==> address_of(inputs, e) == Some(r.peer.ip),
        !(inputs.best()[e] matches Some(Ok(_))) ==> forall|x: int|
            0 <= x < inputs.endpoints.len() && #[trigger] inputs.endpoints[x].entries.contains(
                e as usize,
            ) && inputs.endpoints[x].addrs.len() > 0 && (forall|y: int|
                0 <= y < x && #[trigger] inputs.endpoints[y].entries.contains(e as usize)
                    ==> inputs.endpoints[y].addrs.len() == 0) ==> address_of(inputs, e) == Some(
                inputs.endpoints[x].addrs[0],
            ),
{
    let eps = inputs.endpoints;
    let n = eps.len() as int;
    let lists = crate::outcomes::lists(eps, e as usize);
    let at = select(n, lists);
    lemma_select(n, lists);
    lemma_some_addr(inputs, at);
    assert forall|x: int| 0 <= x < n && #[trigger] eps[x].entries.contains(e as usize) implies
        at.contains(x) by {
        assert(lists(x));
    }
    if !(inputs.best()[e] matches Some(Ok(_))) {
        if has_address(inputs, e) {
            let x = choose|x: int|
                0 <= x < n && #[trigger] eps[x].entries.contains(e as usize) && eps[x].addrs.len()
                    > 0;
            let j = at.index_of(x);
            assert(eps[at[j]].addrs.len() > 0);
        }
        assert forall|x: int|
            0 <= x < n && #[trigger] eps[x].entries.contains(e as usize) && eps[x].addrs.len() > 0
                && (forall|y: int|
                0 <= y < x && #[trigger] eps[y].entries.contains(e as usize)
                    ==> eps[y].addrs.len() == 0) implies address_of(inputs, e) == Some(
            eps[x].addrs[0],
        ) by {
            let j = at.index_of(x);
            assert forall|i: int| 0 <= i < j implies eps[#[trigger] at[i]].addrs.len() == 0 by {
                assert(at[i] < at[j]);
                assert(lists(at[i]));
                assert(eps[at[i]].entries.contains(e as usize));
            }
            lemma_first_addr(inputs, at, j);
        }
    }
}

proof fn lemma_some_addr(inputs: Inputs<'_>, at: Seq<int>)
    ensures
        crate::reasons::first_addr(inputs.endpoints, at) is Some <==> exists|j: int|
            0 <= j < at.len() && inputs.endpoints[#[trigger] at[j]].addrs.len() > 0,
    decreases at.len(),
{
    let eps = inputs.endpoints;
    if at.len() > 0 {
        let t = at.drop_first();
        lemma_some_addr(inputs, t);
        if eps[at[0]].addrs.len() == 0 {
            if exists|j: int| 0 <= j < at.len() && eps[#[trigger] at[j]].addrs.len() > 0 {
                let j = choose|j: int| 0 <= j < at.len() && eps[#[trigger] at[j]].addrs.len() > 0;
                assert(t[j - 1] == at[j]);
            }
            if exists|j: int| 0 <= j < t.len() && eps[#[trigger] t[j]].addrs.len() > 0 {
                let j = choose|j: int| 0 <= j < t.len() && eps[#[trigger] t[j]].addrs.len() > 0;
                assert(at[j + 1] == t[j]);
            }
        }
    }
}

proof fn lemma_first_addr(inputs: Inputs<'_>, at: Seq<int>, j: int)
    requires
        0 <= j < at.len(),
        inputs.endpoints[at[j]].addrs.len() > 0,
        forall|i: int| 0 <= i < j ==> inputs.endpoints[#[trigger] at[i]].addrs.len() == 0,
    ensures
        crate::reasons::first_addr(inputs.endpoints, at) == Some(
            inputs.endpoints[at[j]].addrs[0],
        ),
    decreases at.len(),
{
    if j > 0 {
        let t = at.drop_first();
        assert(inputs.endpoints[at[0]].addrs.len() == 0);
        assert forall|i: int| 0 <= i < j - 1 implies inputs.endpoints[#[trigger] t[i]].addrs.len()
            == 0 by {
            assert(t[i] == at[i + 1]);
        }
        lemma_first_addr(inputs, t, j - 1);
    }
}

/// The ranges of the family of `ip`.
pub open spec fn ranges_for(db: AsnDb, ip: Ip) -> Seq<crate::asn::RangeView> {
    match ip {
        Ip::V4(_) => db@.v4,
        Ip::V6(_) => db@.v6,
    }
}

/// The number of an address.
pub open spec fn number_of(ip: Ip) -> int {
    match ip {
        Ip::V4(a) => a as int,
        Ip::V6(a) => a as int,
    }
}

/// The last range that starts at or before an address decides: the address
/// belongs to its network, or to none if the range ends before it.
pub proof fn the_last_start_decides(db: AsnDb, ip: Ip, i: int)
    requires
        -1 <= i < ranges_for(db, ip).len(),
        i >= 0 ==> ranges_for(db, ip)[i].start <= number_of(ip),
        forall|j: int|
            i < j < ranges_for(db, ip).len() ==> (#[trigger] ranges_for(db, ip)[j]).start
                > number_of(ip),
    ensures
        i >= 0 && number_of(ip) <= ranges_for(db, ip)[i].end ==> db.says(ip) == Some(
            ranges_for(db, ip)[i].info,
        ),
        i < 0 || number_of(ip) > ranges_for(db, ip)[i].end ==> db.says(ip) is None,
{
    lemma_last_start(ranges_for(db, ip), number_of(ip), i);
}

proof fn lemma_last_start(r: Seq<crate::asn::RangeView>, a: int, i: int)
    requires
        -1 <= i < r.len(),
        i >= 0 ==> r[i].start <= a,
        forall|j: int| i < j < r.len() ==> (#[trigger] r[j]).start > a,
    ensures
        i >= 0 && a <= r[i].end ==> crate::asn::covering(r, a) == Some(r[i].info),
        i < 0 || a > r[i].end ==> crate::asn::covering(r, a) is None,
    decreases r.len(),
{
    if r.len() > 0 {
        assert(r[r.len() - 1] == r.last());
        if i < r.len() - 1 {
            assert(r[r.len() - 1].start > a);
            lemma_last_start(r.drop_last(), a, i);
        }
    }
}

/// The IPv4 address a.b.c.d is for private use in 10/8, 172.16/12 and
/// 192.168/16, and reserved in 0/8, 100.64/10, 127/8, 169.254/16, 192.0.0/24,
/// 192.0.2/24, 198.18/15, 198.51.100/24, 203.0.113/24 and from 224/8 on. All
/// others are public.
pub proof fn special_ipv4_space(n: u32, a: int, b: int, c: int, d: int)
    requires
        0 <= a < 256,
        0 <= b < 256,
        0 <= c < 256,
        0 <= d < 256,
        n == a * 16777216 + b * 65536 + c * 256 + d,
    ensures
        ({
            let private = a == 10 || (a == 172 && 16 <= b <= 31) || (a == 192 && b == 168);
            let reserved = a == 0 || (a == 100 && 64 <= b <= 127) || a == 127 || (a == 169 && b
                == 254) || (a == 192 && b == 0 && (c == 0 || c == 2)) || (a == 198 && (b == 18 || b
                == 19)) || (a == 198 && b == 51 && c == 100) || (a == 203 && b == 0 && c == 113)
                || a >= 224;
            &&& use_of(Ip::V4(n)) == Some(SpecialUse::Private) <==> private
            &&& use_of(Ip::V4(n)) == Some(SpecialUse::Reserved) <==> reserved
            &&& use_of(Ip::V4(n)) is None <==> !private && !reserved
        }),
{
}

/// The IPv6 address of the groups g0 to g7 is for private use in fc00::/7, and
/// reserved when it is :: or ::1, and in 100::/64, 2001:db8::/32, fe80::/10
/// and ff00::/8. All others are public.
pub proof fn special_ipv6_space(n: u128, g: Seq<int>)
    requires
        g.len() == 8,
        forall|i: int| 0 <= i < 8 ==> 0 <= #[trigger] g[i] < 0x1_0000,
        n == g[0] * 0x1_0000_0000_0000_0000_0000_0000_0000 + g[1]
            * 0x1_0000_0000_0000_0000_0000_0000 + g[2] * 0x1_0000_0000_0000_0000_0000 + g[3]
            * 0x1_0000_0000_0000_0000 + g[4] * 0x1_0000_0000_0000 + g[5] * 0x1_0000_0000 + g[6]
            * 0x1_0000 + g[7],
    ensures
        ({
            let private = 0xfc00 <= g[0] <= 0xfdff;
            let low = g[0] == 0 && g[1] == 0 && g[2] == 0 && g[3] == 0 && g[4] == 0 && g[5] == 0
                && g[6] == 0 && g[7] <= 1;
            let reserved = low || (g[0] == 0x100 && g[1] == 0 && g[2] == 0 && g[3] == 0) || (g[0]
                == 0x2001 && g[1] == 0xdb8) || 0xfe80 <= g[0] <= 0xfebf || g[0] >= 0xff00;
            &&& use_of(Ip::V6(n)) == Some(SpecialUse::Private) <==> private
            &&& use_of(Ip::V6(n)) == Some(SpecialUse::Reserved) <==> reserved
            &&& use_of(Ip::V6(n)) is None <==> !private && !reserved
        }),
{
}

// Networks.

/// The network that the entry `e` is counted in.
pub open spec fn network_of(inputs: Inputs<'_>, db: AsnDb, e: int) -> Seq<char> {
    network_key(db, address_of(inputs, e))
}

/// A relay without an address is `unresolved`, one with a public address that
/// no range covers is `unrouted`, one with an uncovered special address is
/// `private` or `reserved`, and any other goes by the number of its network.
/// No two of these are called the same.
pub proof fn networks_are_told_by_the_address(inputs: Inputs<'_>, db: AsnDb, e: int)
    requires
        0 <= e < inputs.entries.len(),
    ensures
        ({
            let k = network_of(inputs, db, e);
            let ip = address_of(inputs, e);
            &&& k == "unresolved"@ <==> !has_address(inputs, e)
            &&& k == "unrouted"@ <==> (ip matches Some(a) && db.says(a) is None && use_of(
                a,
            ) is None)
            &&& k == "private"@ <==> (
                ip matches Some(a) && db.says(a) is None && use_of(a) == Some(SpecialUse::Private)
            )
            &&& k == "reserved"@ <==> (
                ip matches Some(a) && db.says(a) is None && use_of(a) == Some(SpecialUse::Reserved)
            )
            &&& forall|asn: u32|
                k == #[trigger] decimal(asn as nat) <==> (ip matches Some(a) && db.says(
                    a,
                ) matches Some(x) && x.asn == asn)
        }),
{
    let ip = address_of(inputs, e);
    relays_are_where_they_answered(inputs, e);
    lemma_buckets();
    assert forall|asn: u32|
        network_of(inputs, db, e) == #[trigger] decimal(asn as nat) <==> (ip matches Some(a)
            && db.says(a) matches Some(x) && x.asn == asn) by {
        crate::text::lemma_decimal(asn as nat);
        assert(crate::text::is_digit(decimal(asn as nat)[0]));
        if let Some(a) = ip {
            if let Some(x) = db.says(a) {
                crate::text::lemma_decimal(x.asn as nat);
            }
        }
    }
    if let Some(a) = ip {
        if let Some(x) = db.says(a) {
            crate::text::lemma_decimal(x.asn as nat);
            assert(crate::text::is_digit(decimal(x.asn as nat)[0]));
        }
    }
}

proof fn lemma_buckets()
    ensures
        "unresolved"@.len() == 10,
        "unrouted"@.len() == 8,
        "reserved"@.len() == 8,
        "private"@.len() == 7,
        "unresolved"@[0] == 'u',
        "unrouted"@[0] == 'u',
        "reserved"@[0] == 'r',
        "private"@[0] == 'p',
{
    reveal_strlit("unresolved");
    reveal_strlit("unrouted");
    reveal_strlit("reserved");
    reveal_strlit("private");
}

/// The groups of a census.
spec fn hosted_in(inputs: Inputs<'_>, db: AsnDb) -> Hosted {
    hosted(
        db,
        entry_ips(inputs.endpoints, inputs.best(), inputs.entries.len()),
        inputs.best(),
        inputs.shares(),
    )
}

proof fn lemma_live(h: Hosted, n: int, k: Seq<char>)
    ensures
        h.reachable(select(n, has_key(h.keys, k))).len() == count(
            n,
            |e: int| h.keys[e] == k && h.reached[e],
        ),
    decreases n,
{
    if n > 0 {
        lemma_live(h, n - 1, k);
        let s = select(n - 1, has_key(h.keys, k));
        assert(s.push(n - 1).drop_last() =~= s);
    }
}

/// A group counts the relays of its network, and those of them that answered.
pub proof fn networks_count_their_relays(c: Census, inputs: Inputs<'_>, min: usize, i: int)
    requires
        places_entries(c, inputs, min),
        0 <= i < c.asn_table.len(),
    ensures
        inputs.db matches Some(db) && {
            let g = c.asn_table[i];
            let n = inputs.entries.len() as int;
            &&& g.relays > 0
            &&& g.relays == count(n, |e: int| network_of(inputs, *db, e) == g.asn@)
            &&& g.relays_reachable == count(
                n,
                |e: int|
                    network_of(inputs, *db, e) == g.asn@ && inputs.best()[e] matches Some(Ok(_)),
            )
        },
{
    let db = inputs.db->0;
    let h = hosted_in(inputs, *db);
    let n = inputs.entries.len() as int;
    let g = c.asn_table[i];
    assert(c.asn_table.deep_view()[i] == g.deep_view());
    assert(h.table()[i] == g.deep_view());
    let j = crate::sort::lemma_sorted_by_from(h.groups(), crate::networks::more_relays(), i);
    let k = crate::table::distinct_names(h.keys)[j];
    assert(h.group(k) == g.deep_view());
    assert(g.asn@ == k);
    lemma_live(h, n, k);
    lemma_select_same(
        n,
        |e: int| network_of(inputs, *db, e) == g.asn@,
        has_key(h.keys, k),
    );
    lemma_select_same(
        n,
        |e: int| network_of(inputs, *db, e) == g.asn@ && inputs.best()[e] matches Some(Ok(_)),
        |e: int| h.keys[e] == k && h.reached[e],
    );
    crate::table::distinct_names_are_those_held(h.keys);
    assert(crate::table::distinct_names(h.keys).contains(k));
    assert(h.keys.contains(k));
    let e = h.keys.index_of(k);
    lemma_select(n, has_key(h.keys, k));
    assert(has_key(h.keys, k)(e));
    assert(h.at(k).contains(e));
}

/// Every relay is counted in one group, that of its network.
pub proof fn every_relay_has_one_network(c: Census, inputs: Inputs<'_>, min: usize, e: int) -> (i:
    int)
    requires
        places_entries(c, inputs, min),
        inputs.db is Some,
        0 <= e < inputs.entries.len(),
    ensures
        0 <= i < c.asn_table.len(),
        c.asn_table[i].asn@ == network_of(inputs, *inputs.db->0, e),
        forall|j: int|
            0 <= j < c.asn_table.len() && (#[trigger] c.asn_table[j]).asn@ == network_of(
                inputs,
                *inputs.db->0,
                e,
            ) ==> j == i,
{
    broadcast use vstd::seq_lib::group_to_multiset_ensures;

    let db = inputs.db->0;
    let h = hosted_in(inputs, *db);
    let k = h.keys[e];
    let names = crate::table::distinct_names(h.keys);
    let more = crate::networks::more_relays();
    crate::table::distinct_names_are_those_held(h.keys);
    assert(h.keys.contains(k));
    let q = names.index_of(k);
    let g = h.groups()[q];
    crate::sort::lemma_sorted_by_multiset(h.groups(), more);
    assert(h.groups().contains(g));
    assert(h.groups().to_multiset().count(g) > 0);
    assert(h.table().to_multiset().count(g) > 0);
    assert(h.table().contains(g));
    let i = h.table().index_of(g);
    assert(c.asn_table.deep_view()[i] == c.asn_table[i].deep_view());
    assert(c.asn_table[i].asn@ == k);
    assert forall|j: int|
        0 <= j < c.asn_table.len() && (#[trigger] c.asn_table[j]).asn@ == k implies j == i by {
        assert(c.asn_table.deep_view()[j] == c.asn_table[j].deep_view());
        lemma_names_once(h, i, j);
    }
    i
}

proof fn lemma_names_once(h: Hosted, i: int, j: int)
    requires
        0 <= i < h.table().len(),
        0 <= j < h.table().len(),
        h.table()[i].asn == h.table()[j].asn,
    ensures
        i == j,
{
    let names = crate::table::distinct_names(h.keys);
    crate::table::distinct_names_are_those_held(h.keys);
    let groups = h.groups();
    assert forall|a: int, b: int| 0 <= a < b < groups.len() implies groups[a] != groups[b] by {
        if groups[a] == groups[b] {
            assert(names[a] == names[b]);
            crate::table::lemma_ascending_distinct(names, a, b);
        }
    }
    let more = crate::networks::more_relays();
    crate::sort::lemma_sorted_by_multiset(groups, more);
    let a = crate::sort::lemma_sorted_by_from(groups, more, i);
    let b = crate::sort::lemma_sorted_by_from(groups, more, j);
    assert(names[a] == names[b]);
    crate::table::lemma_ascending_distinct(names, a, b);
    assert(h.table()[i] == h.table()[j]);
    assert(groups.no_duplicates());
    groups.lemma_multiset_has_no_duplicates();
    h.table().lemma_multiset_has_no_duplicates_conv();
}

/// There is a group `unresolved` exactly where some relay has no address, and
/// it counts the relays that have none; there is a group `unrouted` exactly
/// where some relay has a public address that no range covers, and it counts
/// those.
pub proof fn buckets_count_what_they_say(c: Census, inputs: Inputs<'_>, min: usize)
    requires
        places_entries(c, inputs, min),
        inputs.db is Some,
    ensures
        ({
            let db = *inputs.db->0;
            let n = inputs.entries.len() as int;
            let uncovered = |e: int|
                address_of(inputs, e) matches Some(a) && db.says(a) is None && use_of(a) is None;
            &&& (exists|i: int|
                0 <= i < c.asn_table.len() && (#[trigger] c.asn_table[i]).asn@ == "unresolved"@)
                <==> (exists|e: int| 0 <= e < n && !#[trigger] has_address(inputs, e))
            &&& (exists|i: int|
                0 <= i < c.asn_table.len() && (#[trigger] c.asn_table[i]).asn@ == "unrouted"@)
                <==> (exists|e: int| 0 <= e < n && #[trigger] uncovered(e))
            &&& forall|i: int|
                0 <= i < c.asn_table.len() && (#[trigger] c.asn_table[i]).asn@ == "unresolved"@
                    ==> c.asn_table[i].relays == count(n, |e: int| !has_address(inputs, e))
                    && c.asn_table[i].name@ == "unresolved"@ && c.asn_table[i].relays_reachable
                    == 0
            &&& forall|i: int|
                0 <= i < c.asn_table.len() && (#[trigger] c.asn_table[i]).asn@ == "unrouted"@
                    ==> c.asn_table[i].relays == count(n, uncovered) && c.asn_table[i].name@
                    == "unrouted"@
        }),
{
    let db = *inputs.db->0;
    let n = inputs.entries.len() as int;
    let uncovered = |e: int|
        address_of(inputs, e) matches Some(a) && db.says(a) is None && use_of(a) is None;
    assert forall|e: int| 0 <= e < n implies (#[trigger] network_of(inputs, db, e)
        == "unresolved"@) == !has_address(inputs, e) && (network_of(inputs, db, e)
        == "unrouted"@) == uncovered(e) by {
        networks_are_told_by_the_address(inputs, db, e);
    }
    assert forall|i: int| 0 <= i < c.asn_table.len() implies {
        let g = #[trigger] c.asn_table[i];
        &&& exists|e: int| 0 <= e < n && #[trigger] network_of(inputs, db, e) == g.asn@
        &&& g.asn@ == "unresolved"@ ==> g.relays == count(n, |e: int| !has_address(inputs, e))
            && g.name@ == "unresolved"@ && g.relays_reachable == 0
        &&& g.asn@ == "unrouted"@ ==> g.relays == count(n, uncovered) && g.name@ == "unrouted"@
    } by {
        let g = c.asn_table[i];
        networks_count_their_relays(c, inputs, min, i);
        lemma_group_name(c, inputs, min, i);
        let first = choose|e: int|
            0 <= e < n && #[trigger] network_of(
                inputs,
                db,
                e,
            ) == g.asn@ && g.name@ == match address_of(
                inputs,
                e,
            ) {
                Some(a) => match db.says(a) {
                    Some(x) => x.name,
                    None => g.asn@,
                },
                None => g.asn@,
            };
        networks_are_told_by_the_address(inputs, db, first);
        relays_are_where_they_answered(inputs, first);
        let here = |e: int| network_of(inputs, db, e) == g.asn@;
        let live = |e: int|
            network_of(inputs, db, e) == g.asn@ && inputs.best()[e] matches Some(Ok(_));
        lemma_select(n, here);
        let e = select(n, here)[0];
        assert(here(e));
        assert(network_of(inputs, db, e) == g.asn@);
        if g.asn@ == "unresolved"@ {
            lemma_select_same(n, here, |e: int| !has_address(inputs, e));
            lemma_select(n, live);
            if g.relays_reachable > 0 {
                let e = select(n, live)[0];
                assert(live(e));
                assert(network_of(inputs, db, e) == "unresolved"@);
            }
        }
        if g.asn@ == "unrouted"@ {
            lemma_select_same(n, here, uncovered);
        }
    }
    if exists|e: int| 0 <= e < n && !#[trigger] has_address(inputs, e) {
        let e = choose|e: int| 0 <= e < n && !#[trigger] has_address(inputs, e);
        assert(network_of(inputs, db, e) == "unresolved"@);
        let i = every_relay_has_one_network(c, inputs, min, e);
        assert(c.asn_table[i].asn@ == "unresolved"@);
    }
    if exists|e: int| 0 <= e < n && #[trigger] uncovered(e) {
        let e = choose|e: int| 0 <= e < n && #[trigger] uncovered(e);
        assert(network_of(inputs, db, e) == "unrouted"@);
        let i = every_relay_has_one_network(c, inputs, min, e);
        assert(c.asn_table[i].asn@ == "unrouted"@);
    }
}

/// A group is called by the name of its network, as the range that covers its
/// first relay has it, and a bucket by what it is.
pub proof fn lemma_group_name(c: Census, inputs: Inputs<'_>, min: usize, i: int)
    requires
        places_entries(c, inputs, min),
        0 <= i < c.asn_table.len(),
    ensures
        inputs.db matches Some(db) && exists|e: int|
            0 <= e < inputs.entries.len() && #[trigger] network_of(inputs, *db, e)
                == c.asn_table[i].asn@ && c.asn_table[i].name@ == match address_of(inputs, e) {
                Some(a) => match db.says(a) {
                    Some(x) => x.name,
                    None => c.asn_table[i].asn@,
                },
                None => c.asn_table[i].asn@,
            } && (forall|d: int|
                0 <= d < e ==> #[trigger] network_of(inputs, *db, d) != c.asn_table[i].asn@),
{
    let db = inputs.db->0;
    let h = hosted_in(inputs, *db);
    let n = inputs.entries.len() as int;
    let g = c.asn_table[i];
    assert(c.asn_table.deep_view()[i] == g.deep_view());
    let j = crate::sort::lemma_sorted_by_from(h.groups(), crate::networks::more_relays(), i);
    let k = crate::table::distinct_names(h.keys)[j];
    assert(h.group(k) == g.deep_view());
    networks_count_their_relays(c, inputs, min, i);
    lemma_select(n, has_key(h.keys, k));
    let at = h.at(k);
    let e = at[0];
    assert(has_key(h.keys, k)(e));
    assert(network_of(inputs, *db, e) == k);
    assert forall|d: int| 0 <= d < e implies #[trigger] network_of(inputs, *db, d) != k by {
        if network_of(inputs, *db, d) == k {
            assert(has_key(h.keys, k)(d));
            assert(at.contains(d));
            let a = at.index_of(d);
            assert(at[0] <= at[a]);
        }
    }
}

/// A relay that a range covers is said to be in the network of that range, and
/// no other relay is in any.
pub proof fn relays_are_placed_by_their_address(
    c: Census,
    inputs: Inputs<'_>,
    min: usize,
    e: int,
)
    requires
        places_entries(c, inputs, min),
        0 <= e < inputs.entries.len(),
    ensures
        c.entry_asn.len() == inputs.entries.len(),
        ({
            let said = match (inputs.db, address_of(inputs, e)) {
                (Some(db), Some(a)) => db.says(a),
                _ => None,
            };
            match c.entry_asn[e] {
                Some(x) => said matches Some(y) && x.asn == y.asn && x.name@ == y.name,
                None => said is None,
            }
        }),
{
    let ips = entry_ips(inputs.endpoints, inputs.best(), inputs.entries.len());
    assert(c.entry_asn.deep_view().len() == c.entry_asn.len());
    assert(c.entry_asn.deep_view()[e] == c.entry_asn[e].deep_view());
    assert(c.entry_asn.deep_view()[e] == crate::networks::placements(inputs.db, ips)[e]);
}

// What the metrics list.

/// Whatever is not a bucket and hosts fewer relays than the least, and only
/// that, is listed under `other`; all else is listed as it is.
pub proof fn the_metrics_list_what_is_large(table: Seq<AsnGroupView>, min: usize, i: int)
    requires
        0 <= i < table.len(),
    ensures
        ({
            let g = table[i];
            let own = g.relays >= min || g.asn == "private"@ || g.asn == "reserved"@ || g.asn
                == "unrouted"@ || g.asn == "unresolved"@;
            own ==> crate::networks::metrics_of(table, min).contains(g)
        }),
{
    lemma_listed(table, min, i);
    let l = crate::networks::listed(table, min);
    let m = crate::networks::metrics_of(table, min);
    let g = table[i];
    if crate::networks::is_listed(g, min) {
        let j = l.index_of(g);
        assert(m[j] == g);
    }
}

proof fn lemma_listed(table: Seq<AsnGroupView>, min: usize, i: int)
    requires
        0 <= i < table.len(),
    ensures
        crate::networks::is_listed(table[i], min) ==> crate::networks::listed(
            table,
            min,
        ).contains(table[i]),
    decreases table.len(),
{
    let l = crate::networks::listed(table, min);
    let front = crate::networks::listed(table.drop_last(), min);
    if i < table.len() - 1 {
        lemma_listed(table.drop_last(), min, i);
        if crate::networks::is_listed(table[i], min) {
            let j = front.index_of(table[i]);
            assert(l[j] == table[i]);
        }
    } else if crate::networks::is_listed(table[i], min) {
        assert(l[front.len() as int] == table[i]);
    }
}

} // verus!
