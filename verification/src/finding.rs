//! How relays are found: the hosts that are looked up for them, the endpoints
//! that they end up at, and the pools that they are registered to.

use vstd::prelude::*;

use crate::count::{lemma_select, lemma_select_same, select};
use crate::pools::{
    domain_of, host_of, key_of, meta_of, registered_in, split_of, PoolMetaView, RecordView,
};
use crate::resolve::{
    endpoint_of, gathered, keys_of, looked_view, plain_targets, recalled, srv_error,
    srv_targets, targets_at, Arrival, EntryView, LookedView, SrvRecordView, TargetView,
};
use crate::spelling::quad;
use crate::text::{decimal, Class};

verus! {

// Targets.

/// The targets of an SRV name are those of the records of the best priority, in
/// their order, each with the host, the port and the weight of its record.
pub proof fn targets_are_those_of_the_best_priority(records: Seq<SrvRecordView>, best: u16, j: int)
    ensures
        ({
            let at = select(records.len() as int, |i: int| records[i].priority == best);
            let found = targets_at(records, best);
            &&& found.len() == at.len()
            &&& 0 <= j < at.len() ==> found[j] == (
                crate::text::trimmed_end(records[at[j]].target, Class::Dot),
                records[at[j]].port,
                records[at[j]].weight,
            )
        }),
    decreases records.len(),
{
    let n = records.len() as int;
    if n > 0 {
        let t = records.drop_last();
        let p = |i: int| records[i].priority == best;
        let q = |i: int| t[i].priority == best;
        targets_are_those_of_the_best_priority(t, best, j);
        lemma_select_same(n - 1, p, q);
        lemma_select(n - 1, q);
        let at = select(n - 1, q);
        if 0 <= j < at.len() {
            assert(q(at[j]));
            assert(records[at[j]] == t[at[j]]);
        }
    }
}

/// Every relay with a port is a target under its own address and port, and
/// carries no weight.
pub proof fn plain_relays_are_their_own_targets(entries: Seq<EntryView>, j: int)
    requires
        entries.len() <= usize::MAX,
    ensures
        ({
            let at = select(entries.len() as int, |i: int| entries[i].port is Some);
            let found = plain_targets(entries);
            &&& found.len() == at.len()
            &&& 0 <= j < at.len() ==> found[j] == (TargetView {
                entry: at[j] as usize,
                host: entries[at[j]].address,
                port: entries[at[j]].port->0,
                weight: None,
            })
        }),
    decreases entries.len(),
{
    let n = entries.len() as int;
    if n > 0 {
        let t = entries.drop_last();
        let p = |i: int| entries[i].port is Some;
        let q = |i: int| t[i].port is Some;
        plain_relays_are_their_own_targets(t, j);
        lemma_select_same(n - 1, p, q);
        lemma_select(n - 1, q);
        let at = select(n - 1, q);
        if 0 <= j < at.len() {
            assert(q(at[j]));
            assert(entries[at[j]] == t[at[j]]);
        }
    }
}

/// Whatever a lookup found for an SRV name is a target of that entry, with its
/// host, port and weight, and there is no other.
pub proof fn found_hosts_are_targets(
    looked: Seq<(usize, Result<Seq<(Seq<char>, u16, u16)>, Seq<char>>)>,
    x: TargetView,
)
    ensures
        srv_targets(looked).contains(x) <==> (x.weight is Some && exists|k: int|
            0 <= k < looked.len() && (#[trigger] looked[k]).0 == x.entry && (
            looked[k].1 matches Ok(found) && found.contains((x.host, x.port, x.weight->0)))),
    decreases looked.len(),
{
    if looked.len() > 0 {
        let t = looked.drop_last();
        let n = looked.len() - 1;
        found_hosts_are_targets(t, x);
        let all = srv_targets(looked);
        let front = srv_targets(t);
        assert(looked[n] == looked.last());
        if front.contains(x) {
            let i = front.index_of(x);
            assert(all[i] == x);
            let k = choose|k: int|
                0 <= k < t.len() && (#[trigger] t[k]).0 == x.entry && (t[k].1 matches Ok(found)
                    && found.contains((x.host, x.port, x.weight->0)));
            assert(looked[k] == t[k]);
        }
        if let Ok(found) = looked.last().1 {
            let more = crate::resolve::found_targets(looked.last().0, found);
            if all.contains(x) && !front.contains(x) {
                let i = all.index_of(x);
                if i < front.len() {
                    assert(front[i] == x);
                }
                assert(more[i - front.len()] == x);
                assert(found[i - front.len()] == (x.host, x.port, x.weight->0));
                assert(looked[n].0 == x.entry);
            }
            if x.weight is Some && looked.last().0 == x.entry && found.contains(
                (x.host, x.port, x.weight->0),
            ) {
                let i = found.index_of((x.host, x.port, x.weight->0));
                assert(more[i] == x);
                assert(all[front.len() + i] == x);
            }
        }
        if x.weight is Some && exists|k: int|
            0 <= k < looked.len() && (#[trigger] looked[k]).0 == x.entry && (
            looked[k].1 matches Ok(found) && found.contains((x.host, x.port, x.weight->0))) {
            let k = choose|k: int|
                0 <= k < looked.len() && (#[trigger] looked[k]).0 == x.entry && (
                looked[k].1 matches Ok(found) && found.contains((x.host, x.port, x.weight->0)));
            if k < n {
                assert(t[k] == looked[k]);
            }
        }
    }
}

/// An entry has an error when a lookup for it failed, and then that of the last
/// one that did.
pub proof fn failed_lookups_are_kept(
    looked: Seq<(usize, Result<Seq<(Seq<char>, u16, u16)>, Seq<char>>)>,
    e: int,
    k: int,
)
    requires
        -1 <= k < looked.len(),
        k >= 0 ==> looked[k].0 == e && looked[k].1 is Err,
        forall|j: int|
            k < j < looked.len() ==> (#[trigger] looked[j]).0 != e || looked[j].1 is Ok,
    ensures
        k < 0 ==> srv_error(looked, e) is None,
        k >= 0 ==> srv_error(looked, e) == Some(looked[k].1->Err_0),
    decreases looked.len(),
{
    if looked.len() > 0 {
        let n = looked.len() - 1;
        assert(looked[n] == looked.last());
        if k < n {
            failed_lookups_are_kept(looked.drop_last(), e, k);
        }
    }
}

/// A host that is a literal is probed at that address; a name at all addresses
/// that it resolved to; and a name that resolved to none is kept under its name
/// and port.
pub proof fn targets_are_probed_at_their_addresses(
    target: TargetView,
    t: usize,
    answer: Result<Seq<crate::ip::SockAddr>, Seq<char>>,
    i: int,
)
    ensures
        ({
            let l = looked_view(t, answer);
            let keys = keys_of(target, l);
            &&& l.target == t
            &&& answer matches Ok(found) ==> {
                &&& found.len() > 0 ==> keys.len() == found.len() && l.dns_error is None
                &&& found.len() > 0 && 0 <= i < found.len() ==> keys[i] == crate::ip::addr_text(
                    found[i],
                )
                &&& found.len() == 0 ==> keys == seq![
                    crate::net::host_port(target.host, target.port),
                ] && l.dns_error == Some("no addresses"@)
            }
            &&& answer matches Err(m) ==> keys == seq![
                crate::net::host_port(target.host, target.port),
            ] && l.dns_error == Some(m)
        }),
{
}

/// A literal needs no lookup: it is probed at its own address and the port of
/// its target.
pub proof fn literals_need_no_lookup(targets: Seq<TargetView>, t: int, x: LookedView)
    requires
        crate::resolve::literal_at(targets, t) == Some(x),
    ensures
        x.target == t as usize,
        x.dns_error is None,
        crate::ip::ip_of(crate::text::trimmed(targets[t].host, Class::Bracket)) matches Some(ip)
            && keys_of(targets[t], x) == seq![crate::ip::sock_text(ip, targets[t].port)],
{
}

/// Memory adds an address to a name when it was seen no more than a day ago and
/// is a socket address.
pub proof fn memory_lasts_a_day(
    target: TargetView,
    seen: Seq<(Seq<char>, u64)>,
    now: u64,
    a: Arrival,
)
    ensures
        recalled(target, seen, now).contains(a) <==> {
            &&& a.entry == target.entry
            &&& a.weight is None
            &&& a.dns_error is None
            &&& a.seen matches Some(last) && seen.contains((a.key, last)) && now - last <= 86400
            &&& crate::ip::sock_of(a.key) is Some
        },
    decreases seen.len(),
{
    if seen.len() > 0 {
        let t = seen.drop_last();
        memory_lasts_a_day(target, t, now, a);
        let all = recalled(target, seen, now);
        let front = recalled(target, t, now);
        assert(seen[seen.len() - 1] == seen.last());
        if front.contains(a) {
            let i = front.index_of(a);
            assert(all[i] == a);
            let j = t.index_of((a.key, a.seen->0));
            assert(seen[j] == t[j]);
        }
        if all.contains(a) && !front.contains(a) {
            let i = all.index_of(a);
            if i < front.len() {
                assert(front[i] == a);
            }
            assert(seen.contains((a.key, a.seen->0)));
        }
        if a.seen is Some && seen.contains((a.key, a.seen->0)) {
            let j = seen.index_of((a.key, a.seen->0));
            if j < t.len() {
                assert(t[j] == seen[j]);
                assert(t.contains((a.key, a.seen->0)));
            } else if a.entry == target.entry && a.weight is None && a.dns_error is None && now
                - a.seen->0 <= 86400 && crate::ip::sock_of(a.key) is Some {
                assert(all[front.len() as int] == a);
            }
        }
    }
}

/// What arrives at an endpoint first tells how it came about: whether its name
/// failed to resolve, and whether it is only remembered and since when.
pub proof fn the_first_arrival_tells(arr: Seq<Arrival>, key: Seq<char>, k: int)
    requires
        0 <= k < arr.len(),
        arr[k].key == key,
        forall|i: int| 0 <= i < k ==> (#[trigger] arr[i]).key != key,
    ensures
        endpoint_of(arr, key).key == key,
        endpoint_of(arr, key).dns_error == arr[k].dns_error,
        endpoint_of(arr, key).remembered <==> arr[k].seen is Some,
        endpoint_of(arr, key).last_seen == arr[k].seen,
        crate::ip::sock_of(key) matches Some(s) ==> endpoint_of(arr, key).addrs == seq![s.ip],
        crate::ip::sock_of(key) is None ==> endpoint_of(arr, key).addrs.len() == 0,
{
    crate::resolve::lemma_first_arrival(arr, key, k);
}

/// The weights that arrive for the entry `e` at `key`.
pub open spec fn weight_sum(arr: Seq<Arrival>, key: Seq<char>, e: usize) -> nat
    decreases arr.len(),
{
    if arr.len() == 0 {
        0
    } else {
        let a = arr.last();
        weight_sum(arr.drop_last(), key, e) + if a.key == key && a.entry == e && a.weight is Some {
            a.weight->0 as nat
        } else {
            0
        }
    }
}

/// An entry that arrives at an endpoint several times, always with a weight,
/// has all its weights there, as far as they fit.
pub proof fn weights_add_up(arr: Seq<Arrival>, key: Seq<char>, e: usize)
    requires
        forall|a: int|
            0 <= a < arr.len() && (#[trigger] arr[a]).key == key && arr[a].entry == e
                ==> arr[a].weight is Some,
    ensures
        ({
            let (entries, weights) = gathered(arr, key);
            let sum = weight_sum(arr, key, e);
            &&& entries.len() == weights.len()
            &&& forall|i: int|
                0 <= i < entries.len() && #[trigger] entries[i] == e ==> weights[i] == Some(
                    if sum > 65535 {
                        65535u16
                    } else {
                        sum as u16
                    },
                )
            &&& !entries.contains(e) ==> sum == 0
        }),
    decreases arr.len(),
{
    if arr.len() > 0 {
        let t = arr.drop_last();
        assert forall|a: int|
            0 <= a < t.len() && (#[trigger] t[a]).key == key && t[a].entry == e implies
            t[a].weight is Some by {
            assert(arr[a] == t[a]);
        }
        weights_add_up(t, key, e);
        let last = arr.last();
        assert(arr[arr.len() - 1] == last);
        let front = gathered(t, key);
        let all = gathered(arr, key);
        crate::resolve::lemma_gathered_sound(t, key);
        if last.key == key {
            crate::resolve::lemma_first_place_bounds(front.0, last.entry);
            let p = crate::resolve::first_place(front.0, last.entry);
            if p < front.0.len() {
                assert(front.0[p] == last.entry);
                assert(all.0 == front.0);
            } else {
                assert(all.0[front.0.len() as int] == last.entry);
                assert forall|i: int| 0 <= i < front.0.len() implies all.0[i] == front.0[i]
                    && all.1[i] == front.1[i] by {}
            }
            if !all.0.contains(e) && front.0.contains(e) {
                let i = front.0.index_of(e);
                assert(all.0[i] == e);
            }
        }
    }
}

// Keys.

/// A host as it is best written: nothing around it that is dropped, and no
/// capital.
pub open spec fn is_plain_host(host: Seq<char>) -> bool {
    &&& host.len() > 0
    &&& !crate::text::is_white(host[0]) && host[0] != '[' && host[0] != ']'
    &&& !crate::text::is_white(host.last()) && host.last() != '[' && host.last() != ']'
        && host.last() != '.'
    &&& forall|i: int| 0 <= i < host.len() ==> !('A' <= #[trigger] host[i] <= 'Z')
}

proof fn lemma_plain_host(host: Seq<char>)
    requires
        is_plain_host(host),
    ensures
        host_of(host) == host,
{
    assert(crate::text::trimmed(host, Class::White) == host);
    assert(crate::text::trimmed_end(host, Class::Dot) == host);
    assert(crate::text::trimmed(host, Class::Bracket) == host);
    assert(crate::text::lowered(host) =~= host);
}

/// A relay with a plain name is known by that name and its port, or by the name
/// alone where it has no port.
pub proof fn names_are_their_own_keys(host: Seq<char>, port: u16)
    requires
        is_plain_host(host),
        crate::ip::ip_of(host) is None,
    ensures
        key_of(host, Some(port)) == host + ":"@ + decimal(port as nat),
        key_of(host, None) == host,
{
    lemma_plain_host(host);
    reveal_strlit(":");
    assert(":"@ =~= seq![':']);
}

/// A relay at an IPv4 literal is known by that literal and its port.
pub proof fn quads_are_their_own_keys(a: nat, b: nat, c: nat, d: nat, port: u16)
    requires
        a < 256,
        b < 256,
        c < 256,
        d < 256,
    ensures
        key_of(quad(a, b, c, d), Some(port)) == quad(a, b, c, d) + ":"@ + decimal(port as nat),
        key_of(quad(a, b, c, d), None) == quad(a, b, c, d),
{
    let s = quad(a, b, c, d);
    let n = (a * 16777216 + b * 65536 + c * 256 + d) as u32;
    crate::spelling::quads_are_written_in_order(n, a, b, c, d, port);
    crate::ip::ip_reads_back(crate::ip::Ip::V4(n));
    lemma_quad_chars(a, b, c, d);
    lemma_plain_host(s);
}

pub proof fn lemma_quad_chars(a: nat, b: nat, c: nat, d: nat)
    ensures
        is_plain_host(quad(a, b, c, d)),
        forall|i: int|
            0 <= i < quad(a, b, c, d).len() ==> crate::text::is_digit(
                #[trigger] quad(a, b, c, d)[i],
            ) || quad(a, b, c, d)[i] == '.',
{
    crate::text::lemma_decimal(a);
    crate::text::lemma_decimal(b);
    crate::text::lemma_decimal(c);
    crate::text::lemma_decimal(d);
    reveal_strlit(".");
    let s = quad(a, b, c, d);
    let (la, lb, lc, ld) = (
        decimal(a).len() as int,
        decimal(b).len() as int,
        decimal(c).len() as int,
        decimal(d).len() as int,
    );
    assert forall|i: int| 0 <= i < s.len() implies crate::text::is_digit(#[trigger] s[i]) || s[i]
        == '.' by {
        if i < la {
            assert(s[i] == decimal(a)[i]);
        } else if i == la {
        } else if i < la + 1 + lb {
            assert(s[i] == decimal(b)[i - la - 1]);
        } else if i == la + 1 + lb {
        } else if i < la + 2 + lb + lc {
            assert(s[i] == decimal(c)[i - la - lb - 2]);
        } else if i == la + 2 + lb + lc {
        } else {
            assert(s[i] == decimal(d)[i - la - lb - lc - 3]);
        }
    }
    assert(s[0] == decimal(a)[0] && crate::text::is_digit(decimal(a)[0]));
    assert(s.last() == decimal(d)[ld - 1] && crate::text::is_digit(decimal(d)[ld - 1]));
}

/// A host and a port with a colon between them are told apart again; a host
/// that has colons itself is told apart by its brackets; and a host alone has
/// no port.
pub proof fn hosts_and_ports_are_told_apart(host: Seq<char>, port: u16)
    requires
        host.len() > 0,
        !crate::text::is_white(host[0]) && host[0] != '[',
        !crate::text::is_white(host.last()),
    ensures
        !host.contains(':') ==> split_of(host + ":"@ + decimal(port as nat)) == (host, Some(port)),
        !host.contains(':') ==> split_of(host) == (host, None::<u16>),
        !host.contains(']') ==> split_of("["@ + host + "]:"@ + decimal(port as nat)) == (
            host,
            Some(port),
        ),
{
    let digits = decimal(port as nat);
    crate::text::lemma_decimal(port as nat);
    crate::text::decimal_reads_back(port as nat, u16::MAX as nat);
    reveal_strlit(":");
    reveal_strlit("[");
    reveal_strlit("]:");
    assert(crate::text::is_digit(digits[digits.len() - 1]));
    lemma_digit_not_white(digits[digits.len() - 1]);
    if !host.contains(':') {
        let s = host + ":"@ + digits;
        assert(s.last() == digits[digits.len() - 1]);
        assert(crate::text::trimmed(s, Class::White) == s);
        let k = host.len() as int;
        crate::text::lemma_last_at(s, ':');
        assert(s[k] == ':');
        assert forall|i: int| k < i < s.len() implies s[i] != ':' by {
            assert(s[i] == digits[i - k - 1]);
            assert(crate::text::is_digit(digits[i - k - 1]));
        }
        assert(crate::text::last_at(s, ':') == k);
        assert(s.take(k) =~= host);
        assert(s.skip(k + 1) =~= digits);
        assert(crate::text::trimmed(host, Class::White) == host);
        crate::text::lemma_last_at(host, ':');
    }
    if !host.contains(']') {
        let s = "["@ + host + "]:"@ + digits;
        assert(s[0] == '[');
        lemma_bracket_not_white();
        assert(s.last() == digits[digits.len() - 1]);
        assert(crate::text::trimmed(s, Class::White) == s);
        let rest = s.skip(1);
        let k = host.len() as int;
        assert forall|i: int| 0 <= i < k implies rest[i] != ']' by {
            assert(rest[i] == host[i]);
        }
        assert(rest[k] == ']');
        crate::text::lemma_first_at_is(rest, ']', k);
        assert(rest.take(k) =~= host);
        assert(rest.skip(k + 1) =~= ":"@ + digits);
        assert((":"@ + digits).skip(1) =~= digits);
    }
}

proof fn lemma_digit_not_white(c: char)
    requires
        crate::text::is_digit(c),
    ensures
        !crate::text::is_white(c),
{
}

proof fn lemma_bracket_not_white()
    ensures
        !crate::text::is_white('['),
{
}

/// The domain of a host is its last two labels.
pub proof fn domains_are_two_labels(front: Seq<char>, a: Seq<char>, b: Seq<char>, port: u16)
    requires
        !a.contains('.'),
        !b.contains('.'),
        b.len() > 0,
        ({
            let host = front + "."@ + a + "."@ + b;
            &&& is_plain_host(host)
            &&& !host.contains(':')
            &&& crate::ip::ip_of(host) is None
        }),
    ensures
        domain_of(front + "."@ + a + "."@ + b + ":"@ + decimal(port as nat)) == Some(
            a + "."@ + b,
        ),
        domain_of(front + "."@ + a + "."@ + b) == Some(a + "."@ + b),
{
    let host = front + "."@ + a + "."@ + b;
    reveal_strlit(".");
    assert("."@ =~= seq!['.']);
    hosts_and_ports_are_told_apart(host, port);
    lemma_plain_host(host);
    crate::text::lemma_pieces_concat(front + seq!['.'] + a, b, '.');
    crate::text::lemma_pieces_concat(front, a, '.');
    crate::text::lemma_pieces_whole(a, '.');
    crate::text::lemma_pieces_whole(b, '.');
    assert(host =~= (front + seq!['.'] + a) + seq!['.'] + b);
    let labels = crate::text::pieces(host, '.');
    assert(labels =~= crate::text::pieces(front, '.') + seq![a] + seq![b]);
}

// Pools.

/// An empty ticker or name reads as unknown, any other as it is.
pub proof fn records_say_what_they_hold(r: RecordView)
    ensures
        meta_of(r).pool_id == r.pool_id,
        r.ticker matches Some(t) ==> (t.len() > 0 ==> meta_of(r).ticker == Some(t)) && (t.len()
            == 0 ==> meta_of(r).ticker is None),
        r.name matches Some(t) ==> (t.len() > 0 ==> meta_of(r).name == Some(t)) && (t.len() == 0
            ==> meta_of(r).name is None),
        r.ticker is None ==> meta_of(r).ticker is None,
        r.name is None ==> meta_of(r).name is None,
{
}

proof fn lemma_with_relays(
    metas: Seq<PoolMetaView>,
    relays: Seq<Seq<char>>,
    m: PoolMetaView,
    key: Seq<char>,
    id: Seq<char>,
)
    ensures
        crate::pools::has_id(crate::pools::with_relays(metas, relays, m, key), id)
            <==> crate::pools::has_id(metas, id) || (m.pool_id == id && exists|j: int|
            0 <= j < relays.len() && crate::pools::index_key(#[trigger] relays[j]) == key),
    decreases relays.len(),
{
    if relays.len() > 0 {
        let t = relays.drop_last();
        let n = relays.len() - 1;
        lemma_with_relays(metas, t, m, key, id);
        let front = crate::pools::with_relays(metas, t, m, key);
        let all = crate::pools::with_relays(metas, relays, m, key);
        assert(relays[n] == relays.last());
        if exists|j: int| 0 <= j < t.len() && crate::pools::index_key(#[trigger] t[j]) == key {
            let j = choose|j: int|
                0 <= j < t.len() && crate::pools::index_key(#[trigger] t[j]) == key;
            assert(relays[j] == t[j]);
        }
        if exists|j: int|
            0 <= j < relays.len() && crate::pools::index_key(#[trigger] relays[j]) == key {
            let j = choose|j: int|
                0 <= j < relays.len() && crate::pools::index_key(#[trigger] relays[j]) == key;
            if j < n {
                assert(t[j] == relays[j]);
            }
        }
        if crate::pools::has_id(front, id) {
            let i = choose|i: int| 0 <= i < front.len() && (#[trigger] front[i]).pool_id == id;
            assert(all[i].pool_id == id);
        }
        if crate::pools::has_id(all, id) && !crate::pools::has_id(front, id) {
            let i = choose|i: int| 0 <= i < all.len() && (#[trigger] all[i]).pool_id == id;
            if i < front.len() {
                assert(front[i].pool_id == id);
            }
        }
        if crate::pools::index_key(relays.last()) == key && m.pool_id == id
            && !crate::pools::has_id(front, id) {
            assert(all[front.len() as int].pool_id == id);
        }
    }
}

/// A pool is registered under a key exactly when a record of it has a relay of
/// that key.
pub proof fn pools_are_registered_by_their_relays(
    records: Seq<RecordView>,
    key: Seq<char>,
    id: Seq<char>,
)
    ensures
        crate::pools::has_id(registered_in(records, key), id) <==> exists|r: int, j: int|
            0 <= r < records.len() && 0 <= j < records[r].relays.len() && records[r].pool_id == id
                && crate::pools::index_key(#[trigger] records[r].relays[j]) == key,
    decreases records.len(),
{
    if records.len() > 0 {
        let t = records.drop_last();
        let n = records.len() - 1;
        pools_are_registered_by_their_relays(t, key, id);
        lemma_with_relays(
            registered_in(t, key),
            records.last().relays,
            meta_of(records.last()),
            key,
            id,
        );
        assert(records[n] == records.last());
        if crate::pools::has_id(registered_in(t, key), id) {
            let (r, j) = choose|r: int, j: int|
                0 <= r < t.len() && 0 <= j < t[r].relays.len() && t[r].pool_id == id
                    && crate::pools::index_key(#[trigger] t[r].relays[j]) == key;
            assert(records[r] == t[r]);
            assert(crate::pools::index_key(records[r].relays[j]) == key);
        } else if crate::pools::has_id(registered_in(records, key), id) {
            let relays = records.last().relays;
            let j = choose|j: int|
                0 <= j < relays.len() && crate::pools::index_key(#[trigger] relays[j]) == key;
            assert(crate::pools::index_key(records[n].relays[j]) == key);
        }
        if exists|r: int, j: int|
            0 <= r < records.len() && 0 <= j < records[r].relays.len() && records[r].pool_id == id
                && crate::pools::index_key(#[trigger] records[r].relays[j]) == key {
            let (r, j) = choose|r: int, j: int|
                0 <= r < records.len() && 0 <= j < records[r].relays.len() && records[r].pool_id
                    == id && crate::pools::index_key(#[trigger] records[r].relays[j]) == key;
            if r < n {
                assert(t[r] == records[r]);
                assert(crate::pools::index_key(t[r].relays[j]) == key);
            }
        }
    }
}

/// The pool that wins has at least as many votes as any other, and comes first
/// among those with as many.
pub proof fn the_most_votes_win(cast: Seq<PoolMetaView>, k: int, j: int)
    requires
        crate::pools::wins(cast, k),
        0 <= j < cast.len(),
        cast[j].pool_id != cast[k].pool_id,
    ensures
        ({
            let n = cast.len() as int;
            let mine = select(n, |i: int| cast[i].pool_id == cast[k].pool_id).len();
            let other = select(n, |i: int| cast[i].pool_id == cast[j].pool_id).len();
            &&& mine >= other
            &&& mine == other ==> crate::text::before(cast[k].pool_id, cast[j].pool_id)
        }),
{
    let n = cast.len() as int;
    lemma_select_same(
        n,
        |i: int| cast[i].pool_id == cast[k].pool_id,
        crate::pools::with_id(cast, cast[k].pool_id),
    );
    lemma_select_same(
        n,
        |i: int| cast[i].pool_id == cast[j].pool_id,
        crate::pools::with_id(cast, cast[j].pool_id),
    );
}

/// The octet reversal of a relay counts only where the index has nothing under
/// the relay as it is written.
pub proof fn reversals_are_the_last_resort(
    idx: crate::pools::PoolIndex,
    a: nat,
    b: nat,
    c: nat,
    d: nat,
    port: u16,
)
    requires
        a < 256,
        b < 256,
        c < 256,
        d < 256,
    ensures
        ({
            let relay = (quad(a, b, c, d), Some(port));
            let given = idx.registered(quad(a, b, c, d) + ":"@ + decimal(port as nat));
            let turned = idx.registered(quad(d, c, b, a) + ":"@ + decimal(port as nat));
            &&& given.len() > 0 ==> crate::pools::owners(idx, relay) == given
            &&& given.len() == 0 ==> crate::pools::owners(idx, relay) == turned
        }),
{
    let s = quad(a, b, c, d);
    let n = (a * 16777216 + b * 65536 + c * 256 + d) as u32;
    quads_are_their_own_keys(a, b, c, d, port);
    quads_are_their_own_keys(d, c, b, a, port);
    crate::spelling::quads_are_written_in_order(n, a, b, c, d, port);
    crate::spelling::reversing_turns_the_octets(n, a, b, c, d);
    crate::spelling::quads_are_written_in_order(crate::ip::reversed(n), d, c, b, a, port);
    crate::ip::ip_reads_back(crate::ip::Ip::V4(n));
    lemma_quad_chars(a, b, c, d);
    lemma_plain_host(s);
}

} // verus!
