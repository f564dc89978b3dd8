//! Shadow probe of every IPv4 literal relay at its octet-reversed address.
//!
//! cardano-node 11.1.x decodes the ledger's IPv4 relay bytes in the wrong
//! order, so the snapshot names `d.c.b.a` for a relay registered as `a.b.c.d`.
//! Probing the reversal alongside the given spelling measures how much of the
//! network that hides, and reads near zero once the codec is fixed.

use vstd::prelude::*;

use crate::asn::special_use;
use crate::ip::{parse_sock, parse_v4, reverse_octets, write_sock, Ip};
use crate::resolve::{Entry, EntryView};
use crate::table::{distinct, Table};
use crate::text::{chars_of, string_of};

verus! {

/// Per entry, the reversed socket address and whether it answered; None for
/// entries that are not IPv4 literals.
pub struct Shadow {
    pub address: Vec<Option<String>>,
    pub reachable: Vec<Option<bool>>,
}

impl Shadow {
    pub fn none(entries: usize) -> (s: Self)
        ensures
            s.address.len() == entries,
            s.reachable.len() == entries,
            forall|i: int| 0 <= i < entries ==> (#[trigger] s.address[i]) is None,
            forall|i: int| 0 <= i < entries ==> (#[trigger] s.reachable[i]) is None,
    {
        let mut address: Vec<Option<String>> = Vec::new();
        let mut reachable: Vec<Option<bool>> = Vec::new();
        let mut i: usize = 0;
        while i < entries
            invariant
                i <= entries,
                address.len() == i,
                reachable.len() == i,
                forall|j: int| 0 <= j < i ==> (#[trigger] address[j]) is None,
                forall|j: int| 0 <= j < i ==> (#[trigger] reachable[j]) is None,
            decreases entries - i,
        {
            address.push(None);
            reachable.push(None);
            i += 1;
        }
        Shadow { address, reachable }
    }
}

/// The address with its octets in opposite order.
pub fn reverse(ip: u32) -> (r: u32)
    ensures
        r == crate::ip::reversed(ip),
        crate::ip::octets(r) == crate::ip::octets(ip).reverse(),
        crate::ip::reversed(r) == ip,
{
    proof {
        crate::ip::lemma_reversed(ip);
        crate::ip::reversing_twice(ip);
    }
    reverse_octets(ip)
}

/// The reversed `ip:port` of an entry that is an IPv4 literal with a port.
pub open spec fn shadow_of(e: EntryView) -> Option<Seq<char>> {
    match (e.port, crate::ip::v4_of(e.address)) {
        (Some(port), Some(a)) => Some(
            crate::ip::sock_text(Ip::V4(crate::ip::reversed(a)), port),
        ),
        _ => None,
    }
}

/// The shadows of all entries.
pub open spec fn shadows(entries: Seq<EntryView>) -> Seq<Option<Seq<char>>> {
    Seq::new(entries.len(), |i: int| shadow_of(entries[i]))
}

/// The reversed `ip:port` for each IPv4 literal entry with a port.
pub fn targets(entries: &[Entry]) -> (v: Vec<Option<String>>)
    ensures
        v.deep_view() == shadows(entries.deep_view()),
{
    let ghost all = entries.deep_view();
    let mut v: Vec<Option<String>> = Vec::new();
    let mut i: usize = 0;
    while i < entries.len()
        invariant
            i <= entries.len(),
            all == entries.deep_view(),
            v.len() == i,
            forall|j: int| 0 <= j < i ==> (#[trigger] v[j]).deep_view() == shadow_of(all[j]),
        decreases entries.len() - i,
    {
        assert(all[i as int] == entries[i as int].deep_view());
        let x = match (entries[i].port, parse_v4(chars_of(entries[i].address.as_str()).as_slice()))
        {
            (Some(port), Some(a)) => Some(
                string_of(write_sock(Ip::V4(reverse(a)), port).as_slice()),
            ),
            _ => None,
        };
        v.push(x);
        i += 1;
    }
    assert(v.deep_view() =~= shadows(all));
    v
}

/// The texts that are there.
pub open spec fn present(v: Seq<Option<Seq<char>>>) -> Seq<Seq<char>>
    decreases v.len(),
{
    if v.len() == 0 {
        Seq::empty()
    } else {
        match v.last() {
            Some(s) => present(v.drop_last()).push(s),
            None => present(v.drop_last()),
        }
    }
}

/// The addresses to probe for the shadows, each once.
pub fn shadow_keys(addresses: &[Option<String>]) -> (v: Vec<String>)
    ensures
        v.deep_view() == crate::table::distinct_names(present(addresses.deep_view())),
{
    let ghost all = addresses.deep_view();
    let mut keys: Vec<String> = Vec::new();
    let mut i: usize = 0;
    assert(all.take(0) =~= Seq::empty());
    assert(keys.deep_view() =~= Seq::<Seq<char>>::empty());
    while i < addresses.len()
        invariant
            i <= addresses.len(),
            all == addresses.deep_view(),
            keys.deep_view() == present(all.take(i as int)),
        decreases addresses.len() - i,
    {
        assert(all.take(i + 1).drop_last() =~= all.take(i as int));
        assert(all.take(i + 1).last() == addresses[i as int].deep_view());
        if let Some(k) = &addresses[i] {
            let ghost front = keys.deep_view();
            keys.push(k.clone());
            assert(keys.deep_view() =~= front.push(k@));
        }
        i += 1;
    }
    assert(all.take(i as int) =~= all);
    distinct(keys.as_slice())
}

/// Is a socket address one that may be dialled? A reversal landing in private
/// or reserved space is not.
pub fn may_dial(addr: &str) -> (r: bool)
    ensures
        r == match crate::ip::sock_of(addr@) {
            Some(s) => crate::asn::use_of(s.ip) is None,
            None => true,
        },
{
    match parse_sock(chars_of(addr).as_slice()) {
        Some(s) => special_use(s.ip).is_none(),
        None => true,
    }
}

/// Whether the shadow at `address` answered, going by what `answered` holds.
pub open spec fn answered_at(
    address: Option<Seq<char>>,
    answered: Map<Seq<char>, bool>,
) -> Option<bool> {
    match address {
        Some(k) => Some(answered.contains_key(k) && answered[k]),
        None => None,
    }
}

/// The shadow of every entry, from what was probed.
pub fn shadow(address: Vec<Option<String>>, answered: &Table<bool>) -> (s: Shadow)
    requires
        answered.wf(),
    ensures
        s.address == address,
        s.reachable.len() == address.len(),
        forall|i: int|
            0 <= i < address.len() ==> (#[trigger] s.reachable[i]) == answered_at(
                address[i].deep_view(),
                answered@,
            ),
{
    let mut reachable: Vec<Option<bool>> = Vec::new();
    let mut i: usize = 0;
    while i < address.len()
        invariant
            i <= address.len(),
            answered.wf(),
            reachable.len() == i,
            forall|j: int|
                0 <= j < i ==> (#[trigger] reachable[j]) == answered_at(
                    address[j].deep_view(),
                    answered@,
                ),
        decreases address.len() - i,
    {
        let x = match &address[i] {
            Some(k) => match answered.get(k.as_str()) {
                Some(b) => Some(*b),
                None => Some(false),
            },
            None => None,
        };
        reachable.push(x);
        i += 1;
    }
    Shadow { address, reachable }
}

} // verus!
