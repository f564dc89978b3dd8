//! What the reading of an answer refuses, and how a refusal is told.

use vstd::prelude::*;

use crate::cbor::{big_endian, head};
use crate::net::ConnectError;
use crate::node::{
    components_at, option_text, port_at, rational_at, response_of, whole_at, Fault, Flaw, Part,
};
use crate::schedule::SourceError;
use crate::text::{decimal, signed_decimal};
use crate::wire::{
    fits_int, fraction_bytes, group_bytes, heads_read_back, int_bytes, lemma_int, lemma_numbers,
    lemma_stands_apart, stands,
};

verus! {

/// A port is an integer from 0 through 65535, and is read as that integer; any
/// other integer is refused by its value.
pub proof fn ports_are_sixteen_bits(b: Seq<u8>, at: int, v: int)
    requires
        fits_int(v),
        stands(b, at, int_bytes(v)),
    ensures
        0 <= v < 65536 ==> port_at(b, at) == Ok::<(u16, int), Flaw>(
            (v as u16, at + int_bytes(v).len()),
        ),
        v < 0 || v >= 65536 ==> port_at(b, at) == Err::<(u16, int), Flaw>(
            Flaw::Shape(Fault::Port(v as i128)),
        ),
{
    lemma_int(b, at, v);
}

/// A bignum: tag 2 for what is not negative, tag 3 for what is, over its bytes.
pub open spec fn bignum_bytes(negative: bool, bytes: Seq<u8>) -> Seq<u8> {
    head(6, if negative { 3 } else { 2 }) + (head(2, bytes.len()) + bytes)
}

/// A bignum is read as its bytes say, the first the most significant; a
/// negative one is as far below -1 as they say.
pub proof fn bignums_read_back(b: Seq<u8>, at: int, negative: bool, bytes: Seq<u8>)
    requires
        bytes.len() <= u64::MAX,
        stands(b, at, bignum_bytes(negative, bytes)),
    ensures
        whole_at(b, at) == Ok::<(int, int), Flaw>(
            (
                if negative {
                    -1 - big_endian(bytes)
                } else {
                    big_endian(bytes) as int
                },
                at + bignum_bytes(negative, bytes).len(),
            ),
        ),
{
    let tag: nat = if negative { 3 } else { 2 };
    lemma_stands_apart(b, at, head(6, tag), head(2, bytes.len()) + bytes);
    heads_read_back(b, at, 6, tag);
    let first = at + head(6, tag).len();
    lemma_stands_apart(b, first, head(2, bytes.len()), bytes);
    heads_read_back(b, first, 2, bytes.len());
}

/// The first byte counts most: each further one moves those before it up by a
/// factor of 256 and is added.
pub proof fn the_first_byte_counts_most(bytes: Seq<u8>, last: u8)
    ensures
        big_endian(Seq::<u8>::empty()) == 0,
        big_endian(bytes.push(last)) == 256 * big_endian(bytes) + last,
{
    assert(bytes.push(last).drop_last() =~= bytes);
}

/// An integer under any tag but those of a bignum is refused by the tag.
pub proof fn other_tags_hold_no_integer(b: Seq<u8>, at: int, tag: nat)
    requires
        tag <= u64::MAX,
        tag != 2 && tag != 3,
        stands(b, at, head(6, tag)),
    ensures
        whole_at(b, at) == Err::<(int, int), Flaw>(Flaw::Shape(Fault::IntegerTag(tag as u64))),
{
    heads_read_back(b, at, 6, tag);
}

/// A fraction over zero is refused, whatever its numerator.
pub proof fn fractions_over_zero_are_refused(b: Seq<u8>, at: int, num: int)
    requires
        fits_int(num),
        stands(b, at, fraction_bytes(num, 0)),
    ensures
        rational_at(b, at) == Err::<(crate::node::RationalView, int), Flaw>(
            Flaw::Shape(Fault::ZeroDenominator),
        ),
{
    broadcast use lemma_stands_apart;

    heads_read_back(b, at, 6, 30);
    let first = at + head(6, 30).len();
    heads_read_back(b, first, 4, 2);
    let second = first + head(4, 2).len();
    lemma_int(b, second, num);
    lemma_int(b, second + int_bytes(num).len(), 0);
}

/// Under any tag but 30 there is no fraction: it is refused by the tag.
pub proof fn other_tags_hold_no_fraction(b: Seq<u8>, at: int, tag: nat)
    requires
        tag <= u64::MAX,
        tag != 30,
        stands(b, at, head(6, tag)),
    ensures
        rational_at(b, at) == Err::<(crate::node::RationalView, int), Flaw>(
            Flaw::Shape(Fault::RationalTag(tag as u64)),
        ),
{
    heads_read_back(b, at, 6, tag);
}

/// An answer of two elements tells of another era, whatever they are; one of
/// any other number but one, or of an open number, is refused by the number.
pub proof fn answers_have_one_element(b: Seq<u8>, n: nat)
    requires
        n <= u64::MAX,
    ensures
        n == 2 && stands(b, 0, head(4, n)) ==> (response_of(b) matches Err(Flaw::Shape(f)) && f
            == Fault::EraMismatch),
        n != 1 && n != 2 && stands(b, 0, head(4, n)) ==> (response_of(b) matches Err(
            Flaw::Shape(f),
        ) && f == Fault::Wrapper(Some(n as u64))),
        b.len() > 0 && b[0] == 0x9f ==> (response_of(b) matches Err(Flaw::Shape(f)) && f
            == Fault::Wrapper(None)),
{
    if stands(b, 0, head(4, n)) {
        heads_read_back(b, 0, 4, n);
    }
}

/// The third version is of all ledger peers, which nobody asked for; of the
/// others only the first and the second are known.
pub proof fn versions_are_one_and_two(b: Seq<u8>, version: nat, body: Seq<u8>)
    requires
        version <= u8::MAX,
        b == head(4, 1) + (head(4, 2) + (head(0, version) + body)),
    ensures
        version == 3 ==> (response_of(b) matches Err(Flaw::Shape(f)) && f
            == Fault::AllLedgerPeers),
        version == 0 || version > 3 ==> (response_of(b) matches Err(Flaw::Shape(f)) && f
            == Fault::Version(version as u8)),
{
    assert(b.subrange(0, b.len() as int) =~= b);
    lemma_stands_apart(b, 0, head(4, 1), head(4, 2) + (head(0, version) + body));
    heads_read_back(b, 0, 4, 1);
    let first = head(4, 1).len() as int;
    lemma_stands_apart(b, first, head(4, 2), head(0, version) + body);
    heads_read_back(b, first, 4, 2);
    let second = first + head(4, 2).len();
    lemma_stands_apart(b, second, head(0, version), body);
    heads_read_back(b, second, 0, version);
}

/// A refusal says what was wrong, and with which value.
pub proof fn refusals_name_the_value(part: Part, v: i128, n: u64, got: Option<u64>, k: u8)
    ensures
        Fault::EraMismatch.words() == "era mismatch reported by the node"@,
        Fault::Wrapper(got).words() == "unexpected result wrapper "@ + option_text(got),
        Fault::Array(part, n, got).words() == part.name() + ": expected a "@ + decimal(n as nat)
            + "-element array, got "@ + option_text(got),
        Fault::AllLedgerPeers.words()
            == "node returned an all-ledger-peers snapshot, not big ledger peers"@,
        Fault::Version(k).words() == "unknown snapshot version "@ + decimal(k as nat),
        Fault::WithOrigin.words() == "unexpected WithOrigin encoding"@,
        Fault::Point.words() == "unexpected Point encoding"@,
        Fault::Relay(got, k).words() == "unexpected relay access point encoding ("@ + option_text(
            got,
        ) + ", "@ + decimal(k as nat) + ")"@,
        Fault::Port(v).words() == "port "@ + signed_decimal(v as int) + " out of range"@,
        Fault::Component(part, v).words() == part.name() + " component "@ + signed_decimal(v as int)
            + " out of range"@,
        Fault::RationalTag(n).words() == "expected rational tag 30, got "@ + decimal(n as nat),
        Fault::ZeroDenominator.words() == "rational with zero denominator"@,
        Fault::IntegerTag(n).words() == "unexpected tag "@ + decimal(n as nat)
            + " where an integer was expected"@,
        option_text(Some(n)) == "Some("@ + decimal(n as nat) + ")"@,
        option_text(None) == "None"@,
{
}

/// The number of components that was found comes before the one expected.
pub proof fn components_are_counted(part: Part, got: usize, n: usize)
    ensures
        Fault::Components(part, got, n).words() == part.name() + " has "@ + decimal(got as nat)
            + " components, expected "@ + decimal(n as nat),
{
}

/// An address of too few or too many components is refused with how many there
/// were and how many there should be.
pub proof fn addresses_have_all_components(b: Seq<u8>, at: int, g: Seq<u16>, n: usize, part: Part)
    requires
        g.len() <= 8,
        g.len() != n,
        stands(b, at, head(4, g.len()) + group_bytes(g)),
    ensures
        components_at(b, at, n, part) == Err::<(Seq<u64>, int), Flaw>(
            Flaw::Shape(Fault::Components(part, g.len() as usize, n)),
        ),
{
    lemma_numbers(b, at, g, part);
}

/// A component below zero is refused by its value.
pub proof fn components_are_not_negative(b: Seq<u8>, at: int, n: usize, part: Part, v: int)
    requires
        fits_int(v),
        v < 0,
        n > 0,
        stands(b, at, head(4, n as nat) + int_bytes(v)),
    ensures
        components_at(b, at, n, part) == Err::<(Seq<u64>, int), Flaw>(
            Flaw::Shape(Fault::Component(part, v as i128)),
        ),
{
    lemma_stands_apart(b, at, head(4, n as nat), int_bytes(v));
    heads_read_back(b, at, 4, n as nat);
    lemma_int(b, at + head(4, n as nat).len(), v);
}

/// When both shapes of the query fail, the reason of the plain one is told
/// before that of the other, each with its shape.
pub proof fn two_refusals_are_told_in_order(first: Seq<char>, second: Seq<char>)
    ensures
        crate::node::both_failed(first, second) == "snapshot query failed as [34] ("@ + first
            + ") and as [34, 1] ("@ + second + ")"@,
{
}

/// Each part of an answer has a name of its own in a refusal.
pub proof fn parts_are_named(part: Part)
    ensures
        part is Snapshot ==> part.name() == "snapshot"@,
        part is Body ==> part.name() == "snapshot body"@,
        part is Pool ==> part.name() == "pool"@,
        part is StakeAndRelays ==> part.name() == "pool stake and relays"@,
        part is Rational ==> part.name() == "rational"@,
        part is Ipv4 ==> part.name() == "IPv4"@,
        part is Ipv6 ==> part.name() == "IPv6"@,
{
}

/// Without a source, or with a socket but no network, the flag that is missing
/// is named; a connect that ends says why, or that it took too long.
pub proof fn what_is_missing_is_named(source: SourceError, connect: ConnectError)
    ensures
        source is NoMagic ==> source.words() == "--node-socket needs --network-magic"@,
        source is NoSource ==> source.words()
            == "one of --snapshot or --node-socket is required"@,
        connect is Timeout ==> connect.words() == "timeout"@,
        connect matches ConnectError::Connect(m) ==> connect.words() == m@,
{
}

} // verus!
