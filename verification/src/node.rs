//! Fetch the big ledger peer snapshot from a local cardano-node over the
//! node-to-client socket, with the Shelley `GetBigLedgerPeerSnapshot` query:
//! what to ask, how to read the answer, and what to do when it fails.

use pallas_codec::minicbor::decode::Error;
use vstd::prelude::*;

use crate::cbor::{
    cbor_words, hex_of, lossy_text, read_array, read_bytes, read_int, read_sort, read_str, read_tag, read_u32,
    read_u64, read_u8, skip_break, write_array, write_u16, write_u8, Sort,
};
use crate::cli::quoted;
use crate::ip::{join_groups, join_octets, write_v4, write_v6};
use crate::snapshot::{Point, Pool, PoolView, Relay, RelayView, Snapshot};
use crate::text::{
    chars_of, lower, number, parse_unsigned, put, same, signed_number, string_of, trim_end, Class,
};

verus! {

pub const MAINNET_MAGIC: u64 = 764824073;

/// The network magic that `s` gives: a number, or "mainnet" in any case.
pub open spec fn magic_of(s: Seq<char>) -> Option<nat> {
    if crate::text::lowered(s) == "mainnet"@ {
        Some(MAINNET_MAGIC as nat)
    } else {
        crate::text::unsigned(s, u64::MAX as nat)
    }
}

/// Parse a network magic from the command line, accepting "mainnet" for its magic.
pub fn parse_magic(s: &str) -> (r: Result<u64, String>)
    ensures
        match magic_of(s@) {
            Some(n) => r matches Ok(m) && m == n,
            None => r matches Err(e) && e@
                == "expected a network magic number or \"mainnet\", got "@
                + crate::cli::debug_quoted(s@),
        },
{
    let v = chars_of(s);
    if same(string_of(lower(v.as_slice()).as_slice()).as_str(), "mainnet") {
        return Ok(MAINNET_MAGIC);
    }
    match parse_unsigned(v.as_slice(), u64::MAX) {
        Some(n) => Ok(n),
        None => {
            let mut m = "expected a network magic number or \"mainnet\", got ".to_owned();
            put(&mut m, quoted(s).as_str());
            Err(m)
        },
    }
}

// The query.

/// The Shelley query is `[34]` through ouroboros-consensus-cardano 0.26 and
/// `[34, 1]` once the all-ledger-peers variant lands. The node closes the
/// connection on the one it does not know, so both are tried in turn.
#[derive(Clone, Copy, Debug, PartialEq, Eq, Structural)]
pub enum QueryShape {
    Plain,
    Kinded,
}

/// `Request::LedgerQuery(BlockQuery(era, q))` is `[0, [0, [era, q]]]`.
pub open spec fn query_bytes(era: u16, shape: QueryShape) -> Seq<u8> {
    let lead = seq![0x82u8, 0u8, 0x82u8, 0u8, 0x82u8] + crate::cbor::head(0, era as nat);
    match shape {
        QueryShape::Plain => lead + seq![0x81u8, 0x18u8, 34u8],
        QueryShape::Kinded => lead + seq![0x82u8, 0x18u8, 34u8, 1u8],
    }
}

pub fn encode_query(era: u16, shape: QueryShape) -> (out: Vec<u8>)
    ensures
        out@ == query_bytes(era, shape),
{
    let mut out: Vec<u8> = Vec::new();
    write_array(&mut out, 2);
    write_u8(&mut out, 0);
    write_array(&mut out, 2);
    write_u8(&mut out, 0);
    write_array(&mut out, 2);
    write_u16(&mut out, era);
    match shape {
        QueryShape::Plain => {
            write_array(&mut out, 1);
            write_u8(&mut out, 34);
        },
        QueryShape::Kinded => {
            write_array(&mut out, 2);
            write_u8(&mut out, 34);
            write_u8(&mut out, 1);
        },
    }
    proof {
        reveal_with_fuel(crate::cbor::bytes_of, 2);
    }
    assert(out@ =~= query_bytes(era, shape));
    out
}

// The answer.

/// The parts of the answer whose shape is fixed.
#[derive(Clone, Copy, Debug, PartialEq, Eq, Structural)]
pub enum Part {
    Snapshot,
    Body,
    Pool,
    StakeAndRelays,
    Rational,
    Ipv4,
    Ipv6,
}

impl Part {
    pub open spec fn name(self) -> Seq<char> {
        match self {
            Part::Snapshot => "snapshot"@,
            Part::Body => "snapshot body"@,
            Part::Pool => "pool"@,
            Part::StakeAndRelays => "pool stake and relays"@,
            Part::Rational => "rational"@,
            Part::Ipv4 => "IPv4"@,
            Part::Ipv6 => "IPv6"@,
        }
    }

    pub fn label(self) -> (s: &'static str)
        ensures
            s@ == self.name(),
    {
        match self {
            Part::Snapshot => "snapshot",
            Part::Body => "snapshot body",
            Part::Pool => "pool",
            Part::StakeAndRelays => "pool stake and relays",
            Part::Rational => "rational",
            Part::Ipv4 => "IPv4",
            Part::Ipv6 => "IPv6",
        }
    }
}

/// What is wrong with an answer that is well-formed.
#[derive(Clone, Copy, Debug, PartialEq, Eq, Structural)]
pub enum Fault {
    EraMismatch,
    Wrapper(Option<u64>),
    Array(Part, u64, Option<u64>),
    AllLedgerPeers,
    Version(u8),
    WithOrigin,
    Point,
    Relay(Option<u64>, u8),
    Port(i128),
    Component(Part, i128),
    Components(Part, usize, usize),
    RationalTag(u64),
    ZeroDenominator,
    IntegerTag(u64),
}

/// Why an answer could not be read.
#[derive(Debug)]
pub enum DecodeError {
    /// minicbor's own complaint.
    Cbor(Error),
    /// Well-formed, but not what was asked for.
    Shape(Fault),
}

/// What stops the reading of an answer.
pub enum Flaw {
    /// Not CBOR, or not the type of item that was expected, and minicbor's
    /// words for it.
    Cbor(Seq<char>),
    Shape(Fault),
}

impl Flaw {
    /// The flaw in words.
    pub open spec fn words(self) -> Seq<char> {
        match self {
            Flaw::Cbor(words) => words,
            Flaw::Shape(f) => f.words(),
        }
    }
}

impl DecodeError {
    pub open spec fn flaw(self) -> Flaw {
        match self {
            DecodeError::Cbor(e) => Flaw::Cbor(crate::cbor::error_text(e)),
            DecodeError::Shape(f) => Flaw::Shape(f),
        }
    }
}

/// What `{:?}` prints for an optional number.
pub open spec fn option_text(n: Option<u64>) -> Seq<char> {
    match n {
        Some(n) => "Some("@ + crate::text::decimal(n as nat) + ")"@,
        None => "None"@,
    }
}

fn option_words(n: Option<u64>) -> (s: String)
    ensures
        s@ == option_text(n),
{
    match n {
        Some(n) => {
            let mut s = "Some(".to_owned();
            put(&mut s, number(n).as_str());
            put(&mut s, ")");
            s
        },
        None => "None".to_owned(),
    }
}

impl Fault {
    /// The fault in words.
    pub open spec fn words(self) -> Seq<char> {
        match self {
            Fault::EraMismatch => "era mismatch reported by the node"@,
            Fault::Wrapper(n) => "unexpected result wrapper "@ + option_text(n),
            Fault::Array(part, n, got) => part.name() + ": expected a "@ + crate::text::decimal(
                n as nat,
            ) + "-element array, got "@ + option_text(got),
            Fault::AllLedgerPeers =>
                "node returned an all-ledger-peers snapshot, not big ledger peers"@,
            Fault::Version(v) => "unknown snapshot version "@ + crate::text::decimal(v as nat),
            Fault::WithOrigin => "unexpected WithOrigin encoding"@,
            Fault::Point => "unexpected Point encoding"@,
            Fault::Relay(n, tag) => "unexpected relay access point encoding ("@ + option_text(n)
                + ", "@ + crate::text::decimal(tag as nat) + ")"@,
            Fault::Port(v) => "port "@ + crate::text::signed_decimal(v as int) + " out of range"@,
            Fault::Component(part, v) => part.name() + " component "@
                + crate::text::signed_decimal(v as int) + " out of range"@,
            Fault::Components(part, got, n) => part.name() + " has "@ + crate::text::decimal(
                got as nat,
            ) + " components, expected "@ + crate::text::decimal(n as nat),
            Fault::RationalTag(t) => "expected rational tag 30, got "@ + crate::text::decimal(
                t as nat,
            ),
            Fault::ZeroDenominator => "rational with zero denominator"@,
            Fault::IntegerTag(t) => "unexpected tag "@ + crate::text::decimal(t as nat)
                + " where an integer was expected"@,
        }
    }

    pub fn text(&self) -> (s: String)
        ensures
            s@ == self.words(),
    {
        match *self {
            Fault::EraMismatch => "era mismatch reported by the node".to_owned(),
            Fault::Wrapper(n) => {
                let mut s = "unexpected result wrapper ".to_owned();
                put(&mut s, option_words(n).as_str());
                s
            },
            Fault::Array(part, n, got) => {
                let mut s = part.label().to_owned();
                put(&mut s, ": expected a ");
                put(&mut s, number(n).as_str());
                put(&mut s, "-element array, got ");
                put(&mut s, option_words(got).as_str());
                s
            },
            Fault::AllLedgerPeers =>
                "node returned an all-ledger-peers snapshot, not big ledger peers".to_owned(),
            Fault::Version(v) => {
                let mut s = "unknown snapshot version ".to_owned();
                put(&mut s, number(v as u64).as_str());
                s
            },
            Fault::WithOrigin => "unexpected WithOrigin encoding".to_owned(),
            Fault::Point => "unexpected Point encoding".to_owned(),
            Fault::Relay(n, tag) => {
                let mut s = "unexpected relay access point encoding (".to_owned();
                put(&mut s, option_words(n).as_str());
                put(&mut s, ", ");
                put(&mut s, number(tag as u64).as_str());
                put(&mut s, ")");
                s
            },
            Fault::Port(v) => {
                let mut s = "port ".to_owned();
                put(&mut s, signed_number(v).as_str());
                put(&mut s, " out of range");
                s
            },
            Fault::Component(part, v) => {
                let mut s = part.label().to_owned();
                put(&mut s, " component ");
                put(&mut s, signed_number(v).as_str());
                put(&mut s, " out of range");
                s
            },
            Fault::Components(part, got, n) => {
                let mut s = part.label().to_owned();
                put(&mut s, " has ");
                put(&mut s, number(got as u64).as_str());
                put(&mut s, " components, expected ");
                put(&mut s, number(n as u64).as_str());
                s
            },
            Fault::RationalTag(t) => {
                let mut s = "expected rational tag 30, got ".to_owned();
                put(&mut s, number(t).as_str());
                s
            },
            Fault::ZeroDenominator => "rational with zero denominator".to_owned(),
            Fault::IntegerTag(t) => {
                let mut s = "unexpected tag ".to_owned();
                put(&mut s, number(t).as_str());
                put(&mut s, " where an integer was expected");
                s
            },
        }
    }
}

/// A value read from a position, and the position behind it.
pub type Read<V> = Result<(V, int), Flaw>;

/// Does the reading `r` agree with what the bytes say?
pub open spec fn agrees<T: DeepView>(r: Result<(T, usize), DecodeError>, says: Read<T::V>) -> bool {
    match says {
        Ok((v, next)) => r matches Ok(p) && p.0.deep_view() == v && p.1 == next,
        Err(f) => r matches Err(e) && e.flaw() == f,
    }
}

/// Something that an array can hold any number of.
pub trait Grammar: Sized {
    type Item: DeepView;

    /// What the bytes say of the item at `at`.
    spec fn item_at(&self, b: Seq<u8>, at: int) -> Read<<Self::Item as DeepView>::V>;

    fn read_item(&self, bytes: &[u8], pos: usize) -> (r: Result<(Self::Item, usize), DecodeError>)
        requires
            pos <= bytes.len(),
        ensures
            agrees(r, self.item_at(bytes@, pos as int)),
    ;

    /// An item takes at least one byte, and none from beyond the end.
    proof fn item_advances(&self, b: Seq<u8>, at: int)
        requires
            0 <= at <= b.len(),
        ensures
            self.item_at(b, at) matches Ok(p) ==> at < p.1 <= b.len(),
    ;
}

/// `front` ahead of the items that `rest` gives.
pub open spec fn ahead_of<V>(front: Seq<V>, rest: Read<Seq<V>>) -> Read<Seq<V>> {
    match rest {
        Ok((s, end)) => Ok((front + s, end)),
        Err(f) => Err(f),
    }
}

/// `n` items, one behind the other.
pub open spec fn counted<G: Grammar>(g: G, b: Seq<u8>, at: int, n: nat) -> Read<
    Seq<<G::Item as DeepView>::V>,
>
    decreases n,
{
    if n == 0 {
        Ok((Seq::empty(), at))
    } else {
        match g.item_at(b, at) {
            Ok((v, next)) => ahead_of(seq![v], counted(g, b, next, (n - 1) as nat)),
            Err(f) => Err(f),
        }
    }
}

/// Items up to a break.
pub open spec fn broken_off<G: Grammar>(g: G, b: Seq<u8>, at: int) -> Read<
    Seq<<G::Item as DeepView>::V>,
>
    decreases b.len() - at,
{
    match crate::cbor::sort_at(b, at) {
        None => Err(Flaw::Cbor("end of input bytes"@)),
        Some(Sort::Break) => Ok((Seq::empty(), at + 1)),
        Some(_) => match g.item_at(b, at) {
            Ok((v, next)) => if at < next <= b.len() {
                ahead_of(seq![v], broken_off(g, b, next))
            } else {
                // Out of reach: every item takes at least one byte.
                Err(Flaw::Cbor(Seq::empty()))
            },
            Err(f) => Err(f),
        },
    }
}

/// The items of a definite or indefinite length array.
pub open spec fn items_at<G: Grammar>(g: G, b: Seq<u8>, at: int) -> Read<
    Seq<<G::Item as DeepView>::V>,
> {
    match crate::cbor::array_at(b, at) {
        None => Err(Flaw::Cbor(crate::cbor::array_error(b, at))),
        Some((Some(n), first)) => counted(g, b, first, n),
        Some((None, first)) => broken_off(g, b, first),
    }
}

proof fn lemma_ahead_of<V>(front: Seq<V>, v: V, rest: Read<Seq<V>>)
    ensures
        ahead_of(front, ahead_of(seq![v], rest)) == ahead_of(front.push(v), rest),
{
    if let Ok((s, end)) = rest {
        assert(front + (seq![v] + s) =~= front.push(v) + s);
    }
}

/// Read every element of a definite or indefinite length array.
pub fn for_each<G: Grammar>(g: &G, bytes: &[u8], pos: usize) -> (r: Result<
    (Vec<G::Item>, usize),
    DecodeError,
>)
    requires
        pos <= bytes.len(),
    ensures
        agrees(r, items_at(*g, bytes@, pos as int)),
{
    let (len, first) = match read_array(bytes, pos) {
        Ok(p) => p,
        Err(e) => {
            return Err(DecodeError::Cbor(e));
        },
    };
    let ghost b = bytes@;
    let mut v: Vec<G::Item> = Vec::new();
    let mut at: usize = first;
    assert(v.deep_view() =~= Seq::empty());
    match len {
        Some(n) => {
            let mut left: u64 = n;
            proof {
                let whole = counted(*g, b, first as int, n as nat);
                if let Ok((s, end)) = whole {
                    assert(v.deep_view() + s =~= s);
                }
            }
            while left > 0
                invariant
                    b == bytes@,
                    at <= bytes.len(),
                    counted(*g, b, first as int, n as nat) == ahead_of(
                        v.deep_view(),
                        counted(*g, b, at as int, left as nat),
                    ),
                    items_at(*g, b, pos as int) == counted(*g, b, first as int, n as nat),
                decreases left,
            {
                match g.read_item(bytes, at) {
                    Ok((x, next)) => {
                        let ghost front = v.deep_view();
                        proof {
                            g.item_advances(b, at as int);
                            lemma_ahead_of(
                                front,
                                x.deep_view(),
                                counted(*g, b, next as int, (left - 1) as nat),
                            );
                        }
                        v.push(x);
                        assert(v.deep_view() =~= front.push(x.deep_view()));
                        at = next;
                    },
                    Err(e) => {
                        return Err(e);
                    },
                }
                left -= 1;
            }
            assert(v.deep_view() + Seq::empty() =~= v.deep_view());
            Ok((v, at))
        },
        None => {
            proof {
                let whole = broken_off(*g, b, first as int);
                if let Ok((s, end)) = whole {
                    assert(v.deep_view() + s =~= s);
                }
            }
            loop
                invariant
                    b == bytes@,
                    at <= bytes.len(),
                    broken_off(*g, b, first as int) == ahead_of(
                        v.deep_view(),
                        broken_off(*g, b, at as int),
                    ),
                    items_at(*g, b, pos as int) == broken_off(*g, b, first as int),
                ensures
                    crate::cbor::sort_at(b, at as int) == Some(Sort::Break),
                decreases bytes.len() - at,
            {
                match read_sort(bytes, at) {
                    Ok(Sort::Break) => {
                        break ;
                    },
                    Ok(_) => {},
                    Err(e) => {
                        return Err(DecodeError::Cbor(e));
                    },
                }
                match g.read_item(bytes, at) {
                    Ok((x, next)) => {
                        let ghost front = v.deep_view();
                        proof {
                            g.item_advances(b, at as int);
                            lemma_ahead_of(
                                front,
                                x.deep_view(),
                                broken_off(*g, b, next as int),
                            );
                        }
                        v.push(x);
                        assert(v.deep_view() =~= front.push(x.deep_view()));
                        at = next;
                    },
                    Err(e) => {
                        return Err(e);
                    },
                }
            }
            assert(v.deep_view() + Seq::empty() =~= v.deep_view());
            match skip_break(bytes, at) {
                Ok(next) => Ok((v, next)),
                Err(e) => Err(DecodeError::Cbor(e)),
            }
        },
    }
}

/// Where the elements of the array at `at` start, if it has `n` of them.
pub open spec fn array_of(b: Seq<u8>, at: int, n: u64, part: Part) -> Result<int, Flaw> {
    match crate::cbor::array_at(b, at) {
        None => Err(Flaw::Cbor(crate::cbor::array_error(b, at))),
        Some((got, next)) => if got == Some(n as nat) {
            Ok(next)
        } else {
            Err(
                Flaw::Shape(
                    Fault::Array(
                        part,
                        n,
                        match got {
                            Some(k) => Some(k as u64),
                            None => None,
                        },
                    ),
                ),
            )
        },
    }
}

fn expect_array(bytes: &[u8], pos: usize, n: u64, part: Part) -> (r: Result<usize, DecodeError>)
    ensures
        match array_of(bytes@, pos as int, n, part) {
            Ok(next) => r matches Ok(q) && q == next && pos < next <= bytes.len(),
            Err(f) => r matches Err(e) && e.flaw() == f,
        },
{
    match read_array(bytes, pos) {
        Ok((Some(len), next)) if len == n => Ok(next),
        Ok((other, _)) => Err(DecodeError::Shape(Fault::Array(part, n, other))),
        Err(e) => Err(DecodeError::Cbor(e)),
    }
}

/// The length of the array at `at`, the small number that comes first in it,
/// and where the rest stands.
pub open spec fn tagged_at(b: Seq<u8>, at: int) -> Result<(Option<nat>, nat, int), Flaw> {
    match crate::cbor::array_at(b, at) {
        None => Err(Flaw::Cbor(crate::cbor::array_error(b, at))),
        Some((len, first)) => match crate::cbor::unsigned_at(b, first, u8::MAX as nat) {
            None => Err(Flaw::Cbor(crate::cbor::u8_error(b, first))),
            Some((tag, next)) => Ok((len, tag, next)),
        },
    }
}

fn read_tagged(bytes: &[u8], pos: usize) -> (r: Result<(Option<u64>, u8, usize), DecodeError>)
    ensures
        match tagged_at(bytes@, pos as int) {
            Ok((len, tag, next)) => r matches Ok(p) && crate::cbor::length(p.0) == len && p.1
                == tag && p.2 == next && pos < next <= bytes.len(),
            Err(f) => r matches Err(e) && e.flaw() == f,
        },
{
    match read_array(bytes, pos) {
        Ok((len, first)) => match read_u8(bytes, first) {
            Ok((tag, next)) => Ok((len, tag, next)),
            Err(e) => Err(DecodeError::Cbor(e)),
        },
        Err(e) => Err(DecodeError::Cbor(e)),
    }
}

/// A slot that may be the origin: `[0]` or `[1, slot]`.
pub open spec fn with_origin_at(b: Seq<u8>, at: int) -> Read<Option<u64>> {
    match tagged_at(b, at) {
        Err(f) => Err(f),
        Ok((len, tag, next)) => if len == Some(1nat) && tag == 0 {
            Ok((None, next))
        } else if len == Some(2nat) && tag == 1 {
            match crate::cbor::unsigned_at(b, next, u64::MAX as nat) {
                Some((slot, end)) => Ok((Some(slot as u64), end)),
                None => Err(Flaw::Cbor(crate::cbor::u64_error(b, next))),
            }
        } else {
            Err(Flaw::Shape(Fault::WithOrigin))
        },
    }
}

fn decode_with_origin(bytes: &[u8], pos: usize) -> (r: Result<(Option<u64>, usize), DecodeError>)
    ensures
        agrees(r, with_origin_at(bytes@, pos as int)),
        r matches Ok(p) ==> pos < p.1 <= bytes.len(),
{
    let (len, tag, next) = match read_tagged(bytes, pos) {
        Ok(p) => p,
        Err(e) => {
            return Err(e);
        },
    };
    match (len, tag) {
        (Some(1), 0) => Ok((None, next)),
        (Some(2), 1) => match read_u64(bytes, next) {
            Ok((slot, end)) => Ok((Some(slot), end)),
            Err(e) => Err(DecodeError::Cbor(e)),
        },
        _ => Err(DecodeError::Shape(Fault::WithOrigin)),
    }
}

/// A chain point: `[0]` for the origin, or `[1, slot, hash]`.
pub open spec fn point_at(b: Seq<u8>, at: int) -> Read<Option<(u64, Seq<char>)>> {
    match tagged_at(b, at) {
        Err(f) => Err(f),
        Ok((len, tag, next)) => if len == Some(1nat) && tag == 0 {
            Ok((None, next))
        } else if len == Some(3nat) && tag == 1 {
            match crate::cbor::unsigned_at(b, next, u64::MAX as nat) {
                None => Err(Flaw::Cbor(crate::cbor::u64_error(b, next))),
                Some((slot, second)) => match crate::cbor::string_at(b, second, 2) {
                    None => Err(Flaw::Cbor(crate::cbor::bytes_error(b, second, usize::MAX as nat))),
                    Some((hash, end)) => Ok(
                        (Some((slot as u64, crate::cbor::hex_text(hash))), end),
                    ),
                },
            }
        } else {
            Err(Flaw::Shape(Fault::Point))
        },
    }
}

fn decode_point(bytes: &[u8], pos: usize) -> (r: Result<
    (Option<(u64, String)>, usize),
    DecodeError,
>)
    ensures
        agrees(r, point_at(bytes@, pos as int)),
        r matches Ok(p) ==> pos < p.1 <= bytes.len(),
{
    let (len, tag, next) = match read_tagged(bytes, pos) {
        Ok(p) => p,
        Err(e) => {
            return Err(e);
        },
    };
    match (len, tag) {
        (Some(1), 0) => Ok((None, next)),
        (Some(3), 1) => {
            let (slot, second) = match read_u64(bytes, next) {
                Ok(p) => p,
                Err(e) => {
                    return Err(DecodeError::Cbor(e));
                },
            };
            match read_bytes(bytes, second) {
                Ok((hash, end)) => Ok((Some((slot, hex_of(hash))), end)),
                Err(e) => Err(DecodeError::Cbor(e)),
            }
        },
        _ => Err(DecodeError::Shape(Fault::Point)),
    }
}

/// A port number.
pub open spec fn port_at(b: Seq<u8>, at: int) -> Read<u16> {
    match crate::cbor::integer_at(b, at) {
        None => Err(Flaw::Cbor(crate::cbor::int_error(b, at))),
        Some((v, next)) => if 0 <= v <= u16::MAX {
            Ok((v as u16, next))
        } else {
            Err(Flaw::Shape(Fault::Port(v as i128)))
        },
    }
}

fn decode_port(bytes: &[u8], pos: usize) -> (r: Result<(u16, usize), DecodeError>)
    ensures
        agrees(r, port_at(bytes@, pos as int)),
        r matches Ok(p) ==> pos < p.1 <= bytes.len(),
{
    match read_int(bytes, pos) {
        Ok((v, next)) => if 0 <= v && v <= u16::MAX as i128 {
            Ok((v as u16, next))
        } else {
            Err(DecodeError::Shape(Fault::Port(v)))
        },
        Err(e) => Err(DecodeError::Cbor(e)),
    }
}

/// A domain name, as text or as bytes, without the dots at its end.
pub open spec fn domain_at(b: Seq<u8>, at: int) -> Read<Seq<char>> {
    let raw = match crate::cbor::sort_at(b, at) {
        None => Err(Flaw::Cbor("end of input bytes"@)),
        Some(Sort::Text) => match crate::cbor::text_at(b, at) {
            Some(p) => Ok(p),
            None => Err(Flaw::Cbor(crate::cbor::str_error(b, at, usize::MAX as nat))),
        },
        Some(_) => match crate::cbor::string_at(b, at, 2) {
            Some((s, next)) => Ok((crate::cbor::lossy(s), next)),
            None => Err(Flaw::Cbor(crate::cbor::bytes_error(b, at, usize::MAX as nat))),
        },
    };
    match raw {
        Ok((s, next)) => Ok((crate::text::trimmed_end(s, Class::Dot), next)),
        Err(f) => Err(f),
    }
}

fn decode_domain(bytes: &[u8], pos: usize) -> (r: Result<(String, usize), DecodeError>)
    ensures
        agrees(r, domain_at(bytes@, pos as int)),
        r matches Ok(p) ==> pos < p.1 <= bytes.len(),
{
    let (raw, next): (String, usize) = match read_sort(bytes, pos) {
        Ok(Sort::Text) => match read_str(bytes, pos) {
            Ok((s, next)) => (s.to_owned(), next),
            Err(e) => {
                return Err(DecodeError::Cbor(e));
            },
        },
        Ok(_) => match read_bytes(bytes, pos) {
            Ok((s, next)) => (lossy_text(s), next),
            Err(e) => {
                return Err(DecodeError::Cbor(e));
            },
        },
        Err(e) => {
            return Err(DecodeError::Cbor(e));
        },
    };
    let v = chars_of(raw.as_str());
    Ok((string_of(trim_end(v.as_slice(), Class::Dot)), next))
}

/// The numbers that spell an address.
pub struct Components {
    pub part: Part,
}

impl Grammar for Components {
    type Item = u64;

    open spec fn item_at(&self, b: Seq<u8>, at: int) -> Read<u64> {
        match crate::cbor::integer_at(b, at) {
            None => Err(Flaw::Cbor(crate::cbor::int_error(b, at))),
            Some((v, next)) => if 0 <= v <= u64::MAX {
                Ok((v as u64, next))
            } else {
                Err(Flaw::Shape(Fault::Component(self.part, v as i128)))
            },
        }
    }

    fn read_item(&self, bytes: &[u8], pos: usize) -> Result<(u64, usize), DecodeError> {
        match read_int(bytes, pos) {
            Ok((v, next)) => if 0 <= v && v <= u64::MAX as i128 {
                Ok((v as u64, next))
            } else {
                Err(DecodeError::Shape(Fault::Component(self.part, v)))
            },
            Err(e) => Err(DecodeError::Cbor(e)),
        }
    }

    proof fn item_advances(&self, b: Seq<u8>, at: int) {
    }
}

/// An array of `n` numbers.
pub open spec fn components_at(b: Seq<u8>, at: int, n: usize, part: Part) -> Read<Seq<u64>> {
    match items_at(Components { part }, b, at) {
        Ok((s, next)) => if s.len() == n {
            Ok((s, next))
        } else {
            Err(Flaw::Shape(Fault::Components(part, s.len() as usize, n)))
        },
        Err(f) => Err(f),
    }
}

fn decode_u64_array(bytes: &[u8], pos: usize, n: usize, part: Part) -> (r: Result<
    (Vec<u64>, usize),
    DecodeError,
>)
    requires
        pos <= bytes.len(),
    ensures
        agrees(r, components_at(bytes@, pos as int, n, part)),
{
    match for_each(&Components { part }, bytes, pos) {
        Ok((out, next)) => if out.len() == n {
            Ok((out, next))
        } else {
            Err(DecodeError::Shape(Fault::Components(part, out.len(), n)))
        },
        Err(e) => Err(e),
    }
}

/// An integer of any size.
#[derive(Clone, Debug)]
pub enum Whole {
    Int(i128),
    /// A bignum: the bytes of its size, most significant first. A negative one
    /// is -1 less that number.
    Big { negative: bool, bytes: Vec<u8> },
}

impl DeepView for Whole {
    type V = int;

    open spec fn deep_view(&self) -> int {
        match self {
            Whole::Int(v) => *v as int,
            Whole::Big { negative, bytes } => big(*negative, bytes@),
        }
    }
}

/// What a bignum stands for.
pub open spec fn big(negative: bool, bytes: Seq<u8>) -> int {
    if negative {
        -1 - crate::cbor::big_endian(bytes)
    } else {
        crate::cbor::big_endian(bytes) as int
    }
}

impl Whole {
    pub fn is_zero(&self) -> (r: bool)
        ensures
            r == (self.deep_view() == 0),
    {
        match self {
            Whole::Int(v) => *v == 0,
            Whole::Big { negative: true, .. } => false,
            Whole::Big { negative: false, bytes } => {
                let mut i: usize = 0;
                assert(bytes@.take(0) =~= Seq::<u8>::empty());
                while i < bytes.len()
                    invariant
                        i <= bytes.len(),
                        self.deep_view() == crate::cbor::big_endian(bytes@),
                        crate::cbor::big_endian(bytes@.take(i as int)) == 0,
                    decreases bytes.len() - i,
                {
                    assert(bytes@.take(i + 1).drop_last() =~= bytes@.take(i as int));
                    if bytes[i] != 0 {
                        proof {
                            lemma_big_endian_grows(bytes@, i + 1);
                        }
                        return false;
                    }
                    i += 1;
                }
                assert(bytes@.take(i as int) =~= bytes@);
                true
            },
        }
    }
}

proof fn lemma_big_endian_grows(s: Seq<u8>, k: int)
    requires
        0 <= k <= s.len(),
    ensures
        crate::cbor::big_endian(s.take(k)) <= crate::cbor::big_endian(s),
    decreases s.len() - k,
{
    if k < s.len() {
        lemma_big_endian_grows(s, k + 1);
        assert(s.take(k + 1).drop_last() =~= s.take(k));
    } else {
        assert(s.take(k) =~= s);
    }
}

/// A fraction whose denominator is not zero.
#[derive(Clone, Debug)]
pub struct Rational {
    pub num: Whole,
    pub den: Whole,
}

pub struct RationalView {
    pub num: int,
    pub den: int,
}

impl DeepView for Rational {
    type V = RationalView;

    open spec fn deep_view(&self) -> RationalView {
        RationalView { num: self.num.deep_view(), den: self.den.deep_view() }
    }
}

/// An integer that may exceed 64 bits, as a bignum (tag 2 or 3 over bytes).
pub open spec fn whole_at(b: Seq<u8>, at: int) -> Read<int> {
    match crate::cbor::sort_at(b, at) {
        None => Err(Flaw::Cbor("end of input bytes"@)),
        Some(Sort::Tag) => match crate::cbor::item(b, at, 6) {
            None => Err(Flaw::Cbor(crate::cbor::tag_error(b, at))),
            Some((tag, next)) => if tag != 2 && tag != 3 {
                Err(Flaw::Shape(Fault::IntegerTag(tag as u64)))
            } else {
                match crate::cbor::string_at(b, next, 2) {
                    Some((s, end)) => Ok((big(tag == 3, s), end)),
                    None => Err(Flaw::Cbor(crate::cbor::bytes_error(b, next, usize::MAX as nat))),
                }
            },
        },
        Some(_) => match crate::cbor::integer_at(b, at) {
            Some((v, next)) => Ok((v, next)),
            None => Err(Flaw::Cbor(crate::cbor::int_error(b, at))),
        },
    }
}

fn decode_integer(bytes: &[u8], pos: usize) -> (r: Result<(Whole, usize), DecodeError>)
    ensures
        agrees(r, whole_at(bytes@, pos as int)),
        r matches Ok(p) ==> pos < p.1 <= bytes.len(),
{
    match read_sort(bytes, pos) {
        Err(e) => Err(DecodeError::Cbor(e)),
        Ok(Sort::Tag) => {
            let (tag, next) = match read_tag(bytes, pos) {
                Ok(p) => p,
                Err(e) => {
                    return Err(DecodeError::Cbor(e));
                },
            };
            if tag != 2 && tag != 3 {
                return Err(DecodeError::Shape(Fault::IntegerTag(tag)));
            }
            match read_bytes(bytes, next) {
                Ok((s, end)) => {
                    let mut own: Vec<u8> = Vec::new();
                    own.extend_from_slice(s);
                    assert(own@ =~= s@);
                    Ok((Whole::Big { negative: tag == 3, bytes: own }, end))
                },
                Err(e) => Err(DecodeError::Cbor(e)),
            }
        },
        Ok(_) => match read_int(bytes, pos) {
            Ok((v, next)) => Ok((Whole::Int(v), next)),
            Err(e) => Err(DecodeError::Cbor(e)),
        },
    }
}

/// A fraction: tag 30, or nothing, over `[numerator, denominator]`.
pub open spec fn rational_at(b: Seq<u8>, at: int) -> Read<RationalView> {
    match crate::cbor::sort_at(b, at) {
        None => Err(Flaw::Cbor("end of input bytes"@)),
        Some(Sort::Tag) => match crate::cbor::item(b, at, 6) {
            None => Err(Flaw::Cbor(crate::cbor::tag_error(b, at))),
            Some((tag, next)) => if tag != 30 {
                Err(Flaw::Shape(Fault::RationalTag(tag as u64)))
            } else {
                fraction_at(b, next)
            },
        },
        Some(_) => fraction_at(b, at),
    }
}

/// A fraction: `[numerator, denominator]`.
pub open spec fn fraction_at(b: Seq<u8>, at: int) -> Read<RationalView> {
    match array_of(b, at, 2, Part::Rational) {
        Err(f) => Err(f),
        Ok(first) => match whole_at(b, first) {
            Err(f) => Err(f),
            Ok((num, second)) => match whole_at(b, second) {
                Err(f) => Err(f),
                Ok((den, end)) => if den == 0 {
                    Err(Flaw::Shape(Fault::ZeroDenominator))
                } else {
                    Ok((RationalView { num, den }, end))
                },
            },
        },
    }
}

proof fn lemma_whole_advances(b: Seq<u8>, at: int)
    ensures
        whole_at(b, at) matches Ok(p) ==> at < p.1 <= b.len(),
{
}

proof fn lemma_fraction_advances(b: Seq<u8>, at: int)
    ensures
        fraction_at(b, at) matches Ok(p) ==> at < p.1 <= b.len(),
{
    if let Ok(first) = array_of(b, at, 2, Part::Rational) {
        lemma_whole_advances(b, first);
        if let Ok((num, second)) = whole_at(b, first) {
            lemma_whole_advances(b, second);
        }
    }
}

proof fn lemma_rational_advances(b: Seq<u8>, at: int)
    ensures
        rational_at(b, at) matches Ok(p) ==> at < p.1 <= b.len(),
{
    lemma_fraction_advances(b, at);
    if let Some((tag, next)) = crate::cbor::item(b, at, 6) {
        lemma_fraction_advances(b, next);
    }
}

/// cardano-binary writes a Rational as tag 30 over `[numerator, denominator]`.
fn decode_rational(bytes: &[u8], pos: usize) -> (r: Result<(Rational, usize), DecodeError>)
    ensures
        agrees(r, rational_at(bytes@, pos as int)),
        r matches Ok(p) ==> pos < p.1 <= bytes.len(),
{
    let at: usize = match read_sort(bytes, pos) {
        Err(e) => {
            return Err(DecodeError::Cbor(e));
        },
        Ok(Sort::Tag) => match read_tag(bytes, pos) {
            Err(e) => {
                return Err(DecodeError::Cbor(e));
            },
            Ok((tag, next)) => {
                if tag != 30 {
                    return Err(DecodeError::Shape(Fault::RationalTag(tag)));
                }
                next
            },
        },
        Ok(_) => pos,
    };
    let first: usize = match expect_array(bytes, at, 2, Part::Rational) {
        Ok(next) => next,
        Err(e) => {
            return Err(e);
        },
    };
    let (num, second) = match decode_integer(bytes, first) {
        Ok(p) => p,
        Err(e) => {
            return Err(e);
        },
    };
    let (den, end) = match decode_integer(bytes, second) {
        Ok(p) => p,
        Err(e) => {
            return Err(e);
        },
    };
    if den.is_zero() {
        return Err(DecodeError::Shape(Fault::ZeroDenominator));
    }
    Ok((Rational { num, den }, end))
}

/// Relay access points.
pub struct Relays;

impl Grammar for Relays {
    type Item = Relay;

    /// `[0, port, domain]`, `[1, port, [a, b, c, d]]`, `[2, port, [8 x u16]]`,
    /// or `[3, domain]` for SRV.
    open spec fn item_at(&self, b: Seq<u8>, at: int) -> Read<RelayView> {
        match tagged_at(b, at) {
            Err(f) => Err(f),
            Ok((len, tag, first)) => if len == Some(3nat) && tag <= 2 {
                match port_at(b, first) {
                    Err(f) => Err(f),
                    Ok((port, second)) => match host_at(b, second, tag) {
                        Err(f) => Err(f),
                        Ok((address, end)) => Ok(
                            (RelayView { address, port: Some(port) }, end),
                        ),
                    },
                }
            } else if len == Some(2nat) && tag == 3 {
                match domain_at(b, first) {
                    Err(f) => Err(f),
                    Ok((address, end)) => Ok((RelayView { address, port: None }, end)),
                }
            } else {
                Err(
                    Flaw::Shape(
                        Fault::Relay(
                            match len {
                                Some(n) => Some(n as u64),
                                None => None,
                            },
                            tag as u8,
                        ),
                    ),
                )
            },
        }
    }

    fn read_item(&self, bytes: &[u8], pos: usize) -> Result<(Relay, usize), DecodeError> {
        let (len, tag, first) = match read_tagged(bytes, pos) {
            Ok(p) => p,
            Err(e) => {
                return Err(e);
            },
        };
        let n: u64 = match len {
            Some(n) => n,
            None => 0,
        };
        if n == 3 && tag <= 2 {
            let (port, second) = match decode_port(bytes, first) {
                Ok(p) => p,
                Err(e) => {
                    return Err(e);
                },
            };
            match decode_host(bytes, second, tag) {
                Ok((address, end)) => {
                    let relay = Relay { address, port: Some(port) };
                    assert(self.item_at(bytes@, pos as int)->Ok_0.0 == relay.deep_view());
                    Ok((relay, end))
                },
                Err(e) => Err(e),
            }
        } else if n == 2 && tag == 3 {
            match decode_domain(bytes, first) {
                Ok((address, end)) => Ok((Relay { address, port: None }, end)),
                Err(e) => Err(e),
            }
        } else {
            Err(DecodeError::Shape(Fault::Relay(len, tag)))
        }
    }

    proof fn item_advances(&self, b: Seq<u8>, at: int) {
        if let Ok((len, tag, first)) = tagged_at(b, at) {
            if let Ok((port, second)) = port_at(b, first) {
                lemma_items_advance(Components { part: Part::Ipv4 }, b, second);
                lemma_items_advance(Components { part: Part::Ipv6 }, b, second);
            }
        }
    }
}

/// The host of a relay: a domain, the octets of an IPv4 address, or the
/// groups of an IPv6 address.
pub open spec fn host_at(b: Seq<u8>, at: int, tag: nat) -> Read<Seq<char>> {
    if tag == 0 {
        domain_at(b, at)
    } else if tag == 1 {
        match components_at(b, at, 4, Part::Ipv4) {
            Ok((s, end)) => Ok(
                (
                    crate::ip::v4_text(crate::ip::weigh(crate::ip::lowest(s, 256), 256) as u32),
                    end,
                ),
            ),
            Err(f) => Err(f),
        }
    } else {
        match components_at(b, at, 8, Part::Ipv6) {
            Ok((s, end)) => Ok(
                (
                    crate::ip::v6_text(
                        crate::ip::weigh(crate::ip::lowest(s, 65536), 65536) as u128,
                    ),
                    end,
                ),
            ),
            Err(f) => Err(f),
        }
    }
}

fn decode_host(bytes: &[u8], pos: usize, tag: u8) -> (r: Result<(String, usize), DecodeError>)
    requires
        pos <= bytes.len(),
    ensures
        agrees(r, host_at(bytes@, pos as int, tag as nat)),
{
    if tag == 0 {
        decode_domain(bytes, pos)
    } else if tag == 1 {
        match decode_u64_array(bytes, pos, 4, Part::Ipv4) {
            Ok((s, end)) => {
                assert(s.deep_view() =~= s@);
                let a: u32 = join_octets(s.as_slice());
                Ok((string_of(write_v4(a).as_slice()), end))
            },
            Err(e) => Err(e),
        }
    } else {
        match decode_u64_array(bytes, pos, 8, Part::Ipv6) {
            Ok((s, end)) => {
                assert(s.deep_view() =~= s@);
                let a: u128 = join_groups(s.as_slice());
                Ok((string_of(write_v6(a).as_slice()), end))
            },
            Err(e) => Err(e),
        }
    }
}

proof fn lemma_counted_advances<G: Grammar>(g: G, b: Seq<u8>, at: int, n: nat)
    requires
        0 <= at <= b.len(),
    ensures
        counted(g, b, at, n) matches Ok(p) ==> at <= p.1 <= b.len(),
    decreases n,
{
    if n > 0 {
        g.item_advances(b, at);
        if let Ok((v, next)) = g.item_at(b, at) {
            lemma_counted_advances(g, b, next, (n - 1) as nat);
        }
    }
}

proof fn lemma_broken_off_advances<G: Grammar>(g: G, b: Seq<u8>, at: int)
    requires
        0 <= at <= b.len(),
    ensures
        broken_off(g, b, at) matches Ok(p) ==> at <= p.1 <= b.len(),
    decreases b.len() - at,
{
    if let Ok((v, next)) = g.item_at(b, at) {
        if at < next <= b.len() {
            lemma_broken_off_advances(g, b, next);
        }
    }
}

/// A list of items takes at least one byte, and none from beyond the end.
proof fn lemma_items_advance<G: Grammar>(g: G, b: Seq<u8>, at: int)
    requires
        0 <= at <= b.len(),
    ensures
        items_at(g, b, at) matches Ok(p) ==> at < p.1 <= b.len(),
{
    if let Some((len, first)) = crate::cbor::array_at(b, at) {
        if let Some(n) = len {
            lemma_counted_advances(g, b, first, n);
        } else {
            lemma_broken_off_advances(g, b, first);
        }
    }
}

/// Pools, each with its stakes and relays. Nested, `[accumulatedStake,
/// [relativeStake, [relay]]]`, or flat, `[accumulatedStake, relativeStake,
/// [relay]]`; the stakes are rationals.
pub struct Pools {
    pub flat: bool,
}

impl Grammar for Pools {
    type Item = Pool<Rational>;

    open spec fn item_at(&self, b: Seq<u8>, at: int) -> Read<PoolView<RationalView>> {
        match array_of(
            b,
            at,
            if self.flat {
                3
            } else {
                2
            },
            Part::Pool,
        ) {
            Err(f) => Err(f),
            Ok(first) => match rational_at(b, first) {
                Err(f) => Err(f),
                Ok((accumulated_stake, second)) => match if self.flat {
                    Ok(second)
                } else {
                    array_of(b, second, 2, Part::StakeAndRelays)
                } {
                    Err(f) => Err(f),
                    Ok(third) => match rational_at(b, third) {
                        Err(f) => Err(f),
                        Ok((relative_stake, fourth)) => match items_at(Relays, b, fourth) {
                            Err(f) => Err(f),
                            Ok((relays, end)) => Ok(
                                (PoolView { accumulated_stake, relative_stake, relays }, end),
                            ),
                        },
                    },
                },
            },
        }
    }

    fn read_item(&self, bytes: &[u8], pos: usize) -> Result<(Pool<Rational>, usize), DecodeError> {
        let n: u64 = if self.flat {
            3
        } else {
            2
        };
        let first: usize = match expect_array(bytes, pos, n, Part::Pool) {
            Ok(next) => next,
            Err(e) => {
                return Err(e);
            },
        };
        let (accumulated_stake, second) = match decode_rational(bytes, first) {
            Ok(p) => p,
            Err(e) => {
                return Err(e);
            },
        };
        let third: usize = if self.flat {
            second
        } else {
            match expect_array(bytes, second, 2, Part::StakeAndRelays) {
                Ok(next) => next,
                Err(e) => {
                    return Err(e);
                },
            }
        };
        let (relative_stake, fourth) = match decode_rational(bytes, third) {
            Ok(p) => p,
            Err(e) => {
                return Err(e);
            },
        };
        match for_each(&Relays, bytes, fourth) {
            Ok((relays, end)) => Ok((Pool { accumulated_stake, relative_stake, relays }, end)),
            Err(e) => Err(e),
        }
    }

    proof fn item_advances(&self, b: Seq<u8>, at: int) {
        if let Ok(first) = array_of(
            b,
            at,
            if self.flat {
                3
            } else {
                2
            },
            Part::Pool,
        ) {
            lemma_rational_advances(b, first);
            if let Ok((a, second)) = rational_at(b, first) {
                let step: Result<int, Flaw> = if self.flat {
                    Ok(second)
                } else {
                    array_of(b, second, 2, Part::StakeAndRelays)
                };
                if let Ok(third) = step {
                    lemma_rational_advances(b, third);
                    if let Ok((r, fourth)) = rational_at(b, third) {
                        lemma_items_advance(Relays, b, fourth);
                    }
                }
            }
        }
    }
}

/// A snapshot as the node answered it.
#[derive(Clone, Debug)]
pub struct Decoded {
    pub pools: Vec<Pool<Rational>>,
    /// Present in the V23 layout only.
    pub point: Option<(u64, String)>,
    pub magic: Option<u64>,
}

pub struct DecodedView {
    pub pools: Seq<PoolView<RationalView>>,
    pub point: Option<(u64, Seq<char>)>,
    pub magic: Option<u64>,
}

impl DeepView for Decoded {
    type V = DecodedView;

    open spec fn deep_view(&self) -> DecodedView {
        DecodedView {
            pools: self.pools.deep_view(),
            point: self.point.deep_view(),
            magic: self.magic,
        }
    }
}

/// `[1, [withOrigin, pools]]` through consensus 0.26; `[2, [point, magic,
/// pools]]` for the big-ledger-peer V23 layout after it.
pub open spec fn snapshot_at(b: Seq<u8>, at: int) -> Read<DecodedView> {
    match array_of(b, at, 2, Part::Snapshot) {
        Err(f) => Err(f),
        Ok(first) => match crate::cbor::unsigned_at(b, first, u8::MAX as nat) {
            None => Err(Flaw::Cbor(crate::cbor::u8_error(b, first))),
            Some((version, second)) => if version == 1 {
                nested_body_at(b, second)
            } else if version == 2 {
                flat_body_at(b, second)
            } else if version == 3 {
                Err(Flaw::Shape(Fault::AllLedgerPeers))
            } else {
                Err(Flaw::Shape(Fault::Version(version as u8)))
            },
        },
    }
}

/// `[withOrigin, pools]`.
pub open spec fn nested_body_at(b: Seq<u8>, at: int) -> Read<DecodedView> {
    match array_of(b, at, 2, Part::Body) {
        Err(f) => Err(f),
        Ok(first) => match with_origin_at(b, first) {
            Err(f) => Err(f),
            Ok((_, second)) => match items_at(Pools { flat: false }, b, second) {
                Err(f) => Err(f),
                Ok((pools, end)) => Ok((DecodedView { pools, point: None, magic: None }, end)),
            },
        },
    }
}

/// `[point, magic, pools]`.
pub open spec fn flat_body_at(b: Seq<u8>, at: int) -> Read<DecodedView> {
    match array_of(b, at, 3, Part::Body) {
        Err(f) => Err(f),
        Ok(first) => match point_at(b, first) {
            Err(f) => Err(f),
            Ok((point, second)) => match crate::cbor::unsigned_at(b, second, u32::MAX as nat) {
                None => Err(Flaw::Cbor(crate::cbor::u32_error(b, second))),
                Some((magic, third)) => match items_at(Pools { flat: true }, b, third) {
                    Err(f) => Err(f),
                    Ok((pools, end)) => Ok(
                        (DecodedView { pools, point, magic: Some(magic as u64) }, end),
                    ),
                },
            },
        },
    }
}

fn decode_nested_body(bytes: &[u8], pos: usize) -> (r: Result<(Decoded, usize), DecodeError>)
    ensures
        agrees(r, nested_body_at(bytes@, pos as int)),
{
    let first: usize = match expect_array(bytes, pos, 2, Part::Body) {
        Ok(next) => next,
        Err(e) => {
            return Err(e);
        },
    };
    let second: usize = match decode_with_origin(bytes, first) {
        Ok((_, next)) => next,
        Err(e) => {
            return Err(e);
        },
    };
    match for_each(&Pools { flat: false }, bytes, second) {
        Ok((pools, end)) => Ok((Decoded { pools, point: None, magic: None }, end)),
        Err(e) => Err(e),
    }
}

fn decode_flat_body(bytes: &[u8], pos: usize) -> (r: Result<(Decoded, usize), DecodeError>)
    ensures
        agrees(r, flat_body_at(bytes@, pos as int)),
{
    let first: usize = match expect_array(bytes, pos, 3, Part::Body) {
        Ok(next) => next,
        Err(e) => {
            return Err(e);
        },
    };
    let (point, second) = match decode_point(bytes, first) {
        Ok(p) => p,
        Err(e) => {
            return Err(e);
        },
    };
    let (magic, third) = match read_u32(bytes, second) {
        Ok(p) => p,
        Err(e) => {
            return Err(DecodeError::Cbor(e));
        },
    };
    match for_each(&Pools { flat: true }, bytes, third) {
        Ok((pools, end)) => Ok((Decoded { pools, point, magic: Some(magic as u64) }, end)),
        Err(e) => Err(e),
    }
}

fn decode_snapshot(bytes: &[u8], pos: usize) -> (r: Result<(Decoded, usize), DecodeError>)
    ensures
        agrees(r, snapshot_at(bytes@, pos as int)),
{
    let first: usize = match expect_array(bytes, pos, 2, Part::Snapshot) {
        Ok(next) => next,
        Err(e) => {
            return Err(e);
        },
    };
    let (version, second) = match read_u8(bytes, first) {
        Ok(p) => p,
        Err(e) => {
            return Err(DecodeError::Cbor(e));
        },
    };
    match version {
        1 => decode_nested_body(bytes, second),
        2 => decode_flat_body(bytes, second),
        3 => Err(DecodeError::Shape(Fault::AllLedgerPeers)),
        v => Err(DecodeError::Shape(Fault::Version(v))),
    }
}

/// The result arrives inside the hard fork combinator's `Either` wrapper:
/// `[result]` on success, `[era, era]` on an era mismatch.
pub open spec fn response_of(b: Seq<u8>) -> Result<DecodedView, Flaw> {
    match crate::cbor::array_at(b, 0) {
        None => Err(Flaw::Cbor(crate::cbor::array_error(b, 0))),
        Some((Some(n), first)) => if n == 1 {
            match snapshot_at(b, first) {
                Ok((v, _)) => Ok(v),
                Err(f) => Err(f),
            }
        } else if n == 2 {
            Err(Flaw::Shape(Fault::EraMismatch))
        } else {
            Err(Flaw::Shape(Fault::Wrapper(Some(n as u64))))
        },
        Some((None, _)) => Err(Flaw::Shape(Fault::Wrapper(None))),
    }
}

/// Read the node's answer to the snapshot query.
pub fn decode_response(bytes: &[u8]) -> (r: Result<Decoded, DecodeError>)
    ensures
        match response_of(bytes@) {
            Ok(v) => r matches Ok(d) && d.deep_view() == v,
            Err(f) => r matches Err(e) && e.flaw() == f,
        },
{
    match read_array(bytes, 0) {
        Err(e) => Err(DecodeError::Cbor(e)),
        Ok((Some(1), first)) => match decode_snapshot(bytes, first) {
            Ok((d, _)) => Ok(d),
            Err(e) => Err(e),
        },
        Ok((Some(2), _)) => Err(DecodeError::Shape(Fault::EraMismatch)),
        Ok((other, _)) => Err(DecodeError::Shape(Fault::Wrapper(other))),
    }
}

// The session.

/// Why a session with the node gave no snapshot.
#[derive(Clone, Debug)]
pub enum Failure {
    /// Connecting, handshake, acquire, or the framing queries failed; not worth a retry.
    Setup(String),
    /// The snapshot query itself failed; the other query shape may work.
    Query(String),
}

impl QueryShape {
    pub open spec fn name(self) -> Seq<char> {
        match self {
            QueryShape::Plain => "Plain"@,
            QueryShape::Kinded => "Kinded"@,
        }
    }

    pub fn label(self) -> (s: &'static str)
        ensures
            s@ == self.name(),
    {
        match self {
            QueryShape::Plain => "Plain",
            QueryShape::Kinded => "Kinded",
        }
    }
}

/// What a session is held for.
#[derive(Clone, Debug)]
pub struct Setting {
    /// The socket's path, as it is shown.
    pub socket: String,
    pub magic: u64,
    pub shape: QueryShape,
    /// Seconds allowed for the session.
    pub budget: u64,
}

/// What a session waits for.
#[derive(Debug)]
pub enum Phase {
    Connect,
    Handshake,
    Acquire { version: u64 },
    Era { version: u64 },
    Point { version: u64, era: u16 },
    /// The answer to `encode_query(era, shape)`. `point` is the slot and hash
    /// of the chain point, none for the origin.
    Query { version: u64, era: u16, point: Option<(u64, Vec<u8>)> },
    Over { result: Result<Snapshot<Rational>, Failure> },
}

/// What came of the last step.
#[derive(Debug)]
pub enum Reply {
    Connected,
    Accepted { version: u64 },
    Rejected { reason: String },
    VersionQuery,
    Acquired,
    Era { era: u16 },
    ChainPoint { point: Option<(u64, Vec<u8>)> },
    Answer { bytes: Vec<u8> },
    /// The step failed, in the words of the layer below.
    Failed { cause: String },
    /// The session's budget ran out.
    Timeout,
}

/// Can `reply` come while the session is in `phase`?
pub open spec fn can_come(phase: Phase, reply: Reply) -> bool {
    match (phase, reply) {
        (Phase::Over { .. }, _) => false,
        (Phase::Connect, Reply::Timeout) => false,
        (_, Reply::Timeout) => true,
        (_, Reply::Failed { .. }) => true,
        (Phase::Connect, Reply::Connected) => true,
        (Phase::Handshake, Reply::Accepted { .. }) => true,
        (Phase::Handshake, Reply::Rejected { .. }) => true,
        (Phase::Handshake, Reply::VersionQuery) => true,
        (Phase::Acquire { .. }, Reply::Acquired) => true,
        (Phase::Era { .. }, Reply::Era { .. }) => true,
        (Phase::Point { .. }, Reply::ChainPoint { .. }) => true,
        (Phase::Query { .. }, Reply::Answer { .. }) => true,
        _ => false,
    }
}

/// Did the session end without a snapshot, for the reason `words`? `query`
/// tells whether the other shape of the query is worth a try.
pub open spec fn ended(phase: Phase, query: bool, words: Seq<char>) -> bool {
    match phase {
        Phase::Over { result: Err(Failure::Setup(m)) } => !query && m@ == words,
        Phase::Over { result: Err(Failure::Query(m)) } => query && m@ == words,
        _ => false,
    }
}

/// Where the snapshot was taken: the slot and hash that the answer carries, or
/// those of the chain point, or the origin.
pub open spec fn place_of(
    answered: Option<(u64, Seq<char>)>,
    chain: Option<(u64, Seq<u8>)>,
) -> (u64, Seq<char>) {
    match answered {
        Some(p) => p,
        None => match chain {
            Some((slot, hash)) => (slot, crate::cbor::hex_text(hash)),
            None => (0u64, "origin"@),
        },
    }
}

/// A chain point with its hash as the bytes that it is made of.
pub open spec fn point_view(p: Option<(u64, Vec<u8>)>) -> Option<(u64, Seq<u8>)> {
    match p {
        Some((slot, hash)) => Some((slot, hash@)),
        None => None,
    }
}

/// Is `snap` the snapshot that the answer `d` gives?
pub open spec fn is_answer(
    snap: Snapshot<Rational>,
    d: DecodedView,
    chain: Option<(u64, Seq<u8>)>,
    magic: u64,
    version: u64,
) -> bool {
    &&& snap.network_magic == match d.magic {
        Some(m) => m,
        None => magic,
    }
    // N2C versions travel with bit 15 set to tell them from N2N.
    &&& snap.node_to_client_version == version as nat % 0x8000
    &&& snap.point.block_point_slot == place_of(d.point, chain).0
    &&& snap.point.block_point_hash@ == place_of(d.point, chain).1
    &&& snap.pools.deep_view() == d.pools
}

/// The snapshot that the node's answer gives, with the chain point and the
/// magic of the session where the answer has none of its own.
pub fn snapshot_from(
    d: Decoded,
    chain: Option<(u64, Vec<u8>)>,
    magic: u64,
    version: u64,
) -> (snap: Snapshot<Rational>)
    ensures
        is_answer(snap, d.deep_view(), point_view(chain), magic, version),
{
    let (block_point_slot, block_point_hash): (u64, String) = match d.point {
        Some((slot, hash)) => (slot, hash),
        None => match chain {
            Some((slot, hash)) => (slot, hex_of(hash.as_slice())),
            None => (0, "origin".to_owned()),
        },
    };
    assert(version & 0x7fff == version % 0x8000) by (bit_vector);
    Snapshot {
        network_magic: match d.magic {
            Some(m) => m,
            None => magic,
        },
        node_to_client_version: version & 0x7fff,
        point: Point { block_point_hash, block_point_slot },
        pools: d.pools,
    }
}

fn decode_words(e: &DecodeError) -> (s: String)
    ensures
        s@ == e.flaw().words(),
{
    match e {
        DecodeError::Cbor(e) => cbor_words(e),
        DecodeError::Shape(f) => f.text(),
    }
}

fn setup(lead: &str, cause: &str) -> (p: Phase)
    ensures
        ended(p, false, lead@ + cause@),
{
    let mut m = lead.to_owned();
    put(&mut m, cause);
    Phase::Over { result: Err(Failure::Setup(m)) }
}

/// What a failed step is called.
pub open spec fn step_name(phase: Phase, at: Setting) -> Seq<char> {
    match phase {
        Phase::Connect => "connecting to "@ + at.socket@ + ": "@,
        Phase::Handshake => "node-to-client handshake: "@,
        Phase::Acquire { .. } => "acquiring the node's tip: "@,
        Phase::Era { .. } => "querying the current era: "@,
        Phase::Point { .. } => "querying the chain point: "@,
        _ => "GetBigLedgerPeerSnapshot as "@ + at.shape.name() + ": "@,
    }
}

/// Does the session go from `phase` to `r` when `reply` comes?
pub open spec fn steps(phase: Phase, reply: Reply, at: Setting, r: Phase) -> bool {
    match (phase, reply) {
        (_, Reply::Timeout) => ended(
            r,
            false,
            "no snapshot from "@ + at.socket@ + " within "@ + crate::text::decimal(
                at.budget as nat,
            ) + "s"@,
        ),
        (p, Reply::Failed { cause }) => ended(
            r,
            p is Query,
            step_name(p, at) + cause@,
        ),
        (Phase::Handshake, Reply::Accepted { version }) => r == (Phase::Acquire { version }),
        (Phase::Handshake, Reply::Rejected { reason }) => ended(
            r,
            false,
            "node-to-client handshake rejected: "@ + reason@,
        ),
        (Phase::Handshake, Reply::VersionQuery) => ended(
            r,
            false,
            "node answered the handshake with a version query"@,
        ),
        (Phase::Acquire { version }, _) => r == (Phase::Era { version }),
        (Phase::Era { version }, Reply::Era { era }) => r == (Phase::Point { version, era }),
        (Phase::Point { version, era }, Reply::ChainPoint { point }) => r == (Phase::Query {
            version,
            era,
            point,
        }),
        (Phase::Query { version, era, point }, Reply::Answer { bytes }) => match response_of(
            bytes@,
        ) {
            Ok(d) => r matches Phase::Over { result: Ok(snap) } && is_answer(
                snap,
                d,
                point_view(point),
                at.magic,
                version,
            ),
            Err(f) => ended(
                r,
                true,
                "decoding the snapshot ("@ + at.shape.name() + "): "@ + f.words(),
            ),
        },
        _ => r is Handshake,
    }
}

/// Take the session one step on.
pub fn advance(phase: Phase, reply: Reply, at: &Setting) -> (r: Phase)
    requires
        can_come(phase, reply),
    ensures
        steps(phase, reply, *at, r),
{
    match (phase, reply) {
        (_, Reply::Timeout) => {
            let mut m = "no snapshot from ".to_owned();
            put(&mut m, at.socket.as_str());
            put(&mut m, " within ");
            put(&mut m, number(at.budget).as_str());
            put(&mut m, "s");
            Phase::Over { result: Err(Failure::Setup(m)) }
        },
        (Phase::Connect, Reply::Failed { cause }) => {
            let mut lead = "connecting to ".to_owned();
            put(&mut lead, at.socket.as_str());
            put(&mut lead, ": ");
            setup(lead.as_str(), cause.as_str())
        },
        (Phase::Handshake, Reply::Failed { cause }) => setup(
            "node-to-client handshake: ",
            cause.as_str(),
        ),
        (Phase::Acquire { .. }, Reply::Failed { cause }) => setup(
            "acquiring the node's tip: ",
            cause.as_str(),
        ),
        (Phase::Era { .. }, Reply::Failed { cause }) => setup(
            "querying the current era: ",
            cause.as_str(),
        ),
        (Phase::Point { .. }, Reply::Failed { cause }) => setup(
            "querying the chain point: ",
            cause.as_str(),
        ),
        (_, Reply::Failed { cause }) => {
            let mut m = "GetBigLedgerPeerSnapshot as ".to_owned();
            put(&mut m, at.shape.label());
            put(&mut m, ": ");
            put(&mut m, cause.as_str());
            Phase::Over { result: Err(Failure::Query(m)) }
        },
        (Phase::Handshake, Reply::Accepted { version }) => Phase::Acquire { version },
        (Phase::Handshake, Reply::Rejected { reason }) => setup(
            "node-to-client handshake rejected: ",
            reason.as_str(),
        ),
        (Phase::Handshake, _) => {
            let m = "node answered the handshake with a version query".to_owned();
            Phase::Over { result: Err(Failure::Setup(m)) }
        },
        (Phase::Acquire { version }, _) => Phase::Era { version },
        (Phase::Era { version }, Reply::Era { era }) => Phase::Point { version, era },
        (Phase::Point { version, era }, Reply::ChainPoint { point }) => Phase::Query {
            version,
            era,
            point,
        },
        (Phase::Query { version, era: _, point }, Reply::Answer { bytes }) => match decode_response(
            bytes.as_slice(),
        ) {
            Ok(d) => Phase::Over { result: Ok(snapshot_from(d, point, at.magic, version)) },
            Err(e) => {
                let words = decode_words(&e);
                let mut m = "decoding the snapshot (".to_owned();
                put(&mut m, at.shape.label());
                put(&mut m, "): ");
                put(&mut m, words.as_str());
                Phase::Over { result: Err(Failure::Query(m)) }
            },
        },
        _ => Phase::Handshake,
    }
}

/// Is this how a session went: from `phases[i]`, `replies[i]` led on?
pub open spec fn is_session(phases: Seq<Phase>, replies: Seq<Reply>, at: Setting) -> bool {
    &&& phases.len() == replies.len() + 1
    &&& phases[0] is Connect
    &&& forall|i: int|
        #![trigger replies[i]]
        0 <= i < replies.len() ==> can_come(phases[i], replies[i]) && steps(
            phases[i],
            replies[i],
            at,
            phases[i + 1],
        )
}

/// A session takes six steps at most.
pub proof fn a_session_takes_six_steps(phases: Seq<Phase>, replies: Seq<Reply>, at: Setting)
    requires
        is_session(phases, replies, at),
    ensures
        replies.len() <= 6,
{
    lemma_phases(phases, replies, at, 6);
    if replies.len() > 6 {
        let seventh = replies[6];
    }
}

/// How far a session has come after `k` replies, if it is not over.
proof fn lemma_phases(phases: Seq<Phase>, replies: Seq<Reply>, at: Setting, k: int)
    requires
        is_session(phases, replies, at),
        0 <= k,
    ensures
        k <= replies.len() ==> match phases[k] {
            Phase::Connect => k == 0,
            Phase::Handshake => k == 1 && replies[0] is Connected,
            Phase::Acquire { version } => k == 2 && replies[0] is Connected && (replies[1] matches
                Reply::Accepted { version: v } && v == version),
            Phase::Era { version } => k == 3 && replies[0] is Connected && (replies[1] matches
                Reply::Accepted { version: v } && v == version) && replies[2] is Acquired,
            Phase::Point { version, era } => k == 4 && replies[0] is Connected && (
            replies[1] matches Reply::Accepted { version: v } && v == version) && replies[2] is Acquired
                && (replies[3] matches Reply::Era { era: e } && e == era),
            Phase::Query { version, era, point } => k == 5 && replies[0] is Connected && (
            replies[1] matches Reply::Accepted { version: v } && v == version) && replies[2] is Acquired
                && (replies[3] matches Reply::Era { era: e } && e == era) && (replies[4] matches
                Reply::ChainPoint { point: p } && p == point),
            Phase::Over { .. } => k > 0,
        },
    decreases k,
{
    if 0 < k <= replies.len() {
        lemma_phases(phases, replies, at, k - 1);
        let last = replies[k - 1];
    }
}

/// A snapshot comes from the answer to the query, and only once the node has
/// been reached, has accepted a version, holds its tip and has told its era
/// and its chain point.
pub proof fn a_snapshot_is_the_answer(phases: Seq<Phase>, replies: Seq<Reply>, at: Setting)
    requires
        is_session(phases, replies, at),
        phases.last() matches Phase::Over { result: Ok(_) },
    ensures
        replies.len() == 6,
        replies[0] is Connected,
        replies[1] is Accepted,
        replies[2] is Acquired,
        replies[3] is Era,
        replies[4] is ChainPoint,
        replies[5] is Answer,
        response_of(replies[5]->bytes@) is Ok,
        is_answer(
            phases.last()->result->Ok_0,
            response_of(replies[5]->bytes@)->Ok_0,
            point_view(replies[4]->point),
            at.magic,
            replies[1]->version,
        ),
{
    let n = replies.len() as int;
    lemma_phases(phases, replies, at, n);
    assert(n > 0);
    lemma_phases(phases, replies, at, n - 1);
    let last = replies[n - 1];
    match phases[n - 1] {
        Phase::Query { version, era, point } => {},
        _ => {},
    }
}

/// Longest unix socket path Linux accepts, sun_path less its terminator.
pub const MAX_SOCKET_PATH: usize = 107;

/// Refuse a socket path that no unix socket can have. `bytes` is its length;
/// `shown` is how it is displayed.
pub fn check_socket_path(bytes: usize, shown: &str) -> (r: Result<(), String>)
    ensures
        r is Ok <==> bytes <= MAX_SOCKET_PATH,
        r matches Err(m) ==> m@ == "socket path is "@ + crate::text::decimal(bytes as nat)
            + " bytes, unix sockets allow "@ + crate::text::decimal(MAX_SOCKET_PATH as nat) + ": "@
            + shown@,
{
    if bytes > MAX_SOCKET_PATH {
        let mut m = "socket path is ".to_owned();
        put(&mut m, number(bytes as u64).as_str());
        put(&mut m, " bytes, unix sockets allow ");
        put(&mut m, number(MAX_SOCKET_PATH as u64).as_str());
        put(&mut m, ": ");
        put(&mut m, shown);
        return Err(m);
    }
    Ok(())
}

/// What to do after the session with the plain query.
#[derive(Clone, Debug)]
pub enum Next<T> {
    Done(T),
    Fail(String),
    /// Try the kinded query; the reason why the plain one failed.
    Retry(String),
}

/// What follows from the outcome of the plain query.
pub fn after_plain<T>(result: Result<T, Failure>) -> (r: Next<T>)
    ensures
        r == match result {
            Ok(s) => Next::Done(s),
            Err(Failure::Setup(e)) => Next::Fail(e),
            Err(Failure::Query(e)) => Next::Retry(e),
        },
{
    match result {
        Ok(s) => Next::Done(s),
        Err(Failure::Setup(e)) => Next::Fail(e),
        Err(Failure::Query(e)) => Next::Retry(e),
    }
}

/// What follows from the outcome of the kinded query, the plain one having
/// failed for the reason `first`.
pub fn after_kinded<T>(first: &str, result: Result<T, Failure>) -> (r: Result<T, String>)
    ensures
        match result {
            Ok(s) => r == Ok::<T, String>(s),
            Err(Failure::Setup(e)) => r matches Err(m) && m@ == both_failed(first@, e@),
            Err(Failure::Query(e)) => r matches Err(m) && m@ == both_failed(first@, e@),
        },
{
    match result {
        Ok(s) => Ok(s),
        Err(Failure::Setup(e)) | Err(Failure::Query(e)) => {
            let mut m = "snapshot query failed as [34] (".to_owned();
            put(&mut m, first);
            put(&mut m, ") and as [34, 1] (");
            put(&mut m, e.as_str());
            put(&mut m, ")");
            Err(m)
        },
    }
}

/// The reasons why both shapes of the query failed.
pub open spec fn both_failed(first: Seq<char>, second: Seq<char>) -> Seq<char> {
    "snapshot query failed as [34] ("@ + first + ") and as [34, 1] ("@ + second + ")"@
}

} // verus!
