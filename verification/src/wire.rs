//! How a node writes its answer to the snapshot query, and that decoding gives
//! back what was written.

use vstd::prelude::*;

use crate::cbor::{argument, array_at, big_endian, bytes_of, head, integer_at, item, unsigned_at};
use crate::node::{
    counted, domain_at, items_at, point_at, rational_at, response_of, whole_at,
    with_origin_at, Components, DecodedView, Grammar, Pools, RationalView, Relays,
};
use crate::snapshot::{PoolView, RelayView};
use crate::text::Class;

verus! {

/// Does `part` stand in `b` at `at`?
pub open spec fn stands(b: Seq<u8>, at: int, part: Seq<u8>) -> bool {
    0 <= at && at + part.len() <= b.len() && b.subrange(at, at + part.len()) == part
}

/// What stands somewhere stands there part by part.
pub broadcast proof fn lemma_stands_apart(b: Seq<u8>, at: int, x: Seq<u8>, y: Seq<u8>)
    requires
        #[trigger] stands(b, at, x + y),
    ensures
        stands(b, at, x),
        stands(b, at + x.len(), y),
{
    let n = at + x.len();
    assert(b.subrange(at, n) =~= (x + y).subrange(0, x.len() as int));
    assert(b.subrange(n, n + y.len()) =~= (x + y).subrange(x.len() as int, (x + y).len() as int));
    assert((x + y).subrange(0, x.len() as int) =~= x);
    assert((x + y).subrange(x.len() as int, (x + y).len() as int) =~= y);
}

/// A number written in `wide` bytes reads back.
pub proof fn bytes_read_back(n: nat, wide: nat)
    requires
        wide == 1 && n < 0x100 || wide == 2 && n < 0x1_0000 || wide == 4 && n < 0x1_0000_0000
            || wide == 8 && n < 0x1_0000_0000_0000_0000,
    ensures
        bytes_of(n, wide).len() == wide,
        big_endian(bytes_of(n, wide)) == n,
{
    lemma_bytes_len(n, wide);
    lemma_bytes_value(n, wide, if wide == 1 {
        0x100
    } else if wide == 2 {
        0x1_0000
    } else if wide == 4 {
        0x1_0000_0000
    } else {
        0x1_0000_0000_0000_0000
    });
}

proof fn lemma_bytes_len(n: nat, wide: nat)
    ensures
        bytes_of(n, wide).len() == wide,
    decreases wide,
{
    if wide > 0 {
        lemma_bytes_len(n / 256, (wide - 1) as nat);
    }
}

/// 256 to the power of `wide`.
spec fn room(wide: nat) -> nat
    decreases wide,
{
    if wide == 0 {
        1
    } else {
        256 * room((wide - 1) as nat)
    }
}

proof fn lemma_bytes_value(n: nat, wide: nat, bound: nat)
    requires
        n < bound,
        wide <= 8,
        bound == room(wide) || bound == 0x100 && wide == 1 || bound == 0x1_0000 && wide == 2 || bound
            == 0x1_0000_0000 && wide == 4 || bound == 0x1_0000_0000_0000_0000 && wide == 8,
    ensures
        big_endian(bytes_of(n, wide)) == n,
    decreases wide,
{
    reveal_with_fuel(room, 9);
    if wide > 0 {
        let w = (wide - 1) as nat;
        assert(n / 256 < room(w)) by {
            assert(n < 256 * room(w));
        }
        lemma_bytes_value(n / 256, w, room(w));
        let s = bytes_of(n, wide);
        assert(s.drop_last() =~= bytes_of(n / 256, w));
        assert(s.last() as nat == n % 256);
    }
}

/// The head of an item reads back as its argument.
pub proof fn heads_read_back(b: Seq<u8>, at: int, major: int, n: nat)
    requires
        0 <= major < 8,
        n <= u64::MAX,
        stands(b, at, head(major, n)),
    ensures
        item(b, at, major) == Some((n, at + head(major, n).len())),
        b[at] as int / 32 == major,
        b[at] as int % 32 <= 27,
        head(major, n).len() >= 1,
{
    let h = head(major, n);
    assert(b[at] == b.subrange(at, at + h.len())[0]);
    if n >= 24 {
        let wide: nat = if n <= 0xff {
            1
        } else if n <= 0xffff {
            2
        } else if n <= 0xffff_ffff {
            4
        } else {
            8
        };
        bytes_read_back(n, wide);
        assert(h.len() == 1 + wide);
        assert(b.subrange(at + 1, at + 1 + wide) =~= h.subrange(1, 1 + wide as int)) by {
            assert(h.subrange(1, 1 + wide as int) =~= b.subrange(at, at + h.len()).subrange(1, 1 + wide as int));
        }
        assert(h.subrange(1, 1 + wide as int) =~= bytes_of(n, wide));
    }
}

// Numbers.

/// An integer of at most 64 bits and its sign.
pub open spec fn int_bytes(v: int) -> Seq<u8> {
    if v >= 0 {
        head(0, v as nat)
    } else {
        head(1, (-1 - v) as nat)
    }
}

pub open spec fn fits_int(v: int) -> bool {
    -0x1_0000_0000_0000_0000 <= v <= u64::MAX
}

pub proof fn lemma_int(b: Seq<u8>, at: int, v: int)
    requires
        fits_int(v),
        stands(b, at, int_bytes(v)),
    ensures
        integer_at(b, at) == Some((v, at + int_bytes(v).len())),
        whole_at(b, at) == Ok::<(int, int), crate::node::Flaw>((v, at + int_bytes(v).len())),
        v >= 0 ==> unsigned_at(b, at, u64::MAX as nat) == Some(
            (v as nat, at + int_bytes(v).len()),
        ),
{
    if v >= 0 {
        heads_read_back(b, at, 0, v as nat);
    } else {
        heads_read_back(b, at, 1, (-1 - v) as nat);
        assert(item(b, at, 0) is None);
    }
    assert(b[at] < 0x40);
    if at + 1 == b.len() {
        assert(int_bytes(v).len() == 1);
        if b[at] >= 0x38 {
            assert(b[at] as int % 32 >= 24);
            assert(argument(b, at) is None);
        }
    }
}

/// A fraction: tag 30 over the numerator and the denominator.
pub open spec fn fraction_bytes(num: int, den: int) -> Seq<u8> {
    head(6, 30) + (head(4, 2) + (int_bytes(num) + int_bytes(den)))
}

/// A fraction is read as it was written.
pub proof fn fractions_read_back(b: Seq<u8>, at: int, num: int, den: int)
    requires
        fits_int(num),
        fits_int(den),
        den != 0,
        stands(b, at, fraction_bytes(num, den)),
    ensures
        rational_at(b, at) == Ok::<(RationalView, int), crate::node::Flaw>(
            (RationalView { num, den }, at + fraction_bytes(num, den).len()),
        ),
{
    broadcast use lemma_stands_apart;

    heads_read_back(b, at, 6, 30);
    let first = at + head(6, 30).len();
    heads_read_back(b, first, 4, 2);
    let second = first + head(4, 2).len();
    lemma_int(b, second, num);
    lemma_int(b, second + int_bytes(num).len(), den);
}

// Relays.

/// Where a relay is: a name, an IPv4 address, an IPv6 address, or the name of
/// an SRV record.
pub enum Site {
    Name { port: u16, name: Seq<char> },
    V4 { port: u16, a: u8, b: u8, c: u8, d: u8 },
    V6 { port: u16, groups: Seq<u16> },
    Srv { name: Seq<char> },
}

pub open spec fn text_bytes(s: Seq<char>) -> Seq<u8> {
    let u = vstd::utf8::encode_utf8(s);
    head(3, u.len()) + u
}

pub open spec fn group_bytes(groups: Seq<u16>) -> Seq<u8>
    decreases groups.len(),
{
    if groups.len() == 0 {
        Seq::empty()
    } else {
        group_bytes(groups.drop_last()) + head(0, groups.last() as nat)
    }
}

/// A relay access point as the node writes it.
pub open spec fn site_bytes(s: Site) -> Seq<u8> {
    match s {
        Site::Name { port, name } => head(4, 3) + (head(0, 0) + (head(0, port as nat) + text_bytes(
            name,
        ))),
        Site::V4 { port, a, b, c, d } => head(4, 3) + (head(0, 1) + (head(0, port as nat) + (head(
            4,
            4,
        ) + group_bytes(seq![a as u16, b as u16, c as u16, d as u16])))),
        Site::V6 { port, groups } => head(4, 3) + (head(0, 2) + (head(0, port as nat) + (head(4, 8)
            + group_bytes(groups)))),
        Site::Srv { name } => head(4, 2) + (head(0, 3) + text_bytes(name)),
    }
}

/// Can the relay be written? A name is not too long and has no dot at its end.
pub open spec fn is_site(s: Site) -> bool {
    match s {
        Site::Name { name, .. } => is_plain_name(name),
        Site::V4 { .. } => true,
        Site::V6 { groups, .. } => groups.len() == 8,
        Site::Srv { name } => is_plain_name(name),
    }
}

pub open spec fn is_plain_name(name: Seq<char>) -> bool {
    vstd::utf8::encode_utf8(name).len() <= u64::MAX && !(name.len() > 0 && name.last() == '.')
}

/// The number that eight groups of 16 bits spell.
pub open spec fn number_of(g: Seq<u16>) -> int {
    ((((((g[0] * 0x1_0000 + g[1]) * 0x1_0000 + g[2]) * 0x1_0000 + g[3]) * 0x1_0000 + g[4])
        * 0x1_0000 + g[5]) * 0x1_0000 + g[6]) * 0x1_0000 + g[7]
}

/// Is `r` the relay at `s`? An IPv4 address is written as its four octets with
/// dots between; an IPv6 address as any text that reads as its number.
pub open spec fn is_at(r: RelayView, s: Site) -> bool {
    match s {
        Site::Name { port, name } => r.port == Some(port) && r.address == name,
        Site::V4 { port, a, b, c, d } => r.port == Some(port) && r.address == crate::text::decimal(
            a as nat,
        ) + seq!['.'] + crate::text::decimal(b as nat) + seq!['.'] + crate::text::decimal(c as nat)
            + seq!['.'] + crate::text::decimal(d as nat),
        Site::V6 { port, groups } => r.port == Some(port) && crate::ip::v6_of(r.address) == Some(
            number_of(groups) as u128,
        ),
        Site::Srv { name } => r.port is None && r.address == name,
    }
}

proof fn lemma_text(b: Seq<u8>, at: int, s: Seq<char>)
    requires
        is_plain_name(s),
        stands(b, at, text_bytes(s)),
    ensures
        domain_at(b, at) == Ok::<(Seq<char>, int), crate::node::Flaw>(
            (s, at + text_bytes(s).len()),
        ),
{
    broadcast use lemma_stands_apart;
    broadcast use vstd::utf8::encode_utf8_valid_utf8, vstd::utf8::encode_utf8_decode_utf8;

    let u = vstd::utf8::encode_utf8(s);
    heads_read_back(b, at, 3, u.len());
    assert(0x60 <= b[at] <= 0x7b);
    assert(b.subrange(at + head(3, u.len()).len(), at + text_bytes(s).len()) =~= u);
    assert(!Class::Dot.has('x'));
    assert(crate::text::trimmed_end(s, Class::Dot) == s);
}

proof fn lemma_groups(b: Seq<u8>, at: int, g: Seq<u16>, part: crate::node::Part, k: nat)
    requires
        k <= g.len(),
        stands(b, at, group_bytes(g)),
    ensures
        ({
            let from = at + group_bytes(g.take(g.len() - k)).len();
            counted(Components { part }, b, from, k) == Ok::<(Seq<u64>, int), crate::node::Flaw>(
                (Seq::new(k, |i: int| g[g.len() - k + i] as u64), at + group_bytes(g).len()),
            )
        }),
    decreases k,
{
    let n = g.len() - k;
    let from = at + group_bytes(g.take(n)).len();
    if k == 0 {
        assert(g.take(n) =~= g);
        assert(Seq::new(0, |i: int| g[n + i] as u64) =~= Seq::<u64>::empty());
    } else {
        lemma_groups(b, at, g, part, (k - 1) as nat);
        lemma_group_stands(b, at, g, n);
        assert(g.take(n + 1).drop_last() =~= g.take(n));
        lemma_int(b, from, g[n] as int);
        let rest = Seq::new((k - 1) as nat, |i: int| g[g.len() - (k - 1) + i] as u64);
        assert(seq![g[n] as u64] + rest =~= Seq::new(k, |i: int| g[n + i] as u64));
    }
}

proof fn lemma_group_stands(b: Seq<u8>, at: int, g: Seq<u16>, n: int)
    requires
        0 <= n < g.len(),
        stands(b, at, group_bytes(g)),
    ensures
        stands(b, at + group_bytes(g.take(n)).len(), head(0, g[n] as nat)),
    decreases g.len(),
{
    lemma_stands_apart(b, at, group_bytes(g.drop_last()), head(0, g.last() as nat));
    if n == g.len() - 1 {
        assert(g.take(n) =~= g.drop_last());
    } else {
        lemma_group_stands(b, at, g.drop_last(), n);
        assert(g.drop_last().take(n) =~= g.take(n));
    }
}

/// The numbers of an address are read as they were written.
pub proof fn lemma_numbers(b: Seq<u8>, at: int, g: Seq<u16>, part: crate::node::Part)
    requires
        stands(b, at, head(4, g.len()) + group_bytes(g)),
        g.len() <= 8,
    ensures
        items_at(Components { part }, b, at) == Ok::<(Seq<u64>, int), crate::node::Flaw>(
            (
                Seq::new(g.len(), |i: int| g[i] as u64),
                at + (head(4, g.len()) + group_bytes(g)).len(),
            ),
        ),
{
    lemma_stands_apart(b, at, head(4, g.len()), group_bytes(g));
    heads_read_back(b, at, 4, g.len());
    let first = at + head(4, g.len()).len();
    lemma_groups(b, first, g, part, g.len());
    assert(g.take(0) =~= Seq::empty());
    assert(Seq::new(g.len(), |i: int| g[g.len() - g.len() + i] as u64) =~= Seq::new(
        g.len(),
        |i: int| g[i] as u64,
    ));
}

/// The number that four octets spell is written as these octets.
proof fn lemma_quad(s: Seq<u64>)
    requires
        s.len() == 4,
        forall|i: int| 0 <= i < 4 ==> s[i] < 256,
    ensures
        crate::ip::v4_text(crate::ip::weigh(crate::ip::lowest(s, 256), 256) as u32)
            == crate::text::decimal(s[0] as nat) + seq!['.'] + crate::text::decimal(s[1] as nat)
            + seq!['.'] + crate::text::decimal(s[2] as nat) + seq!['.'] + crate::text::decimal(
            s[3] as nat,
        ),
{
    let o = crate::ip::lowest(s, 256);
    let a = crate::ip::weigh(o, 256);
    assert(a <= u32::MAX) by {
        reveal_with_fuel(crate::ip::weigh, 5);
    }
    crate::ip::lemma_weigh(o, 256);
    let parts = Seq::new(4, |i: int| crate::text::decimal(crate::ip::octets(a as u32)[i]));
    assert(parts =~= seq![
        crate::text::decimal(s[0] as nat),
        crate::text::decimal(s[1] as nat),
        crate::text::decimal(s[2] as nat),
        crate::text::decimal(s[3] as nat),
    ]);
    reveal_with_fuel(crate::text::joined, 5);
    assert(parts.drop_last().drop_last().drop_last() =~= seq![parts[0]]);
    assert(crate::text::joined(parts, seq!['.']) =~= parts[0] + seq!['.'] + parts[1] + seq!['.']
        + parts[2] + seq!['.'] + parts[3]);
}

proof fn lemma_eight(g: Seq<u16>)
    requires
        g.len() == 8,
    ensures
        ({
            let s = Seq::new(8, |i: int| g[i] as u64);
            &&& crate::ip::weigh(crate::ip::lowest(s, 65536), 65536) == number_of(g)
            &&& number_of(g) <= u128::MAX
        }),
{
    let s = Seq::new(8, |i: int| g[i] as u64);
    let w = crate::ip::lowest(s, 65536);
    assert(w =~= Seq::new(8, |i: int| g[i] as nat));
    reveal_with_fuel(crate::ip::weigh, 9);
}

/// The array and the small number that a relay starts with.
proof fn lemma_start(b: Seq<u8>, at: int, n: nat, tag: nat, rest: Seq<u8>)
    requires
        n <= 3,
        tag <= 3,
        stands(b, at, head(4, n) + (head(0, tag) + rest)),
    ensures
        ({
            let next = at + head(4, n).len() + head(0, tag).len();
            &&& crate::node::tagged_at(b, at) == Ok::<(Option<nat>, nat, int), crate::node::Flaw>(
                (Some(n), tag, next),
            )
            &&& stands(b, next, rest)
            &&& next + rest.len() == at + (head(4, n) + (head(0, tag) + rest)).len()
        }),
{
    lemma_stands_apart(b, at, head(4, n), head(0, tag) + rest);
    lemma_stands_apart(b, at + head(4, n).len(), head(0, tag), rest);
    heads_read_back(b, at, 4, n);
    heads_read_back(b, at + head(4, n).len(), 0, tag);
}

proof fn lemma_name(b: Seq<u8>, at: int, port: u16, name: Seq<char>)
    requires
        is_plain_name(name),
        stands(b, at, site_bytes(Site::Name { port, name })),
    ensures
        Relays.item_at(b, at) == Ok::<(RelayView, int), crate::node::Flaw>(
            (
                RelayView { address: name, port: Some(port) },
                at + site_bytes(Site::Name { port, name }).len(),
            ),
        ),
{
    let rest = head(0, port as nat) + text_bytes(name);
    lemma_start(b, at, 3, 0, rest);
    let first = at + head(4, 3).len() + head(0, 0).len();
    lemma_stands_apart(b, first, head(0, port as nat), text_bytes(name));
    lemma_int(b, first, port as int);
    lemma_text(b, first + head(0, port as nat).len(), name);
}

proof fn lemma_numbered(b: Seq<u8>, at: int, port: u16, g: Seq<u16>)
    requires
        g.len() == 4 || g.len() == 8,
        g.len() == 4 ==> forall|i: int| 0 <= i < 4 ==> g[i] < 256,
        stands(
            b,
            at,
            head(4, 3) + (head(0, if g.len() == 4 {
                1
            } else {
                2
            }) + (head(0, port as nat) + (head(4, g.len()) + group_bytes(g)))),
        ),
    ensures
        Relays.item_at(b, at) matches Ok(p) && {
            &&& p.0.port == Some(port)
            &&& p.1 == at + (head(4, 3) + (head(0, if g.len() == 4 {
                1
            } else {
                2
            }) + (head(0, port as nat) + (head(4, g.len()) + group_bytes(g))))).len()
            &&& g.len() == 4 ==> p.0.address == crate::text::decimal(g[0] as nat) + seq!['.']
                + crate::text::decimal(g[1] as nat) + seq!['.'] + crate::text::decimal(g[2] as nat)
                + seq!['.'] + crate::text::decimal(g[3] as nat)
            &&& g.len() == 8 ==> crate::ip::v6_of(p.0.address) == Some(number_of(g) as u128)
        },
{
    let tag: nat = if g.len() == 4 {
        1
    } else {
        2
    };
    let tail = head(4, g.len()) + group_bytes(g);
    let rest = head(0, port as nat) + tail;
    lemma_start(b, at, 3, tag, rest);
    let first = at + head(4, 3).len() + head(0, tag).len();
    lemma_stands_apart(b, first, head(0, port as nat), tail);
    lemma_int(b, first, port as int);
    let second = first + head(0, port as nat).len();
    if g.len() == 4 {
        lemma_numbers(b, second, g, crate::node::Part::Ipv4);
        lemma_quad(Seq::new(4, |i: int| g[i] as u64));
    } else {
        lemma_numbers(b, second, g, crate::node::Part::Ipv6);
        lemma_eight(g);
        crate::ip::v6_reads_back(number_of(g) as u128);
    }
}

/// A relay is read as it was written: at the address and the port that the
/// node gave, its octets or groups in their order.
#[verifier::rlimit(40)]
pub proof fn relays_read_back(b: Seq<u8>, at: int, s: Site) -> (r: RelayView)
    requires
        is_site(s),
        stands(b, at, site_bytes(s)),
    ensures
        Relays.item_at(b, at) == Ok::<(RelayView, int), crate::node::Flaw>(
            (r, at + site_bytes(s).len()),
        ),
        is_at(r, s),
{
    match s {
        Site::Srv { name } => {
            lemma_start(b, at, 2, 3, text_bytes(name));
            lemma_text(b, at + head(4, 2).len() + head(0, 3).len(), name);
        },
        Site::Name { port, name } => lemma_name(b, at, port, name),
        Site::V4 { port, a, b: o, c, d } => {
            lemma_numbered(b, at, port, seq![a as u16, o as u16, c as u16, d as u16]);
        },
        Site::V6 { port, groups } => lemma_numbered(b, at, port, groups),
    }
    Relays.item_at(b, at)->Ok_0.0
}

pub open spec fn sites_bytes(s: Seq<Site>) -> Seq<u8>
    decreases s.len(),
{
    if s.len() == 0 {
        Seq::empty()
    } else {
        site_bytes(s[0]) + sites_bytes(s.drop_first())
    }
}

/// Are these the relays at `s`, in their order?
pub open spec fn are_at(r: Seq<RelayView>, s: Seq<Site>) -> bool {
    r.len() == s.len() && forall|i: int| 0 <= i < s.len() ==> is_at(#[trigger] r[i], s[i])
}

#[verifier::rlimit(40)]
proof fn lemma_sites(b: Seq<u8>, at: int, s: Seq<Site>) -> (r: Seq<RelayView>)
    requires
        forall|i: int| 0 <= i < s.len() ==> is_site(#[trigger] s[i]),
        stands(b, at, sites_bytes(s)),
    ensures
        counted(Relays, b, at, s.len()) == Ok::<(Seq<RelayView>, int), crate::node::Flaw>(
            (r, at + sites_bytes(s).len()),
        ),
        are_at(r, s),
    decreases s.len(),
{
    if s.len() == 0 {
        Seq::empty()
    } else {
        let t = s.drop_first();
        lemma_stands_apart(b, at, site_bytes(s[0]), sites_bytes(t));
        let x = relays_read_back(b, at, s[0]);
        assert forall|i: int| 0 <= i < t.len() implies is_site(#[trigger] t[i]) by {
            assert(t[i] == s[i + 1]);
        }
        let r = lemma_sites(b, at + site_bytes(s[0]).len(), t);
        let all = seq![x] + r;
        assert forall|i: int| 0 <= i < s.len() implies is_at(#[trigger] all[i], s[i]) by {
            if i > 0 {
                assert(all[i] == r[i - 1]);
                assert(t[i - 1] == s[i]);
            }
        }
        all
    }
}

// Pools.

/// A pool: its accumulated and its relative stake, each a numerator and a
/// denominator, and its relays.
pub struct Listed {
    pub accumulated: (int, int),
    pub relative: (int, int),
    pub sites: Seq<Site>,
}

pub open spec fn list_bytes(s: Seq<Site>) -> Seq<u8> {
    head(4, s.len()) + sites_bytes(s)
}

/// A pool as the node writes it, flat or with the relative stake and the relays
/// in an array of their own.
pub open spec fn pool_bytes(p: Listed, flat: bool) -> Seq<u8> {
    let a = fraction_bytes(p.accumulated.0, p.accumulated.1);
    let r = fraction_bytes(p.relative.0, p.relative.1);
    if flat {
        head(4, 3) + (a + (r + list_bytes(p.sites)))
    } else {
        head(4, 2) + (a + (head(4, 2) + (r + list_bytes(p.sites))))
    }
}

pub open spec fn is_fraction(f: (int, int)) -> bool {
    fits_int(f.0) && fits_int(f.1) && f.1 != 0
}

pub open spec fn is_listed(p: Listed) -> bool {
    &&& is_fraction(p.accumulated)
    &&& is_fraction(p.relative)
    &&& p.sites.len() <= u64::MAX
    &&& forall|i: int| 0 <= i < p.sites.len() ==> is_site(#[trigger] p.sites[i])
}

/// Is `v` the pool `p`, each stake the one it is?
pub open spec fn is_pool(v: PoolView<RationalView>, p: Listed) -> bool {
    &&& v.accumulated_stake.num == p.accumulated.0
    &&& v.accumulated_stake.den == p.accumulated.1
    &&& v.relative_stake.num == p.relative.0
    &&& v.relative_stake.den == p.relative.1
    &&& are_at(v.relays, p.sites)
}

/// The head of an array of `n` elements, and where they stand.
proof fn lemma_array(b: Seq<u8>, at: int, n: nat, rest: Seq<u8>, part: crate::node::Part)
    requires
        n <= 3,
        stands(b, at, head(4, n) + rest),
    ensures
        crate::node::array_of(b, at, n as u64, part) == Ok::<int, crate::node::Flaw>(
            at + head(4, n).len(),
        ),
        stands(b, at + head(4, n).len(), rest),
{
    lemma_stands_apart(b, at, head(4, n), rest);
    heads_read_back(b, at, 4, n);
}

/// A fraction with something behind it.
proof fn lemma_stake(b: Seq<u8>, at: int, f: (int, int), rest: Seq<u8>)
    requires
        is_fraction(f),
        stands(b, at, fraction_bytes(f.0, f.1) + rest),
    ensures
        rational_at(b, at) == Ok::<(RationalView, int), crate::node::Flaw>(
            (RationalView { num: f.0, den: f.1 }, at + fraction_bytes(f.0, f.1).len()),
        ),
        stands(b, at + fraction_bytes(f.0, f.1).len(), rest),
{
    lemma_stands_apart(b, at, fraction_bytes(f.0, f.1), rest);
    fractions_read_back(b, at, f.0, f.1);
}

proof fn lemma_list(b: Seq<u8>, at: int, s: Seq<Site>) -> (r: Seq<RelayView>)
    requires
        s.len() <= u64::MAX,
        forall|i: int| 0 <= i < s.len() ==> is_site(#[trigger] s[i]),
        stands(b, at, list_bytes(s)),
    ensures
        items_at(Relays, b, at) == Ok::<(Seq<RelayView>, int), crate::node::Flaw>(
            (r, at + list_bytes(s).len()),
        ),
        are_at(r, s),
{
    lemma_stands_apart(b, at, head(4, s.len()), sites_bytes(s));
    heads_read_back(b, at, 4, s.len());
    lemma_sites(b, at + head(4, s.len()).len(), s)
}

/// Is the pool `v` read at `at`, up to `end`?
#[verifier::opaque]
spec fn reads_pool(b: Seq<u8>, at: int, flat: bool, v: PoolView<RationalView>, end: int) -> bool {
    (Pools { flat }).item_at(b, at) == Ok::<(PoolView<RationalView>, int), crate::node::Flaw>(
        (v, end),
    )
}

/// A pool is read when its parts are, one behind the other.
#[verifier::rlimit(40)]
proof fn lemma_pool_parts(
    b: Seq<u8>,
    at: int,
    flat: bool,
    first: int,
    second: int,
    third: int,
    fourth: int,
    v: PoolView<RationalView>,
    end: int,
)
    requires
        crate::node::array_of(
            b,
            at,
            if flat {
                3
            } else {
                2
            },
            crate::node::Part::Pool,
        ) == Ok::<int, crate::node::Flaw>(first),
        rational_at(b, first) == Ok::<(RationalView, int), crate::node::Flaw>(
            (v.accumulated_stake, second),
        ),
        flat ==> third == second,
        !flat ==> crate::node::array_of(b, second, 2, crate::node::Part::StakeAndRelays) == Ok::<
            int,
            crate::node::Flaw,
        >(third),
        rational_at(b, third) == Ok::<(RationalView, int), crate::node::Flaw>(
            (v.relative_stake, fourth),
        ),
        items_at(Relays, b, fourth) == Ok::<(Seq<RelayView>, int), crate::node::Flaw>(
            (v.relays, end),
        ),
    ensures
        reads_pool(b, at, flat, v, end),
{
    reveal(reads_pool);
}

#[verifier::rlimit(40)]
proof fn lemma_flat_pool(b: Seq<u8>, at: int, p: Listed) -> (v: PoolView<RationalView>)
    requires
        is_listed(p),
        stands(b, at, pool_bytes(p, true)),
    ensures
        reads_pool(b, at, true, v, at + pool_bytes(p, true).len()),
        is_pool(v, p),
{
    let a = fraction_bytes(p.accumulated.0, p.accumulated.1);
    let r = fraction_bytes(p.relative.0, p.relative.1);
    let l = list_bytes(p.sites);
    lemma_array(b, at, 3, a + (r + l), crate::node::Part::Pool);
    let first = at + head(4, 3).len();
    lemma_stake(b, first, p.accumulated, r + l);
    let second = first + a.len();
    lemma_stake(b, second, p.relative, l);
    let fourth = second + r.len();
    let v = PoolView {
        accumulated_stake: RationalView { num: p.accumulated.0, den: p.accumulated.1 },
        relative_stake: RationalView { num: p.relative.0, den: p.relative.1 },
        relays: lemma_list(b, fourth, p.sites),
    };
    lemma_pool_parts(b, at, true, first, second, second, fourth, v, fourth + l.len());
    v
}

#[verifier::rlimit(40)]
proof fn lemma_nested_pool(b: Seq<u8>, at: int, p: Listed) -> (v: PoolView<RationalView>)
    requires
        is_listed(p),
        stands(b, at, pool_bytes(p, false)),
    ensures
        reads_pool(b, at, false, v, at + pool_bytes(p, false).len()),
        is_pool(v, p),
{
    let a = fraction_bytes(p.accumulated.0, p.accumulated.1);
    let r = fraction_bytes(p.relative.0, p.relative.1);
    let l = list_bytes(p.sites);
    lemma_array(b, at, 2, a + (head(4, 2) + (r + l)), crate::node::Part::Pool);
    let first = at + head(4, 2).len();
    lemma_stake(b, first, p.accumulated, head(4, 2) + (r + l));
    let second = first + a.len();
    lemma_array(b, second, 2, r + l, crate::node::Part::StakeAndRelays);
    let third = second + head(4, 2).len();
    lemma_stake(b, third, p.relative, l);
    let fourth = third + r.len();
    let v = PoolView {
        accumulated_stake: RationalView { num: p.accumulated.0, den: p.accumulated.1 },
        relative_stake: RationalView { num: p.relative.0, den: p.relative.1 },
        relays: lemma_list(b, fourth, p.sites),
    };
    lemma_pool_parts(b, at, false, first, second, third, fourth, v, fourth + l.len());
    v
}

/// A pool is read as it was written.
pub proof fn pools_read_back(b: Seq<u8>, at: int, p: Listed, flat: bool) -> (v: PoolView<
    RationalView,
>)
    requires
        is_listed(p),
        stands(b, at, pool_bytes(p, flat)),
    ensures
        (Pools { flat }).item_at(b, at) == Ok::<(PoolView<RationalView>, int), crate::node::Flaw>(
            (v, at + pool_bytes(p, flat).len()),
        ),
        is_pool(v, p),
{
    let v = if flat {
        lemma_flat_pool(b, at, p)
    } else {
        lemma_nested_pool(b, at, p)
    };
    reveal(reads_pool);
    v
}

pub open spec fn all_pool_bytes(p: Seq<Listed>, flat: bool) -> Seq<u8>
    decreases p.len(),
{
    if p.len() == 0 {
        Seq::empty()
    } else {
        pool_bytes(p[0], flat) + all_pool_bytes(p.drop_first(), flat)
    }
}

/// Are these the pools `p`, in their order?
pub open spec fn are_pools(v: Seq<PoolView<RationalView>>, p: Seq<Listed>) -> bool {
    v.len() == p.len() && forall|i: int| 0 <= i < p.len() ==> is_pool(#[trigger] v[i], p[i])
}

/// Are the pools `v` read one behind the other at `at`, up to `end`?
#[verifier::opaque]
spec fn reads_pools(
    b: Seq<u8>,
    at: int,
    flat: bool,
    v: Seq<PoolView<RationalView>>,
    end: int,
) -> bool {
    counted(Pools { flat }, b, at, v.len()) == Ok::<
        (Seq<PoolView<RationalView>>, int),
        crate::node::Flaw,
    >((v, end))
}

proof fn lemma_counted_next<G: Grammar>(
    g: G,
    b: Seq<u8>,
    at: int,
    x: <G::Item as DeepView>::V,
    mid: int,
    r: Seq<<G::Item as DeepView>::V>,
    end: int,
)
    requires
        g.item_at(b, at) == Ok::<(<G::Item as DeepView>::V, int), crate::node::Flaw>((x, mid)),
        counted(g, b, mid, r.len()) == Ok::<
            (Seq<<G::Item as DeepView>::V>, int),
            crate::node::Flaw,
        >((r, end)),
    ensures
        counted(g, b, at, (seq![x] + r).len()) == Ok::<
            (Seq<<G::Item as DeepView>::V>, int),
            crate::node::Flaw,
        >((seq![x] + r, end)),
{
}

proof fn lemma_pools_next(
    b: Seq<u8>,
    at: int,
    flat: bool,
    x: PoolView<RationalView>,
    mid: int,
    r: Seq<PoolView<RationalView>>,
    end: int,
)
    requires
        reads_pool(b, at, flat, x, mid),
        reads_pools(b, mid, flat, r, end),
    ensures
        reads_pools(b, at, flat, seq![x] + r, end),
{
    reveal(reads_pool);
    reveal(reads_pools);
    lemma_counted_next(Pools { flat }, b, at, x, mid, r, end);
}

proof fn lemma_no_pools(b: Seq<u8>, at: int, flat: bool)
    ensures
        reads_pools(b, at, flat, Seq::empty(), at),
{
    reveal(reads_pools);
}

proof fn lemma_pool(b: Seq<u8>, at: int, p: Listed, flat: bool) -> (v: PoolView<RationalView>)
    requires
        is_listed(p),
        stands(b, at, pool_bytes(p, flat)),
    ensures
        reads_pool(b, at, flat, v, at + pool_bytes(p, flat).len()),
        is_pool(v, p),
{
    reveal(reads_pool);
    pools_read_back(b, at, p, flat)
}

proof fn lemma_pools(b: Seq<u8>, at: int, p: Seq<Listed>, flat: bool) -> (v: Seq<
    PoolView<RationalView>,
>)
    requires
        forall|i: int| 0 <= i < p.len() ==> is_listed(#[trigger] p[i]),
        stands(b, at, all_pool_bytes(p, flat)),
    ensures
        reads_pools(b, at, flat, v, at + all_pool_bytes(p, flat).len()),
        are_pools(v, p),
    decreases p.len(),
{
    if p.len() == 0 {
        lemma_no_pools(b, at, flat);
        Seq::empty()
    } else {
        let t = p.drop_first();
        let mid = at + pool_bytes(p[0], flat).len();
        lemma_stands_apart(b, at, pool_bytes(p[0], flat), all_pool_bytes(t, flat));
        let x = lemma_pool(b, at, p[0], flat);
        assert forall|i: int| 0 <= i < t.len() implies is_listed(#[trigger] t[i]) by {
            assert(t[i] == p[i + 1]);
        }
        let r = lemma_pools(b, mid, t, flat);
        lemma_pools_next(b, at, flat, x, mid, r, mid + all_pool_bytes(t, flat).len());
        let all = seq![x] + r;
        assert forall|i: int| 0 <= i < p.len() implies is_pool(#[trigger] all[i], p[i]) by {
            if i > 0 {
                assert(all[i] == r[i - 1]);
                assert(t[i - 1] == p[i]);
            }
        }
        all
    }
}

/// A list of pools is read as it was written.
proof fn lemma_pool_list(b: Seq<u8>, at: int, p: Seq<Listed>, flat: bool) -> (v: Seq<
    PoolView<RationalView>,
>)
    requires
        p.len() <= u64::MAX,
        forall|i: int| 0 <= i < p.len() ==> is_listed(#[trigger] p[i]),
        stands(b, at, head(4, p.len()) + all_pool_bytes(p, flat)),
    ensures
        lists_pools(b, at, flat, v),
        are_pools(v, p),
{
    lemma_stands_apart(b, at, head(4, p.len()), all_pool_bytes(p, flat));
    heads_read_back(b, at, 4, p.len());
    let first = at + head(4, p.len()).len();
    let v = lemma_pools(b, first, p, flat);
    lemma_lists_pools(b, at, first, flat, v, first + all_pool_bytes(p, flat).len());
    v
}

/// Is the list of the pools `v` read at `at`?
#[verifier::opaque]
spec fn lists_pools(b: Seq<u8>, at: int, flat: bool, v: Seq<PoolView<RationalView>>) -> bool {
    items_at(Pools { flat }, b, at) matches Ok(p) && p.0 == v
}

proof fn lemma_lists_pools(
    b: Seq<u8>,
    at: int,
    first: int,
    flat: bool,
    v: Seq<PoolView<RationalView>>,
    end: int,
)
    requires
        array_at(b, at) == Some((Some(v.len()), first)),
        reads_pools(b, first, flat, v, end),
    ensures
        lists_pools(b, at, flat, v),
{
    reveal(lists_pools);
    reveal(reads_pools);
}

// Answers.

/// An answer, in the layout of either version.
pub enum Answer {
    /// With the slot of the snapshot, unless it is the origin.
    Nested { slot: Option<u64>, pools: Seq<Listed> },
    /// With the point of the snapshot, unless it is the origin, and the magic.
    Flat { point: Option<(u64, Seq<u8>)>, magic: u32, pools: Seq<Listed> },
}

pub open spec fn slot_bytes(slot: Option<u64>) -> Seq<u8> {
    match slot {
        Some(n) => head(4, 2) + (head(0, 1) + head(0, n as nat)),
        None => head(4, 1) + (head(0, 0) + Seq::empty()),
    }
}

pub open spec fn point_bytes(point: Option<(u64, Seq<u8>)>) -> Seq<u8> {
    match point {
        Some((n, hash)) => head(4, 3) + (head(0, 1) + (head(0, n as nat) + (head(2, hash.len())
            + hash))),
        None => head(4, 1) + (head(0, 0) + Seq::empty()),
    }
}

pub open spec fn answer_bytes(a: Answer) -> Seq<u8> {
    head(4, 1) + (head(4, 2) + match a {
        Answer::Nested { slot, pools } => head(0, 1) + (head(4, 2) + (slot_bytes(slot) + (head(
            4,
            pools.len(),
        ) + all_pool_bytes(pools, false)))),
        Answer::Flat { point, magic, pools } => head(0, 2) + (head(4, 3) + (point_bytes(point) + (
        head(0, magic as nat) + (head(4, pools.len()) + all_pool_bytes(pools, true))))),
    })
}

pub open spec fn answer_pools(a: Answer) -> Seq<Listed> {
    match a {
        Answer::Nested { pools, .. } => pools,
        Answer::Flat { pools, .. } => pools,
    }
}

pub open spec fn is_answerable(a: Answer) -> bool {
    &&& answer_pools(a).len() <= u64::MAX
    &&& forall|i: int| 0 <= i < answer_pools(a).len() ==> is_listed(#[trigger] answer_pools(a)[i])
    &&& a matches Answer::Flat { point: Some(p), .. } ==> p.1.len() <= u64::MAX
}

/// The value of a hexadecimal digit in lower case.
pub open spec fn nibble(c: char) -> int {
    if '0' <= c <= '9' {
        c as int - '0' as int
    } else {
        c as int - 'a' as int + 10
    }
}

/// Does `t` spell the bytes `b`, two lower case digits for each, the higher one
/// first?
pub open spec fn spells(t: Seq<char>, b: Seq<u8>) -> bool {
    &&& t.len() == 2 * b.len()
    &&& forall|i: int|
        0 <= i < t.len() ==> ('0' <= #[trigger] t[i] <= '9' || 'a' <= t[i] <= 'f')
    &&& forall|i: int|
        0 <= i < b.len() ==> nibble(t[2 * i]) * 16 + nibble(t[2 * i + 1]) == #[trigger] b[i]
}

/// Hexadecimal text spells the bytes.
pub proof fn hex_spells_the_bytes(b: Seq<u8>)
    ensures
        spells(crate::cbor::hex_text(b), b),
{
}

/// Is the body `d` of the given version read at `at`?
#[verifier::opaque]
spec fn reads_body(b: Seq<u8>, at: int, version: nat, d: DecodedView) -> bool {
    if version == 1 {
        crate::node::nested_body_at(b, at) matches Ok(p) && p.0 == d
    } else {
        crate::node::flat_body_at(b, at) matches Ok(p) && p.0 == d
    }
}

/// An answer whose body is read is read.
proof fn lemma_response(b: Seq<u8>, version: nat, body: Seq<u8>, at: int, d: DecodedView)
    requires
        version == 1 || version == 2,
        b == head(4, 1) + (head(4, 2) + (head(0, version) + body)),
        at == head(4, 1).len() + head(4, 2).len() + head(0, version).len(),
        reads_body(b, at, version, d),
    ensures
        response_of(b) == Ok::<DecodedView, crate::node::Flaw>(d),
{
    assert(b.subrange(0, b.len() as int) =~= b);
    let got = lemma_opening(b, version, body);
    assert(got == at);
    reveal(reads_body);
}

/// A nested body is read when its parts are, one behind the other.
#[verifier::rlimit(40)]
proof fn lemma_nested_parts(
    b: Seq<u8>,
    at: int,
    first: int,
    slot: Option<u64>,
    second: int,
    d: DecodedView,
)
    requires
        crate::node::array_of(b, at, 2, crate::node::Part::Body) == Ok::<int, crate::node::Flaw>(
            first,
        ),
        with_origin_at(b, first) == Ok::<(Option<u64>, int), crate::node::Flaw>((slot, second)),
        d.point is None,
        d.magic is None,
        lists_pools(b, second, false, d.pools),
    ensures
        reads_body(b, at, 1, d),
{
    reveal(lists_pools);
    reveal(reads_body);
}

#[verifier::rlimit(40)]
proof fn lemma_nested(b: Seq<u8>, at: int, slot: Option<u64>, pools: Seq<Listed>) -> (d:
    DecodedView)
    requires
        pools.len() <= u64::MAX,
        forall|i: int| 0 <= i < pools.len() ==> is_listed(#[trigger] pools[i]),
        stands(
            b,
            at,
            head(4, 2) + (slot_bytes(slot) + (head(4, pools.len()) + all_pool_bytes(pools, false))),
        ),
    ensures
        reads_body(b, at, 1, d),
        are_pools(d.pools, pools),
        d.point is None,
        d.magic is None,
{
    let l = head(4, pools.len()) + all_pool_bytes(pools, false);
    lemma_array(b, at, 2, slot_bytes(slot) + l, crate::node::Part::Body);
    let first = at + head(4, 2).len();
    lemma_stands_apart(b, first, slot_bytes(slot), l);
    lemma_slot(b, first, slot);
    let second = first + slot_bytes(slot).len();
    let v = lemma_pool_list(b, second, pools, false);
    let d = DecodedView { pools: v, point: None, magic: None };
    lemma_nested_parts(b, at, first, slot, second, d);
    d
}

/// A flat body is read when its parts are, one behind the other.
#[verifier::rlimit(40)]
proof fn lemma_flat_parts(
    b: Seq<u8>,
    at: int,
    first: int,
    second: int,
    third: int,
    magic: u32,
    d: DecodedView,
)
    requires
        crate::node::array_of(b, at, 3, crate::node::Part::Body) == Ok::<int, crate::node::Flaw>(
            first,
        ),
        point_at(b, first) == Ok::<(Option<(u64, Seq<char>)>, int), crate::node::Flaw>(
            (d.point, second),
        ),
        unsigned_at(b, second, u32::MAX as nat) == Some((magic as nat, third)),
        d.magic == Some(magic as u64),
        lists_pools(b, third, true, d.pools),
    ensures
        reads_body(b, at, 2, d),
{
    reveal(lists_pools);
    reveal(reads_body);
}

#[verifier::rlimit(40)]
proof fn lemma_flat(
    b: Seq<u8>,
    at: int,
    point: Option<(u64, Seq<u8>)>,
    magic: u32,
    pools: Seq<Listed>,
) -> (d: DecodedView)
    requires
        pools.len() <= u64::MAX,
        forall|i: int| 0 <= i < pools.len() ==> is_listed(#[trigger] pools[i]),
        point matches Some(p) ==> p.1.len() <= u64::MAX,
        stands(
            b,
            at,
            head(4, 3) + (point_bytes(point) + (head(0, magic as nat) + (head(4, pools.len())
                + all_pool_bytes(pools, true)))),
        ),
    ensures
        reads_body(b, at, 2, d),
        are_pools(d.pools, pools),
        d.magic == Some(magic as u64),
        d.point == match point {
            Some(p) => Some((p.0, crate::cbor::hex_text(p.1))),
            None => None,
        },
{
    let l = head(4, pools.len()) + all_pool_bytes(pools, true);
    let m = head(0, magic as nat);
    lemma_array(b, at, 3, point_bytes(point) + (m + l), crate::node::Part::Body);
    let first = at + head(4, 3).len();
    lemma_stands_apart(b, first, point_bytes(point), m + l);
    lemma_point(b, first, point);
    let second = first + point_bytes(point).len();
    lemma_stands_apart(b, second, m, l);
    heads_read_back(b, second, 0, magic as nat);
    let third = second + m.len();
    let v = lemma_pool_list(b, third, pools, true);
    let d = DecodedView {
        pools: v,
        point: match point {
            Some(p) => Some((p.0, crate::cbor::hex_text(p.1))),
            None => None,
        },
        magic: Some(magic as u64),
    };
    lemma_flat_parts(b, at, first, second, third, magic, d);
    d
}

/// An answer is read as it was written: every pool with its stakes and relays,
/// and in the flat layout the point and the magic.
pub proof fn answers_read_back(a: Answer) -> (d: DecodedView)
    requires
        is_answerable(a),
    ensures
        response_of(answer_bytes(a)) == Ok::<DecodedView, crate::node::Flaw>(d),
        are_pools(d.pools, answer_pools(a)),
        match a {
            Answer::Nested { .. } => d.point is None && d.magic is None,
            Answer::Flat { point, magic, .. } => d.magic == Some(magic as u64) && match point {
                Some(p) => d.point matches Some(q) && q.0 == p.0 && spells(q.1, p.1),
                None => d.point is None,
            },
        },
{
    match a {
        Answer::Nested { slot, pools } => lemma_nested_answer(slot, pools),
        Answer::Flat { point, magic, pools } => {
            if let Some(p) = point {
                hex_spells_the_bytes(p.1);
            }
            lemma_flat_answer(point, magic, pools)
        },
    }
}

#[verifier::rlimit(40)]
proof fn lemma_nested_answer(slot: Option<u64>, pools: Seq<Listed>) -> (d: DecodedView)
    requires
        pools.len() <= u64::MAX,
        forall|i: int| 0 <= i < pools.len() ==> is_listed(#[trigger] pools[i]),
    ensures
        response_of(answer_bytes(Answer::Nested { slot, pools })) == Ok::<
            DecodedView,
            crate::node::Flaw,
        >(d),
        are_pools(d.pools, pools),
        d.point is None,
        d.magic is None,
{
    let b = answer_bytes(Answer::Nested { slot, pools });
    let body = head(4, 2) + (slot_bytes(slot) + (head(4, pools.len()) + all_pool_bytes(
        pools,
        false,
    )));
    assert(b.subrange(0, b.len() as int) =~= b);
    let at = lemma_opening(b, 1, body);
    let d = lemma_nested(b, at, slot, pools);
    lemma_response(b, 1, body, at, d);
    d
}

#[verifier::rlimit(40)]
proof fn lemma_flat_answer(
    point: Option<(u64, Seq<u8>)>,
    magic: u32,
    pools: Seq<Listed>,
) -> (d: DecodedView)
    requires
        pools.len() <= u64::MAX,
        forall|i: int| 0 <= i < pools.len() ==> is_listed(#[trigger] pools[i]),
        point matches Some(p) ==> p.1.len() <= u64::MAX,
    ensures
        response_of(answer_bytes(Answer::Flat { point, magic, pools })) == Ok::<
            DecodedView,
            crate::node::Flaw,
        >(d),
        are_pools(d.pools, pools),
        d.magic == Some(magic as u64),
        d.point == match point {
            Some(p) => Some((p.0, crate::cbor::hex_text(p.1))),
            None => None,
        },
{
    let b = answer_bytes(Answer::Flat { point, magic, pools });
    let body = head(4, 3) + (point_bytes(point) + (head(0, magic as nat) + (head(4, pools.len())
        + all_pool_bytes(pools, true))));
    assert(b.subrange(0, b.len() as int) =~= b);
    let at = lemma_opening(b, 2, body);
    let d = lemma_flat(b, at, point, magic, pools);
    lemma_response(b, 2, body, at, d);
    d
}

/// What every answer starts with, and where the body stands.
proof fn lemma_opening(b: Seq<u8>, version: nat, body: Seq<u8>) -> (at: int)
    requires
        version == 1 || version == 2,
        b == head(4, 1) + (head(4, 2) + (head(0, version) + body)),
        stands(b, 0, b),
    ensures
        array_at(b, 0) == Some((Some(1nat), head(4, 1).len() as int)),
        crate::node::array_of(b, head(4, 1).len() as int, 2, crate::node::Part::Snapshot) == Ok::<
            int,
            crate::node::Flaw,
        >((head(4, 1).len() + head(4, 2).len()) as int),
        unsigned_at(b, (head(4, 1).len() + head(4, 2).len()) as int, u8::MAX as nat) == Some(
            (version, at),
        ),
        at == head(4, 1).len() + head(4, 2).len() + head(0, version).len(),
        stands(b, at, body),
{
    lemma_stands_apart(b, 0, head(4, 1), head(4, 2) + (head(0, version) + body));
    heads_read_back(b, 0, 4, 1);
    let first = head(4, 1).len() as int;
    lemma_stands_apart(b, first, head(4, 2), head(0, version) + body);
    heads_read_back(b, first, 4, 2);
    let second = first + head(4, 2).len();
    lemma_stands_apart(b, second, head(0, version), body);
    heads_read_back(b, second, 0, version);
    second + head(0, version).len()
}

proof fn lemma_slot(b: Seq<u8>, at: int, slot: Option<u64>)
    requires
        stands(b, at, slot_bytes(slot)),
    ensures
        with_origin_at(b, at) == Ok::<(Option<u64>, int), crate::node::Flaw>(
            (slot, at + slot_bytes(slot).len()),
        ),
{
    match slot {
        Some(n) => {
            lemma_start(b, at, 2, 1, head(0, n as nat));
            lemma_int(b, at + head(4, 2).len() + head(0, 1).len(), n as int);
        },
        None => lemma_start(b, at, 1, 0, Seq::empty()),
    }
}

#[verifier::rlimit(40)]
proof fn lemma_point(b: Seq<u8>, at: int, point: Option<(u64, Seq<u8>)>)
    requires
        stands(b, at, point_bytes(point)),
        point matches Some(p) ==> p.1.len() <= u64::MAX,
    ensures
        point_at(b, at) == Ok::<(Option<(u64, Seq<char>)>, int), crate::node::Flaw>(
            (
                match point {
                    Some(p) => Some((p.0, crate::cbor::hex_text(p.1))),
                    None => None,
                },
                at + point_bytes(point).len(),
            ),
        ),
{
    match point {
        Some((n, hash)) => {
            let h = head(2, hash.len()) + hash;
            lemma_start(b, at, 3, 1, head(0, n as nat) + h);
            let first = at + head(4, 3).len() + head(0, 1).len();
            lemma_stands_apart(b, first, head(0, n as nat), h);
            lemma_int(b, first, n as int);
            let second = first + head(0, n as nat).len();
            lemma_stands_apart(b, second, head(2, hash.len()), hash);
            heads_read_back(b, second, 2, hash.len());
        },
        None => lemma_start(b, at, 1, 0, Seq::empty()),
    }
}

} // verus!
