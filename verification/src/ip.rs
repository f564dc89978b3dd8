//! IP addresses, and the text forms that the ledger, the snapshot and the
//! resolver write them in.

use vstd::prelude::*;
use vstd::slice::slice_subrange;

use crate::text::{decimal_chars, find_char, parse_plain, split};

verus! {

/// An IP address as a number, most significant part first.
#[derive(Clone, Copy, Debug, PartialEq, Eq, Structural)]
pub enum Ip {
    V4(u32),
    V6(u128),
}

/// An address and a port to connect to. `scope` is the zone of a link-local
/// IPv6 address, 0 where there is none.
#[derive(Clone, Copy, Debug, PartialEq, Eq, Structural)]
pub struct SockAddr {
    pub ip: Ip,
    pub port: u16,
    pub scope: u32,
}

impl SockAddr {
    /// IPv4 addresses have no scope.
    pub open spec fn wf(self) -> bool {
        self.ip is V4 ==> self.scope == 0
    }
}

impl DeepView for Ip {
    type V = Ip;

    open spec fn deep_view(&self) -> Ip {
        *self
    }
}

impl Ip {
    pub fn is_v4(self) -> (r: bool)
        ensures
            r == (self is V4),
    {
        match self {
            Ip::V4(_) => true,
            Ip::V6(_) => false,
        }
    }
}

// Place values.

/// The `n` lowest places of `a` in base `base`, highest first.
pub open spec fn places(a: nat, base: nat, n: nat) -> Seq<nat>
    decreases n,
{
    if n == 0 {
        Seq::empty()
    } else {
        places(a / base, base, (n - 1) as nat).push(a % base)
    }
}

/// The number with the places `s` in base `base`.
pub open spec fn weigh(s: Seq<nat>, base: nat) -> nat
    decreases s.len(),
{
    if s.len() == 0 {
        0
    } else {
        weigh(s.drop_last(), base) * base + s.last()
    }
}

/// Does `a` have at most `n` places in base `base`?
pub open spec fn fits(a: nat, base: nat, n: nat) -> bool
    decreases n,
{
    if n == 0 {
        a == 0
    } else {
        fits(a / base, base, (n - 1) as nat)
    }
}

pub proof fn lemma_places(a: nat, base: nat, n: nat)
    requires
        base > 0,
    ensures
        places(a, base, n).len() == n,
        forall|i: int| 0 <= i < n ==> places(a, base, n)[i] < base,
        fits(a, base, n) ==> weigh(places(a, base, n), base) == a,
    decreases n,
{
    if n > 0 {
        lemma_places(a / base, base, (n - 1) as nat);
        let s = places(a, base, n);
        assert(s.drop_last() =~= places(a / base, base, (n - 1) as nat));
        vstd::arithmetic::div_mod::lemma_fundamental_div_mod(a as int, base as int);
        assert(a / base * base == base * (a / base)) by (nonlinear_arith);
        vstd::arithmetic::div_mod::lemma_mod_bound(a as int, base as int);
    }
}

pub proof fn lemma_weigh(s: Seq<nat>, base: nat)
    requires
        base > 0,
        forall|i: int| 0 <= i < s.len() ==> s[i] < base,
    ensures
        places(weigh(s, base), base, s.len()) == s,
        fits(weigh(s, base), base, s.len()),
    decreases s.len(),
{
    if s.len() > 0 {
        let t = s.drop_last();
        lemma_weigh(t, base);
        let w = weigh(t, base);
        let a = weigh(s, base);
        vstd::arithmetic::div_mod::lemma_fundamental_div_mod_converse(
            a as int,
            base as int,
            w as int,
            s.last() as int,
        );
        assert(places(a, base, s.len()) =~= s);
    } else {
        assert(places(0, base, 0) =~= s);
    }
}

proof fn lemma_u32_fits(a: u32)
    ensures
        fits(a as nat, 256, 4),
{
    reveal_with_fuel(fits, 5);
}

proof fn lemma_u128_fits(a: u128)
    ensures
        fits(a as nat, 65536, 8),
{
    reveal_with_fuel(fits, 9);
}

proof fn lemma_weigh_bounds(s: Seq<nat>)
    ensures
        s.len() == 4 && (forall|i: int| 0 <= i < 4 ==> s[i] < 256) ==> weigh(s, 256) <= u32::MAX,
        s.len() == 8 && (forall|i: int| 0 <= i < 8 ==> s[i] < 65536) ==> weigh(s, 65536)
            <= u128::MAX,
{
    reveal_with_fuel(weigh, 9);
}

proof fn lemma_weigh_grows(s: Seq<nat>, base: nat, k: int)
    requires
        base > 0,
        0 <= k <= s.len(),
    ensures
        weigh(s.take(k), base) <= weigh(s, base),
    decreases s.len() - k,
{
    if k < s.len() {
        lemma_weigh_grows(s, base, k + 1);
        let t = s.take(k + 1);
        assert(t.drop_last() =~= s.take(k));
        let w = weigh(s.take(k), base);
        assert(w * base >= w) by (nonlinear_arith)
            requires
                base > 0,
        ;
    } else {
        assert(s.take(k) =~= s);
    }
}

pub open spec fn naturals(v: Seq<u16>) -> Seq<nat> {
    Seq::new(v.len(), |i: int| v[i] as nat)
}

fn split_places(a: u128, base: u128, n: usize) -> (v: Vec<u16>)
    requires
        0 < base <= 65536,
    ensures
        naturals(v@) == places(a as nat, base as nat, n as nat),
    decreases n,
{
    if n == 0 {
        let v: Vec<u16> = Vec::new();
        assert(naturals(v@) =~= places(a as nat, base as nat, n as nat));
        v
    } else {
        let mut v = split_places(a / base, base, n - 1);
        let ghost before = naturals(v@);
        let d: u16 = (a % base) as u16;
        v.push(d);
        assert(naturals(v@) =~= before.push(d as nat));
        v
    }
}

fn weigh_places(s: &[u16], base: u128) -> (a: u128)
    requires
        base > 0,
        weigh(naturals(s@), base as nat) <= u128::MAX,
    ensures
        a == weigh(naturals(s@), base as nat),
{
    let ghost m = naturals(s@);
    let mut a: u128 = 0;
    let mut i: usize = 0;
    while i < s.len()
        invariant
            i <= s.len(),
            base > 0,
            m == naturals(s@),
            weigh(m, base as nat) <= u128::MAX,
            a == weigh(m.take(i as int), base as nat),
        decreases s.len() - i,
    {
        proof {
            lemma_weigh_grows(m, base as nat, i + 1);
            assert(m.take(i + 1).drop_last() =~= m.take(i as int));
            assert(a * base + s[i as int] == weigh(m.take(i + 1), base as nat));
            assert(0 <= a * base) by (nonlinear_arith)
                requires
                    0 <= a,
                    0 < base,
            ;
        }
        a = a * base + s[i] as u128;
        i += 1;
    }
    assert(m.take(i as int) =~= m);
    a
}

/// The lowest place of each number, in base `base`.
pub open spec fn lowest(s: Seq<u64>, base: nat) -> Seq<nat> {
    Seq::new(s.len(), |i: int| s[i] as nat % base)
}

/// The number whose places in base `base` are the lowest places of the numbers
/// `s`, where there are few enough of them.
fn weigh_lowest(s: &[u64], base: u64) -> (a: u128)
    requires
        0 < base <= 65536,
        weigh(lowest(s@, base as nat), base as nat) <= u128::MAX,
    ensures
        a == weigh(lowest(s@, base as nat), base as nat),
{
    let mut v: Vec<u16> = Vec::new();
    let mut i: usize = 0;
    while i < s.len()
        invariant
            0 < base <= 65536,
            i <= s.len(),
            v.len() == i,
            forall|m: int| 0 <= m < i ==> v[m] == s[m] as nat % base as nat,
        decreases s.len() - i,
    {
        v.push((s[i] % base) as u16);
        i += 1;
    }
    assert(naturals(v@) =~= lowest(s@, base as nat));
    weigh_places(v.as_slice(), base as u128)
}

/// The IPv4 address with the octets `s`, of each of which the lowest eight
/// bits count.
pub fn join_octets(s: &[u64]) -> (a: u32)
    requires
        s.len() == 4,
    ensures
        a == weigh(lowest(s@, 256), 256),
{
    proof {
        lemma_weigh_bounds(lowest(s@, 256));
    }
    weigh_lowest(s, 256) as u32
}

/// The IPv6 address with the groups `s`, of each of which the lowest sixteen
/// bits count.
pub fn join_groups(s: &[u64]) -> (a: u128)
    requires
        s.len() == 8,
    ensures
        a == weigh(lowest(s@, 65536), 65536),
{
    proof {
        lemma_weigh_bounds(lowest(s@, 65536));
    }
    weigh_lowest(s, 65536)
}

/// The IPv4 address with the octets of `a` in opposite order.
pub open spec fn reversed(a: u32) -> u32 {
    weigh(octets(a).reverse(), 256) as u32
}

/// The octets of the reversed address are those of the address, reversed.
pub proof fn lemma_reversed(a: u32)
    ensures
        octets(reversed(a)) == octets(a).reverse(),
{
    lemma_places(a as nat, 256, 4);
    let r = octets(a).reverse();
    lemma_weigh_bounds(r);
    lemma_weigh(r, 256);
}

/// Reversing an address twice gives it back.
pub proof fn reversing_twice(a: u32)
    ensures
        reversed(reversed(a)) == a,
{
    lemma_u32_fits(a);
    lemma_places(a as nat, 256, 4);
    lemma_reversed(a);
    assert(octets(a).reverse().reverse() =~= octets(a));
}

pub fn reverse_octets(a: u32) -> (r: u32)
    ensures
        r == reversed(a),
{
    let o = split_places(a as u128, 256, 4);
    let mut v: Vec<u16> = Vec::new();
    proof {
        lemma_places(a as nat, 256, 4);
        assert(o.len() == octets(a).len());
    }
    v.push(o[3]);
    v.push(o[2]);
    v.push(o[1]);
    v.push(o[0]);
    assert(naturals(v@) =~= octets(a).reverse()) by {
        assert forall|i: int| 0 <= i < 4 implies naturals(v@)[i] == octets(a)[3 - i] by {
            assert(naturals(o@)[3 - i] == o[3 - i]);
        }
    }
    proof {
        lemma_weigh_bounds(naturals(v@));
    }
    weigh_places(v.as_slice(), 256) as u32
}

// IPv4.

/// The four octets of an IPv4 address.
pub open spec fn octets(a: u32) -> Seq<nat> {
    places(a as nat, 256, 4)
}

/// One octet of a dotted quad: a number up to 255 without leading zeros.
pub open spec fn octet_of(s: Seq<char>) -> Option<nat> {
    if s.len() <= 3 && !(s.len() > 1 && s[0] == '0') {
        crate::text::plain_number(s, 255)
    } else {
        None
    }
}

/// The IPv4 address that the dotted quad `s` writes.
pub open spec fn v4_of(s: Seq<char>) -> Option<u32> {
    let p = crate::text::pieces(s, '.');
    if p.len() == 4 && (forall|i: int| 0 <= i < 4 ==> octet_of(#[trigger] p[i]) is Some) {
        Some(weigh(Seq::new(4, |i: int| octet_of(p[i])->0), 256) as u32)
    } else {
        None
    }
}

/// `a` as a dotted quad.
pub open spec fn v4_text(a: u32) -> Seq<char> {
    let o = octets(a);
    crate::text::joined(Seq::new(4, |i: int| crate::text::decimal(o[i])), seq!['.'])
}

fn parse_octet(s: &[char]) -> (r: Option<u16>)
    ensures
        r is Some <==> octet_of(s@) is Some,
        r matches Some(n) ==> octet_of(s@) == Some(n as nat) && n <= 255,
{
    if s.len() > 3 || (s.len() > 1 && s[0] == '0') {
        return None;
    }
    match parse_plain(s, 255) {
        Some(n) => Some(n as u16),
        None => None,
    }
}

pub fn parse_v4(s: &[char]) -> (r: Option<u32>)
    ensures
        r == v4_of(s@),
{
    let p = split(s, '.');
    let ghost model = crate::text::pieces(s@, '.');
    assert(forall|i: int| 0 <= i < p.len() ==> crate::text::views(p@)[i] == p[i]@);
    if p.len() != 4 {
        return None;
    }
    let mut v: Vec<u16> = Vec::new();
    let mut i: usize = 0;
    while i < 4
        invariant
            i <= 4,
            p.len() == 4,
            model.len() == 4,
            v.len() == i,
            model == crate::text::pieces(s@, '.'),
            forall|m: int| 0 <= m < 4 ==> model[m] == p[m]@,
            forall|m: int|
                0 <= m < i ==> octet_of(#[trigger] model[m]) == Some(v[m] as nat) && v[m] <= 255,
        decreases 4 - i,
    {
        match parse_octet(p[i].as_slice()) {
            Some(n) => v.push(n),
            None => {
                assert(octet_of(model[i as int]) is None);
                return None;
            },
        }
        i += 1;
    }
    let ghost want = Seq::new(4, |i: int| octet_of(model[i])->0);
    assert(naturals(v@) =~= want);
    proof {
        lemma_weigh_bounds(want);
    }
    Some(weigh_places(v.as_slice(), 256) as u32)
}

/// Append the pieces, with `sep` between them.
fn join_chars(parts: &[Vec<char>], sep: char) -> (v: Vec<char>)
    ensures
        v@ == crate::text::joined(crate::text::views(parts@), seq![sep]),
{
    let ghost all = crate::text::views(parts@);
    let mut v: Vec<char> = Vec::new();
    let mut i: usize = 0;
    while i < parts.len()
        invariant
            i <= parts.len(),
            all == crate::text::views(parts@),
            v@ == crate::text::joined(all.take(i as int), seq![sep]),
        decreases parts.len() - i,
    {
        if i > 0 {
            v.push(sep);
        }
        let ghost before = v@;
        v.extend_from_slice(parts[i].as_slice());
        assert(v@ =~= before + parts[i as int]@);
        assert(all.take(i + 1).drop_last() =~= all.take(i as int));
        assert(v@ =~= crate::text::joined(all.take(i + 1), seq![sep]));
        i += 1;
    }
    assert(all.take(i as int) =~= all);
    v
}

pub fn write_v4(a: u32) -> (v: Vec<char>)
    ensures
        v@ == v4_text(a),
{
    let o = split_places(a as u128, 256, 4);
    let mut parts: Vec<Vec<char>> = Vec::new();
    let mut i: usize = 0;
    proof {
        lemma_places(a as nat, 256, 4);
    }
    assert(o.len() == naturals(o@).len());
    while i < 4
        invariant
            i <= 4,
            o.len() == 4,
            naturals(o@) == octets(a),
            parts.len() == i,
            forall|m: int|
                0 <= m < i ==> (#[trigger] parts[m])@ == crate::text::decimal(octets(a)[m]),
        decreases 4 - i,
    {
        assert(naturals(o@)[i as int] == o[i as int] as nat);
        parts.push(decimal_chars(o[i] as u64));
        i += 1;
    }
    assert(crate::text::views(parts@) =~= Seq::new(
        4,
        |i: int| crate::text::decimal(octets(a)[i]),
    ));
    join_chars(parts.as_slice(), '.')
}

// IPv6.

/// The eight groups of an IPv6 address.
pub open spec fn groups(a: u128) -> Seq<nat> {
    places(a as nat, 65536, 8)
}

pub open spec fn is_hex(c: char) -> bool {
    '0' <= c <= '9' || 'a' <= c <= 'f' || 'A' <= c <= 'F'
}

pub open spec fn hex_digit(c: char) -> nat {
    if '0' <= c <= '9' {
        (c as u32 - '0' as u32) as nat
    } else if 'a' <= c <= 'f' {
        (c as u32 - 'a' as u32 + 10) as nat
    } else {
        (c as u32 - 'A' as u32 + 10) as nat
    }
}

/// What the hexadecimal digits `s` stand for.
pub open spec fn hex_value(s: Seq<char>) -> nat
    decreases s.len(),
{
    if s.len() == 0 {
        0
    } else {
        hex_value(s.drop_last()) * 16 + hex_digit(s.last())
    }
}

/// One group of an IPv6 address: one to four hexadecimal digits.
pub open spec fn group_of(s: Seq<char>) -> Option<nat> {
    if 1 <= s.len() <= 4 && (forall|i: int| 0 <= i < s.len() ==> is_hex(s[i])) {
        Some(hex_value(s))
    } else {
        None
    }
}

pub open spec fn hex_char(d: nat) -> char {
    if d < 10 {
        ('0' as u32 + d) as char
    } else {
        ('a' as u32 + (d - 10)) as char
    }
}

/// `n` in lower case hexadecimal.
pub open spec fn hex(n: nat) -> Seq<char>
    decreases n,
{
    if n < 16 {
        seq![hex_char(n)]
    } else {
        hex(n / 16).push(hex_char(n % 16))
    }
}

/// The groups that `s` writes, separated by colons; none when `s` is empty.
/// A dotted quad may stand for the last two where `quad` says so.
pub open spec fn groups_of(s: Seq<char>, quad: bool) -> Option<Seq<nat>> {
    if s.len() == 0 {
        Some(Seq::empty())
    } else {
        let p = crate::text::pieces(s, ':');
        let n = p.len() - 1;
        if !(forall|i: int| 0 <= i < n ==> group_of(#[trigger] p[i]) is Some) {
            None
        } else {
            let front = Seq::new(n as nat, |i: int| group_of(p[i])->0);
            if group_of(p[n]) is Some {
                Some(front.push(group_of(p[n])->0))
            } else if quad && v4_of(p[n]) is Some {
                let q = v4_of(p[n])->0 as nat;
                Some(front.push(q / 65536).push(q % 65536))
            } else {
                None
            }
        }
    }
}

/// Where two colons first stand side by side in `s`; the length of `s` when
/// they do not.
pub open spec fn gap_at(s: Seq<char>) -> int
    decreases s.len(),
{
    if s.len() >= 2 && s[0] == ':' && s[1] == ':' {
        0
    } else if s.len() == 0 {
        0
    } else {
        1 + gap_at(s.drop_first())
    }
}

/// The IPv6 address that `s` writes: eight groups, or at most seven with a
/// double colon for the zeros left out.
pub open spec fn v6_of(s: Seq<char>) -> Option<u128> {
    let k = gap_at(s);
    if k >= s.len() {
        match groups_of(s, true) {
            Some(g) => if g.len() == 8 {
                Some(weigh(g, 65536) as u128)
            } else {
                None
            },
            None => None,
        }
    } else {
        match (groups_of(s.take(k), false), groups_of(s.skip(k + 2), true)) {
            (Some(h), Some(t)) => if h.len() + t.len() <= 7 {
                Some(weigh(h + zeros((8 - h.len() - t.len()) as nat) + t, 65536) as u128)
            } else {
                None
            },
            _ => None,
        }
    }
}

pub open spec fn zeros(n: nat) -> Seq<nat> {
    Seq::new(n, |i: int| 0nat)
}

/// How many zeros stand at the start of `g`.
pub open spec fn zero_run(g: Seq<nat>) -> nat
    decreases g.len(),
{
    if g.len() > 0 && g[0] == 0 {
        1 + zero_run(g.drop_first())
    } else {
        0
    }
}

/// Where the longest run of zeros in `g` starts that starts at `n` or before,
/// the first one of its length.
pub open spec fn longest_run(g: Seq<nat>, n: nat) -> nat
    decreases n,
{
    if n == 0 {
        0
    } else {
        let k = longest_run(g, (n - 1) as nat);
        if zero_run(g.skip(n as int)) > zero_run(g.skip(k as int)) {
            n
        } else {
            k
        }
    }
}

/// `g` in hexadecimal, with colons between.
pub open spec fn hexes(g: Seq<nat>) -> Seq<char> {
    crate::text::joined(Seq::new(g.len(), |i: int| hex(g[i])), seq![':'])
}

/// Is this an IPv4 address mapped into IPv6?
pub open spec fn is_mapped(g: Seq<nat>) -> bool {
    g[0] == 0 && g[1] == 0 && g[2] == 0 && g[3] == 0 && g[4] == 0 && g[5] == 0xffff
}

/// `a` in the shortest form: the first longest run of two or more zero groups
/// written as a double colon, a mapped IPv4 address as a dotted quad.
pub open spec fn v6_text(a: u128) -> Seq<char> {
    let g = groups(a);
    if is_mapped(g) {
        seq![':', ':', 'f', 'f', 'f', 'f', ':'] + v4_text((g[6] * 65536 + g[7]) as u32)
    } else {
        let k = longest_run(g, 8);
        let n = zero_run(g.skip(k as int));
        if n > 1 {
            hexes(g.take(k as int)) + seq![':', ':'] + hexes(g.skip((k + n) as int))
        } else {
            hexes(g)
        }
    }
}

fn parse_group(s: &[char]) -> (r: Option<u16>)
    ensures
        r is Some <==> group_of(s@) is Some,
        r matches Some(n) ==> group_of(s@) == Some(n as nat),
{
    if s.len() == 0 || s.len() > 4 {
        return None;
    }
    let mut n: u32 = 0;
    let mut i: usize = 0;
    while i < s.len()
        invariant
            i <= s.len() <= 4,
            forall|m: int| 0 <= m < i ==> is_hex(s[m]),
            n == hex_value(s@.take(i as int)),
            i == 0 ==> n == 0,
            i == 1 ==> n < 16,
            i == 2 ==> n < 256,
            i == 3 ==> n < 4096,
            i == 4 ==> n < 65536,
        decreases s.len() - i,
    {
        let c = s[i];
        let d: u32 = if '0' <= c && c <= '9' {
            c as u32 - '0' as u32
        } else if 'a' <= c && c <= 'f' {
            c as u32 - 'a' as u32 + 10
        } else if 'A' <= c && c <= 'F' {
            c as u32 - 'A' as u32 + 10
        } else {
            assert(!is_hex(s[i as int]));
            return None;
        };
        assert(s@.take(i + 1).drop_last() =~= s@.take(i as int));
        assert(s@.take(i + 1).last() == c);
        n = n * 16 + d;
        i += 1;
    }
    assert(s@.take(i as int) =~= s@);
    Some(n as u16)
}

fn parse_groups(s: &[char], quad: bool) -> (r: Option<Vec<u16>>)
    ensures
        r is Some <==> groups_of(s@, quad) is Some,
        r matches Some(v) ==> groups_of(s@, quad) == Some(naturals(v@)),
{
    let mut v: Vec<u16> = Vec::new();
    if s.len() == 0 {
        assert(naturals(v@) =~= Seq::<nat>::empty());
        return Some(v);
    }
    let p = split(s, ':');
    let ghost model = crate::text::pieces(s@, ':');
    assert(forall|i: int| 0 <= i < p.len() ==> crate::text::views(p@)[i] == p[i]@);
    let n: usize = p.len() - 1;
    let mut i: usize = 0;
    while i < n
        invariant
            i <= n,
            n == p.len() - 1,
            model.len() == p.len(),
            model == crate::text::pieces(s@, ':'),
            s@.len() > 0,
            v.len() == i,
            forall|m: int| 0 <= m < p.len() ==> model[m] == p[m]@,
            forall|m: int| 0 <= m < i ==> group_of(#[trigger] model[m]) == Some(v[m] as nat),
        decreases n - i,
    {
        match parse_group(p[i].as_slice()) {
            Some(g) => v.push(g),
            None => {
                assert(group_of(model[i as int]) is None);
                return None;
            },
        }
        i += 1;
    }
    let ghost front = Seq::new(n as nat, |i: int| group_of(model[i])->0);
    assert(naturals(v@) =~= front);
    assert(model[n as int] == p[n as int]@);
    match parse_group(p[n].as_slice()) {
        Some(g) => {
            v.push(g);
            assert(naturals(v@) =~= front.push(g as nat));
            Some(v)
        },
        None => {
            if !quad {
                return None;
            }
            match parse_v4(p[n].as_slice()) {
                Some(q) => {
                    let hi: u16 = (q / 65536) as u16;
                    let lo: u16 = (q % 65536) as u16;
                    v.push(hi);
                    v.push(lo);
                    assert(naturals(v@) =~= front.push((q / 65536) as nat).push(
                        (q % 65536) as nat,
                    ));
                    Some(v)
                },
                None => None,
            }
        },
    }
}

pub proof fn lemma_gap_at_is(s: Seq<char>, k: int)
    requires
        0 <= k <= s.len(),
        k < s.len() ==> k + 1 < s.len() && s[k] == ':' && s[k + 1] == ':',
        forall|i: int| 0 <= i < k && i + 1 < s.len() ==> !(s[i] == ':' && #[trigger] s[i + 1] == ':'),
    ensures
        gap_at(s) == k,
    decreases k,
{
    if k > 0 {
        let t = s.drop_first();
        assert forall|i: int| 0 <= i < k - 1 && i + 1 < t.len() implies !(t[i] == ':'
            && #[trigger] t[i + 1] == ':') by {
            assert(t[i] == s[i + 1]);
            assert(t[i + 1] == s[(i + 1) + 1]);
        }
        lemma_gap_at_is(t, k - 1);
        if s.len() >= 2 {
            assert(!(s[0] == ':' && s[0int + 1] == ':'));
        }
    }
}

fn find_gap(s: &[char]) -> (k: usize)
    ensures
        k == gap_at(s@),
        k <= s.len(),
        k < s.len() ==> k + 2 <= s.len(),
{
    let mut k: usize = 0;
    while k < s.len() && !(k + 1 < s.len() && s[k] == ':' && s[k + 1] == ':')
        invariant
            k <= s.len(),
            forall|i: int|
                0 <= i < k && i + 1 < s.len() ==> !(s[i] == ':' && #[trigger] s[i + 1] == ':'),
        decreases s.len() - k,
    {
        k += 1;
    }
    proof {
        lemma_gap_at_is(s@, k as int);
    }
    k
}

pub fn parse_v6(s: &[char]) -> (r: Option<u128>)
    ensures
        r == v6_of(s@),
{
    let k: usize = find_gap(s);
    if k == s.len() {
        match parse_groups(s, true) {
            Some(g) => {
                if g.len() != 8 {
                    return None;
                }
                proof {
                    lemma_weigh_bounds(naturals(g@));
                }
                Some(weigh_places(g.as_slice(), 65536))
            },
            None => None,
        }
    } else {
        let head = slice_subrange(s, 0, k);
        let tail = slice_subrange(s, k + 2, s.len());
        assert(head@ =~= s@.take(k as int));
        assert(tail@ =~= s@.skip(k + 2));
        match (parse_groups(head, false), parse_groups(tail, true)) {
            (Some(h), Some(t)) => {
                if h.len() > 7 || t.len() > 7 - h.len() {
                    return None;
                }
                let n: usize = 8 - h.len() - t.len();
                let ghost hm = naturals(h@);
                let ghost tm = naturals(t@);
                let mut g: Vec<u16> = h;
                let mut i: usize = 0;
                while i < n
                    invariant
                        i <= n,
                        g.len() == hm.len() + i,
                        forall|m: int| 0 <= m < hm.len() ==> g[m] as nat == hm[m],
                        forall|m: int| hm.len() <= m < g.len() ==> g[m] == 0,
                    decreases n - i,
                {
                    g.push(0);
                    i += 1;
                }
                let ghost before = g@;
                g.extend_from_slice(t.as_slice());
                assert(g@ =~= before + t@);
                assert(naturals(g@) =~= hm + zeros(n as nat) + tm);
                proof {
                    lemma_weigh_bounds(naturals(g@));
                }
                Some(weigh_places(g.as_slice(), 65536))
            },
            _ => None,
        }
    }
}

fn hex_chars(n: u16) -> (v: Vec<char>)
    ensures
        v@ == hex(n as nat),
    decreases n,
{
    let d: u8 = (n % 16) as u8;
    let c: char = if d < 10 {
        (48u8 + d) as char
    } else {
        (97u8 + (d - 10)) as char
    };
    if n < 16 {
        let mut v: Vec<char> = Vec::new();
        v.push(c);
        assert(v@ =~= hex(n as nat));
        v
    } else {
        let mut v = hex_chars(n / 16);
        v.push(c);
        v
    }
}

fn write_groups(g: &[u16]) -> (v: Vec<char>)
    ensures
        v@ == hexes(naturals(g@)),
{
    let mut parts: Vec<Vec<char>> = Vec::new();
    let mut i: usize = 0;
    while i < g.len()
        invariant
            i <= g.len(),
            parts.len() == i,
            forall|m: int| 0 <= m < i ==> (#[trigger] parts[m])@ == hex(g[m] as nat),
        decreases g.len() - i,
    {
        parts.push(hex_chars(g[i]));
        i += 1;
    }
    assert(crate::text::views(parts@) =~= Seq::new(
        naturals(g@).len(),
        |i: int| hex(naturals(g@)[i]),
    ));
    join_chars(parts.as_slice(), ':')
}

fn run_at(g: &[u16], k: usize) -> (n: usize)
    requires
        k <= g.len(),
    ensures
        n == zero_run(naturals(g@).skip(k as int)),
        k + n <= g.len(),
    decreases g.len() - k,
{
    let ghost m = naturals(g@).skip(k as int);
    if k < g.len() && g[k] == 0 {
        assert(m.drop_first() =~= naturals(g@).skip(k + 1));
        assert(m[0] == 0);
        1 + run_at(g, k + 1)
    } else {
        0
    }
}

pub fn write_v6(a: u128) -> (v: Vec<char>)
    ensures
        v@ == v6_text(a),
{
    let g = split_places(a, 65536, 8);
    let ghost m = groups(a);
    proof {
        lemma_places(a as nat, 65536, 8);
    }
    assert(g.len() == naturals(g@).len());
    assert(forall|i: int| 0 <= i < 8 ==> m[i] == g[i] as nat);
    if g[0] == 0 && g[1] == 0 && g[2] == 0 && g[3] == 0 && g[4] == 0 && g[5] == 0xffff {
        let mut v: Vec<char> = Vec::new();
        v.push(':');
        v.push(':');
        v.push('f');
        v.push('f');
        v.push('f');
        v.push('f');
        v.push(':');
        let low: u32 = g[6] as u32 * 65536 + g[7] as u32;
        let quad = write_v4(low);
        let ghost before = v@;
        v.extend_from_slice(quad.as_slice());
        assert(v@ =~= before + quad@);
        assert(before =~= seq![':', ':', 'f', 'f', 'f', 'f', ':']);
        return v;
    }
    let mut best: usize = 0;
    let mut len: usize = run_at(g.as_slice(), 0);
    let mut i: usize = 1;
    while i <= 8
        invariant
            1 <= i <= 9,
            g.len() == 8,
            m == naturals(g@),
            best == longest_run(m, (i - 1) as nat),
            len == zero_run(m.skip(best as int)),
            best + len <= 8,
        decreases 9 - i,
    {
        let n: usize = run_at(g.as_slice(), i);
        if n > len {
            best = i;
            len = n;
        }
        i += 1;
    }
    if len > 1 {
        let head = slice_subrange(g.as_slice(), 0, best);
        let tail = slice_subrange(g.as_slice(), best + len, g.len());
        assert(naturals(head@) =~= m.take(best as int));
        assert(naturals(tail@) =~= m.skip(best + len));
        let mut v = write_groups(head);
        let ghost hv = v@;
        v.push(':');
        v.push(':');
        let t = write_groups(tail);
        let ghost before = v@;
        v.extend_from_slice(t.as_slice());
        assert(v@ =~= before + t@);
        assert(v@ =~= hv + seq![':', ':'] + t@);
        v
    } else {
        write_groups(g.as_slice())
    }
}

// What is written reads back.

proof fn lemma_octet_reads_back(n: nat)
    requires
        n < 256,
    ensures
        octet_of(crate::text::decimal(n)) == Some(n),
{
    crate::text::lemma_decimal(n);
    reveal_with_fuel(crate::text::decimal, 3);
}

proof fn lemma_digits_lack(s: Seq<char>, c: char)
    requires
        crate::text::all_digits(s),
        !crate::text::is_digit(c),
    ensures
        !s.contains(c),
{
}

/// The decimal octets of `a`.
spec fn octet_texts(a: u32) -> Seq<Seq<char>> {
    let o = octets(a);
    Seq::new(4, |i: int| crate::text::decimal(o[i]))
}

proof fn lemma_v4_pieces(a: u32)
    ensures
        crate::text::pieces(v4_text(a), '.') == octet_texts(a),
        forall|i: int| 0 <= i < 4 ==> octet_of(#[trigger] octet_texts(a)[i]) == Some(octets(a)[i]),
        forall|i: int|
            0 <= i < v4_text(a).len() ==> crate::text::is_digit(#[trigger] v4_text(a)[i]) || v4_text(
                a,
            )[i] == '.',
        v4_text(a).len() > 0,
        v4_text(a).contains('.'),
{
    let parts = octet_texts(a);
    lemma_places(a as nat, 256, 4);
    assert forall|i: int| 0 <= i < 4 implies !(#[trigger] parts[i]).contains('.') && octet_of(
        parts[i],
    ) == Some(octets(a)[i]) && crate::text::all_digits(parts[i]) by {
        crate::text::lemma_decimal(octets(a)[i]);
        lemma_octet_reads_back(octets(a)[i]);
        lemma_digits_lack(parts[i], '.');
    }
    crate::text::lemma_pieces_joined(parts, '.');
    assert forall|i: int| 0 <= i < v4_text(a).len() implies crate::text::is_digit(
        #[trigger] v4_text(a)[i],
    ) || v4_text(a)[i] == '.' by {
        let j = crate::text::lemma_joined_char(parts, seq!['.'], i);
        if v4_text(a)[i] != '.' {
            assert(parts[j].contains(v4_text(a)[i]));
        }
    }
    let back = crate::text::joined(parts.drop_last(), seq!['.']);
    assert(v4_text(a)[back.len() as int] == '.');
}

/// An IPv4 address reads back as itself.
pub proof fn v4_reads_back(a: u32)
    ensures
        v4_of(v4_text(a)) == Some(a),
{
    lemma_v4_pieces(a);
    lemma_places(a as nat, 256, 4);
    lemma_u32_fits(a);
    let p = octet_texts(a);
    assert(Seq::new(4, |i: int| octet_of(p[i])->0) =~= octets(a));
}

proof fn lemma_hex(n: nat)
    ensures
        hex(n).len() > 0,
        hex_value(hex(n)) == n,
        forall|i: int| 0 <= i < hex(n).len() ==> is_hex(#[trigger] hex(n)[i]),
    decreases n,
{
    let s = hex(n);
    if n < 16 {
        assert(s.drop_last() =~= Seq::<char>::empty());
        assert(hex_value(s.drop_last()) == 0);
        assert(s.last() == hex_char(n));
    } else {
        lemma_hex(n / 16);
        assert(s.drop_last() =~= hex(n / 16));
        assert forall|i: int| 0 <= i < s.len() implies is_hex(#[trigger] s[i]) by {
            if i < s.len() - 1 {
                assert(s[i] == hex(n / 16)[i]);
            }
        }
    }
}

proof fn lemma_group_reads_back(n: nat)
    requires
        n < 65536,
    ensures
        group_of(hex(n)) == Some(n),
{
    lemma_hex(n);
    reveal_with_fuel(hex, 4);
}

/// The hexadecimal forms of `g`.
spec fn hex_texts(g: Seq<nat>) -> Seq<Seq<char>> {
    Seq::new(g.len(), |i: int| hex(g[i]))
}

/// Does `s` hold hexadecimal digits with single colons between them?
spec fn is_grouped(s: Seq<char>) -> bool {
    &&& forall|i: int| 0 <= i < s.len() ==> is_hex(#[trigger] s[i]) || s[i] == ':'
    &&& s.len() > 0 ==> s[0] != ':' && s.last() != ':'
    &&& forall|i: int| 0 <= i && i + 1 < s.len() ==> !(s[i] == ':' && #[trigger] s[i + 1] == ':')
}

proof fn lemma_hexes_grouped(g: Seq<nat>)
    ensures
        is_grouped(hexes(g)),
        g.len() > 0 ==> hexes(g).len() > 0,
    decreases g.len(),
{
    let t = hex_texts(g);
    if g.len() == 1 {
        lemma_hex(g[0]);
    } else if g.len() > 1 {
        let h = g.drop_last();
        lemma_hexes_grouped(h);
        lemma_hex(g.last());
        assert(hex_texts(h) =~= t.drop_last());
        let x = hexes(h);
        let y = hex(g.last());
        let s = hexes(g);
        assert(s =~= x + seq![':'] + y);
        assert forall|i: int| 0 <= i < s.len() implies is_hex(#[trigger] s[i]) || s[i] == ':' by {
            if i < x.len() {
                assert(s[i] == x[i]);
            } else if i > x.len() {
                assert(s[i] == y[i - x.len() - 1]);
            }
        }
        assert forall|i: int| 0 <= i && i + 1 < s.len() implies !(s[i] == ':' && #[trigger] s[i + 1]
            == ':') by {
            if i + 1 < x.len() {
                assert(s[i] == x[i] && s[i + 1] == x[i + 1]);
            } else if i + 1 == x.len() {
                assert(s[i] == x.last());
            } else {
                assert(s[i + 1] == y[i - x.len()]);
            }
        }
        assert(s[0] == x[0]);
        assert(s.last() == y.last());
    }
}

proof fn lemma_groups_read_back(g: Seq<nat>, quad: bool)
    requires
        forall|i: int| 0 <= i < g.len() ==> g[i] < 65536,
    ensures
        groups_of(hexes(g), quad) == Some(g),
{
    lemma_hexes_grouped(g);
    if g.len() > 0 {
        let t = hex_texts(g);
        assert forall|i: int| 0 <= i < t.len() implies !(#[trigger] t[i]).contains(':') && group_of(
            t[i],
        ) == Some(g[i]) by {
            lemma_hex(g[i]);
            lemma_group_reads_back(g[i]);
            if t[i].contains(':') {
                let j = choose|j: int| 0 <= j < t[i].len() && t[i][j] == ':';
                assert(is_hex(hex(g[i])[j]));
            }
        }
        crate::text::lemma_pieces_joined(t, ':');
        let n = g.len() - 1;
        assert(group_of(t[n]) == Some(g[n]));
        assert(Seq::new(n as nat, |i: int| group_of(t[i])->0).push(g[n]) =~= g);
    } else {
        assert(hexes(g) =~= Seq::<char>::empty());
        assert(g =~= Seq::<nat>::empty());
    }
}

proof fn lemma_zero_run(g: Seq<nat>)
    ensures
        zero_run(g) <= g.len(),
        forall|i: int| 0 <= i < zero_run(g) ==> g[i] == 0,
    decreases g.len(),
{
    if g.len() > 0 && g[0] == 0 {
        let t = g.drop_first();
        lemma_zero_run(t);
        assert forall|i: int| 0 <= i < zero_run(g) implies g[i] == 0 by {
            if i > 0 {
                assert(t[i - 1] == g[i]);
            }
        }
    }
}

proof fn lemma_longest_run_bound(g: Seq<nat>, n: nat)
    ensures
        longest_run(g, n) <= n,
    decreases n,
{
    if n > 0 {
        lemma_longest_run_bound(g, (n - 1) as nat);
    }
}

proof fn lemma_mapped_reads_back(a: u128)
    requires
        is_mapped(groups(a)),
    ensures
        v6_of(v6_text(a)) == Some(a),
{
    let g = groups(a);
    lemma_places(a as nat, 65536, 8);
    lemma_u128_fits(a);
    let q = (g[6] * 65536 + g[7]) as u32;
    let quad = v4_text(q);
    let s = v6_text(a);
    lemma_v4_pieces(q);
    v4_reads_back(q);
    lemma_gap_at_is(s, 0);
    assert(s.take(0) =~= Seq::<char>::empty());
    let ffff = seq!['f', 'f', 'f', 'f'];
    let tail = s.skip(2);
    assert(tail =~= ffff + seq![':'] + quad);
    crate::text::lemma_pieces_concat(ffff, quad, ':');
    assert(!quad.contains(':')) by {
        if quad.contains(':') {
            let j = choose|j: int| 0 <= j < quad.len() && quad[j] == ':';
            assert(crate::text::is_digit(quad[j]) || quad[j] == '.');
        }
    }
    crate::text::lemma_pieces_whole(quad, ':');
    crate::text::lemma_pieces_whole(ffff, ':');
    let p = crate::text::pieces(tail, ':');
    assert(p =~= seq![ffff, quad]);
    assert(group_of(ffff) == Some(0xffffnat)) by {
        reveal_with_fuel(hex_value, 5);
        assert(ffff.drop_last() =~= seq!['f', 'f', 'f']);
        assert(ffff.drop_last().drop_last() =~= seq!['f', 'f']);
        assert(ffff.drop_last().drop_last().drop_last() =~= seq!['f']);
    }
    assert(group_of(quad) is None) by {
        let j = choose|j: int| 0 <= j < quad.len() && quad[j] == '.';
        assert(!is_hex(quad[j]));
    }
    let t = groups_of(tail, true)->0;
    assert(q as nat / 65536 == g[6] && q as nat % 65536 == g[7]);
    assert(Seq::new(1, |i: int| group_of(p[i])->0) =~= seq![0xffffnat]);
    assert(t =~= seq![0xffffnat, g[6], g[7]]);
    assert(Seq::<nat>::empty() + zeros(5) + t =~= g);
}

/// An IPv6 address reads back as itself.
pub proof fn v6_reads_back(a: u128)
    ensures
        v6_of(v6_text(a)) == Some(a),
{
    let g = groups(a);
    lemma_places(a as nat, 65536, 8);
    lemma_u128_fits(a);
    if is_mapped(g) {
        lemma_mapped_reads_back(a);
        return ;
    }
    let k = longest_run(g, 8);
    let n = zero_run(g.skip(k as int));
    let s = v6_text(a);
    lemma_longest_run_bound(g, 8);
    lemma_zero_run(g.skip(k as int));
    if n > 1 {
        let h = g.take(k as int);
        let t = g.skip((k + n) as int);
        let x = hexes(h);
        let y = hexes(t);
        lemma_hexes_grouped(h);
        lemma_groups_read_back(h, false);
        lemma_groups_read_back(t, true);
        assert forall|i: int| 0 <= i < x.len() && i + 1 < s.len() implies !(s[i] == ':'
            && #[trigger] s[i + 1] == ':') by {
            assert(s[i] == x[i]);
            if i + 1 < x.len() {
                assert(s[i + 1] == x[i + 1]);
            } else {
                assert(s[i] == x.last());
            }
        }
        lemma_gap_at_is(s, x.len() as int);
        assert(s.take(x.len() as int) =~= x);
        assert(s.skip(x.len() as int + 2) =~= y);
        assert(h + zeros((8 - h.len() - t.len()) as nat) + t =~= g) by {
            assert forall|i: int| k <= i < k + n implies g[i] == 0 by {
                assert(g.skip(k as int)[i - k] == g[i]);
            }
        }
    } else {
        lemma_hexes_grouped(g);
        lemma_gap_at_is(s, s.len() as int);
        lemma_groups_read_back(g, true);
    }
}

/// The characters an IPv6 address is written with.
proof fn lemma_v6_chars(a: u128)
    ensures
        forall|i: int|
            0 <= i < v6_text(a).len() ==> is_hex(#[trigger] v6_text(a)[i]) || v6_text(a)[i] == ':'
                || v6_text(a)[i] == '.',
        v4_of(v6_text(a)) is None,
{
    let g = groups(a);
    lemma_places(a as nat, 65536, 8);
    let s = v6_text(a);
    if is_mapped(g) {
        let quad = v4_text((g[6] * 65536 + g[7]) as u32);
        let front = seq![':', ':', 'f', 'f', 'f', 'f', ':'];
        lemma_v4_pieces((g[6] * 65536 + g[7]) as u32);
        assert forall|i: int| 0 <= i < s.len() implies is_hex(#[trigger] s[i]) || s[i] == ':' || s[i]
            == '.' by {
            if i >= front.len() {
                assert(s[i] == quad[i - front.len()]);
            }
        }
        let f = crate::text::first_at(s, '.');
        crate::text::lemma_first_at(s, '.');
        assert(s[0] == ':');
        if f < s.len() {
            assert(crate::text::pieces(s, '.')[0] == s.take(f));
            assert(s.take(f)[0] == ':');
        }
        let p = crate::text::pieces(s, '.');
        assert(p[0].len() > 0 && p[0][0] == ':');
        assert(octet_of(p[0]) is None) by {
            assert(!crate::text::is_digit(p[0][0]));
        }
    } else {
        let k = longest_run(g, 8);
        let n = zero_run(g.skip(k as int));
        let x = hexes(g.take(k as int));
        let y = hexes(g.skip((k + n) as int));
        lemma_hexes_grouped(g.take(k as int));
        lemma_hexes_grouped(g.skip((k + n) as int));
        lemma_hexes_grouped(g);
        assert forall|i: int| 0 <= i < s.len() implies is_hex(#[trigger] s[i]) || s[i] == ':' by {
            if n > 1 {
                if i < x.len() {
                    assert(s[i] == x[i]);
                } else if i >= x.len() + 2 {
                    assert(s[i] == y[i - x.len() - 2]);
                }
            }
        }
        if s.contains('.') {
            let j = choose|j: int| 0 <= j < s.len() && s[j] == '.';
            assert(is_hex(s[j]) || s[j] == ':');
        }
        crate::text::lemma_pieces_whole(s, '.');
    }
}

/// An address of either family reads back as itself.
pub proof fn ip_reads_back(ip: Ip)
    ensures
        ip_of(ip_text(ip)) == Some(ip),
{
    match ip {
        Ip::V4(a) => v4_reads_back(a),
        Ip::V6(a) => {
            v6_reads_back(a);
            lemma_v6_chars(a);
        },
    }
}

/// A socket address reads back as itself.
pub proof fn sock_reads_back(addr: SockAddr)
    requires
        addr.wf(),
    ensures
        sock_of(addr_text(addr)) == Some(addr),
{
    let s = addr_text(addr);
    let d = crate::text::decimal(addr.port as nat);
    crate::text::lemma_decimal(addr.port as nat);
    match addr.ip {
        Ip::V4(a) => {
            let t = v4_text(a);
            v4_reads_back(a);
            lemma_v4_pieces(a);
            assert(crate::text::is_digit(t[0]) || t[0] == '.');
            assert(s[0] == t[0]);
            assert forall|i: int| 0 <= i < t.len() implies s[i] != ':' by {
                assert(s[i] == t[i]);
            }
            crate::text::lemma_first_at_is(s, ':', t.len() as int);
            assert(s.take(t.len() as int) =~= t);
            assert(s.skip(t.len() as int + 1) =~= d);
        },
        Ip::V6(a) => {
            let t = v6_text(a);
            v6_reads_back(a);
            lemma_v6_chars(a);
            let z = crate::text::decimal(addr.scope as nat);
            crate::text::lemma_decimal(addr.scope as nat);
            let inner = if addr.scope == 0 {
                t
            } else {
                t + seq!['%'] + z
            };
            let n = inner.len() as int;
            assert(s =~= seq!['['] + inner + seq![']', ':'] + d);
            assert forall|i: int| 0 <= i < n implies inner[i] != ']' by {
                if i < t.len() {
                    assert(inner[i] == t[i]);
                } else if i > t.len() {
                    assert(inner[i] == z[i - t.len() - 1]);
                }
            }
            assert forall|i: int| 0 <= i < n + 1 implies s[i] != ']' by {
                if i > 0 {
                    assert(s[i] == inner[i - 1]);
                }
            }
            crate::text::lemma_first_at_is(s, ']', n + 1);
            assert(s.subrange(1, n + 1) =~= inner);
            assert forall|i: int| 0 <= i < t.len() implies inner[i] != '%' by {
                assert(inner[i] == t[i]);
            }
            crate::text::lemma_first_at_is(inner, '%', t.len() as int);
            assert(inner.take(t.len() as int) =~= t);
            if addr.scope != 0 {
                assert(inner.skip(t.len() as int + 1) =~= z);
            }
            assert(s.skip(n + 3) =~= d);
        },
    }
}

// Either family.

/// The address that `s` writes.
pub open spec fn ip_of(s: Seq<char>) -> Option<Ip> {
    if v4_of(s) is Some {
        Some(Ip::V4(v4_of(s)->0))
    } else if v6_of(s) is Some {
        Some(Ip::V6(v6_of(s)->0))
    } else {
        None
    }
}

/// `ip` as text.
pub open spec fn ip_text(ip: Ip) -> Seq<char> {
    match ip {
        Ip::V4(a) => v4_text(a),
        Ip::V6(a) => v6_text(a),
    }
}

pub fn parse_ip(s: &[char]) -> (r: Option<Ip>)
    ensures
        r == ip_of(s@),
{
    match parse_v4(s) {
        Some(a) => Some(Ip::V4(a)),
        None => match parse_v6(s) {
            Some(a) => Some(Ip::V6(a)),
            None => None,
        },
    }
}

pub fn write_ip(ip: Ip) -> (v: Vec<char>)
    ensures
        v@ == ip_text(ip),
{
    match ip {
        Ip::V4(a) => write_v4(a),
        Ip::V6(a) => write_v6(a),
    }
}

/// `ip:port`, an IPv6 address in brackets.
pub open spec fn sock_text(ip: Ip, port: u16) -> Seq<char> {
    match ip {
        Ip::V4(a) => v4_text(a).push(':') + crate::text::decimal(port as nat),
        Ip::V6(a) => seq!['['] + v6_text(a) + seq![']', ':'] + crate::text::decimal(port as nat),
    }
}

/// A socket address as text, with the scope after a percent sign where there
/// is one.
pub open spec fn addr_text(a: SockAddr) -> Seq<char> {
    match a.ip {
        Ip::V6(v) => if a.scope != 0 {
            seq!['['] + v6_text(v) + seq!['%'] + crate::text::decimal(a.scope as nat) + seq![
                ']',
                ':',
            ] + crate::text::decimal(a.port as nat)
        } else {
            sock_text(a.ip, a.port)
        },
        Ip::V4(_) => sock_text(a.ip, a.port),
    }
}

/// The scope after the percent sign at `q`, 0 where there is none.
pub open spec fn scope_of(inner: Seq<char>, q: int) -> Option<nat> {
    if q >= inner.len() {
        Some(0)
    } else {
        crate::text::plain_number(inner.skip(q + 1), u32::MAX as nat)
    }
}

/// The socket address that `s` writes: `a.b.c.d:port` or `[v6]:port`, the
/// latter possibly with a numeric scope after a percent sign.
pub open spec fn sock_of(s: Seq<char>) -> Option<SockAddr> {
    if s.len() > 0 && s[0] == '[' {
        let k = crate::text::first_at(s, ']');
        if k + 1 < s.len() && s[k + 1] == ':' {
            let inner = s.subrange(1, k);
            let q = crate::text::first_at(inner, '%');
            match (
                v6_of(inner.take(q)),
                scope_of(inner, q),
                crate::text::plain_number(s.skip(k + 2), u16::MAX as nat),
            ) {
                (Some(a), Some(z), Some(p)) => Some(
                    SockAddr { ip: Ip::V6(a), port: p as u16, scope: z as u32 },
                ),
                _ => None,
            }
        } else {
            None
        }
    } else {
        let k = crate::text::first_at(s, ':');
        if k < s.len() {
            match (v4_of(s.take(k)), crate::text::plain_number(s.skip(k + 1), u16::MAX as nat)) {
                (Some(a), Some(p)) => Some(SockAddr { ip: Ip::V4(a), port: p as u16, scope: 0 }),
                _ => None,
            }
        } else {
            None
        }
    }
}

pub fn write_sock(ip: Ip, port: u16) -> (v: Vec<char>)
    ensures
        v@ == sock_text(ip, port),
{
    let digits = decimal_chars(port as u64);
    match ip {
        Ip::V4(a) => {
            let mut v = write_v4(a);
            v.push(':');
            let ghost before = v@;
            v.extend_from_slice(digits.as_slice());
            assert(v@ =~= before + digits@);
            v
        },
        Ip::V6(a) => {
            let mut v: Vec<char> = Vec::new();
            v.push('[');
            let inner = write_v6(a);
            let ghost b0 = v@;
            v.extend_from_slice(inner.as_slice());
            assert(v@ =~= b0 + inner@);
            v.push(']');
            v.push(':');
            let ghost before = v@;
            v.extend_from_slice(digits.as_slice());
            assert(v@ =~= before + digits@);
            assert(v@ =~= seq!['['] + v6_text(a) + seq![']', ':'] + crate::text::decimal(
                port as nat,
            ));
            v
        },
    }
}

pub fn write_addr(a: SockAddr) -> (v: Vec<char>)
    ensures
        v@ == addr_text(a),
{
    match a.ip {
        Ip::V6(n) => {
            if a.scope == 0 {
                return write_sock(a.ip, a.port);
            }
            let inner = write_v6(n);
            let scope = decimal_chars(a.scope as u64);
            let port = decimal_chars(a.port as u64);
            let mut v: Vec<char> = Vec::new();
            v.push('[');
            v.extend_from_slice(inner.as_slice());
            v.push('%');
            v.extend_from_slice(scope.as_slice());
            v.push(']');
            v.push(':');
            v.extend_from_slice(port.as_slice());
            assert(v@ =~= addr_text(a));
            v
        },
        Ip::V4(_) => write_sock(a.ip, a.port),
    }
}

pub fn parse_sock(s: &[char]) -> (r: Option<SockAddr>)
    ensures
        r == sock_of(s@),
{
    if s.len() > 0 && s[0] == '[' {
        let k: usize = find_char(s, ']');
        if k >= s.len() - 1 || s[k + 1] != ':' {
            return None;
        }
        proof {
            crate::text::lemma_first_at(s@, ']');
        }
        let inner = slice_subrange(s, 1, k);
        let q: usize = find_char(inner, '%');
        let host = slice_subrange(inner, 0, q);
        assert(host@ =~= inner@.take(q as int));
        let scope = if q < inner.len() {
            let digits = slice_subrange(inner, q + 1, inner.len());
            assert(digits@ =~= inner@.skip(q + 1));
            parse_plain(digits, u32::MAX as u64)
        } else {
            Some(0)
        };
        let tail = slice_subrange(s, k + 2, s.len());
        assert(tail@ =~= s@.skip(k + 2));
        match (parse_v6(host), scope, parse_plain(tail, u16::MAX as u64)) {
            (Some(a), Some(z), Some(p)) => Some(
                SockAddr { ip: Ip::V6(a), port: p as u16, scope: z as u32 },
            ),
            _ => None,
        }
    } else {
        let k: usize = find_char(s, ':');
        if k >= s.len() {
            return None;
        }
        let host = slice_subrange(s, 0, k);
        let tail = slice_subrange(s, k + 1, s.len());
        assert(host@ =~= s@.take(k as int));
        assert(tail@ =~= s@.skip(k + 1));
        match (parse_v4(host), parse_plain(tail, u16::MAX as u64)) {
            (Some(a), Some(p)) => Some(SockAddr { ip: Ip::V4(a), port: p as u16, scope: 0 }),
            _ => None,
        }
    }
}

} // verus!
