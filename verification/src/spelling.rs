//! How addresses are spelt.

use vstd::prelude::*;

use crate::ip::{sock_text, v4_text, Ip};
use crate::text::decimal;

verus! {

/// The four numbers of a dotted quad.
pub open spec fn quad(a: nat, b: nat, c: nat, d: nat) -> Seq<char> {
    decimal(a) + "."@ + decimal(b) + "."@ + decimal(c) + "."@ + decimal(d)
}

proof fn lemma_octets(n: u32, a: nat, b: nat, c: nat, d: nat)
    requires
        a < 256,
        b < 256,
        c < 256,
        d < 256,
        n == a * 16777216 + b * 65536 + c * 256 + d,
    ensures
        crate::ip::octets(n) == seq![a, b, c, d],
{
    let o = seq![a, b, c, d];
    assert(crate::ip::weigh(o, 256) == n) by {
        reveal_with_fuel(crate::ip::weigh, 5);
        assert(o.drop_last() =~= seq![a, b, c]);
        assert(o.drop_last().drop_last() =~= seq![a, b]);
        assert(o.drop_last().drop_last().drop_last() =~= seq![a]);
        assert(o.drop_last().drop_last().drop_last().drop_last() =~= Seq::<nat>::empty());
    }
    crate::ip::lemma_weigh(o, 256);
}

/// An IPv4 address is written as its four octets, the highest first, reads back
/// from there, and stands before the port of a socket address.
pub proof fn quads_are_written_in_order(n: u32, a: nat, b: nat, c: nat, d: nat, port: u16)
    requires
        a < 256,
        b < 256,
        c < 256,
        d < 256,
        n == a * 16777216 + b * 65536 + c * 256 + d,
    ensures
        v4_text(n) == quad(a, b, c, d),
        crate::ip::v4_of(quad(a, b, c, d)) == Some(n),
        crate::ip::ip_text(Ip::V4(n)) == quad(a, b, c, d),
        sock_text(Ip::V4(n), port) == quad(a, b, c, d) + ":"@ + decimal(port as nat),
{
    lemma_octets(n, a, b, c, d);
    let parts = Seq::new(4, |i: int| decimal(crate::ip::octets(n)[i]));
    assert(parts =~= seq![decimal(a), decimal(b), decimal(c), decimal(d)]);
    reveal_with_fuel(crate::text::joined, 5);
    reveal_strlit(".");
    reveal_strlit(":");
    assert("."@ =~= seq!['.']);
    assert(parts.drop_last().drop_last().drop_last() =~= seq![parts[0]]);
    assert(v4_text(n) =~= quad(a, b, c, d));
    crate::ip::v4_reads_back(n);
    assert(sock_text(Ip::V4(n), port) =~= quad(a, b, c, d) + ":"@ + decimal(port as nat));
}

/// The reversal of a.b.c.d is d.c.b.a.
pub proof fn reversing_turns_the_octets(n: u32, a: nat, b: nat, c: nat, d: nat)
    requires
        a < 256,
        b < 256,
        c < 256,
        d < 256,
        n == a * 16777216 + b * 65536 + c * 256 + d,
    ensures
        crate::ip::reversed(n) == d * 16777216 + c * 65536 + b * 256 + a,
{
    lemma_octets(n, a, b, c, d);
    let r = crate::ip::octets(n).reverse();
    assert(r =~= seq![d, c, b, a]);
    reveal_with_fuel(crate::ip::weigh, 5);
    assert(r.drop_last() =~= seq![d, c, b]);
    assert(r.drop_last().drop_last() =~= seq![d, c]);
    assert(r.drop_last().drop_last().drop_last() =~= seq![d]);
    assert(r.drop_last().drop_last().drop_last().drop_last() =~= Seq::<nat>::empty());
}

/// A relay written as a.b.c.d with a port is also probed at d.c.b.a and that
/// port. A relay without a port, or whose address is no IPv4 literal, is not.
pub proof fn literals_are_probed_reversed(
    e: crate::resolve::EntryView,
    a: nat,
    b: nat,
    c: nat,
    d: nat,
)
    requires
        a < 256,
        b < 256,
        c < 256,
        d < 256,
    ensures
        e.port matches Some(port) ==> (e.address == quad(a, b, c, d)
            ==> crate::reversed::shadow_of(e) == Some(
            quad(d, c, b, a) + ":"@ + decimal(port as nat),
        )),
        e.port is None ==> crate::reversed::shadow_of(e) is None,
        crate::ip::v4_of(e.address) is None ==> crate::reversed::shadow_of(e) is None,
{
    let n = (a * 16777216 + b * 65536 + c * 256 + d) as u32;
    quads_are_written_in_order(n, a, b, c, d, 0);
    reversing_turns_the_octets(n, a, b, c, d);
    if let Some(port) = e.port {
        quads_are_written_in_order(crate::ip::reversed(n), d, c, b, a, port);
    }
}

/// An IPv6 address of which no two groups side by side are zero is written as
/// all its groups in hexadecimal, the highest first, with colons between.
pub proof fn groups_are_written_in_order(n: u128, g: Seq<nat>, port: u16)
    requires
        g.len() == 8,
        forall|i: int| 0 <= i < 8 ==> #[trigger] g[i] < 65536,
        forall|i: int| 0 <= i < 7 ==> (#[trigger] g[i]) != 0 || g[i + 1] != 0,
        n == g[0] * 0x1_0000_0000_0000_0000_0000_0000_0000 + g[1]
            * 0x1_0000_0000_0000_0000_0000_0000 + g[2] * 0x1_0000_0000_0000_0000_0000 + g[3]
            * 0x1_0000_0000_0000_0000 + g[4] * 0x1_0000_0000_0000 + g[5] * 0x1_0000_0000 + g[6]
            * 0x1_0000 + g[7],
    ensures
        ({
            let h = |i: int| crate::ip::hex(g[i]);
            let text = h(0) + ":"@ + h(1) + ":"@ + h(2) + ":"@ + h(3) + ":"@ + h(4) + ":"@ + h(5)
                + ":"@ + h(6) + ":"@ + h(7);
            &&& crate::ip::v6_text(n) == text
            &&& sock_text(Ip::V6(n), port) == "["@ + text + "]:"@ + decimal(port as nat)
        }),
{
    assert(crate::ip::weigh(g, 65536) == n) by {
        lemma_eight(g);
    }
    crate::ip::lemma_weigh(g, 65536);
    assert(crate::ip::groups(n) == g);
    assert(g[0] != 0 || g[0int + 1] != 0);
    assert(!crate::ip::is_mapped(g));
    let k = crate::ip::longest_run(g, 8);
    lemma_longest_within(g, 8);
    lemma_short_run(g, k as int);
    lemma_eight_joined(g);
    reveal_strlit("[");
    reveal_strlit("]:");
    let text = crate::ip::v6_text(n);
    assert(sock_text(Ip::V6(n), port) =~= "["@ + text + "]:"@ + decimal(port as nat));
}

proof fn lemma_eight(g: Seq<nat>)
    requires
        g.len() == 8,
    ensures
        crate::ip::weigh(g, 65536) == g[0] * 0x1_0000_0000_0000_0000_0000_0000_0000 + g[1]
            * 0x1_0000_0000_0000_0000_0000_0000 + g[2] * 0x1_0000_0000_0000_0000_0000 + g[3]
            * 0x1_0000_0000_0000_0000 + g[4] * 0x1_0000_0000_0000 + g[5] * 0x1_0000_0000 + g[6]
            * 0x1_0000 + g[7],
{
    reveal_with_fuel(crate::ip::weigh, 9);
}

proof fn lemma_longest_within(g: Seq<nat>, n: nat)
    ensures
        crate::ip::longest_run(g, n) <= n,
    decreases n,
{
    if n > 0 {
        lemma_longest_within(g, (n - 1) as nat);
    }
}

proof fn lemma_short_run(g: Seq<nat>, k: int)
    requires
        0 <= k <= g.len(),
        forall|i: int| 0 <= i < g.len() - 1 ==> (#[trigger] g[i]) != 0 || g[i + 1] != 0,
    ensures
        crate::ip::zero_run(g.skip(k)) <= 1,
{
    let s = g.skip(k);
    reveal_with_fuel(crate::ip::zero_run, 3);
    if s.len() >= 2 {
        assert(g[k] != 0 || g[k + 1] != 0);
        assert(s[0] == g[k] && s.drop_first()[0] == g[k + 1]);
    }
}

proof fn lemma_eight_joined(g: Seq<nat>)
    requires
        g.len() == 8,
    ensures
        ({
            let h = |i: int| crate::ip::hex(g[i]);
            crate::ip::hexes(g) == h(0) + ":"@ + h(1) + ":"@ + h(2) + ":"@ + h(3) + ":"@ + h(4)
                + ":"@ + h(5) + ":"@ + h(6) + ":"@ + h(7)
        }),
{
    let parts = Seq::new(g.len(), |i: int| crate::ip::hex(g[i]));
    reveal_strlit(":");
    assert(":"@ =~= seq![':']);
    reveal_with_fuel(crate::text::joined, 9);
    let p7 = parts.drop_last();
    let p6 = p7.drop_last();
    let p5 = p6.drop_last();
    let p4 = p5.drop_last();
    let p3 = p4.drop_last();
    let p2 = p3.drop_last();
    assert(p2.drop_last() =~= seq![parts[0]]);
}

/// A hexadecimal number is its digits, and each digit is one of 0 to 9 and a
/// to f.
pub proof fn hexadecimal_is_written_by_digits(n: nat, d: nat)
    requires
        d < 16,
    ensures
        n > 0 ==> crate::ip::hex(n * 16 + d) == crate::ip::hex(n) + crate::ip::hex(d),
        d < 10 ==> crate::ip::hex(d) == decimal(d),
        d == 10 ==> crate::ip::hex(d) == "a"@,
        d == 11 ==> crate::ip::hex(d) == "b"@,
        d == 12 ==> crate::ip::hex(d) == "c"@,
        d == 13 ==> crate::ip::hex(d) == "d"@,
        d == 14 ==> crate::ip::hex(d) == "e"@,
        d == 15 ==> crate::ip::hex(d) == "f"@,
{
    reveal_strlit("a");
    reveal_strlit("b");
    reveal_strlit("c");
    reveal_strlit("d");
    reveal_strlit("e");
    reveal_strlit("f");
    if n > 0 {
        assert((n * 16 + d) / 16 == n && (n * 16 + d) % 16 == d);
        assert(crate::ip::hex(n * 16 + d) =~= crate::ip::hex(n) + crate::ip::hex(d));
    }
    if d < 10 {
        assert(crate::ip::hex(d) =~= decimal(d));
    }
}

/// A decimal number is its digits, and each digit is one of 0 to 9.
pub proof fn decimals_are_written_by_digits(n: nat, d: nat)
    requires
        d < 10,
    ensures
        n > 0 ==> decimal(n * 10 + d) == decimal(n) + decimal(d),
        decimal(d).len() == 1,
        decimal(d)[0] as int == 48 + d,
{
    if n > 0 {
        assert((n * 10 + d) / 10 == n && (n * 10 + d) % 10 == d);
        assert(decimal(n * 10 + d) =~= decimal(n) + decimal(d));
    }
}

proof fn lemma_short_number(s: Seq<char>)
    requires
        1 <= s.len() <= 3,
        crate::text::all_digits(s),
        s.len() > 1 ==> s[0] != '0',
    ensures
        decimal(crate::text::digits_value(s)) == s,
{
    reveal_with_fuel(crate::text::digits_value, 4);
    reveal_with_fuel(decimal, 4);
    assert(crate::text::is_digit(s[0]));
    assert(s.drop_last().len() == s.len() - 1);
    if s.len() == 1 {
        assert(s.drop_last() =~= Seq::<char>::empty());
        assert(decimal(crate::text::digits_value(s)) =~= s);
    } else if s.len() == 2 {
        assert(crate::text::is_digit(s[1]));
        assert(s.drop_last().drop_last() =~= Seq::<char>::empty());
        let (a, b) = ((s[0] as int - 48) as nat, (s[1] as int - 48) as nat);
        assert(crate::text::digits_value(s) == a * 10 + b);
        decimals_are_written_by_digits(a, b);
        decimals_are_written_by_digits(0, a);
        decimals_are_written_by_digits(0, b);
        assert(decimal(a) + decimal(b) =~= s);
    } else {
        assert(crate::text::is_digit(s[1]));
        assert(crate::text::is_digit(s[2]));
        assert(s.drop_last().drop_last().drop_last() =~= Seq::<char>::empty());
        let (a, b, c) = (
            (s[0] as int - 48) as nat,
            (s[1] as int - 48) as nat,
            (s[2] as int - 48) as nat,
        );
        assert(crate::text::digits_value(s) == (a * 10 + b) * 10 + c);
        decimals_are_written_by_digits(a, b);
        decimals_are_written_by_digits(a * 10 + b, c);
        decimals_are_written_by_digits(0, a);
        decimals_are_written_by_digits(0, b);
        decimals_are_written_by_digits(0, c);
        assert(decimal(a) + decimal(b) + decimal(c) =~= s);
    }
}

pub proof fn lemma_pieces_join(s: Seq<char>, c: char)
    ensures
        crate::text::joined(crate::text::pieces(s, c), seq![c]) == s,
        crate::text::pieces(s, c).len() > 0,
    decreases s.len(),
{
    let k = crate::text::first_at(s, c);
    crate::text::lemma_first_at(s, c);
    let all = crate::text::pieces(s, c);
    if 0 <= k < s.len() {
        let rest = crate::text::pieces(s.skip(k + 1), c);
        lemma_pieces_join(s.skip(k + 1), c);
        lemma_joined_first(s.take(k), rest, seq![c]);
        assert(s =~= s.take(k) + seq![c] + s.skip(k + 1));
    }
}

proof fn lemma_joined_first(x: Seq<char>, rest: Seq<Seq<char>>, sep: Seq<char>)
    requires
        rest.len() > 0,
    ensures
        crate::text::joined(seq![x] + rest, sep) == x + sep + crate::text::joined(rest, sep),
    decreases rest.len(),
{
    let all = seq![x] + rest;
    reveal_with_fuel(crate::text::joined, 2);
    assert(all.last() == rest.last());
    if rest.len() == 1 {
        assert(all.drop_last() =~= seq![x]);
        assert(crate::text::joined(all, sep) =~= x + sep + crate::text::joined(rest, sep));
    } else {
        lemma_joined_first(x, rest.drop_last(), sep);
        assert(all.drop_last() =~= seq![x] + rest.drop_last());
        assert(crate::text::joined(all, sep) =~= x + sep + crate::text::joined(rest, sep));
    }
}

/// An IPv4 address has one spelling: whatever reads as it is how it is written.
pub proof fn quads_have_one_spelling(s: Seq<char>)
    ensures
        crate::ip::v4_of(s) matches Some(n) ==> v4_text(n) == s,
{
    let p = crate::text::pieces(s, '.');
    if let Some(n) = crate::ip::v4_of(s) {
        let o = Seq::new(4, |i: int| crate::ip::octet_of(p[i])->0);
        assert forall|i: int| 0 <= i < 4 implies #[trigger] o[i] < 256 && decimal(o[i])
            == p[i] by {
            assert(crate::ip::octet_of(p[i]) is Some);
            lemma_short_number(p[i]);
        }
        assert(crate::ip::weigh(o, 256) <= u32::MAX) by {
            reveal_with_fuel(crate::ip::weigh, 5);
        }
        crate::ip::lemma_weigh(o, 256);
        assert(crate::ip::octets(n) == o);
        assert(Seq::new(4, |i: int| decimal(crate::ip::octets(n)[i])) =~= p);
        lemma_pieces_join(s, '.');
    }
}

} // verus!
