//! What is listed: the operators to reach out to, the chains, the networks and
//! what is read for them.

use vstd::prelude::*;

use crate::asn::{line_range, AsInfoView, RangeView};
use crate::census::{follows_chains, places_entries, Census};
use crate::chains::{entries_on, group_roots, listing, tip_roots, tips_of};
use crate::count::{count, lemma_select, lemma_select_same, select, sum_below, sum_of};
use crate::operators::{hosts, outreach_places, thin_places, OutreachRowView};
use crate::probe::TipView;
use crate::resolve::{entries_of, EntryView};
use crate::snapshot::RelayView;
use crate::spelling::quad;
use crate::standing::Inputs;
use crate::text::decimal;

verus! {

// Operators.

/// The outreach list has only operators that are not fully reachable, and all
/// of them where the limit leaves room; the thin list has only operators with
/// at least as many pools as hosts, and all of them where there is room.
pub proof fn lists_hold_whom_they_are_for(
    rows: Seq<OutreachRowView>,
    keys: Seq<u64>,
    limit: usize,
    i: int,
)
    ensures
        ({
            let n = rows.len() as int;
            let out = outreach_places(rows, keys, limit);
            let thin = thin_places(rows, keys, limit);
            let lacking = |k: int| !(rows[k].reach is Full);
            let crowded = |k: int| rows[k].pools >= rows[k].endpoints && rows[k].pools >= 1;
            &&& 0 <= i < out.len() ==> 0 <= out[i] < n && !(rows[out[i]].reach is Full)
            &&& out.len() == if count(n, lacking) <= limit {
                count(n, lacking)
            } else {
                limit as nat
            }
            &&& 0 <= i < thin.len() ==> 0 <= thin[i] < n && rows[thin[i]].pools
                >= rows[thin[i]].endpoints && rows[thin[i]].pools >= 1
            &&& thin.len() == if count(n, crowded) <= limit {
                count(n, crowded)
            } else {
                limit as nat
            }
        }),
{
    let n = rows.len() as int;
    let lacking = |k: int| !(rows[k].reach is Full);
    let crowded = |k: int| rows[k].pools >= rows[k].endpoints && rows[k].pools >= 1;
    crate::operators::outreach_lists_the_most_stake(rows, keys, limit);
    crate::operators::thin_lists_the_densest(rows, keys, limit);
    lemma_select_same(n, lacking, crate::operators::lacking(rows));
    lemma_select_same(n, crowded, crate::operators::crowded(rows));
    let a = select(n, crate::operators::lacking(rows));
    let b = select(n, crate::operators::crowded(rows));
    crate::sort::lemma_sorted_by_multiset(a, crate::operators::larger_key(keys));
    crate::sort::lemma_sorted_by_multiset(b, crate::operators::denser(rows, keys));
    let out = outreach_places(rows, keys, limit);
    let thin = thin_places(rows, keys, limit);
    if 0 <= i < out.len() {
        assert(crate::operators::lacking(rows)(out[i]));
    }
    if 0 <= i < thin.len() {
        assert(crate::operators::crowded(rows)(thin[i]));
    }
}

/// Of the hosts behind some endpoints those of the larger address family count,
/// and every name that never resolved.
pub proof fn hosts_are_counted_by_the_larger_family(keys: Seq<Seq<char>>)
    ensures
        ({
            let n = keys.len() as int;
            let four = count(
                n,
                |i: int| crate::ip::sock_of(keys[i]) matches Some(s) && s.ip is V4,
            );
            let six = count(
                n,
                |i: int| crate::ip::sock_of(keys[i]) matches Some(s) && s.ip is V6,
            );
            let names = count(n, |i: int| crate::ip::sock_of(keys[i]) is None);
            &&& four >= six ==> hosts(keys) == four + names
            &&& six >= four ==> hosts(keys) == six + names
        }),
{
    let n = keys.len() as int;
    lemma_select_same(
        n,
        |i: int| crate::ip::sock_of(keys[i]) matches Some(s) && s.ip is V4,
        crate::operators::v4_keys(keys),
    );
    lemma_select_same(
        n,
        |i: int| crate::ip::sock_of(keys[i]) matches Some(s) && s.ip is V6,
        crate::operators::v6_keys(keys),
    );
    lemma_select_same(
        n,
        |i: int| crate::ip::sock_of(keys[i]) is None,
        crate::operators::name_keys(keys),
    );
}

// Chains.

proof fn lemma_highest(tips: Seq<Option<TipView>>, at: Seq<int>, j: int)
    requires
        0 <= j < at.len(),
    ensures
        tips[at[j]]->0.block <= crate::chains::highest(tips, at),
    decreases at.len(),
{
    if j < at.len() - 1 {
        lemma_highest(tips, at.drop_last(), j);
    }
}

proof fn lemma_top(blocks: Seq<u64>, hs: Seq<int>, j: int)
    requires
        0 <= j < hs.len(),
    ensures
        blocks[hs[j]] <= blocks[crate::chains::top_hash(blocks, hs)],
        blocks[hs[j]] >= crate::chains::lowest(blocks, hs),
    decreases hs.len(),
{
    if hs.len() > 1 {
        if j < hs.len() - 1 {
            lemma_top(blocks, hs.drop_last(), j);
            assert(hs.drop_last()[j] == hs[j]);
        } else {
            assert(hs[j] == hs.last());
        }
    }
}

/// A chain counts the relays on it, one share of stake for each, and none of
/// their tips is above its highest block. The first chain is the main one.
pub proof fn chains_count_their_relays(
    c: Census,
    inputs: Inputs<'_>,
    tolerance: u64,
    keys: Seq<u64>,
    i: int,
)
    requires
        follows_chains(c, inputs, tolerance, keys),
        0 <= i < c.chains.len(),
    ensures
        ({
            let tips = tips_of(inputs.best());
            let groups = group_roots(tip_roots(tips, tolerance)).len();
            let at = entries_on(tips, tolerance, listing(keys, groups)[i]);
            &&& c.chains.len() == groups
            &&& 0 <= listing(keys, groups)[i] < groups
            &&& at.no_duplicates()
            &&& c.chains[i].relays == at.len()
            &&& c.chains[i].stake.len() == at.len()
            &&& forall|j: int|
                0 <= j < at.len() ==> c.chains[i].stake[j] == inputs.live_shares()[#[trigger] at[j]]
            &&& forall|j: int|
                0 <= j < at.len() ==> (inputs.best()[#[trigger] at[j]] matches Some(Ok(r))
                    && r.tip.block <= c.chains[i].block_max)
            &&& c.chains[i].block_min <= c.chains[i].block_max
        }),
{
    let tips = tips_of(inputs.best());
    let roots = tip_roots(tips, tolerance);
    let order = group_roots(roots);
    let n = order.len();
    let groups = crate::chains::groups_of(tips, inputs.live_shares(), tolerance);
    let all = crate::chains::listed_groups(groups, keys);
    let ident = Seq::new(n, |i: int| i);
    let ahead = crate::chains::main_first(keys, crate::chains::main_place(keys, n as int));
    crate::sort::lemma_sorted_by_multiset(ident, ahead);
    assert(c.chains.deep_view().len() == c.chains.len());
    assert(c.chains.deep_view()[i] == c.chains[i].deep_view());
    let k = crate::sort::lemma_sorted_by_from(ident, ahead, i);
    let g = listing(keys, n)[i];
    assert(g == k);
    crate::chains::no_entry_counts_twice(tips, tolerance, g);
    let at = entries_on(tips, tolerance, g);
    let hs = crate::chains::group_hashes(roots, order[g]);
    let blocks = crate::chains::blocks_of(tips);
    assert(all[i].relays == at.len());
    assert(all[i].stake == crate::stake::terms(inputs.live_shares(), at));
    crate::chains::roots_are_their_own(blocks, tolerance);
    lemma_select(roots.len() as int, crate::chains::is_root(roots));
    assert(crate::chains::is_root(roots)(order[g]));
    lemma_select(roots.len() as int, crate::chains::has_root(roots, order[g]));
    assert(crate::chains::has_root(roots, order[g])(order[g]));
    assert(hs.contains(order[g]));
    lemma_top(blocks, hs, hs.index_of(order[g]));
    assert forall|j: int| 0 <= j < at.len() implies (inputs.best()[#[trigger] at[j]] matches Some(
        Ok(r),
    ) && r.tip.block <= c.chains[i].block_max) by {
        let e = at[j];
        assert(at.contains(e));
        crate::chains::only_tips_are_on_chains(tips, tolerance, g, e);
        crate::chains::lemma_group_entries(tips, hs, e);
        let h = choose|h: int|
            0 <= h < hs.len() && #[trigger] crate::chains::reporters(
                tips,
                crate::chains::hashes_of(tips)[hs[h]],
            ).contains(e);
        let who = crate::chains::reporters(tips, crate::chains::hashes_of(tips)[hs[h]]);
        lemma_highest(tips, who, who.index_of(e));
        lemma_top(blocks, hs, h);
    }
}

/// How many of the first `n` entries are on each group.
spec fn on_groups(tips: Seq<Option<TipView>>, tolerance: u64, n: int) -> spec_fn(int) -> nat {
    |g: int| count(n, |e: int| entries_on(tips, tolerance, g).contains(e))
}

proof fn lemma_on_groups(tips: Seq<Option<TipView>>, tolerance: u64, n: int)
    requires
        0 <= n <= tips.len(),
    ensures
        sum_below(
            group_roots(tip_roots(tips, tolerance)).len() as int,
            on_groups(tips, tolerance, n),
        ) == count(n, |e: int| tips[e] is Some),
    decreases n,
{
    let m = group_roots(tip_roots(tips, tolerance)).len() as int;
    if n == 0 {
        lemma_all_zero(m, on_groups(tips, tolerance, 0));
    } else {
        lemma_on_groups(tips, tolerance, n - 1);
        let q = if tips[n - 1] is Some {
            crate::chains::every_tip_is_on_one_chain(tips, tolerance, n - 1)
        } else {
            -1
        };
        assert forall|g: int| 0 <= g < m implies #[trigger] on_groups(tips, tolerance, n)(g)
            == on_groups(tips, tolerance, n - 1)(g) + if g == q {
            1nat
        } else {
            0
        } by {
            if entries_on(tips, tolerance, g).contains(n - 1) {
                crate::chains::only_tips_are_on_chains(tips, tolerance, g, n - 1);
            }
        }
        crate::count::lemma_sum_step(
            m,
            on_groups(tips, tolerance, n),
            on_groups(tips, tolerance, n - 1),
            q,
        );
    }
}

proof fn lemma_all_zero(n: int, f: spec_fn(int) -> nat)
    requires
        forall|i: int| 0 <= i < n ==> #[trigger] f(i) == 0,
    ensures
        sum_below(n, f) == 0,
    decreases n,
{
    if n > 0 {
        lemma_all_zero(n - 1, f);
    }
}

proof fn lemma_inserted_sum(
    s: Seq<int>,
    x: int,
    ahead: spec_fn(int, int) -> bool,
    f: spec_fn(int) -> nat,
)
    ensures
        sum_of(crate::sort::inserted_by(s, x, ahead), f) == sum_of(s, f) + f(x),
    decreases s.len(),
{
    if s.len() > 0 && ahead(x, s.last()) {
        lemma_inserted_sum(s.drop_last(), x, ahead, f);
        crate::count::lemma_sum_push(
            crate::sort::inserted_by(s.drop_last(), x, ahead),
            s.last(),
            f,
        );
    } else {
        crate::count::lemma_sum_push(s, x, f);
    }
}

proof fn lemma_sorted_sum(
    s: Seq<int>,
    ahead: spec_fn(int, int) -> bool,
    f: spec_fn(int) -> nat,
)
    ensures
        sum_of(crate::sort::sorted_by(s, ahead), f) == sum_of(s, f),
    decreases s.len(),
{
    if s.len() > 0 {
        lemma_sorted_sum(s.drop_last(), ahead, f);
        lemma_inserted_sum(crate::sort::sorted_by(s.drop_last(), ahead), s.last(), ahead, f);
    }
}

proof fn lemma_ident_sum(n: nat, f: spec_fn(int) -> nat)
    ensures
        sum_of(Seq::new(n, |i: int| i), f) == sum_below(n as int, f),
    decreases n,
{
    if n > 0 {
        lemma_ident_sum((n - 1) as nat, f);
        assert(Seq::new(n, |i: int| i).drop_last() =~= Seq::new((n - 1) as nat, |i: int| i));
    }
}

proof fn lemma_taken_sum(s: Seq<int>, k: int, f: spec_fn(int) -> nat, h: spec_fn(int) -> nat)
    requires
        0 <= k <= s.len(),
        forall|i: int| 0 <= i < s.len() ==> #[trigger] h(i) == f(s[i]),
    ensures
        sum_of(s.take(k), f) == sum_below(k, h),
    decreases k,
{
    if k > 0 {
        lemma_taken_sum(s, k - 1, f, h);
        assert(s.take(k).drop_last() =~= s.take(k - 1));
        assert(h(k - 1) == f(s[k - 1]));
    }
}

proof fn lemma_group_len(tips: Seq<Option<TipView>>, tolerance: u64, g: int)
    requires
        0 <= g < group_roots(tip_roots(tips, tolerance)).len(),
    ensures
        entries_on(tips, tolerance, g).len() == on_groups(tips, tolerance, tips.len() as int)(g),
{
    let at = entries_on(tips, tolerance, g);
    let p = |e: int| entries_on(tips, tolerance, g).contains(e);
    let s = select(tips.len() as int, p);
    crate::chains::no_entry_counts_twice(tips, tolerance, g);
    lemma_select(tips.len() as int, p);
    assert(s.no_duplicates());
    assert forall|e: int| at.contains(e) <==> s.contains(e) by {
        if at.contains(e) {
            crate::chains::only_tips_are_on_chains(tips, tolerance, g, e);
            assert(p(e));
        }
        if s.contains(e) {
            assert(p(e));
        }
    }
    assert(at.to_set() =~= s.to_set()) by {
        assert forall|e: int| at.to_set().contains(e) <==> s.to_set().contains(e) by {
            assert(at.contains(e) <==> s.contains(e));
        }
    }
    at.unique_seq_to_set();
    s.unique_seq_to_set();
}

/// The chains together count every relay that returned a tip, once.
pub proof fn chains_share_out_the_tips(
    c: Census,
    inputs: Inputs<'_>,
    tolerance: u64,
    keys: Seq<u64>,
)
    requires
        follows_chains(c, inputs, tolerance, keys),
    ensures
        sum_below(c.chains.len() as int, |i: int| c.chains[i].relays as nat) == count(
            inputs.entries.len() as int,
            |e: int| inputs.best()[e] matches Some(Ok(_)),
        ),
{
    let tips = tips_of(inputs.best());
    let n = tips.len() as int;
    let roots = tip_roots(tips, tolerance);
    let m = group_roots(roots).len();
    let f = on_groups(tips, tolerance, n);
    let order = listing(keys, m);
    let ident = Seq::new(m, |i: int| i);
    let ahead = crate::chains::main_first(keys, crate::chains::main_place(keys, m as int));
    lemma_on_groups(tips, tolerance, n);
    lemma_ident_sum(m, f);
    lemma_sorted_sum(ident, ahead, f);
    crate::sort::lemma_sorted_by_multiset(ident, ahead);
    let h = |i: int| c.chains[i].relays as nat;
    assert(c.chains.deep_view().len() == c.chains.len());
    assert(c.chains.len() == m);
    assert forall|i: int| 0 <= i < order.len() implies #[trigger] h(i) == f(order[i]) by {
        chains_count_their_relays(c, inputs, tolerance, keys, i);
        lemma_group_len(tips, tolerance, order[i]);
    }
    lemma_taken_sum(order, m as int, f, h);
    assert(order.take(m as int) =~= order);
    lemma_select_same(
        n,
        |e: int| tips[e] is Some,
        |e: int| inputs.best()[e] matches Some(Ok(_)),
    );
}

/// What the selected places add up to is what all places do, the others
/// counting nothing.
proof fn lemma_selected_sum(n: int, p: spec_fn(int) -> bool, f: spec_fn(int) -> nat)
    ensures
        sum_of(select(n, p), f) == sum_below(
            n,
            |i: int|
                if p(i) {
                    f(i)
                } else {
                    0
                },
        ),
    decreases n,
{
    if n > 0 {
        lemma_selected_sum(n - 1, p, f);
        if p(n - 1) {
            crate::count::lemma_sum_push(select(n - 1, p), n - 1, f);
        }
    }
}

proof fn lemma_same_sum(n: int, f: spec_fn(int) -> nat, g: spec_fn(int) -> nat)
    requires
        forall|i: int| 0 <= i < n ==> #[trigger] f(i) == g(i),
    ensures
        sum_below(n, f) == sum_below(n, g),
    decreases n,
{
    if n > 0 {
        lemma_same_sum(n - 1, f, g);
    }
}

/// The relays on the main chain are those of the groups that are main, and the
/// relays on others those of all others.
pub proof fn main_and_other_share_the_relays(groups: Seq<crate::chains::ChainGroup>)
    ensures
        crate::metrics::chain_relays(groups, true) == sum_below(
            groups.len() as int,
            |i: int|
                if groups[i].main {
                    groups[i].relays as nat
                } else {
                    0
                },
        ),
        crate::metrics::chain_relays(groups, false) == sum_below(
            groups.len() as int,
            |i: int|
                if groups[i].main {
                    0
                } else {
                    groups[i].relays as nat
                },
        ),
{
    let n = groups.len() as int;
    let f = crate::metrics::relays_on(groups);
    let p = crate::amounts::on_main(groups, true);
    let q = crate::amounts::on_main(groups, false);
    lemma_selected_sum(n, p, f);
    lemma_selected_sum(n, q, f);
    lemma_same_sum(
        n,
        |i: int|
            if p(i) {
                f(i)
            } else {
                0
            },
        |i: int|
            if groups[i].main {
                groups[i].relays as nat
            } else {
                0
            },
    );
    lemma_same_sum(
        n,
        |i: int|
            if q(i) {
                f(i)
            } else {
                0
            },
        |i: int|
            if groups[i].main {
                0
            } else {
                groups[i].relays as nat
            },
    );
}

/// The stake on the main chain is that of the groups that are main, and the
/// stake on others that of all others.
pub proof fn main_and_other_share_the_stake(
    a: crate::amounts::Amounts<crate::amounts::Amount>,
    c: Census,
    j: int,
)
    requires
        crate::amounts::shows(a, c),
    ensures
        ({
            let n = c.chains.len() as int;
            let main = select(n, |i: int| c.chains[i].main);
            let other = select(n, |i: int| !c.chains[i].main);
            &&& a.main_stake.deep_view() matches crate::amounts::AmountView::Stake(s) && s.len()
                == main.len() && (0 <= j < main.len() ==> s[j] == c.chains[main[j]].stake@)
            &&& a.other_stake.deep_view() matches crate::amounts::AmountView::Stake(s) && s.len()
                == other.len() && (0 <= j < other.len() ==> s[j] == c.chains[other[j]].stake@)
        }),
{
    let n = c.chains.len() as int;
    lemma_select_same(
        n,
        |i: int| c.chains[i].main,
        crate::amounts::on_main(c.chains@, true),
    );
    lemma_select_same(
        n,
        |i: int| !c.chains[i].main,
        crate::amounts::on_main(c.chains@, false),
    );
}

// Networks.

/// The stake of a network is one share for each of its relays, and its
/// reachable stake one for each that answered.
pub proof fn networks_hold_a_share_for_each_relay(
    c: Census,
    inputs: Inputs<'_>,
    min: usize,
    i: int,
    j: int,
)
    requires
        places_entries(c, inputs, min),
        0 <= i < c.asn_table.len(),
    ensures
        inputs.db matches Some(db) && {
            let g = c.asn_table[i];
            let at = select(
                inputs.entries.len() as int,
                |e: int| crate::hosting::network_of(inputs, *db, e) == g.asn@,
            );
            &&& g.stake.len() == g.relays
            &&& g.stake_reachable.len() == g.relays_reachable
            &&& at.len() == g.relays
            &&& 0 <= j < at.len() ==> g.stake[j] == inputs.shares()[at[j]]
        },
{
    let db = inputs.db->0;
    let ips = crate::networks::entry_ips(inputs.endpoints, inputs.best(), inputs.entries.len());
    let h = crate::networks::hosted(*db, ips, inputs.best(), inputs.shares());
    let g = c.asn_table[i];
    let n = inputs.entries.len() as int;
    assert(c.asn_table.deep_view()[i] == g.deep_view());
    let q = crate::sort::lemma_sorted_by_from(h.groups(), crate::networks::more_relays(), i);
    let k = crate::table::distinct_names(h.keys)[q];
    assert(h.group(k) == g.deep_view());
    lemma_select_same(
        n,
        |e: int| crate::hosting::network_of(inputs, *db, e) == g.asn@,
        crate::operators::has_key(h.keys, k),
    );
}

/// A line of the network database reads back: the first and last address of a
/// range, the number of its network, a country and a description, with tabs
/// between them. A range of network 0 says nothing.
pub proof fn network_lines_read_back(
    a: Seq<nat>,
    b: Seq<nat>,
    asn: u32,
    country: Seq<char>,
    description: Seq<char>,
)
    requires
        a.len() == 4,
        b.len() == 4,
        forall|i: int| 0 <= i < 4 ==> #[trigger] a[i] < 256,
        forall|i: int| 0 <= i < 4 ==> #[trigger] b[i] < 256,
        !country.contains('\t'),
        !description.contains('\t'),
    ensures
        ({
            let tab = seq!['\t'];
            let line = quad(a[0], a[1], a[2], a[3]) + tab + quad(b[0], b[1], b[2], b[3]) + tab
                + decimal(asn as nat) + tab + country + tab + description;
            &&& asn == 0 ==> line_range(line) is None
            &&& asn > 0 ==> line_range(line) == Some(
                (
                    true,
                    RangeView {
                        start: (a[0] * 16777216 + a[1] * 65536 + a[2] * 256 + a[3]) as int,
                        end: (b[0] * 16777216 + b[1] * 65536 + b[2] * 256 + b[3]) as int,
                        info: AsInfoView {
                            asn,
                            name: crate::asn::handle(description, asn as nat),
                        },
                    },
                ),
            )
        }),
{
    let tab = seq!['\t'];
    let s = quad(a[0], a[1], a[2], a[3]);
    let e = quad(b[0], b[1], b[2], b[3]);
    let d = decimal(asn as nat);
    let line = s + tab + e + tab + d + tab + country + tab + description;
    let n = (a[0] * 16777216 + a[1] * 65536 + a[2] * 256 + a[3]) as u32;
    let m = (b[0] * 16777216 + b[1] * 65536 + b[2] * 256 + b[3]) as u32;
    assert(a[0] < 256 && a[1] < 256 && a[2] < 256 && a[3] < 256);
    assert(b[0] < 256 && b[1] < 256 && b[2] < 256 && b[3] < 256);
    crate::spelling::quads_are_written_in_order(n, a[0], a[1], a[2], a[3], 0);
    crate::spelling::quads_are_written_in_order(m, b[0], b[1], b[2], b[3], 0);
    crate::text::decimal_reads_back(asn as nat, u32::MAX as nat);
    crate::text::lemma_decimal(asn as nat);
    lemma_no_tab(a[0], a[1], a[2], a[3]);
    lemma_no_tab(b[0], b[1], b[2], b[3]);
    assert(!d.contains('\t')) by {
        if d.contains('\t') {
            let i = d.index_of('\t');
            assert(crate::text::is_digit(d[i]));
        }
    }
    crate::text::lemma_pieces_whole(s, '\t');
    crate::text::lemma_pieces_whole(e, '\t');
    crate::text::lemma_pieces_whole(d, '\t');
    crate::text::lemma_pieces_whole(country, '\t');
    crate::text::lemma_pieces_whole(description, '\t');
    crate::text::lemma_pieces_concat(s + tab + e + tab + d + tab + country, description, '\t');
    crate::text::lemma_pieces_concat(s + tab + e + tab + d, country, '\t');
    crate::text::lemma_pieces_concat(s + tab + e, d, '\t');
    crate::text::lemma_pieces_concat(s, e, '\t');
    let cols = crate::text::pieces(line, '\t');
    assert(cols =~= seq![s, e, d, country, description]);
}

proof fn lemma_no_tab(a: nat, b: nat, c: nat, d: nat)
    ensures
        !quad(a, b, c, d).contains('\t'),
{
    crate::finding::lemma_quad_chars(a, b, c, d);
    let s = quad(a, b, c, d);
    if s.contains('\t') {
        let i = s.index_of('\t');
        assert(crate::text::is_digit(s[i]) || s[i] == '.');
    }
}

/// A network is called by the first word of its description, or by its number
/// behind AS where there is none.
pub proof fn networks_are_called_by_a_word(word: Seq<char>, gap: char, rest: Seq<char>, asn: nat)
    requires
        word.len() > 0,
        forall|i: int| 0 <= i < word.len() ==> !crate::text::is_white(#[trigger] word[i]),
        crate::text::is_white(gap),
    ensures
        crate::asn::handle(word + seq![gap] + rest, asn) == word,
        crate::asn::handle(word, asn) == word,
        crate::asn::handle(Seq::empty(), asn) == "AS"@ + decimal(asn),
{
    let s = word + seq![gap] + rest;
    assert(s[0] == word[0]);
    assert(crate::text::trimmed_start(s, crate::text::Class::White) == s);
    assert(crate::text::trimmed_start(word, crate::text::Class::White) == word);
    lemma_head(word, seq![gap] + rest);
    assert(word + (seq![gap] + rest) =~= s);
    lemma_head(word, Seq::empty());
    assert(word + Seq::<char>::empty() =~= word);
    reveal_strlit("AS");
    assert("AS"@ =~= seq!['A', 'S']);
}

proof fn lemma_head(word: Seq<char>, rest: Seq<char>)
    requires
        forall|i: int| 0 <= i < word.len() ==> !crate::text::is_white(#[trigger] word[i]),
        rest.len() == 0 || crate::text::is_white(rest[0]),
    ensures
        crate::text::head_word(word + rest) == word,
    decreases word.len(),
{
    let s = word + rest;
    if word.len() > 0 {
        let t = word.drop_first();
        assert forall|i: int| 0 <= i < t.len() implies !crate::text::is_white(#[trigger] t[i]) by {
            assert(t[i] == word[i + 1]);
        }
        lemma_head(t, rest);
        assert(s.drop_first() =~= t + rest);
        assert(!crate::text::is_white(word[0]));
        assert(crate::text::head_word(s) =~= word);
    } else {
        assert(s =~= rest);
        assert(crate::text::head_word(s) =~= word);
    }
}

// What is asked for.

/// The relays of every further pool come behind those of the pools before it,
/// each with its address and port and under the number of its pool.
pub proof fn relays_come_pool_by_pool(
    lists: Seq<Seq<RelayView>>,
    relays: Seq<RelayView>,
    i: int,
)
    requires
        lists.len() < usize::MAX,
    ensures
        ({
            let all = entries_of(lists.push(relays));
            let front = entries_of(lists);
            &&& all.len() == front.len() + relays.len()
            &&& 0 <= i < front.len() ==> all[i] == front[i]
            &&& 0 <= i < relays.len() ==> all[front.len() + i] == (EntryView {
                pool: lists.len() as usize,
                address: relays[i].address,
                port: relays[i].port,
            })
        }),
{
    assert(lists.push(relays).drop_last() =~= lists);
}

/// The network is a number, or the main one by its name in any case.
pub proof fn magics_are_numbers_or_mainnet(s: Seq<char>, n: u64)
    ensures
        crate::text::lowered(s) == "mainnet"@ ==> crate::node::magic_of(s) == Some(764824073nat),
        crate::node::magic_of(decimal(n as nat)) == Some(n as nat),
{
    crate::text::decimal_reads_back(n as nat, u64::MAX as nat);
    crate::text::lemma_decimal(n as nat);
    reveal_strlit("mainnet");
    let d = decimal(n as nat);
    assert(crate::text::is_digit(d[0]));
    assert(crate::text::lowered(d)[0] == d[0]);
    assert("mainnet"@[0] == 'm');
}

/// The query is `[0, [0, [era, [34]]]]`, or with `[34, 1]` in its other shape.
pub proof fn the_query_names_the_era(era: u16)
    ensures
        ({
            let lead = seq![0x82u8, 0, 0x82, 0, 0x82] + crate::cbor::head(0, era as nat);
            &&& crate::node::query_bytes(era, crate::node::QueryShape::Plain) == lead + seq![
                0x81u8,
                0x18,
                0x22,
            ]
            &&& crate::node::query_bytes(era, crate::node::QueryShape::Kinded) == lead + seq![
                0x82u8,
                0x18,
                0x22,
                0x01,
            ]
        }),
{
}

} // verus!
