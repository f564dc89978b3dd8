//! What the series of the metrics say: of each, which value stands under its
//! name and its labels.

use vstd::prelude::*;

use crate::amounts::Amounts;
use crate::census::Census;
use crate::histogram::Histogram;
use crate::metrics::{
    all_items, build_info, closing_items, endpoint_items, gauge, gauges, histogram, is_whole,
    lemma_closing_turns, lemma_endpoint_turns, lemma_operator_turns, lemma_pool_turns,
    lemma_relay_turns, lemma_reversal_turns, lemma_source_turns, lemma_time_turns, lemma_tip_turns,
    network_family, network_items, operator_items, outreach_items, pool_items, relay_items,
    reversal_items, snapshot_info, source_items, srv_items, time_items, tip_items, turn,
    version_items, Item,
};
use crate::networks::AsnGroup;
use crate::text::decimal;

verus! {

/// The labels of its own of a series, and its value.
pub type Series = (Seq<(Seq<char>, Seq<char>)>, Seq<char>);

/// The series called `name`, in their order.
pub open spec fn shown(items: Seq<Item>, name: Seq<char>) -> Seq<Series>
    decreases items.len(),
{
    if items.len() == 0 {
        Seq::empty()
    } else {
        let front = shown(items.drop_last(), name);
        match items.last() {
            Item::Sample { name: n, labels, value } => if n == name {
                front.push((labels, value))
            } else {
                front
            },
            Item::Family { .. } => front,
        }
    }
}

/// One series without labels of its own.
pub open spec fn alone(value: Seq<char>) -> Seq<Series> {
    seq![(Seq::empty(), value)]
}

/// A series for each of `labels`, which stand under `key`.
pub open spec fn under(key: Seq<char>, labels: Seq<Seq<char>>, values: Seq<Seq<char>>) -> Seq<
    Series,
> {
    Seq::new(labels.len(), |i: int| (seq![(key, labels[i])], values[i]))
}

proof fn lemma_shown_concat(a: Seq<Item>, b: Seq<Item>, q: Seq<char>)
    ensures
        shown(a + b, q) == shown(a, q) + shown(b, q),
    decreases b.len(),
{
    if b.len() == 0 {
        assert(a + b =~= a);
    } else {
        lemma_shown_concat(a, b.drop_last(), q);
        assert((a + b).drop_last() =~= a + b.drop_last());
        assert((a + b).last() == b.last());
    }
    assert(shown(a + b, q) =~= shown(a, q) + shown(b, q));
}

broadcast proof fn lemma_shown_skip(a: Seq<Item>, b: Seq<Item>, q: Seq<char>)
    requires
        shown(b, q).len() == 0,
    ensures
        #[trigger] shown(a + b, q) == shown(a, q),
{
    lemma_shown_concat(a, b, q);
    assert(shown(a, q) + shown(b, q) =~= shown(a, q));
}

broadcast proof fn lemma_shown_new(a: Seq<Item>, b: Seq<Item>, q: Seq<char>)
    requires
        shown(a, q).len() == 0,
    ensures
        #[trigger] shown(a + b, q) == shown(b, q),
{
    lemma_shown_concat(a, b, q);
    assert(shown(a, q) + shown(b, q) =~= shown(b, q));
}

/// Series of one name are all shown, and none under another name.
proof fn lemma_shown_all(s: Seq<Item>, name: Seq<char>, q: Seq<char>)
    requires
        forall|i: int|
            0 <= i < s.len() ==> (#[trigger] s[i]) is Sample && s[i]->Sample_name == name,
    ensures
        q == name ==> shown(s, q) == Seq::new(s.len(), |i: int| (s[i]->labels, s[i]->value)),
        q != name ==> shown(s, q).len() == 0,
    decreases s.len(),
{
    if s.len() > 0 {
        let t = s.drop_last();
        assert forall|i: int| 0 <= i < t.len() implies (#[trigger] t[i]) is Sample
            && t[i]->Sample_name == name by {
            assert(t[i] == s[i]);
        }
        lemma_shown_all(t, name, q);
        assert(s[s.len() - 1] == s.last());
        if q == name {
            assert(shown(s, q) =~= Seq::new(s.len(), |i: int| (s[i]->labels, s[i]->value)));
        }
    }
    if q == name {
        assert(shown(s, q) =~= Seq::new(s.len(), |i: int| (s[i]->labels, s[i]->value)));
    }
}

broadcast proof fn lemma_gauge_shown(
    name: Seq<char>,
    help: Seq<char>,
    value: Seq<char>,
    q: Seq<char>,
)
    ensures
        q == name ==> #[trigger] shown(gauge(name, help, value), q) == alone(value),
        q != name ==> shown(gauge(name, help, value), q).len() == 0,
{
    let b = gauge(name, help, value);
    reveal_with_fuel(shown, 3);
    assert(b.drop_last().drop_last() =~= Seq::<Item>::empty());
    assert(b.drop_last().last() is Family);
    if q == name {
        assert(shown(b, q) =~= alone(value));
    }
}

broadcast proof fn lemma_gauges_shown(
    name: Seq<char>,
    help: Seq<char>,
    key: Seq<char>,
    labels: Seq<Seq<char>>,
    values: Seq<Seq<char>>,
    q: Seq<char>,
)
    ensures
        q == name ==> #[trigger] shown(gauges(name, help, key, labels, values), q) == under(
            key,
            labels,
            values,
        ),
        q != name ==> shown(gauges(name, help, key, labels, values), q).len() == 0,
{
    let head = seq![Item::Family { name, kind: "gauge"@, help }];
    let s = Seq::new(
        labels.len(),
        |i: int| crate::metrics::labelled(name, key, labels[i], values[i]),
    );
    lemma_shown_all(s, name, q);
    lemma_family_shown(name, "gauge"@, help, q);
    lemma_shown_new(head, s, q);
    if q == name {
        assert(shown(s, q) =~= under(key, labels, values));
    }
}

proof fn lemma_family_shown(name: Seq<char>, kind: Seq<char>, help: Seq<char>, q: Seq<char>)
    ensures
        shown(seq![Item::Family { name, kind, help }], q).len() == 0,
{
    reveal_with_fuel(shown, 2);
    let b = seq![Item::Family { name, kind, help }];
    assert(b.drop_last() =~= Seq::<Item>::empty());
}

/// A series for each of `groups`.
pub open spec fn by_network(groups: Seq<AsnGroup>, values: Seq<Seq<char>>) -> Seq<Series> {
    Seq::new(
        groups.len(),
        |i: int| (seq![("asn"@, groups[i].asn@), ("name"@, groups[i].name@)], values[i]),
    )
}

broadcast proof fn lemma_network_shown(
    name: Seq<char>,
    help: Seq<char>,
    groups: Seq<AsnGroup>,
    values: Seq<Seq<char>>,
    q: Seq<char>,
)
    ensures
        q == name ==> #[trigger] shown(network_family(name, help, groups, values), q)
            == by_network(groups, values),
        q != name ==> shown(network_family(name, help, groups, values), q).len() == 0,
{
    let head = seq![Item::Family { name, kind: "gauge"@, help }];
    let s = Seq::new(
        groups.len(),
        |i: int|
            Item::Sample {
                name,
                labels: seq![("asn"@, groups[i].asn@), ("name"@, groups[i].name@)],
                value: values[i],
            },
    );
    lemma_shown_all(s, name, q);
    lemma_family_shown(name, "gauge"@, help, q);
    lemma_shown_new(head, s, q);
    assert(network_family(name, help, groups, values) =~= head + s);
    if q == name {
        assert(shown(s, q) =~= by_network(groups, values));
    }
}

/// What the endings of a histogram's series are.
proof fn lemma_endings(name: Seq<char>)
    ensures
        !is_whole(name + "_bucket"@),
        !is_whole(name + "_sum"@),
        !is_whole(name + "_count"@),
        name + "_bucket"@ != name + "_sum"@,
        name + "_bucket"@ != name + "_count"@,
        name + "_sum"@ != name + "_count"@,
{
    reveal_strlit("_bucket");
    reveal_strlit("_sum");
    reveal_strlit("_count");
    let (a, b, c) = (name + "_bucket"@, name + "_sum"@, name + "_count"@);
    assert(a[a.len() - 1] == 't' && a[a.len() - 2] == 'e');
    assert(b[b.len() - 1] == 'm' && b[b.len() - 2] == 'u');
    assert(c[c.len() - 1] == 't' && c[c.len() - 2] == 'n');
}

broadcast proof fn lemma_histogram_shown(
    name: Seq<char>,
    help: Seq<char>,
    h: Histogram,
    sum: Seq<char>,
    q: Seq<char>,
)
    ensures
        is_whole(q) ==> (#[trigger] shown(histogram(name, help, h, sum), q)).len() == 0,
        q == name + "_bucket"@ ==> shown(histogram(name, help, h, sum), q) == under(
            "le"@,
            crate::metrics::bucket_labels(h.bounds@),
            crate::metrics::bucket_counts(h),
        ),
        q == name + "_sum"@ ==> shown(histogram(name, help, h, sum), q) == alone(sum),
        q == name + "_count"@ ==> shown(histogram(name, help, h, sum), q) == alone(
            decimal(h.count as nat),
        ),
        q != name + "_bucket"@ && q != name + "_sum"@ && q != name + "_count"@ ==> shown(
            histogram(name, help, h, sum),
            q,
        ).len() == 0,
{
    lemma_endings(name);
    let labels = crate::metrics::bucket_labels(h.bounds@);
    let counts = crate::metrics::bucket_counts(h);
    let bucket = name + "_bucket"@;
    let head = seq![Item::Family { name, kind: "histogram"@, help }];
    let s = Seq::new(
        labels.len(),
        |i: int| crate::metrics::labelled(bucket, "le"@, labels[i], counts[i]),
    );
    let tail = seq![
        crate::metrics::plain(name + "_sum"@, sum),
        crate::metrics::plain(name + "_count"@, decimal(h.count as nat)),
    ];
    lemma_shown_all(s, bucket, q);
    lemma_family_shown(name, "histogram"@, help, q);
    lemma_shown_new(head, s, q);
    lemma_shown_concat(head + s, tail, q);
    assert(histogram(name, help, h, sum) =~= head + s + tail);
    reveal_with_fuel(shown, 3);
    assert(tail.drop_last().drop_last() =~= Seq::<Item>::empty());
    assert(tail.drop_last().last() == tail[0]);
    if q == bucket {
        assert(shown(s, q) =~= under("le"@, labels, counts));
        assert(shown(head + s, q) + shown(tail, q) =~= under("le"@, labels, counts));
    }
    if q == name + "_sum"@ {
        assert(shown(head + s, q) + shown(tail, q) =~= alone(sum));
    }
    if q == name + "_count"@ {
        assert(shown(head + s, q) + shown(tail, q) =~= alone(decimal(h.count as nat)));
    }
}

broadcast group group_shown {
    lemma_shown_skip,
    lemma_shown_new,
    lemma_gauge_shown,
    lemma_gauges_shown,
    lemma_network_shown,
    lemma_histogram_shown,
}

// Families that go together.

/// The build that wrote the metrics.
pub open spec fn builds(rev: Seq<char>) -> Seq<Series> {
    seq![(seq![("version"@, crate::cli::VERSION@), ("rev"@, rev)], "1"@)]
}

/// The snapshot of the census.
pub open spec fn snapshots(c: Census) -> Seq<Series> {
    seq![
        (
            seq![
                ("source"@, c.snapshot_source@),
                ("network_magic"@, decimal(c.network_magic as nat)),
                ("node_to_client_version"@, decimal(c.node_to_client_version as nat)),
            ],
            "1"@,
        ),
    ]
}

proof fn lemma_build_shown(rev: Seq<char>, q: Seq<char>)
    ensures
        q == "build_info"@ ==> shown(build_info(rev), q) == builds(rev),
        q != "build_info"@ ==> shown(build_info(rev), q).len() == 0,
{
    let a = build_info(rev);
    reveal_with_fuel(shown, 3);
    assert(a.drop_last().drop_last() =~= Seq::<Item>::empty());
    assert(a.drop_last().last() is Family);
    if q == "build_info"@ {
        assert(shown(a, q) =~= builds(rev));
    }
}

proof fn lemma_infos_shown(c: Census, rev: Seq<char>, q: Seq<char>)
    ensures
        q == "build_info"@ ==> shown(build_info(rev), q) == builds(rev),
        q != "build_info"@ ==> shown(build_info(rev), q).len() == 0,
        q == "snapshot_info"@ ==> shown(snapshot_info(c), q) == snapshots(c),
        q != "snapshot_info"@ ==> shown(snapshot_info(c), q).len() == 0,
{
    lemma_build_shown(rev, q);
    let b = snapshot_info(c);
    reveal_with_fuel(shown, 3);
    assert(b.drop_last().drop_last() =~= Seq::<Item>::empty());
    assert(b.drop_last().last() is Family);
    if q == "snapshot_info"@ {
        assert(shown(b, q) =~= snapshots(c));
    }
}

/// A series for each operator to reach out to.
pub open spec fn by_operator(c: Census, t: Amounts<String>) -> Seq<Series> {
    Seq::new(
        c.top_pools@.len(),
        |i: int|
            (
                seq![
                    ("pool_id"@, c.top_pools[i].pool_id@),
                    ("ticker"@, c.top_pools[i].ticker@),
                    ("name"@, c.top_pools[i].name@),
                    ("reach"@, c.top_pools[i].reach.name()),
                    ("pools"@, decimal(c.top_pools[i].pools as nat)),
                    ("relays_total"@, decimal(c.top_pools[i].relays_total as nat)),
                    ("relays_reachable"@, decimal(c.top_pools[i].relays_reachable as nat)),
                    ("relays"@, crate::text::joined(c.top_pools[i].relays.deep_view(), ", "@)),
                ],
                t.outreach_stake[i]@,
            ),
    )
}

proof fn lemma_outreach_shown(c: Census, t: Amounts<String>, q: Seq<char>)
    requires
        t.outreach_stake.len() == c.top_pools.len(),
    ensures
        q == "pool_stake_ratio"@ ==> shown(outreach_items(c, t), q) == by_operator(c, t),
        q != "pool_stake_ratio"@ ==> shown(outreach_items(c, t), q).len() == 0,
{
    let name = "pool_stake_ratio"@;
    if c.top_pools.len() > 0 {
        let help = outreach_items(c, t)[0]->help;
        let head = seq![Item::Family { name, kind: "gauge"@, help }];
        let s = Seq::new(
            c.top_pools@.len(),
            |i: int|
                crate::metrics::operator_item(c.top_pools@[i], t.outreach_stake.deep_view()[i]),
        );
        lemma_shown_all(s, name, q);
        lemma_family_shown(name, "gauge"@, help, q);
        lemma_shown_new(head, s, q);
        assert(outreach_items(c, t) =~= head + s);
        if q == name {
            assert(shown(s, q) =~= by_operator(c, t));
        }
    } else if q == name {
        assert(shown(outreach_items(c, t), q) =~= by_operator(c, t));
    }
}

// Sections.

proof fn lemma_source_pass(
    items: Seq<Item>,
    c: Census,
    t: Amounts<String>,
    rev: Seq<char>,
    q: Seq<char>,
)
    requires
        !is_whole(q) || turn(q) < 0 || turn(q) >= 7,
    ensures
        shown(source_items(items, c, t, rev), q) == shown(items, q),
{
    broadcast use group_shown;

    lemma_source_turns();
    lemma_infos_shown(c, rev, q);
}

proof fn lemma_endpoint_pass(
    items: Seq<Item>,
    c: Census,
    t: Amounts<String>,
    q: Seq<char>,
)
    requires
        !is_whole(q) || turn(q) < 7 || turn(q) >= 14,
    ensures
        shown(endpoint_items(items, c, t), q) == shown(items, q),
{
    broadcast use group_shown;

    lemma_endpoint_turns();
    lemma_srv_pass(c, t, q);
}

proof fn lemma_srv_pass(c: Census, t: Amounts<String>, q: Seq<char>)
    requires
        !is_whole(q) || turn(q) < 7 || turn(q) >= 10,
    ensures
        shown(srv_items(c, t), q).len() == 0,
{
    broadcast use group_shown;

    lemma_endpoint_turns();
}

proof fn lemma_relay_pass(
    items: Seq<Item>,
    c: Census,
    t: Amounts<String>,
    q: Seq<char>,
)
    requires
        !is_whole(q) || turn(q) < 14 || turn(q) >= 18,
    ensures
        shown(relay_items(items, c, t), q) == shown(items, q),
{
    broadcast use group_shown;

    lemma_relay_turns();
    lemma_versions_pass(c, t, q);
}

proof fn lemma_versions_pass(c: Census, t: Amounts<String>, q: Seq<char>)
    requires
        !is_whole(q) || turn(q) < 15 || turn(q) >= 17,
    ensures
        shown(version_items(c, t), q).len() == 0,
{
    broadcast use group_shown;

    lemma_relay_turns();
}

proof fn lemma_pool_pass(
    items: Seq<Item>,
    c: Census,
    t: Amounts<String>,
    q: Seq<char>,
)
    requires
        !is_whole(q) || turn(q) < 18 || turn(q) >= 21,
    ensures
        shown(pool_items(items, c, t), q) == shown(items, q),
{
    broadcast use group_shown;

    lemma_pool_turns();
}

proof fn lemma_reversal_pass(
    items: Seq<Item>,
    c: Census,
    t: Amounts<String>,
    q: Seq<char>,
)
    requires
        !is_whole(q) || turn(q) < 21 || turn(q) >= 27,
    ensures
        shown(reversal_items(items, c, t), q) == shown(items, q),
{
    broadcast use group_shown;

    lemma_reversal_turns();
}

proof fn lemma_time_pass(
    items: Seq<Item>,
    c: Census,
    t: Amounts<String>,
    q: Seq<char>,
)
    requires
        is_whole(q),
        turn(q) < 27 || turn(q) >= 31,
    ensures
        shown(time_items(items, c, t), q) == shown(items, q),
{
    broadcast use group_shown;

    lemma_time_turns();
}

proof fn lemma_tip_pass(
    items: Seq<Item>,
    c: Census,
    t: Amounts<String>,
    q: Seq<char>,
)
    requires
        !is_whole(q) || turn(q) < 31 || turn(q) >= 40,
    ensures
        shown(tip_items(items, c, t), q) == shown(items, q),
{
    broadcast use group_shown;

    lemma_tip_turns();
}

proof fn lemma_operator_pass(
    items: Seq<Item>,
    c: Census,
    t: Amounts<String>,
    q: Seq<char>,
)
    requires
        !is_whole(q) || turn(q) < 40 || turn(q) >= 48,
        t.outreach_stake.len() == c.top_pools.len(),
    ensures
        shown(operator_items(items, c, t), q) == shown(items, q),
{
    broadcast use group_shown;

    lemma_operator_turns();
    lemma_outreach_shown(c, t, q);
    lemma_networks_pass(c, t, q);
}

proof fn lemma_networks_pass(c: Census, t: Amounts<String>, q: Seq<char>)
    requires
        !is_whole(q) || turn(q) < 43 || turn(q) >= 48,
    ensures
        shown(network_items(c, t), q).len() == 0,
{
    broadcast use group_shown;

    lemma_operator_turns();
}

proof fn lemma_closing_pass(
    items: Seq<Item>,
    c: Census,
    t: Amounts<String>,
    q: Seq<char>,
)
    requires
        !is_whole(q) || turn(q) < 48 || turn(q) >= 51,
    ensures
        shown(closing_items(items, c, t), q) == shown(items, q),
{
    broadcast use group_shown;

    lemma_closing_turns();
}

/// What is shown through the section `k`.
spec fn upto(c: Census, t: Amounts<String>, rev: Seq<char>, k: int) -> Seq<Item>
    decreases k,
{
    if k <= 0 {
        Seq::empty()
    } else {
        let items = upto(c, t, rev, k - 1);
        if k == 1 {
            source_items(items, c, t, rev)
        } else if k == 2 {
            endpoint_items(items, c, t)
        } else if k == 3 {
            relay_items(items, c, t)
        } else if k == 4 {
            pool_items(items, c, t)
        } else if k == 5 {
            reversal_items(items, c, t)
        } else if k == 6 {
            time_items(items, c, t)
        } else if k == 7 {
            tip_items(items, c, t)
        } else if k == 8 {
            operator_items(items, c, t)
        } else {
            closing_items(items, c, t)
        }
    }
}

/// The first turn after the section `k`.
spec fn end_of(k: int) -> int {
    if k == 0 {
        0
    } else if k == 1 {
        7
    } else if k == 2 {
        14
    } else if k == 3 {
        18
    } else if k == 4 {
        21
    } else if k == 5 {
        27
    } else if k == 6 {
        31
    } else if k == 7 {
        40
    } else if k == 8 {
        48
    } else {
        51
    }
}

proof fn lemma_all_is_upto(c: Census, t: Amounts<String>, rev: Seq<char>)
    ensures
        all_items(c, t, rev) == upto(c, t, rev, 9),
{
    reveal_with_fuel(upto, 10);
}

proof fn lemma_pass(c: Census, t: Amounts<String>, rev: Seq<char>, k: int, q: Seq<char>)
    requires
        1 <= k <= 9,
        is_whole(q) ==> turn(q) < end_of(k - 1) || turn(q) >= end_of(k),
        is_whole(q) || k != 6,
        t.outreach_stake.len() == c.top_pools.len(),
    ensures
        shown(upto(c, t, rev, k), q) == shown(upto(c, t, rev, k - 1), q),
{
    let items = upto(c, t, rev, k - 1);
    if k == 1 {
        lemma_source_pass(items, c, t, rev, q);
    } else if k == 2 {
        lemma_endpoint_pass(items, c, t, q);
    } else if k == 3 {
        lemma_relay_pass(items, c, t, q);
    } else if k == 4 {
        lemma_pool_pass(items, c, t, q);
    } else if k == 5 {
        lemma_reversal_pass(items, c, t, q);
    } else if k == 6 {
        lemma_time_pass(items, c, t, q);
    } else if k == 7 {
        lemma_tip_pass(items, c, t, q);
    } else if k == 8 {
        lemma_operator_pass(items, c, t, q);
    } else {
        lemma_closing_pass(items, c, t, q);
    }
}

/// Nothing is shown before its section.
proof fn lemma_before(c: Census, t: Amounts<String>, rev: Seq<char>, k: int, q: Seq<char>)
    requires
        0 <= k <= 9,
        is_whole(q) ==> turn(q) >= end_of(k),
        is_whole(q) || k < 6,
        t.outreach_stake.len() == c.top_pools.len(),
    ensures
        shown(upto(c, t, rev, k), q).len() == 0,
    decreases k,
{
    if k > 0 {
        lemma_before(c, t, rev, k - 1, q);
        lemma_pass(c, t, rev, k, q);
    }
}

/// Nothing is shown after its section.
proof fn lemma_after(c: Census, t: Amounts<String>, rev: Seq<char>, k: int, q: Seq<char>)
    requires
        0 <= k <= 9,
        is_whole(q) ==> 0 <= turn(q) < end_of(k),
        is_whole(q) || k >= 6,
        t.outreach_stake.len() == c.top_pools.len(),
    ensures
        shown(all_items(c, t, rev), q) == shown(upto(c, t, rev, k), q),
    decreases 9 - k,
{
    if k < 9 {
        lemma_after(c, t, rev, k + 1, q);
        lemma_pass(c, t, rev, k + 1, q);
    } else {
        lemma_all_is_upto(c, t, rev);
    }
}

// What is shown under each name.

#[verifier::rlimit(40)]
proof fn lemma_source_series(items: Seq<Item>, c: Census, t: Amounts<String>, rev: Seq<char>)
    requires
        t.outreach_stake.len() == c.top_pools.len(),
        shown(items, "build_info"@).len() == 0,
        shown(items, "snapshot_info"@).len() == 0,
        shown(items, "snapshot_slot"@).len() == 0,
        shown(items, "blp_total"@).len() == 0,
        shown(items, "snapshot_stake_ratio"@).len() == 0,
        shown(items, "relays_total"@).len() == 0,
        shown(items, "relays_srv"@).len() == 0,
    ensures
        shown(source_items(items, c, t, rev), "build_info"@) == builds(rev),
        shown(source_items(items, c, t, rev), "snapshot_info"@) == snapshots(c),
        shown(
            source_items(items, c, t, rev),
            "snapshot_slot"@,
        ) == alone(decimal(c.snapshot_slot as nat)),
        shown(source_items(items, c, t, rev), "blp_total"@) == alone(decimal(c.blp_total as nat)),
        shown(source_items(items, c, t, rev), "snapshot_stake_ratio"@) == alone(t.snapshot_stake@),
        shown(
            source_items(items, c, t, rev),
            "relays_total"@,
        ) == alone(decimal(c.relays_total as nat)),
        shown(source_items(items, c, t, rev), "relays_srv"@) == alone(decimal(c.relays_srv as nat)),
{
    broadcast use group_shown;

    lemma_source_turns();
    lemma_infos_shown(c, rev, "build_info"@);
    lemma_infos_shown(c, rev, "snapshot_info"@);
    lemma_infos_shown(c, rev, "snapshot_slot"@);
    lemma_infos_shown(c, rev, "blp_total"@);
    lemma_infos_shown(c, rev, "snapshot_stake_ratio"@);
    lemma_infos_shown(c, rev, "relays_total"@);
    lemma_infos_shown(c, rev, "relays_srv"@);
}

/// The build, the snapshot and the number of its pools and relays are shown
/// under their names.
pub proof fn the_source_is_shown(c: Census, t: Amounts<String>, rev: Seq<char>)
    requires
        t.outreach_stake.len() == c.top_pools.len(),
    ensures
        shown(all_items(c, t, rev), "build_info"@) == builds(rev),
        shown(all_items(c, t, rev), "snapshot_info"@) == snapshots(c),
        shown(all_items(c, t, rev), "snapshot_slot"@) == alone(decimal(c.snapshot_slot as nat)),
        shown(all_items(c, t, rev), "blp_total"@) == alone(decimal(c.blp_total as nat)),
        shown(all_items(c, t, rev), "snapshot_stake_ratio"@) == alone(t.snapshot_stake@),
        shown(all_items(c, t, rev), "relays_total"@) == alone(decimal(c.relays_total as nat)),
        shown(all_items(c, t, rev), "relays_srv"@) == alone(decimal(c.relays_srv as nat)),
{
    lemma_source_turns();
    lemma_before(c, t, rev, 0, "build_info"@);
    lemma_after(c, t, rev, 1, "build_info"@);
    lemma_before(c, t, rev, 0, "snapshot_info"@);
    lemma_after(c, t, rev, 1, "snapshot_info"@);
    lemma_before(c, t, rev, 0, "snapshot_slot"@);
    lemma_after(c, t, rev, 1, "snapshot_slot"@);
    lemma_before(c, t, rev, 0, "blp_total"@);
    lemma_after(c, t, rev, 1, "blp_total"@);
    lemma_before(c, t, rev, 0, "snapshot_stake_ratio"@);
    lemma_after(c, t, rev, 1, "snapshot_stake_ratio"@);
    lemma_before(c, t, rev, 0, "relays_total"@);
    lemma_after(c, t, rev, 1, "relays_total"@);
    lemma_before(c, t, rev, 0, "relays_srv"@);
    lemma_after(c, t, rev, 1, "relays_srv"@);
    lemma_source_series(upto(c, t, rev, 0), c, t, rev);
}

#[verifier::rlimit(40)]
proof fn lemma_endpoint_series(items: Seq<Item>, c: Census, t: Amounts<String>, rev: Seq<char>)
    requires
        t.outreach_stake.len() == c.top_pools.len(),
        shown(items, "srv_targets"@).len() == 0,
        shown(items, "srv_targets_reachable"@).len() == 0,
        shown(items, "srv_reach_probability"@).len() == 0,
        shown(items, "srv_endpoints_total"@).len() == 0,
        shown(items, "srv_endpoints_reachable"@).len() == 0,
        shown(items, "endpoints_total"@).len() == 0,
        shown(items, "endpoints_probed"@).len() == 0,
    ensures
        shown(endpoint_items(items, c, t), "srv_targets"@) == under(
            "name"@,
            Seq::new(c.srv_sets@.len(), |i: int| c.srv_sets[i].0@),
            Seq::new(c.srv_sets@.len(), |i: int| decimal(c.srv_sets[i].1.targets as nat)),
        ),
        shown(endpoint_items(items, c, t), "srv_targets_reachable"@) == under(
            "name"@,
            Seq::new(c.srv_sets@.len(), |i: int| c.srv_sets[i].0@),
            Seq::new(c.srv_sets@.len(), |i: int| decimal(c.srv_sets[i].1.reachable as nat)),
        ),
        shown(endpoint_items(items, c, t), "srv_reach_probability"@) == under(
            "name"@,
            Seq::new(c.srv_sets@.len(), |i: int| c.srv_sets[i].0@),
            t.srv_probability.deep_view(),
        ),
        shown(
            endpoint_items(items, c, t),
            "srv_endpoints_total"@,
        ) == alone(decimal(c.srv_endpoints_total as nat)),
        shown(
            endpoint_items(items, c, t),
            "srv_endpoints_reachable"@,
        ) == alone(decimal(c.srv_endpoints_reachable as nat)),
        shown(
            endpoint_items(items, c, t),
            "endpoints_total"@,
        ) == alone(decimal(c.endpoints_total as nat)),
        shown(
            endpoint_items(items, c, t),
            "endpoints_probed"@,
        ) == alone(decimal(c.endpoints_probed as nat)),
{
    broadcast use group_shown;

    lemma_endpoint_turns();
    lemma_srv_pass(c, t, "srv_endpoints_total"@);
    lemma_srv_pass(c, t, "srv_endpoints_reachable"@);
    lemma_srv_pass(c, t, "endpoints_total"@);
    lemma_srv_pass(c, t, "endpoints_probed"@);
    lemma_srv_series(c, t);
}

proof fn lemma_srv_series(c: Census, t: Amounts<String>)
    ensures
        shown(srv_items(c, t), "srv_targets"@) == under(
            "name"@,
            Seq::new(c.srv_sets@.len(), |i: int| c.srv_sets[i].0@),
            Seq::new(c.srv_sets@.len(), |i: int| decimal(c.srv_sets[i].1.targets as nat)),
        ),
        shown(srv_items(c, t), "srv_targets_reachable"@) == under(
            "name"@,
            Seq::new(c.srv_sets@.len(), |i: int| c.srv_sets[i].0@),
            Seq::new(c.srv_sets@.len(), |i: int| decimal(c.srv_sets[i].1.reachable as nat)),
        ),
        shown(srv_items(c, t), "srv_reach_probability"@) == under(
            "name"@,
            Seq::new(c.srv_sets@.len(), |i: int| c.srv_sets[i].0@),
            t.srv_probability.deep_view(),
        ),
{
    broadcast use group_shown;

    lemma_endpoint_turns();
    let names = Seq::new(c.srv_sets@.len(), |i: int| c.srv_sets[i].0@);
    assert(crate::metrics::srv_names(c) =~= names);
    assert(
        crate::metrics::target_counts(c) =~= Seq::new(
            c.srv_sets@.len(),
            |i: int| decimal(c.srv_sets[i].1.targets as nat),
        )
    );
    assert(
        crate::metrics::answer_counts(c) =~= Seq::new(
            c.srv_sets@.len(),
            |i: int| decimal(c.srv_sets[i].1.reachable as nat),
        )
    );
}

/// Every SRV name is shown with its targets, those that answered and the
/// chance to reach one, and the endpoints are shown under their names.
pub proof fn endpoints_are_shown(c: Census, t: Amounts<String>, rev: Seq<char>)
    requires
        t.outreach_stake.len() == c.top_pools.len(),
    ensures
        shown(all_items(c, t, rev), "srv_targets"@) == under(
            "name"@,
            Seq::new(c.srv_sets@.len(), |i: int| c.srv_sets[i].0@),
            Seq::new(c.srv_sets@.len(), |i: int| decimal(c.srv_sets[i].1.targets as nat)),
        ),
        shown(all_items(c, t, rev), "srv_targets_reachable"@) == under(
            "name"@,
            Seq::new(c.srv_sets@.len(), |i: int| c.srv_sets[i].0@),
            Seq::new(c.srv_sets@.len(), |i: int| decimal(c.srv_sets[i].1.reachable as nat)),
        ),
        shown(all_items(c, t, rev), "srv_reach_probability"@) == under(
            "name"@,
            Seq::new(c.srv_sets@.len(), |i: int| c.srv_sets[i].0@),
            t.srv_probability.deep_view(),
        ),
        shown(
            all_items(c, t, rev),
            "srv_endpoints_total"@,
        ) == alone(decimal(c.srv_endpoints_total as nat)),
        shown(
            all_items(c, t, rev),
            "srv_endpoints_reachable"@,
        ) == alone(decimal(c.srv_endpoints_reachable as nat)),
        shown(all_items(c, t, rev), "endpoints_total"@) == alone(decimal(c.endpoints_total as nat)),
        shown(
            all_items(c, t, rev),
            "endpoints_probed"@,
        ) == alone(decimal(c.endpoints_probed as nat)),
{
    lemma_endpoint_turns();
    lemma_before(c, t, rev, 1, "srv_targets"@);
    lemma_after(c, t, rev, 2, "srv_targets"@);
    lemma_before(c, t, rev, 1, "srv_targets_reachable"@);
    lemma_after(c, t, rev, 2, "srv_targets_reachable"@);
    lemma_before(c, t, rev, 1, "srv_reach_probability"@);
    lemma_after(c, t, rev, 2, "srv_reach_probability"@);
    lemma_before(c, t, rev, 1, "srv_endpoints_total"@);
    lemma_after(c, t, rev, 2, "srv_endpoints_total"@);
    lemma_before(c, t, rev, 1, "srv_endpoints_reachable"@);
    lemma_after(c, t, rev, 2, "srv_endpoints_reachable"@);
    lemma_before(c, t, rev, 1, "endpoints_total"@);
    lemma_after(c, t, rev, 2, "endpoints_total"@);
    lemma_before(c, t, rev, 1, "endpoints_probed"@);
    lemma_after(c, t, rev, 2, "endpoints_probed"@);
    lemma_endpoint_series(upto(c, t, rev, 1), c, t, rev);
}

#[verifier::rlimit(40)]
proof fn lemma_relay_series(items: Seq<Item>, c: Census, t: Amounts<String>, rev: Seq<char>)
    requires
        t.outreach_stake.len() == c.top_pools.len(),
        shown(items, "relays_reachable"@).len() == 0,
        shown(items, "relays_n2n_version"@).len() == 0,
        shown(items, "stake_n2n_version"@).len() == 0,
        shown(items, "relays_failed"@).len() == 0,
    ensures
        shown(relay_items(items, c, t), "relays_reachable"@) == under(
            "family"@,
            seq!["v4"@, "v6"@],
            seq![decimal(c.relays_reachable_v4 as nat), decimal(c.relays_reachable_v6 as nat)],
        ),
        shown(relay_items(items, c, t), "relays_n2n_version"@) == under(
            "version"@,
            Seq::new(c.n2n_versions@.len(), |i: int| c.n2n_versions[i].0@),
            Seq::new(c.n2n_versions@.len(), |i: int| decimal(c.n2n_versions[i].1.relays as nat)),
        ),
        shown(relay_items(items, c, t), "stake_n2n_version"@) == under(
            "version"@,
            Seq::new(c.n2n_versions@.len(), |i: int| c.n2n_versions[i].0@),
            t.version_stake.deep_view(),
        ),
        shown(relay_items(items, c, t), "relays_failed"@) == under(
            "stage"@,
            seq!["srv"@, "dns"@, "address"@, "connect"@, "handshake"@, "chainsync"@],
            Seq::new(c.relays_failed@.len(), |i: int| decimal(c.relays_failed[i].1 as nat)),
        ),
{
    broadcast use group_shown;

    lemma_relay_turns();
    lemma_versions_pass(c, t, "relays_reachable"@);
    lemma_versions_pass(c, t, "relays_failed"@);
    lemma_versions_series(c, t);
    assert(
        crate::metrics::stage_names() =~= seq![
            "srv"@,
            "dns"@,
            "address"@,
            "connect"@,
            "handshake"@,
            "chainsync"@,
        ]
    );
    assert(
        crate::metrics::failed_counts(c) =~= Seq::new(
            c.relays_failed@.len(),
            |i: int| decimal(c.relays_failed[i].1 as nat),
        )
    );
}

proof fn lemma_versions_series(c: Census, t: Amounts<String>)
    ensures
        shown(version_items(c, t), "relays_n2n_version"@) == under(
            "version"@,
            Seq::new(c.n2n_versions@.len(), |i: int| c.n2n_versions[i].0@),
            Seq::new(c.n2n_versions@.len(), |i: int| decimal(c.n2n_versions[i].1.relays as nat)),
        ),
        shown(version_items(c, t), "stake_n2n_version"@) == under(
            "version"@,
            Seq::new(c.n2n_versions@.len(), |i: int| c.n2n_versions[i].0@),
            t.version_stake.deep_view(),
        ),
{
    broadcast use group_shown;

    lemma_relay_turns();
    assert(
        crate::metrics::versions(c) =~= Seq::new(
            c.n2n_versions@.len(),
            |i: int| c.n2n_versions[i].0@,
        )
    );
    assert(
        crate::metrics::version_counts(c) =~= Seq::new(
            c.n2n_versions@.len(),
            |i: int| decimal(c.n2n_versions[i].1.relays as nat),
        )
    );
}

/// The relays that answered are shown by family and by version, those that
/// failed by stage.
pub proof fn relays_are_shown(c: Census, t: Amounts<String>, rev: Seq<char>)
    requires
        t.outreach_stake.len() == c.top_pools.len(),
    ensures
        shown(all_items(c, t, rev), "relays_reachable"@) == under(
            "family"@,
            seq!["v4"@, "v6"@],
            seq![decimal(c.relays_reachable_v4 as nat), decimal(c.relays_reachable_v6 as nat)],
        ),
        shown(all_items(c, t, rev), "relays_n2n_version"@) == under(
            "version"@,
            Seq::new(c.n2n_versions@.len(), |i: int| c.n2n_versions[i].0@),
            Seq::new(c.n2n_versions@.len(), |i: int| decimal(c.n2n_versions[i].1.relays as nat)),
        ),
        shown(all_items(c, t, rev), "stake_n2n_version"@) == under(
            "version"@,
            Seq::new(c.n2n_versions@.len(), |i: int| c.n2n_versions[i].0@),
            t.version_stake.deep_view(),
        ),
        shown(all_items(c, t, rev), "relays_failed"@) == under(
            "stage"@,
            seq!["srv"@, "dns"@, "address"@, "connect"@, "handshake"@, "chainsync"@],
            Seq::new(c.relays_failed@.len(), |i: int| decimal(c.relays_failed[i].1 as nat)),
        ),
{
    lemma_relay_turns();
    lemma_before(c, t, rev, 2, "relays_reachable"@);
    lemma_after(c, t, rev, 3, "relays_reachable"@);
    lemma_before(c, t, rev, 2, "relays_n2n_version"@);
    lemma_after(c, t, rev, 3, "relays_n2n_version"@);
    lemma_before(c, t, rev, 2, "stake_n2n_version"@);
    lemma_after(c, t, rev, 3, "stake_n2n_version"@);
    lemma_before(c, t, rev, 2, "relays_failed"@);
    lemma_after(c, t, rev, 3, "relays_failed"@);
    lemma_relay_series(upto(c, t, rev, 2), c, t, rev);
}

#[verifier::rlimit(40)]
proof fn lemma_pool_series(items: Seq<Item>, c: Census, t: Amounts<String>, rev: Seq<char>)
    requires
        t.outreach_stake.len() == c.top_pools.len(),
        shown(items, "blp"@).len() == 0,
        shown(items, "blp_stake_ratio"@).len() == 0,
        shown(items, "reachable_stake_ratio"@).len() == 0,
    ensures
        shown(pool_items(items, c, t), "blp"@) == under(
            "reach"@,
            seq!["none"@, "partial"@, "full"@],
            Seq::new(c.blp_by_reach@.len(), |i: int| decimal(c.blp_by_reach[i].1.pools as nat)),
        ),
        shown(pool_items(items, c, t), "blp_stake_ratio"@) == under(
            "reach"@,
            seq!["none"@, "partial"@, "full"@],
            t.reach_stake.deep_view(),
        ),
        shown(pool_items(items, c, t), "reachable_stake_ratio"@) == alone(t.reachable_stake@),
{
    broadcast use group_shown;

    lemma_pool_turns();
    assert(crate::metrics::reach_names() =~= seq!["none"@, "partial"@, "full"@]);
    assert(
        crate::metrics::pool_counts(c) =~= Seq::new(
            c.blp_by_reach@.len(),
            |i: int| decimal(c.blp_by_reach[i].1.pools as nat),
        )
    );
}

/// The pools and their stake are shown by how many of their relays answered.
pub proof fn pools_are_shown(c: Census, t: Amounts<String>, rev: Seq<char>)
    requires
        t.outreach_stake.len() == c.top_pools.len(),
    ensures
        shown(all_items(c, t, rev), "blp"@) == under(
            "reach"@,
            seq!["none"@, "partial"@, "full"@],
            Seq::new(c.blp_by_reach@.len(), |i: int| decimal(c.blp_by_reach[i].1.pools as nat)),
        ),
        shown(all_items(c, t, rev), "blp_stake_ratio"@) == under(
            "reach"@,
            seq!["none"@, "partial"@, "full"@],
            t.reach_stake.deep_view(),
        ),
        shown(all_items(c, t, rev), "reachable_stake_ratio"@) == alone(t.reachable_stake@),
{
    lemma_pool_turns();
    lemma_before(c, t, rev, 3, "blp"@);
    lemma_after(c, t, rev, 4, "blp"@);
    lemma_before(c, t, rev, 3, "blp_stake_ratio"@);
    lemma_after(c, t, rev, 4, "blp_stake_ratio"@);
    lemma_before(c, t, rev, 3, "reachable_stake_ratio"@);
    lemma_after(c, t, rev, 4, "reachable_stake_ratio"@);
    lemma_pool_series(upto(c, t, rev, 3), c, t, rev);
}

#[verifier::rlimit(40)]
proof fn lemma_reversal_series(items: Seq<Item>, c: Census, t: Amounts<String>, rev: Seq<char>)
    requires
        t.outreach_stake.len() == c.top_pools.len(),
        shown(items, "relays_ipv4_literal"@).len() == 0,
        shown(items, "relays_ipv4_literal_reachable"@).len() == 0,
        shown(items, "pools_ipv4_reversed_only"@).len() == 0,
        shown(items, "stake_ipv4_reversed_only_ratio"@).len() == 0,
        shown(items, "reachable_stake_ratio_with_reversed"@).len() == 0,
        shown(items, "relay_weighted_stake_ratio"@).len() == 0,
    ensures
        shown(
            reversal_items(items, c, t),
            "relays_ipv4_literal"@,
        ) == alone(decimal(c.ipv4.relays as nat)),
        shown(reversal_items(items, c, t), "relays_ipv4_literal_reachable"@) == under(
            "spelling"@,
            seq!["given"@, "reversed"@],
            seq![decimal(c.ipv4.reachable_given as nat), decimal(c.ipv4.reachable_reversed as nat)],
        ),
        shown(
            reversal_items(items, c, t),
            "pools_ipv4_reversed_only"@,
        ) == alone(decimal(c.ipv4.pools_reversed_only as nat)),
        shown(
            reversal_items(items, c, t),
            "stake_ipv4_reversed_only_ratio"@,
        ) == alone(t.reversed_only_stake@),
        shown(
            reversal_items(items, c, t),
            "reachable_stake_ratio_with_reversed"@,
        ) == alone(t.reachable_with_reversed@),
        shown(
            reversal_items(items, c, t),
            "relay_weighted_stake_ratio"@,
        ) == alone(t.relay_weighted_stake@),
{
    broadcast use group_shown;

    lemma_reversal_turns();
}

/// What IPv4 literals answered, as given and with their octets reversed, is
/// shown under its names.
pub proof fn reversals_are_shown(c: Census, t: Amounts<String>, rev: Seq<char>)
    requires
        t.outreach_stake.len() == c.top_pools.len(),
    ensures
        shown(all_items(c, t, rev), "relays_ipv4_literal"@) == alone(decimal(c.ipv4.relays as nat)),
        shown(all_items(c, t, rev), "relays_ipv4_literal_reachable"@) == under(
            "spelling"@,
            seq!["given"@, "reversed"@],
            seq![decimal(c.ipv4.reachable_given as nat), decimal(c.ipv4.reachable_reversed as nat)],
        ),
        shown(
            all_items(c, t, rev),
            "pools_ipv4_reversed_only"@,
        ) == alone(decimal(c.ipv4.pools_reversed_only as nat)),
        shown(
            all_items(c, t, rev),
            "stake_ipv4_reversed_only_ratio"@,
        ) == alone(t.reversed_only_stake@),
        shown(
            all_items(c, t, rev),
            "reachable_stake_ratio_with_reversed"@,
        ) == alone(t.reachable_with_reversed@),
        shown(
            all_items(c, t, rev),
            "relay_weighted_stake_ratio"@,
        ) == alone(t.relay_weighted_stake@),
{
    lemma_reversal_turns();
    lemma_before(c, t, rev, 4, "relays_ipv4_literal"@);
    lemma_after(c, t, rev, 5, "relays_ipv4_literal"@);
    lemma_before(c, t, rev, 4, "relays_ipv4_literal_reachable"@);
    lemma_after(c, t, rev, 5, "relays_ipv4_literal_reachable"@);
    lemma_before(c, t, rev, 4, "pools_ipv4_reversed_only"@);
    lemma_after(c, t, rev, 5, "pools_ipv4_reversed_only"@);
    lemma_before(c, t, rev, 4, "stake_ipv4_reversed_only_ratio"@);
    lemma_after(c, t, rev, 5, "stake_ipv4_reversed_only_ratio"@);
    lemma_before(c, t, rev, 4, "reachable_stake_ratio_with_reversed"@);
    lemma_after(c, t, rev, 5, "reachable_stake_ratio_with_reversed"@);
    lemma_before(c, t, rev, 4, "relay_weighted_stake_ratio"@);
    lemma_after(c, t, rev, 5, "relay_weighted_stake_ratio"@);
    lemma_reversal_series(upto(c, t, rev, 4), c, t, rev);
}

#[verifier::rlimit(40)]
proof fn lemma_time_series(items: Seq<Item>, c: Census, t: Amounts<String>, rev: Seq<char>)
    requires
        t.outreach_stake.len() == c.top_pools.len(),
        shown(items, "relays_reachable_within"@).len() == 0,
        shown(items, "stake_reachable_within"@).len() == 0,
    ensures
        shown(time_items(items, c, t), "relays_reachable_within"@) == under(
            "le"@,
            Seq::new(
                c.relays_reachable_within.bounds@.len(),
                |i: int| crate::histogram::bound_text(c.relays_reachable_within.bounds[i]),
            ).push("+Inf"@),
            Seq::new(
                c.relays_reachable_within.values@.len(),
                |i: int| decimal(c.relays_reachable_within.values[i]@.len()),
            ).push(decimal(c.relays_reachable_within.total@.len())),
        ),
        shown(time_items(items, c, t), "stake_reachable_within"@) == under(
            "le"@,
            Seq::new(
                c.stake_reachable_within.bounds@.len(),
                |i: int| crate::histogram::bound_text(c.stake_reachable_within.bounds[i]),
            ).push("+Inf"@),
            t.stake_within.deep_view(),
        ),
{
    broadcast use group_shown;

    lemma_time_turns();
    assert(
        crate::metrics::bucket_labels(c.relays_reachable_within.bounds@) =~= Seq::new(
            c.relays_reachable_within.bounds@.len(),
            |i: int| crate::histogram::bound_text(c.relays_reachable_within.bounds[i]),
        ).push("+Inf"@)
    );
    assert(
        crate::metrics::sizes(c.relays_reachable_within) =~= Seq::new(
            c.relays_reachable_within.values@.len(),
            |i: int| decimal(c.relays_reachable_within.values[i]@.len()),
        ).push(decimal(c.relays_reachable_within.total@.len()))
    );
    assert(
        crate::metrics::bucket_labels(c.stake_reachable_within.bounds@) =~= Seq::new(
            c.stake_reachable_within.bounds@.len(),
            |i: int| crate::histogram::bound_text(c.stake_reachable_within.bounds[i]),
        ).push("+Inf"@)
    );
}

/// The relays and the stake that answered within each bound are shown by that
/// bound.
pub proof fn times_are_shown(c: Census, t: Amounts<String>, rev: Seq<char>)
    requires
        t.outreach_stake.len() == c.top_pools.len(),
    ensures
        shown(all_items(c, t, rev), "relays_reachable_within"@) == under(
            "le"@,
            Seq::new(
                c.relays_reachable_within.bounds@.len(),
                |i: int| crate::histogram::bound_text(c.relays_reachable_within.bounds[i]),
            ).push("+Inf"@),
            Seq::new(
                c.relays_reachable_within.values@.len(),
                |i: int| decimal(c.relays_reachable_within.values[i]@.len()),
            ).push(decimal(c.relays_reachable_within.total@.len())),
        ),
        shown(all_items(c, t, rev), "stake_reachable_within"@) == under(
            "le"@,
            Seq::new(
                c.stake_reachable_within.bounds@.len(),
                |i: int| crate::histogram::bound_text(c.stake_reachable_within.bounds[i]),
            ).push("+Inf"@),
            t.stake_within.deep_view(),
        ),
{
    lemma_time_turns();
    lemma_before(c, t, rev, 5, "relays_reachable_within"@);
    lemma_after(c, t, rev, 6, "relays_reachable_within"@);
    lemma_before(c, t, rev, 5, "stake_reachable_within"@);
    lemma_after(c, t, rev, 6, "stake_reachable_within"@);
    lemma_time_series(upto(c, t, rev, 5), c, t, rev);
}

#[verifier::rlimit(40)]
proof fn lemma_tip_series(items: Seq<Item>, c: Census, t: Amounts<String>, rev: Seq<char>)
    requires
        t.outreach_stake.len() == c.top_pools.len(),
        shown(items, "tip_block_max"@).len() == 0,
        shown(items, "tip_slot_max"@).len() == 0,
        shown(items, "tips_at_max_block"@).len() == 0,
        shown(items, "chains"@).len() == 0,
        shown(items, "fork_tolerance_blocks"@).len() == 0,
        shown(items, "chain_relays"@).len() == 0,
        shown(items, "chain_stake_ratio"@).len() == 0,
        shown(items, "relays_within_blocks_of_tip"@).len() == 0,
        shown(items, "stake_within_blocks_of_tip"@).len() == 0,
    ensures
        shown(tip_items(items, c, t), "tip_block_max"@) == alone(decimal(c.tip_block_max as nat)),
        shown(tip_items(items, c, t), "tip_slot_max"@) == alone(decimal(c.tip_slot_max as nat)),
        shown(
            tip_items(items, c, t),
            "tips_at_max_block"@,
        ) == alone(decimal(c.tips_at_max_block as nat)),
        shown(tip_items(items, c, t), "chains"@) == alone(decimal(c.chains@.len())),
        shown(
            tip_items(items, c, t),
            "fork_tolerance_blocks"@,
        ) == alone(decimal(c.fork_tolerance as nat)),
        shown(tip_items(items, c, t), "chain_relays"@) == under(
            "chain"@,
            seq!["main"@, "other"@],
            seq![
                decimal(crate::metrics::chain_relays(c.chains@, true)),
                decimal(crate::metrics::chain_relays(c.chains@, false)),
            ],
        ),
        shown(tip_items(items, c, t), "chain_stake_ratio"@) == under(
            "chain"@,
            seq!["main"@, "other"@],
            seq![t.main_stake@, t.other_stake@],
        ),
        shown(tip_items(items, c, t), "relays_within_blocks_of_tip"@) == under(
            "le"@,
            Seq::new(
                c.relays_within_blocks_of_tip.bounds@.len(),
                |i: int| crate::histogram::bound_text(c.relays_within_blocks_of_tip.bounds[i]),
            ).push("+Inf"@),
            Seq::new(
                c.relays_within_blocks_of_tip.values@.len(),
                |i: int| decimal(c.relays_within_blocks_of_tip.values[i]@.len()),
            ).push(decimal(c.relays_within_blocks_of_tip.total@.len())),
        ),
        shown(tip_items(items, c, t), "stake_within_blocks_of_tip"@) == under(
            "le"@,
            Seq::new(
                c.stake_within_blocks_of_tip.bounds@.len(),
                |i: int| crate::histogram::bound_text(c.stake_within_blocks_of_tip.bounds[i]),
            ).push("+Inf"@),
            t.stake_near_tip.deep_view(),
        ),
{
    broadcast use group_shown;

    lemma_tip_turns();
    assert(
        crate::metrics::bucket_labels(c.relays_within_blocks_of_tip.bounds@) =~= Seq::new(
            c.relays_within_blocks_of_tip.bounds@.len(),
            |i: int| crate::histogram::bound_text(c.relays_within_blocks_of_tip.bounds[i]),
        ).push("+Inf"@)
    );
    assert(
        crate::metrics::sizes(c.relays_within_blocks_of_tip) =~= Seq::new(
            c.relays_within_blocks_of_tip.values@.len(),
            |i: int| decimal(c.relays_within_blocks_of_tip.values[i]@.len()),
        ).push(decimal(c.relays_within_blocks_of_tip.total@.len()))
    );
    assert(
        crate::metrics::bucket_labels(c.stake_within_blocks_of_tip.bounds@) =~= Seq::new(
            c.stake_within_blocks_of_tip.bounds@.len(),
            |i: int| crate::histogram::bound_text(c.stake_within_blocks_of_tip.bounds[i]),
        ).push("+Inf"@)
    );
}

/// The highest block, the highest slot and the chains are shown under their
/// names.
pub proof fn tips_are_shown(c: Census, t: Amounts<String>, rev: Seq<char>)
    requires
        t.outreach_stake.len() == c.top_pools.len(),
    ensures
        shown(all_items(c, t, rev), "tip_block_max"@) == alone(decimal(c.tip_block_max as nat)),
        shown(all_items(c, t, rev), "tip_slot_max"@) == alone(decimal(c.tip_slot_max as nat)),
        shown(
            all_items(c, t, rev),
            "tips_at_max_block"@,
        ) == alone(decimal(c.tips_at_max_block as nat)),
        shown(all_items(c, t, rev), "chains"@) == alone(decimal(c.chains@.len())),
        shown(
            all_items(c, t, rev),
            "fork_tolerance_blocks"@,
        ) == alone(decimal(c.fork_tolerance as nat)),
        shown(all_items(c, t, rev), "chain_relays"@) == under(
            "chain"@,
            seq!["main"@, "other"@],
            seq![
                decimal(crate::metrics::chain_relays(c.chains@, true)),
                decimal(crate::metrics::chain_relays(c.chains@, false)),
            ],
        ),
        shown(all_items(c, t, rev), "chain_stake_ratio"@) == under(
            "chain"@,
            seq!["main"@, "other"@],
            seq![t.main_stake@, t.other_stake@],
        ),
        shown(all_items(c, t, rev), "relays_within_blocks_of_tip"@) == under(
            "le"@,
            Seq::new(
                c.relays_within_blocks_of_tip.bounds@.len(),
                |i: int| crate::histogram::bound_text(c.relays_within_blocks_of_tip.bounds[i]),
            ).push("+Inf"@),
            Seq::new(
                c.relays_within_blocks_of_tip.values@.len(),
                |i: int| decimal(c.relays_within_blocks_of_tip.values[i]@.len()),
            ).push(decimal(c.relays_within_blocks_of_tip.total@.len())),
        ),
        shown(all_items(c, t, rev), "stake_within_blocks_of_tip"@) == under(
            "le"@,
            Seq::new(
                c.stake_within_blocks_of_tip.bounds@.len(),
                |i: int| crate::histogram::bound_text(c.stake_within_blocks_of_tip.bounds[i]),
            ).push("+Inf"@),
            t.stake_near_tip.deep_view(),
        ),
{
    lemma_tip_turns();
    lemma_before(c, t, rev, 6, "tip_block_max"@);
    lemma_after(c, t, rev, 7, "tip_block_max"@);
    lemma_before(c, t, rev, 6, "tip_slot_max"@);
    lemma_after(c, t, rev, 7, "tip_slot_max"@);
    lemma_before(c, t, rev, 6, "tips_at_max_block"@);
    lemma_after(c, t, rev, 7, "tips_at_max_block"@);
    lemma_before(c, t, rev, 6, "chains"@);
    lemma_after(c, t, rev, 7, "chains"@);
    lemma_before(c, t, rev, 6, "fork_tolerance_blocks"@);
    lemma_after(c, t, rev, 7, "fork_tolerance_blocks"@);
    lemma_before(c, t, rev, 6, "chain_relays"@);
    lemma_after(c, t, rev, 7, "chain_relays"@);
    lemma_before(c, t, rev, 6, "chain_stake_ratio"@);
    lemma_after(c, t, rev, 7, "chain_stake_ratio"@);
    lemma_before(c, t, rev, 6, "relays_within_blocks_of_tip"@);
    lemma_after(c, t, rev, 7, "relays_within_blocks_of_tip"@);
    lemma_before(c, t, rev, 6, "stake_within_blocks_of_tip"@);
    lemma_after(c, t, rev, 7, "stake_within_blocks_of_tip"@);
    lemma_tip_series(upto(c, t, rev, 6), c, t, rev);
}

#[verifier::rlimit(40)]
proof fn lemma_operator_series(items: Seq<Item>, c: Census, t: Amounts<String>, rev: Seq<char>)
    requires
        t.outreach_stake.len() == c.top_pools.len(),
        shown(items, "pools_indexed"@).len() == 0,
        shown(items, "pool_stake_ratio"@).len() == 0,
        shown(items, "asn_db_ranges"@).len() == 0,
        shown(items, "asn_min_relays"@).len() == 0,
        shown(items, "asn_relays"@).len() == 0,
        shown(items, "asn_relays_reachable"@).len() == 0,
        shown(items, "asn_stake_ratio"@).len() == 0,
        shown(items, "asn_stake_reachable_ratio"@).len() == 0,
    ensures
        shown(
            operator_items(items, c, t),
            "pools_indexed"@,
        ) == alone(decimal(c.pools_indexed as nat)),
        shown(operator_items(items, c, t), "pool_stake_ratio"@) == by_operator(c, t),
        shown(
            operator_items(items, c, t),
            "asn_db_ranges"@,
        ) == alone(decimal(c.asn_db_ranges as nat)),
        shown(operator_items(items, c, t), "asn_min_relays"@) == (if c.asn_db_ranges == 0 {
            Seq::empty()
        } else {
            alone(decimal(c.asn_min_relays as nat))
        }),
        shown(operator_items(items, c, t), "asn_relays"@) == (if c.asn_db_ranges == 0 {
            Seq::empty()
        } else {
            by_network(
                c.asn_metrics@,
                Seq::new(c.asn_metrics@.len(), |i: int| decimal(c.asn_metrics[i].relays as nat)),
            )
        }),
        shown(operator_items(items, c, t), "asn_relays_reachable"@) == (if c.asn_db_ranges == 0 {
            Seq::empty()
        } else {
            by_network(
                c.asn_metrics@,
                Seq::new(
                    c.asn_metrics@.len(),
                    |i: int| decimal(c.asn_metrics[i].relays_reachable as nat),
                ),
            )
        }),
        shown(operator_items(items, c, t), "asn_stake_ratio"@) == (if c.asn_db_ranges == 0 {
            Seq::empty()
        } else {
            by_network(c.asn_metrics@, t.asn_stake.deep_view())
        }),
        shown(operator_items(items, c, t), "asn_stake_reachable_ratio"@) == (if c.asn_db_ranges == 0 {
            Seq::empty()
        } else {
            by_network(c.asn_metrics@, t.asn_stake_reachable.deep_view())
        }),
{
    broadcast use group_shown;

    lemma_operator_turns();
    lemma_outreach_shown(c, t, "pools_indexed"@);
    lemma_outreach_shown(c, t, "pool_stake_ratio"@);
    lemma_outreach_shown(c, t, "asn_db_ranges"@);
    lemma_outreach_shown(c, t, "asn_min_relays"@);
    lemma_outreach_shown(c, t, "asn_relays"@);
    lemma_outreach_shown(c, t, "asn_relays_reachable"@);
    lemma_outreach_shown(c, t, "asn_stake_ratio"@);
    lemma_outreach_shown(c, t, "asn_stake_reachable_ratio"@);
    lemma_networks_pass(c, t, "pools_indexed"@);
    lemma_networks_pass(c, t, "pool_stake_ratio"@);
    lemma_networks_pass(c, t, "asn_db_ranges"@);
    lemma_networks_series(c, t);
}

proof fn lemma_networks_series(c: Census, t: Amounts<String>)
    ensures
        shown(network_items(c, t), "asn_min_relays"@) == (if c.asn_db_ranges == 0 {
            Seq::empty()
        } else {
            alone(decimal(c.asn_min_relays as nat))
        }),
        shown(network_items(c, t), "asn_relays"@) == (if c.asn_db_ranges == 0 {
            Seq::empty()
        } else {
            by_network(
                c.asn_metrics@,
                Seq::new(c.asn_metrics@.len(), |i: int| decimal(c.asn_metrics[i].relays as nat)),
            )
        }),
        shown(network_items(c, t), "asn_relays_reachable"@) == (if c.asn_db_ranges == 0 {
            Seq::empty()
        } else {
            by_network(
                c.asn_metrics@,
                Seq::new(
                    c.asn_metrics@.len(),
                    |i: int| decimal(c.asn_metrics[i].relays_reachable as nat),
                ),
            )
        }),
        shown(network_items(c, t), "asn_stake_ratio"@) == (if c.asn_db_ranges == 0 {
            Seq::empty()
        } else {
            by_network(c.asn_metrics@, t.asn_stake.deep_view())
        }),
        shown(network_items(c, t), "asn_stake_reachable_ratio"@) == (if c.asn_db_ranges == 0 {
            Seq::empty()
        } else {
            by_network(c.asn_metrics@, t.asn_stake_reachable.deep_view())
        }),
{
    broadcast use group_shown;

    lemma_operator_turns();
    assert(
        crate::metrics::hosted_counts(c.asn_metrics@) =~= Seq::new(
            c.asn_metrics@.len(),
            |i: int| decimal(c.asn_metrics[i].relays as nat),
        )
    );
    assert(
        crate::metrics::live_counts(c.asn_metrics@) =~= Seq::new(
            c.asn_metrics@.len(),
            |i: int| decimal(c.asn_metrics[i].relays_reachable as nat),
        )
    );
}

/// The operators to reach out to are shown with what tells them, and, where a
/// database was loaded, the networks with their relays and stake.
pub proof fn operators_and_networks_are_shown(c: Census, t: Amounts<String>, rev: Seq<char>)
    requires
        t.outreach_stake.len() == c.top_pools.len(),
    ensures
        shown(all_items(c, t, rev), "pools_indexed"@) == alone(decimal(c.pools_indexed as nat)),
        shown(all_items(c, t, rev), "pool_stake_ratio"@) == by_operator(c, t),
        shown(all_items(c, t, rev), "asn_db_ranges"@) == alone(decimal(c.asn_db_ranges as nat)),
        shown(all_items(c, t, rev), "asn_min_relays"@) == (if c.asn_db_ranges == 0 {
            Seq::empty()
        } else {
            alone(decimal(c.asn_min_relays as nat))
        }),
        shown(all_items(c, t, rev), "asn_relays"@) == (if c.asn_db_ranges == 0 {
            Seq::empty()
        } else {
            by_network(
                c.asn_metrics@,
                Seq::new(c.asn_metrics@.len(), |i: int| decimal(c.asn_metrics[i].relays as nat)),
            )
        }),
        shown(all_items(c, t, rev), "asn_relays_reachable"@) == (if c.asn_db_ranges == 0 {
            Seq::empty()
        } else {
            by_network(
                c.asn_metrics@,
                Seq::new(
                    c.asn_metrics@.len(),
                    |i: int| decimal(c.asn_metrics[i].relays_reachable as nat),
                ),
            )
        }),
        shown(all_items(c, t, rev), "asn_stake_ratio"@) == (if c.asn_db_ranges == 0 {
            Seq::empty()
        } else {
            by_network(c.asn_metrics@, t.asn_stake.deep_view())
        }),
        shown(all_items(c, t, rev), "asn_stake_reachable_ratio"@) == (if c.asn_db_ranges == 0 {
            Seq::empty()
        } else {
            by_network(c.asn_metrics@, t.asn_stake_reachable.deep_view())
        }),
{
    lemma_operator_turns();
    lemma_before(c, t, rev, 7, "pools_indexed"@);
    lemma_after(c, t, rev, 8, "pools_indexed"@);
    lemma_before(c, t, rev, 7, "pool_stake_ratio"@);
    lemma_after(c, t, rev, 8, "pool_stake_ratio"@);
    lemma_before(c, t, rev, 7, "asn_db_ranges"@);
    lemma_after(c, t, rev, 8, "asn_db_ranges"@);
    lemma_before(c, t, rev, 7, "asn_min_relays"@);
    lemma_after(c, t, rev, 8, "asn_min_relays"@);
    lemma_before(c, t, rev, 7, "asn_relays"@);
    lemma_after(c, t, rev, 8, "asn_relays"@);
    lemma_before(c, t, rev, 7, "asn_relays_reachable"@);
    lemma_after(c, t, rev, 8, "asn_relays_reachable"@);
    lemma_before(c, t, rev, 7, "asn_stake_ratio"@);
    lemma_after(c, t, rev, 8, "asn_stake_ratio"@);
    lemma_before(c, t, rev, 7, "asn_stake_reachable_ratio"@);
    lemma_after(c, t, rev, 8, "asn_stake_reachable_ratio"@);
    lemma_operator_series(upto(c, t, rev, 7), c, t, rev);
}

#[verifier::rlimit(40)]
proof fn lemma_closing_series(items: Seq<Item>, c: Census, t: Amounts<String>, rev: Seq<char>)
    requires
        t.outreach_stake.len() == c.top_pools.len(),
        shown(items, "scan_duration_seconds"@).len() == 0,
        shown(items, "last_run_timestamp_seconds"@).len() == 0,
        shown(items, "success"@).len() == 0,
    ensures
        shown(closing_items(items, c, t), "scan_duration_seconds"@) == alone(t.scan_duration@),
        shown(
            closing_items(items, c, t),
            "last_run_timestamp_seconds"@,
        ) == alone(decimal(c.timestamp_seconds as nat)),
        shown(closing_items(items, c, t), "success"@) == alone("1"@),
{
    broadcast use group_shown;

    lemma_closing_turns();
}

/// How long the run took, when it ended and that it ended well are shown
/// under their names.
pub proof fn the_end_is_shown(c: Census, t: Amounts<String>, rev: Seq<char>)
    requires
        t.outreach_stake.len() == c.top_pools.len(),
    ensures
        shown(all_items(c, t, rev), "scan_duration_seconds"@) == alone(t.scan_duration@),
        shown(
            all_items(c, t, rev),
            "last_run_timestamp_seconds"@,
        ) == alone(decimal(c.timestamp_seconds as nat)),
        shown(all_items(c, t, rev), "success"@) == alone("1"@),
{
    lemma_closing_turns();
    lemma_before(c, t, rev, 8, "scan_duration_seconds"@);
    lemma_after(c, t, rev, 9, "scan_duration_seconds"@);
    lemma_before(c, t, rev, 8, "last_run_timestamp_seconds"@);
    lemma_after(c, t, rev, 9, "last_run_timestamp_seconds"@);
    lemma_before(c, t, rev, 8, "success"@);
    lemma_after(c, t, rev, 9, "success"@);
    lemma_closing_series(upto(c, t, rev, 8), c, t, rev);
}

/// The name of a histogram's series.
proof fn lemma_histogram_names()
    ensures
        "blp_relay_reachability_bucket"@ == "blp_relay_reachability"@ + "_bucket"@,
        !is_whole("blp_relay_reachability_bucket"@),
        "blp_relay_reachability_sum"@ == "blp_relay_reachability"@ + "_sum"@,
        !is_whole("blp_relay_reachability_sum"@),
        "blp_relay_reachability_count"@ == "blp_relay_reachability"@ + "_count"@,
        !is_whole("blp_relay_reachability_count"@),
        "probe_rtt_seconds_bucket"@ == "probe_rtt_seconds"@ + "_bucket"@,
        !is_whole("probe_rtt_seconds_bucket"@),
        "probe_rtt_seconds_sum"@ == "probe_rtt_seconds"@ + "_sum"@,
        !is_whole("probe_rtt_seconds_sum"@),
        "probe_rtt_seconds_count"@ == "probe_rtt_seconds"@ + "_count"@,
        !is_whole("probe_rtt_seconds_count"@),
        "blp_relay_reachability_bucket"@ != "probe_rtt_seconds_bucket"@,
        "blp_relay_reachability_bucket"@ != "probe_rtt_seconds_sum"@,
        "blp_relay_reachability_bucket"@ != "probe_rtt_seconds_count"@,
        "blp_relay_reachability_sum"@ != "probe_rtt_seconds_bucket"@,
        "blp_relay_reachability_sum"@ != "probe_rtt_seconds_sum"@,
        "blp_relay_reachability_sum"@ != "probe_rtt_seconds_count"@,
        "blp_relay_reachability_count"@ != "probe_rtt_seconds_bucket"@,
        "blp_relay_reachability_count"@ != "probe_rtt_seconds_sum"@,
        "blp_relay_reachability_count"@ != "probe_rtt_seconds_count"@,
{
    reveal_strlit("blp_relay_reachability");
    lemma_endings("blp_relay_reachability"@);
    reveal_strlit("blp_relay_reachability_bucket");
    reveal_strlit("blp_relay_reachability_sum");
    reveal_strlit("blp_relay_reachability_count");
    reveal_strlit("probe_rtt_seconds");
    lemma_endings("probe_rtt_seconds"@);
    reveal_strlit("probe_rtt_seconds_bucket");
    reveal_strlit("probe_rtt_seconds_sum");
    reveal_strlit("probe_rtt_seconds_count");
    reveal_strlit("_bucket");
    reveal_strlit("_sum");
    reveal_strlit("_count");
    assert("blp_relay_reachability_bucket"@ =~= "blp_relay_reachability"@ + "_bucket"@);
    assert("blp_relay_reachability_sum"@ =~= "blp_relay_reachability"@ + "_sum"@);
    assert("blp_relay_reachability_count"@ =~= "blp_relay_reachability"@ + "_count"@);
    assert("probe_rtt_seconds_bucket"@ =~= "probe_rtt_seconds"@ + "_bucket"@);
    assert("probe_rtt_seconds_sum"@ =~= "probe_rtt_seconds"@ + "_sum"@);
    assert("probe_rtt_seconds_count"@ =~= "probe_rtt_seconds"@ + "_count"@);
}

#[verifier::rlimit(40)]
proof fn lemma_histogram_series(items: Seq<Item>, c: Census, t: Amounts<String>)
    requires
        shown(items, "blp_relay_reachability_bucket"@).len() == 0,
        shown(items, "blp_relay_reachability_sum"@).len() == 0,
        shown(items, "blp_relay_reachability_count"@).len() == 0,
        shown(items, "probe_rtt_seconds_bucket"@).len() == 0,
        shown(items, "probe_rtt_seconds_sum"@).len() == 0,
        shown(items, "probe_rtt_seconds_count"@).len() == 0,
    ensures
        shown(time_items(items, c, t), "blp_relay_reachability_bucket"@) == under(
            "le"@,
            Seq::new(
                c.reachability.bounds@.len(),
                |i: int| crate::histogram::bound_text(c.reachability.bounds[i]),
            ).push("+Inf"@),
            Seq::new(
                c.reachability.counts@.len(),
                |i: int| decimal(c.reachability.counts[i] as nat),
            ).push(decimal(c.reachability.count as nat)),
        ),
        shown(time_items(items, c, t), "blp_relay_reachability_sum"@) == alone(t.reachability_sum@),
        shown(
            time_items(items, c, t),
            "blp_relay_reachability_count"@,
        ) == alone(decimal(c.reachability.count as nat)),
        shown(time_items(items, c, t), "probe_rtt_seconds_bucket"@) == under(
            "le"@,
            Seq::new(
                c.rtt_seconds.bounds@.len(),
                |i: int| crate::histogram::bound_text(c.rtt_seconds.bounds[i]),
            ).push("+Inf"@),
            Seq::new(
                c.rtt_seconds.counts@.len(),
                |i: int| decimal(c.rtt_seconds.counts[i] as nat),
            ).push(decimal(c.rtt_seconds.count as nat)),
        ),
        shown(time_items(items, c, t), "probe_rtt_seconds_sum"@) == alone(t.rtt_sum@),
        shown(
            time_items(items, c, t),
            "probe_rtt_seconds_count"@,
        ) == alone(decimal(c.rtt_seconds.count as nat)),
{
    broadcast use group_shown;

    lemma_time_turns();
    lemma_histogram_names();
    lemma_endings("blp_relay_reachability"@);
    lemma_endings("probe_rtt_seconds"@);
    assert(
        crate::metrics::bucket_labels(c.reachability.bounds@) =~= Seq::new(
            c.reachability.bounds@.len(),
            |i: int| crate::histogram::bound_text(c.reachability.bounds[i]),
        ).push("+Inf"@)
    );
    assert(
        crate::metrics::bucket_counts(c.reachability) =~= Seq::new(
            c.reachability.counts@.len(),
            |i: int| decimal(c.reachability.counts[i] as nat),
        ).push(decimal(c.reachability.count as nat))
    );
    assert(
        crate::metrics::bucket_labels(c.rtt_seconds.bounds@) =~= Seq::new(
            c.rtt_seconds.bounds@.len(),
            |i: int| crate::histogram::bound_text(c.rtt_seconds.bounds[i]),
        ).push("+Inf"@)
    );
    assert(
        crate::metrics::bucket_counts(c.rtt_seconds) =~= Seq::new(
            c.rtt_seconds.counts@.len(),
            |i: int| decimal(c.rtt_seconds.counts[i] as nat),
        ).push(decimal(c.rtt_seconds.count as nat))
    );
}

/// The histograms are shown with a bucket for every bound and one for all, with
/// the number of their values and with the sum of them.
pub proof fn histograms_are_shown(c: Census, t: Amounts<String>, rev: Seq<char>)
    requires
        t.outreach_stake.len() == c.top_pools.len(),
    ensures
        shown(all_items(c, t, rev), "blp_relay_reachability_bucket"@) == under(
            "le"@,
            Seq::new(
                c.reachability.bounds@.len(),
                |i: int| crate::histogram::bound_text(c.reachability.bounds[i]),
            ).push("+Inf"@),
            Seq::new(
                c.reachability.counts@.len(),
                |i: int| decimal(c.reachability.counts[i] as nat),
            ).push(decimal(c.reachability.count as nat)),
        ),
        shown(all_items(c, t, rev), "blp_relay_reachability_sum"@) == alone(t.reachability_sum@),
        shown(
            all_items(c, t, rev),
            "blp_relay_reachability_count"@,
        ) == alone(decimal(c.reachability.count as nat)),
        shown(all_items(c, t, rev), "probe_rtt_seconds_bucket"@) == under(
            "le"@,
            Seq::new(
                c.rtt_seconds.bounds@.len(),
                |i: int| crate::histogram::bound_text(c.rtt_seconds.bounds[i]),
            ).push("+Inf"@),
            Seq::new(
                c.rtt_seconds.counts@.len(),
                |i: int| decimal(c.rtt_seconds.counts[i] as nat),
            ).push(decimal(c.rtt_seconds.count as nat)),
        ),
        shown(all_items(c, t, rev), "probe_rtt_seconds_sum"@) == alone(t.rtt_sum@),
        shown(
            all_items(c, t, rev),
            "probe_rtt_seconds_count"@,
        ) == alone(decimal(c.rtt_seconds.count as nat)),
{
    lemma_histogram_names();
    lemma_before(c, t, rev, 5, "blp_relay_reachability_bucket"@);
    lemma_after(c, t, rev, 6, "blp_relay_reachability_bucket"@);
    lemma_before(c, t, rev, 5, "blp_relay_reachability_sum"@);
    lemma_after(c, t, rev, 6, "blp_relay_reachability_sum"@);
    lemma_before(c, t, rev, 5, "blp_relay_reachability_count"@);
    lemma_after(c, t, rev, 6, "blp_relay_reachability_count"@);
    lemma_before(c, t, rev, 5, "probe_rtt_seconds_bucket"@);
    lemma_after(c, t, rev, 6, "probe_rtt_seconds_bucket"@);
    lemma_before(c, t, rev, 5, "probe_rtt_seconds_sum"@);
    lemma_after(c, t, rev, 6, "probe_rtt_seconds_sum"@);
    lemma_before(c, t, rev, 5, "probe_rtt_seconds_count"@);
    lemma_after(c, t, rev, 6, "probe_rtt_seconds_count"@);
    lemma_histogram_series(upto(c, t, rev, 5), c, t);
}

/// A run that could not complete shows what wrote it, when it ended and that it
/// did not end well, and nothing else.
pub proof fn a_failure_is_shown(timestamp_seconds: u64, rev: Seq<char>, q: Seq<char>)
    ensures
        ({
            let items = crate::metrics::failure_items(timestamp_seconds, rev);
            &&& shown(items, "build_info"@) == builds(rev)
            &&& shown(items, "last_run_timestamp_seconds"@) == alone(
                decimal(timestamp_seconds as nat),
            )
            &&& shown(items, "success"@) == alone("0"@)
            &&& q != "build_info"@ && q != "last_run_timestamp_seconds"@ && q != "success"@
                ==> shown(items, q).len() == 0
        }),
{
    broadcast use group_shown;

    lemma_source_turns();
    lemma_closing_turns();
    lemma_build_shown(rev, q);
    lemma_build_shown(rev, "build_info"@);
    lemma_build_shown(rev, "last_run_timestamp_seconds"@);
    lemma_build_shown(rev, "success"@);
}

// Lines.

proof fn lemma_written_at(base: Seq<(Seq<char>, Seq<char>)>, items: Seq<Item>, i: int) -> (k: int)
    requires
        0 <= i < items.len(),
    ensures
        0 <= k,
        k + crate::metrics::item_text(base, items[i]).len() <= crate::metrics::written(
            base,
            items,
        ).len(),
        crate::metrics::written(base, items).subrange(
            k,
            k + crate::metrics::item_text(base, items[i]).len(),
        ) == crate::metrics::item_text(base, items[i]),
    decreases items.len(),
{
    let all = crate::metrics::written(base, items);
    let front = crate::metrics::written(base, items.drop_last());
    let line = crate::metrics::item_text(base, items[i]);
    if i < items.len() - 1 {
        let k = lemma_written_at(base, items.drop_last(), i);
        assert(all.subrange(k, k + line.len()) =~= front.subrange(k, k + line.len()));
        k
    } else {
        let k = front.len() as int;
        assert(all.subrange(k, k + line.len()) =~= line);
        k
    }
}

/// Does the line `line` stand in `text`?
pub open spec fn has_line(text: Seq<char>, line: Seq<char>) -> bool {
    exists|k: int|
        0 <= k && k + line.len() <= text.len() && #[trigger] text.subrange(k, k + line.len())
            == line
}

/// A series without labels is written as its name behind the prefix, a space
/// and its value; one with a label has the label in braces behind its name; and
/// a family is written as what it is for and of what kind it is.
pub proof fn series_are_written_as_lines(items: Seq<Item>, i: int)
    requires
        0 <= i < items.len(),
    ensures
        ({
            let text = crate::metrics::written(Seq::empty(), items);
            &&& items[i] matches Item::Sample { name, labels, value } ==> {
                &&& labels.len() == 0 ==> has_line(
                    text,
                    "cardano_census_"@ + name + " "@ + value + "\n"@,
                )
                &&& labels.len() == 1 ==> has_line(
                    text,
                    "cardano_census_"@ + name + "{"@ + labels[0].0 + "=\""@
                        + crate::metrics::escaped(labels[0].1) + "\""@ + "}"@ + " "@ + value
                        + "\n"@,
                )
            }
            &&& items[i] matches Item::Family { name, kind, help } ==> has_line(
                text,
                "# HELP "@ + "cardano_census_"@ + name + " "@ + help + "\n# TYPE "@
                    + "cardano_census_"@ + name + " "@ + kind + "\n"@,
            )
        }),
{
    let base = Seq::<(Seq<char>, Seq<char>)>::empty();
    let k = lemma_written_at(base, items, i);
    match items[i] {
        Item::Sample { name, labels, value } => {
            let at = crate::count::select(0, crate::metrics::unset(base, labels));
            assert(crate::metrics::stamped(base, labels) =~= labels);
            if labels.len() == 0 {
                assert(crate::metrics::item_text(base, items[i]) =~= "cardano_census_"@ + name
                    + " "@ + value + "\n"@);
            }
            if labels.len() == 1 {
                let parts = labels.map_values(|p| crate::metrics::pair_text(p));
                reveal_with_fuel(crate::text::joined, 2);
                assert(parts.len() == 1 && parts[0] == crate::metrics::pair_text(labels[0]));
                assert(crate::text::joined(parts, ","@) =~= parts[0]);
                assert(crate::metrics::item_text(base, items[i]) =~= "cardano_census_"@ + name
                    + "{"@ + labels[0].0 + "=\""@ + crate::metrics::escaped(labels[0].1) + "\""@
                    + "}"@ + " "@ + value + "\n"@);
            }
        },
        Item::Family { name, kind, help } => {
            assert(crate::metrics::item_text(base, items[i]) =~= "# HELP "@ + "cardano_census_"@
                + name + " "@ + help + "\n# TYPE "@ + "cardano_census_"@ + name + " "@ + kind
                + "\n"@);
        },
    }
}

/// In a label a backslash and a quote get a backslash before them, the end of
/// a line becomes a backslash and an n, and everything else stays.
pub proof fn labels_are_escaped(a: Seq<char>, x: char, b: Seq<char>)
    ensures
        ({
            let e = crate::metrics::escaped(a + seq![x] + b);
            let (front, back) = (crate::metrics::escaped(a), crate::metrics::escaped(b));
            &&& x as int == 92 ==> e == front + seq![x, x] + back
            &&& x as int == 34 ==> e == front + seq![92u8 as char, x] + back
            &&& x as int == 10 ==> e == front + seq![92u8 as char, 110u8 as char] + back
            &&& x as int != 92 && x as int != 34 && x as int != 10 ==> e == front + seq![x] + back
        }),
{
    crate::metrics::escaping_goes_piece_by_piece(a + seq![x], b);
    crate::metrics::escaping_goes_piece_by_piece(a, seq![x]);
    assert(seq![x].drop_last() =~= Seq::<char>::empty());
    reveal_with_fuel(crate::metrics::escaped, 2);
    assert(crate::metrics::escaped(seq![x]) =~= crate::metrics::escaped_char(x));
}

/// A bound of whole units is written without decimals, and any other with as
/// many as it takes.
pub proof fn bounds_are_written_in_decimals(bound: u64, s: nat, h: int, t: int, u: int)
    requires
        0 <= h < 10,
        0 <= t < 10,
        0 <= u < 10,
        bound == 1000 * s + 100 * h + 10 * t + u,
    ensures
        ({
            let text = crate::histogram::bound_text(bound);
            let digit = |d: int| (48 + d) as char;
            &&& h == 0 && t == 0 && u == 0 ==> text == decimal(s)
            &&& h != 0 && t == 0 && u == 0 ==> text == decimal(s) + seq!['.', digit(h)]
            &&& t != 0 && u == 0 ==> text == decimal(s) + seq!['.', digit(h), digit(t)]
            &&& u != 0 ==> text == decimal(s) + seq!['.', digit(h), digit(t), digit(u)]
        }),
{
    let r = bound as int % 1000;
    assert(r == 100 * h + 10 * t + u);
    assert(bound as nat / 1000 == s);
    assert(r / 100 == h && r / 10 % 10 == t && r % 10 == u);
    assert(r % 100 == 10 * t + u);
    assert(decimal(s) + Seq::<char>::empty() =~= decimal(s));
}

} // verus!
