use cardano_census::histogram::Ratio;
use cardano_census::operators::{distinct_endpoints, operators, outreach, thin, OutreachRow, PoolStat, Reach};
use cardano_census::pools::{operator_domain, PoolMeta};

fn pool_stat(index: usize, meta: Option<PoolMeta>, relays: &[&str]) -> PoolStat {
    PoolStat {
        index,
        relays_total: relays.len(),
        relays_reachable: 0,
        reach: Reach::Unreached,
        fraction: Ratio { num: 0, den: 1 },
        chances: Vec::new(),
        fastest_rtt_ms: None,
        meta,
        relays_reversed: 0,
        reasons: vec!["timeout"],
        endpoints: relays.iter().map(|r| r.to_string()).collect(),
        relays: relays.iter().map(|r| r.to_string()).collect(),
    }
}

/// The stake of a row in thousandths, given that of each pool.
fn stake(row: &OutreachRow, stakes: &[u64]) -> u64 {
    row.stake.iter().map(|s| stakes[s.pool] / s.parts).sum()
}

fn keys(rows: &[OutreachRow], stakes: &[u64]) -> Vec<u64> {
    rows.iter().map(|r| stake(r, stakes)).collect()
}

#[test]
fn distinct_endpoints_counts_hosts_not_addresses() {
    let s = |v: &[&str]| v.iter().map(|k| k.to_string()).collect::<Vec<_>>();
    assert_eq!(distinct_endpoints(&s(&["192.0.2.1:3001", "192.0.2.2:3001", "192.0.2.3:3001"])), 3);
    assert_eq!(distinct_endpoints(&s(&["192.0.2.1:3001", "[2001:db8::1]:3001"])), 1, "dual stack is one host");
    assert_eq!(distinct_endpoints(&s(&["[2001:db8::1]:3001", "[2001:db8::2]:3001", "192.0.2.1:3001"])), 2);
    assert_eq!(distinct_endpoints(&s(&["dead.example:3001", "192.0.2.1:3001"])), 2, "an unresolved name is one relay");
    assert_eq!(distinct_endpoints(&[]), 0);
}

#[test]
fn anonymous_pools_merge_by_relay_domain() {
    let bare = |id: &str| Some(PoolMeta { pool_id: id.into(), ticker: None, name: None });
    let named = Some(PoolMeta { pool_id: "pool1named".into(), ticker: Some("NMD".into()), name: None });
    let stakes = [30, 30, 20, 10];
    let pools = vec![
        pool_stat(0, bare("pool1a"), &["112.cardano.staked.cloud:3001"]),
        pool_stat(1, bare("pool1b"), &["113.cardano.staked.cloud:3001"]),
        pool_stat(2, named, &["r.staked.cloud:3001"]),
        pool_stat(3, bare("pool1c"), &["203.0.113.9:3001"]),
    ];
    let ops = operators(&pools);
    let rows = outreach(&ops, &keys(&ops, &stakes), 10);
    let by_id = |id: &str| rows.iter().find(|r| r.pool_id == id).unwrap();
    let staked = by_id("pool1a");
    assert_eq!((staked.pools, staked.name.as_str(), stake(staked, &stakes)), (2, "staked.cloud", 60));
    assert_eq!((staked.endpoints, staked.reasons.as_str()), (2, "timeout"));
    assert_eq!(by_id("pool1named").pools, 1, "a pool with a ticker keeps its own row");
    assert_eq!(by_id("pool1c").name, "", "an IP-only anonymous pool has no domain to merge on");
    assert_eq!(rows.len(), 3);
}

#[test]
fn operators_merge_reach_and_reasons_and_thin_ranks_by_pools_per_endpoint() {
    let meta = |id: &str| Some(PoolMeta { pool_id: id.into(), ticker: Some(id.to_uppercase()), name: None });
    // An exchange: twenty pools, the same three endpoints, half reachable.
    let mut pools: Vec<PoolStat> = (0..20)
        .map(|i| {
            let mut p = pool_stat(i, meta("pool1exch"), &["a:1", "b:1", "c:1"]);
            p.reach = if i % 2 == 0 { Reach::Full } else { Reach::Unreached };
            p.reasons = if i % 2 == 0 { vec![] } else { vec!["private address", "timeout"] };
            p
        })
        .collect();
    // A healthy pool with two relays of its own, and a lone pool behind one relay.
    let mut healthy = pool_stat(20, meta("pool1two"), &["x:1", "y:1"]);
    healthy.reach = Reach::Full;
    healthy.reasons = vec![];
    pools.push(healthy);
    pools.push(pool_stat(21, meta("pool1one"), &["z:1"]));
    let mut stakes = vec![1; 20];
    stakes.extend([50, 2]);

    let ops = operators(&pools);
    let exch = ops.iter().find(|r| r.pool_id == "pool1exch").unwrap();
    assert_eq!((exch.pools, exch.endpoints, exch.reach), (20, 3, Reach::Partial));
    assert_eq!(exch.reasons, "private address, timeout", "first reason of each pool weighs most");

    let keys = keys(&ops, &stakes);
    let thin_rows = thin(&ops, &keys, 10);
    let ids: Vec<&str> = thin_rows.iter().map(|r| r.pool_id.as_str()).collect();
    assert_eq!(ids, vec!["pool1exch", "pool1one"], "20 pools on 3 endpoints, then 1 on 1; 1 on 2 is not thin");

    let out = outreach(&ops, &keys, 10);
    assert!(out.iter().all(|r| r.reach != Reach::Full));
    assert_eq!(out[0].pool_id, "pool1exch", "largest stake among the not fully reachable");
}

#[test]
fn lists_stop_at_the_limit() {
    let pools = vec![pool_stat(0, None, &["192.0.2.1:1"]), pool_stat(1, None, &["192.0.2.2:1"]), pool_stat(2, None, &["192.0.2.3:1"])];
    let ops = operators(&pools);
    assert_eq!(ops.len(), 3);
    let keys = [5, 9, 7];
    let top: Vec<String> = outreach(&ops, &keys, 2).into_iter().map(|r| r.pool_id).collect();
    assert_eq!(top, vec!["192.0.2.2:1", "192.0.2.3:1"]);
    assert!(outreach(&ops, &keys, 0).is_empty());
    let thinnest: Vec<String> = thin(&ops, &keys, 2).into_iter().map(|r| r.pool_id).collect();
    assert_eq!(thinnest, vec!["192.0.2.2:1", "192.0.2.3:1"], "equally thin, so the larger stake first");
}

#[test]
fn pools_without_an_index_merge_by_their_relays() {
    let pools = vec![
        pool_stat(0, None, &["192.0.2.1:1", "192.0.2.2:1"]),
        pool_stat(1, None, &["192.0.2.1:1", "192.0.2.2:1"]),
        pool_stat(2, None, &["192.0.2.1:1"]),
    ];
    let ops = operators(&pools);
    let flat: Vec<(&str, u64, u64)> = ops.iter().map(|r| (r.pool_id.as_str(), r.pools, r.relays_total)).collect();
    assert_eq!(flat, vec![("192.0.2.1:1", 1, 1), ("192.0.2.1:1", 2, 4)]);
}

#[test]
fn the_order_of_relays_does_not_matter() {
    let pools = vec![
        pool_stat(0, None, &["203.0.113.1:1", "203.0.113.2:1"]),
        pool_stat(1, None, &["203.0.113.2:1", "203.0.113.1:1"]),
    ];
    let ops = operators(&pools);
    assert_eq!(ops.len(), 1);
    assert_eq!((ops[0].pools, ops[0].endpoints, ops[0].pool_id.as_str()), (2, 2, "203.0.113.1:1"));
    assert_eq!(ops[0].relays, vec!["203.0.113.1:1", "203.0.113.2:1"]);
}

#[test]
fn a_relay_that_is_listed_twice_counts_once_in_the_set() {
    let (a, b) = ("203.0.113.1:1", "203.0.113.2:1");
    let pools = vec![pool_stat(0, None, &[a, a, b]), pool_stat(1, None, &[a, b, b]), pool_stat(2, None, &[b])];
    let ops = operators(&pools);
    let flat: Vec<(u64, u64, &[String])> = ops.iter().map(|r| (r.pools, r.relays_total, r.relays.as_slice())).collect();
    assert_eq!(flat, vec![(2, 6, &[a.to_string(), b.to_string()][..]), (1, 1, &[b.to_string()][..])]);
}

#[test]
fn every_row_has_labels_of_its_own() {
    let bare = |id: &str| Some(PoolMeta { pool_id: id.into(), ticker: None, name: None });
    let pools = vec![
        pool_stat(0, bare("pool1a"), &["a.x.example:1"]),
        pool_stat(1, None, &["b.x.example:1"]),
        pool_stat(2, bare("pool1b"), &["203.0.113.1:1"]),
        pool_stat(3, None, &["203.0.113.1:1", "203.0.113.2:1"]),
        pool_stat(4, None, &["203.0.113.1:1"]),
        pool_stat(5, None, &["203.0.113.2:1", "203.0.113.1:1"]),
        pool_stat(6, None, &[]),
    ];
    let ops = operators(&pools);
    let mut labels: Vec<String> = ops.iter().map(|r| format!("{}|{}|{}|{}", r.pool_id, r.ticker, r.name, r.relays.join(", "))).collect();
    labels.sort();
    labels.dedup();
    assert_eq!((ops.len(), labels.len()), (5, 5));
}

#[test]
fn a_domain_is_shared_by_all_relays_or_by_none() {
    let s = |v: &[&str]| v.iter().map(|k| k.to_string()).collect::<Vec<_>>();
    assert_eq!(operator_domain(&s(&["a.x.example:1", "b.y.x.example:2"])).as_deref(), Some("x.example"));
    assert_eq!(operator_domain(&s(&["a.x.example:1", "a.y.org:1"])), None);
    assert_eq!(operator_domain(&s(&["192.0.2.1:1"])), None);
    assert_eq!(operator_domain(&[]), None);
}

#[test]
fn reaches_have_their_labels() {
    let labels: Vec<&str> = Reach::ALL.iter().map(|r| r.label()).collect();
    assert_eq!(labels, vec!["none", "partial", "full"]);
}
