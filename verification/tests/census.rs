use cardano_census::amounts::{amounts, Amount, Amounts};
use cardano_census::asn::AsnDb;
use cardano_census::census::{build, ipv4_reversal, Census, Ipv4Reversal, Span};
use cardano_census::churn::{Change, PrevRelay, Previous};
use cardano_census::histogram::Ratio;
use cardano_census::ip::{Ip, SockAddr};
use cardano_census::metrics::render;
use cardano_census::networks::AsnGroup;
use cardano_census::operators::Reach;
use cardano_census::pools::{PoolIndex, Record};
use cardano_census::probe::{Failed, Family, Outcome, Reached, Stage, Tip};
use cardano_census::report::rows;
use cardano_census::resolve::{Endpoint, Entry};
use cardano_census::reversed::Shadow;
use cardano_census::snapshot::{Point, Pool, Relay, Snapshot};
use cardano_census::stake::Share;

fn reached() -> Outcome {
    Ok(Reached {
        peer: SockAddr { ip: Ip::V4(0xc0000201), port: 3001, scope: 0 },
        family: Family::V4,
        n2n_version: "14".into(),
        tip: Tip { slot: 1, hash: "aa".into(), block: 1 },
        rtt_ms: 10,
    })
}

fn failed() -> Outcome {
    Err(Failed { stage: Stage::Connect, error: "timeout".into(), versions: None })
}

fn none(r: &Ipv4Reversal) -> bool {
    (r.relays, r.reachable_given, r.reachable_reversed, r.pools_reversed_only, r.stake_reversed_only.len()) == (0, 0, 0, 0, 0)
}

#[test]
fn ipv4_reversal_counts_entries_and_pools_only_the_reversal_reaches() {
    let entries = vec![
        Entry { pool: 0, address: "20.61.229.103".into(), port: Some(3001) },
        Entry { pool: 0, address: "relay.example".into(), port: Some(3001) },
        Entry { pool: 1, address: "170.23.181.50".into(), port: Some(6001) },
        Entry { pool: 2, address: "198.51.100.7".into(), port: Some(3001) },
        Entry { pool: 2, address: "198.51.100.8".into(), port: Some(3001) },
    ];
    let outcomes = vec![Some(failed()), Some(failed()), Some(reached()), Some(failed()), Some(failed())];
    let shadow = Shadow {
        address: vec![
            Some("103.229.61.20:3001".into()),
            None,
            Some("50.181.23.170:6001".into()),
            Some("7.100.51.198:3001".into()),
            Some("8.100.51.198:3001".into()),
        ],
        reachable: vec![Some(true), None, Some(false), Some(true), Some(true)],
    };
    let r = ipv4_reversal(&entries, &outcomes, &shadow, &[0, 1, 0]);
    assert_eq!((r.relays, r.reachable_given, r.reachable_reversed, r.pools_reversed_only), (4, 1, 3, 2));
    let stakes = [0.1, 0.2, 0.3];
    assert_eq!(r.stake_reversed_only.iter().map(|s| stakes[s.pool] / s.parts as f64).sum::<f64>(), 0.4);
    assert!(none(&ipv4_reversal(&entries, &outcomes, &Shadow::none(entries.len()), &[0, 1, 0])));
}

fn relay(address: &str, port: Option<u16>) -> Relay {
    Relay { address: address.into(), port }
}

fn pool(stake: f64, relays: Vec<Relay>) -> Pool<f64> {
    Pool { accumulated_stake: stake * 2.0, relative_stake: stake, relays }
}

fn endpoint(key: &str, ip: Option<Ip>, entries: &[(usize, Option<u16>)]) -> Endpoint {
    Endpoint {
        key: key.into(),
        entries: entries.iter().map(|e| e.0).collect(),
        weights: entries.iter().map(|e| e.1).collect(),
        addrs: ip.into_iter().collect(),
        dns_error: None,
        remembered: false,
        last_seen: None,
    }
}

fn tip(ip: Ip, version: &str, hash: &str, block: u64, rtt_ms: u64) -> Option<Outcome> {
    Some(Ok(Reached {
        peer: SockAddr { ip, port: 3001, scope: 0 },
        family: match ip {
            Ip::V4(_) => Family::V4,
            Ip::V6(_) => Family::V6,
        },
        n2n_version: version.into(),
        tip: Tip { slot: block * 20, hash: hash.into(), block },
        rtt_ms,
    }))
}

const A: Ip = Ip::V4(0x05000001);
const B: Ip = Ip::V4(0x05000002);
const C: Ip = Ip::V6(0x2001_4860 << 96);

/// Four pools: one whose two relays both answer, one with an SRV name of two
/// targets of which one answers beside a relay that refuses, one at a private
/// address, and one without relays.
struct Run {
    snap: Snapshot<f64>,
    entries: Vec<Entry>,
    endpoints: Vec<Endpoint>,
    outcomes: Vec<Option<Outcome>>,
    srv_errors: Vec<Option<String>>,
    shadow: Shadow,
}

fn run() -> Run {
    let snap = Snapshot {
        network_magic: 2,
        node_to_client_version: 16,
        point: Point { block_point_hash: "ff".into(), block_point_slot: 99 },
        pools: vec![
            pool(0.4, vec![relay("a.example", Some(3001)), relay("b.example", Some(3001))]),
            pool(0.25, vec![relay("srv.example", None), relay("c.example", Some(3001))]),
            pool(0.125, vec![relay("10.0.0.1", Some(3001))]),
            pool(0.0625, vec![]),
        ],
    };
    let entries = cardano_census::resolve::entries(&snap);
    let mut refused = endpoint("5.0.0.4:3001", Some(Ip::V4(0x05000004)), &[(3, None)]);
    refused.remembered = true;
    let endpoints = vec![
        endpoint("5.0.0.1:3001", Some(A), &[(0, None)]),
        endpoint("5.0.0.2:3001", Some(B), &[(1, None), (2, Some(3))]),
        endpoint("[2001:4860::]:3001", Some(C), &[(2, Some(1))]),
        refused,
        endpoint("10.0.0.1:3001", Some(Ip::V4(0x0a000001)), &[(4, None)]),
    ];
    let outcomes = vec![
        tip(A, "14", "aa", 100, 900),
        tip(B, "13", "bb", 99, 2000),
        Some(failed()),
        Some(Err(Failed { stage: Stage::Connect, error: "Connection refused".into(), versions: None })),
        Some(Err(Failed { stage: Stage::Address, error: "private address 10.0.0.1, not probed".into(), versions: None })),
    ];
    let mut shadow = Shadow::none(5);
    shadow.address[4] = Some("1.0.0.10:3001".into());
    shadow.reachable[4] = Some(true);
    Run { snap, entries, endpoints, outcomes, srv_errors: vec![None; 5], shadow }
}

fn sum(shares: &[Share], snap: &Snapshot<f64>) -> f64 {
    shares.iter().fold(0.0, |a, s| a + snap.pools[s.pool].relative_stake / s.parts as f64)
}

fn census(r: &Run, previous: Option<&Previous>, db: Option<&AsnDb>, index: Option<&PoolIndex>) -> Census {
    build(
        "peers.json",
        &r.snap,
        &r.entries,
        &r.endpoints,
        &r.outcomes,
        &r.srv_errors,
        &r.shadow,
        previous,
        10,
        db,
        2,
        index,
        5,
        Span { secs: 3, nanos: 500_000_000 },
        1234,
        |shares: &Vec<Share>| (sum(shares, &r.snap) * 1e6) as u64,
    )
}

#[test]
fn a_census_counts_relays_and_endpoints() {
    let r = run();
    let c = census(&r, None, None, None);
    assert_eq!((c.snapshot_source.as_str(), c.network_magic, c.node_to_client_version), ("peers.json", 2, 16));
    assert_eq!((c.snapshot_slot, c.snapshot_hash.as_str(), c.blp_total), (99, "ff", 4));
    assert!((sum(&c.snapshot_stake, &r.snap) - 0.8375).abs() < 1e-12);
    assert_eq!((c.relays_total, c.relays_srv), (5, 1));
    assert_eq!((c.endpoints_total, c.endpoints_probed, c.endpoints_remembered), (5, 4, 1));
    assert_eq!((c.relays_reachable_v4, c.relays_reachable_v6), (3, 0));
    let failed: Vec<(&str, u64)> = c.relays_failed.iter().map(|(s, n)| (s.label(), *n)).collect();
    assert_eq!(failed, vec![("srv", 0), ("dns", 0), ("address", 1), ("connect", 1), ("handshake", 0), ("chainsync", 0)]);
    assert_eq!(c.relays_failed_connect, vec![("timeout", 0), ("refused", 1), ("unreachable", 0), ("other", 0)]);
    assert_eq!((c.srv_endpoints_total, c.srv_endpoints_reachable), (2, 1));
    let (name, set) = &c.srv_sets[0];
    assert_eq!((c.srv_sets.len(), name.as_str(), set.targets, set.reachable), (1, "srv.example", 2, 1));
    assert_eq!((set.reach_probability.num, set.reach_probability.den), (3, 4));
    let versions: Vec<(&str, u64)> = c.n2n_versions.iter().map(|(v, g)| (v.as_str(), g.relays)).collect();
    assert_eq!(versions, vec![("13", 2), ("14", 1)]);
    assert!((sum(&c.n2n_versions[0].1.stake, &r.snap) - 0.325).abs() < 1e-12);
    assert_eq!((c.scan_duration, c.timestamp_seconds), (Span { secs: 3, nanos: 500_000_000 }, 1234));
    assert!(c.churn.is_none() && c.entry_change.iter().all(|x| x.is_none()));
}

#[test]
fn a_census_weighs_pools_by_what_answered() {
    let r = run();
    let c = census(&r, None, None, None);
    let reach: Vec<(&str, u64)> = c.blp_by_reach.iter().map(|(x, g)| (x.label(), g.pools)).collect();
    assert_eq!(reach, vec![("none", 2), ("partial", 1), ("full", 1)]);
    let stats: Vec<(usize, usize, Reach)> = c.pools.iter().map(|p| (p.relays_total, p.relays_reachable, p.reach)).collect();
    assert_eq!(stats, vec![(2, 2, Reach::Full), (2, 1, Reach::Partial), (1, 0, Reach::Unreached), (0, 0, Reach::Unreached)]);
    assert_eq!(c.pools[0].fastest_rtt_ms, Some(900));
    assert_eq!((c.pools[1].fraction.num, c.pools[1].fraction.den), (1, 2));
    assert_eq!(c.pools[1].reasons, vec!["refused"]);
    assert_eq!(c.pools[2].reasons, vec!["reversed ipv4"]);
    assert_eq!(c.pools[1].endpoints, vec!["5.0.0.2:3001", "[2001:4860::]:3001", "5.0.0.4:3001"]);
    assert_eq!(c.pools[1].relays, vec!["srv.example", "c.example:3001"]);
    assert_eq!(c.reachability.counts, vec![2, 2, 3, 3, 4]);
    assert_eq!(c.stake_reachable_within.values[0], vec![0], "within a second");
    assert_eq!(c.stake_reachable_within.total, vec![0, 1]);
    assert_eq!(c.relays_reachable_within.total, vec![0, 1, 2]);
    assert_eq!((c.ipv4.relays, c.ipv4.reachable_given, c.ipv4.reachable_reversed, c.ipv4.pools_reversed_only), (1, 0, 1, 1));
    let listed: Vec<&str> = c.top_pools.iter().map(|p| p.pool_id.as_str()).collect();
    assert_eq!(listed, vec!["srv.example", "10.0.0.1:3001", ""]);
    assert_eq!(c.pools_indexed, 0);
}

#[test]
fn a_census_follows_the_tips() {
    let c = census(&run(), None, None, None);
    assert_eq!((c.tip_block_max, c.tip_slot_max, c.tips_at_max_block, c.fork_tolerance), (100, 2000, 1, 10));
    assert_eq!(c.chains.len(), 1);
    assert_eq!((c.chains[0].relays, c.chains[0].block_max, c.chains[0].block_min), (3, 100, 99));
    assert_eq!(c.relays_within_blocks_of_tip.values[0], vec![0]);
    assert_eq!(c.relays_within_blocks_of_tip.values[1], vec![0, 1, 2]);
    assert_eq!(c.stake_within_blocks_of_tip.values[0], vec![0]);
    assert_eq!(c.stake_within_blocks_of_tip.total, vec![0, 1]);
    assert!(c.entry_tips[4].is_none());
}

#[test]
fn tips_at_the_highest_block_count_from_every_endpoint() {
    let mut r = run();
    r.snap.pools = vec![pool(0.5, vec![relay("a.example", Some(3001))])];
    r.entries = cardano_census::resolve::entries(&r.snap);
    r.endpoints = vec![endpoint("5.0.0.1:3001", Some(A), &[(0, None)]), endpoint("5.0.0.2:3001", Some(B), &[(0, None)])];
    r.outcomes = vec![tip(A, "14", "aa", 100, 10), tip(B, "14", "bb", 101, 20)];
    r.srv_errors = vec![None];
    r.shadow = Shadow::none(1);
    let c = census(&r, None, None, None);
    assert_eq!((c.tip_block_max, c.tip_slot_max, c.tips_at_max_block), (101, 2020, 1));
    assert_eq!(c.entry_tips[0].map(|t| t.lag_blocks), Some(1), "the entry's tip is that of its fastest endpoint");

    r.outcomes = vec![tip(A, "14", "aa", 101, 10), tip(B, "14", "bb", 101, 20)];
    assert_eq!(census(&r, None, None, None).tips_at_max_block, 2);
    r.outcomes = vec![None, None];
    assert_eq!(census(&r, None, None, None).tips_at_max_block, 0);
}

#[test]
fn a_census_places_relays_in_networks() {
    let r = run();
    let db = AsnDb::parse("5.0.0.0\t5.0.0.2\t77\tUS\tSEVEN\n5.0.0.4\t5.0.0.4\t78\tUS\tEIGHT\n");
    let c = census(&r, None, Some(&db), None);
    assert_eq!((c.asn_db_ranges, c.asn_min_relays), (2, 2));
    let table: Vec<(&str, &str, u64, u64)> = c.asn_table.iter().map(|g| (g.asn.as_str(), g.name.as_str(), g.relays, g.relays_reachable)).collect();
    assert_eq!(table, vec![("77", "SEVEN", 3, 3), ("78", "EIGHT", 1, 0), ("private", "private", 1, 0)]);
    let metrics: Vec<(&str, u64)> = c.asn_metrics.iter().map(|g| (g.asn.as_str(), g.relays)).collect();
    assert_eq!(metrics, vec![("77", 3), ("private", 1), ("other", 1)]);
    let live = |groups: &[AsnGroup]| groups.iter().map(|g| g.relays_reachable).sum::<u64>();
    assert_eq!((live(&c.asn_table), live(&c.asn_metrics)), (3, 3));
    assert_eq!(c.entry_asn.iter().map(|a| a.as_ref().map(|a| a.asn)).collect::<Vec<_>>(), vec![Some(77), Some(77), Some(77), Some(78), None]);
}

#[test]
fn a_census_names_pools_and_tells_churn() {
    let r = run();
    let index = PoolIndex::from_records(vec![Record {
        pool_id: "pool1c".into(),
        ticker: Some("SEE".into()),
        name: Some("Sea".into()),
        relays: vec!["C.example.:3001".into()],
    }]);
    let prev = |a: &str, reachable: bool| PrevRelay { address: a.into(), port: Some(3001), reachable, asn: None };
    let previous = Previous::from_relays(&[prev("a.example", false), prev("c.example", true), prev("b.example", true)], 1000);
    let c = census(&r, Some(&previous), None, Some(&index));
    assert_eq!(c.pools_indexed, 1);
    assert_eq!((c.top_pools[0].pool_id.as_str(), c.top_pools[0].ticker.as_str(), c.top_pools[0].name.as_str()), ("pool1c", "SEE", "Sea"));
    let churn = c.churn.as_ref().unwrap();
    assert_eq!((churn.previous_timestamp_seconds, churn.to_reachable, churn.to_unreachable), (1000, 1, 1));
    assert!((sum(&churn.stake_to_reachable, &r.snap) - 0.2).abs() < 1e-12);
    assert_eq!(c.entry_change, vec![Some(Change::BecameReachable), None, None, Some(Change::BecameUnreachable), None]);
}

fn ratio(r: &Ratio) -> f64 {
    r.num as f64 / r.den as f64
}

fn number(x: f64) -> String {
    ((x * 1e9).round() / 1e9 + 0.0).to_string()
}

fn amount(a: &Amount, snap: &Snapshot<f64>) -> String {
    number(match a {
        Amount::Stake(sums) => sums.iter().map(|s| sum(s, snap)).sum(),
        Amount::Weighted(pools) => pools
            .iter()
            .map(|(p, chances)| match chances.len() {
                0 => 0.0,
                n => snap.pools[*p].relative_stake * (chances.iter().map(ratio).sum::<f64>() / n as f64),
            })
            .sum(),
        Amount::Fraction(r) => ratio(r),
        Amount::Sum(rs) => rs.iter().map(ratio).sum(),
        Amount::Time(t) => t.secs as f64 + t.nanos as f64 / 1e9,
    })
}

fn texts(a: &Amounts<Amount>, snap: &Snapshot<f64>) -> Amounts<String> {
    let one = |x: &Amount| amount(x, snap);
    let all = |v: &[Amount]| v.iter().map(one).collect::<Vec<String>>();
    Amounts {
        snapshot_stake: one(&a.snapshot_stake),
        srv_probability: all(&a.srv_probability),
        version_stake: all(&a.version_stake),
        reach_stake: all(&a.reach_stake),
        reachable_stake: one(&a.reachable_stake),
        reversed_only_stake: one(&a.reversed_only_stake),
        reachable_with_reversed: one(&a.reachable_with_reversed),
        relay_weighted_stake: one(&a.relay_weighted_stake),
        stake_within: all(&a.stake_within),
        reachability_sum: one(&a.reachability_sum),
        rtt_sum: one(&a.rtt_sum),
        main_stake: one(&a.main_stake),
        other_stake: one(&a.other_stake),
        stake_near_tip: all(&a.stake_near_tip),
        outreach_stake: all(&a.outreach_stake),
        asn_stake: all(&a.asn_stake),
        asn_stake_reachable: all(&a.asn_stake_reachable),
        scan_duration: one(&a.scan_duration),
    }
}

#[test]
fn the_metrics_show_the_census() {
    let r = run();
    let db = AsnDb::parse("5.0.0.0\t5.0.0.2\t77\tUS\tSEVEN\n");
    let c = census(&r, None, Some(&db), None);
    let text = render(&c, &[("env".to_string(), "x\"y".to_string())], &texts(&amounts(&c), &r.snap), "abc123");
    for line in [
        "# HELP cardano_census_snapshot_slot Slot of the snapshot's ledger point\n# TYPE cardano_census_snapshot_slot gauge\ncardano_census_snapshot_slot{env=\"x\\\"y\"} 99\n",
        "cardano_census_build_info{env=\"x\\\"y\",version=\"0.1.0\",rev=\"abc123\"} 1\n",
        "cardano_census_snapshot_info{env=\"x\\\"y\",source=\"peers.json\",network_magic=\"2\",node_to_client_version=\"16\"} 1\n",
        "cardano_census_snapshot_stake_ratio{env=\"x\\\"y\"} 0.8375\n",
        "cardano_census_relays_total{env=\"x\\\"y\"} 5\n",
        "cardano_census_srv_targets{env=\"x\\\"y\",name=\"srv.example\"} 2\n",
        "cardano_census_srv_targets_reachable{env=\"x\\\"y\",name=\"srv.example\"} 1\n",
        "cardano_census_srv_reach_probability{env=\"x\\\"y\",name=\"srv.example\"} 0.75\n",
        "cardano_census_endpoints_probed{env=\"x\\\"y\"} 4\n",
        "cardano_census_relays_reachable{env=\"x\\\"y\",family=\"v4\"} 3\n",
        "cardano_census_relays_n2n_version{env=\"x\\\"y\",version=\"13\"} 2\n",
        "cardano_census_stake_n2n_version{env=\"x\\\"y\",version=\"13\"} 0.325\n",
        "cardano_census_relays_failed{env=\"x\\\"y\",stage=\"connect\"} 1\n",
        "cardano_census_blp{env=\"x\\\"y\",reach=\"none\"} 2\n",
        "cardano_census_blp_stake_ratio{env=\"x\\\"y\",reach=\"full\"} 0.4\n",
        "cardano_census_reachable_stake_ratio{env=\"x\\\"y\"} 0.65\n",
        "cardano_census_stake_ipv4_reversed_only_ratio{env=\"x\\\"y\"} 0.125\n",
        "cardano_census_reachable_stake_ratio_with_reversed{env=\"x\\\"y\"} 0.775\n",
        "cardano_census_relay_weighted_stake_ratio{env=\"x\\\"y\"} 0.49375\n",
        "cardano_census_relays_reachable_within{env=\"x\\\"y\",le=\"1\"} 1\n",
        "cardano_census_relays_reachable_within{env=\"x\\\"y\",le=\"+Inf\"} 3\n",
        "cardano_census_stake_reachable_within{env=\"x\\\"y\",le=\"1\"} 0.4\n",
        "cardano_census_stake_reachable_within{env=\"x\\\"y\",le=\"+Inf\"} 0.65\n",
        "cardano_census_blp_relay_reachability_bucket{env=\"x\\\"y\",le=\"0.5\"} 3\n",
        "cardano_census_blp_relay_reachability_sum{env=\"x\\\"y\"} 1.5\n",
        "cardano_census_blp_relay_reachability_count{env=\"x\\\"y\"} 4\n",
        "cardano_census_probe_rtt_seconds_sum{env=\"x\\\"y\"} 2.9\n",
        "cardano_census_chain_relays{env=\"x\\\"y\",chain=\"main\"} 3\n",
        "cardano_census_chain_stake_ratio{env=\"x\\\"y\",chain=\"other\"} 0\n",
        "cardano_census_stake_within_blocks_of_tip{env=\"x\\\"y\",le=\"0\"} 0.4\n",
        "cardano_census_pool_stake_ratio{env=\"x\\\"y\",pool_id=\"srv.example\",ticker=\"\",name=\"\",reach=\"partial\",pools=\"1\",relays_total=\"2\",relays_reachable=\"1\",relays=\"srv.example, c.example:3001\"} 0.25\n",
        "cardano_census_asn_relays{env=\"x\\\"y\",asn=\"77\",name=\"SEVEN\"} 3\n",
        "cardano_census_asn_stake_ratio{env=\"x\\\"y\",asn=\"77\",name=\"SEVEN\"} 0.525\n",
        "cardano_census_scan_duration_seconds{env=\"x\\\"y\"} 3.5\n",
        "cardano_census_last_run_timestamp_seconds{env=\"x\\\"y\"} 1234\n",
        "cardano_census_success{env=\"x\\\"y\"} 1\n",
    ] {
        assert!(text.contains(line), "{line}\n{text}");
    }
}

#[test]
fn series_stand_under_their_family() {
    let r = run();
    let db = AsnDb::parse("5.0.0.0\t5.0.0.2\t77\tUS\tSEVEN\n");
    let c = census(&r, None, Some(&db), None);
    let text = render(&c, &[], &texts(&amounts(&c), &r.snap), "abc123");
    let mut declared: Vec<&str> = text.lines().filter(|l| l.starts_with("# TYPE ")).collect();
    let families = declared.len();
    declared.sort_unstable();
    declared.dedup();
    assert_eq!((declared.len(), families), (families, 51), "no family is declared twice");
    let mut family = "";
    for line in text.lines() {
        if let Some(declared) = line.strip_prefix("# TYPE ") {
            family = declared.split(' ').next().unwrap();
        } else if !line.starts_with('#') {
            let rest = line.split(['{', ' ']).next().unwrap().strip_prefix(family);
            assert!(matches!(rest, Some("" | "_bucket" | "_sum" | "_count")), "{line} under {family}");
        }
    }
}

#[test]
fn families_without_series_are_left_out() {
    let mut r = run();
    r.outcomes = vec![None; 5];
    r.endpoints.clear();
    r.entries.retain(|e| !e.is_srv());
    r.srv_errors = vec![];
    let c = census(&r, None, None, None);
    let text = render(&c, &[], &texts(&amounts(&c), &r.snap), "abc123");
    for name in ["srv_targets", "relays_n2n_version", "asn_relays", "asn_min_relays"] {
        assert!(!text.contains(&format!("# TYPE cardano_census_{name} ")), "{name}");
    }
    assert!(text.contains("cardano_census_asn_db_ranges 0\n"));
    assert!(text.contains("cardano_census_reachable_stake_ratio 0\n"));
}

#[test]
fn the_report_has_one_record_per_relay() {
    let r = run();
    let db = AsnDb::parse("5.0.0.0\t5.0.0.2\t77\tUS\tSEVEN\n");
    let c = census(&r, None, Some(&db), None);
    let report = rows(&c, &r.snap, &r.entries, &r.endpoints, &r.outcomes, &r.srv_errors);
    assert_eq!(report.iter().map(|p| p.relays.len()).collect::<Vec<_>>(), vec![2, 2, 1, 0]);
    assert_eq!((*report[1].accumulated_stake, *report[1].relative_stake, report[1].reach), (0.5, 0.25, Reach::Partial));
    let srv = &report[1].relays[0];
    assert_eq!((srv.address.as_str(), srv.port, srv.reachable, srv.shared_endpoint), ("srv.example", None, true, true));
    assert_eq!(srv.endpoints, vec!["5.0.0.2:3001", "[2001:4860::]:3001"]);
    assert_eq!((srv.peer.as_deref(), srv.family, srv.n2n_version.as_deref()), (Some("5.0.0.2:3001"), Some(Family::V4), Some("13")));
    assert_eq!((srv.rtt_ms, srv.tip.as_ref().map(|t| t.block), srv.asn, srv.stage), (Some(2000), Some(99), Some(77), None));
    let refused = &report[1].relays[1];
    assert_eq!((refused.reachable, refused.stage, refused.error.as_deref(), refused.peer.as_deref()), (false, Some(Stage::Connect), Some("Connection refused"), None));
    assert!(!refused.shared_endpoint && refused.asn.is_none());
}
