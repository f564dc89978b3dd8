use cardano_census::ip::{parse_ip, Ip, SockAddr};
use cardano_census::resolve::{
    assemble, entries, group, looked_up, plan, sift, srv_entries, srv_failed, srv_query, srv_unavailable, top_targets, Entry, Looked, Memory,
    SrvRecord, Target, REMEMBER_SECS,
};
use cardano_census::snapshot::{Point, Pool, Relay, Snapshot};
use cardano_census::table::Table;

fn target(entry: usize, host: &str, port: u16, weight: Option<u16>) -> Target {
    Target { entry, host: host.into(), port, weight }
}

fn ip(s: &str) -> Ip {
    let chars: Vec<char> = s.chars().collect();
    parse_ip(&chars).unwrap()
}

fn sock(s: &str, port: u16) -> SockAddr {
    SockAddr { ip: ip(s), port, scope: 0 }
}

#[test]
fn names_expand_to_one_endpoint_per_address_and_share_with_literals() {
    let targets = vec![
        target(0, "relays.example", 3001, None),
        target(1, "relays.example", 3001, None),
        target(2, "192.0.2.1", 3001, None),
        target(3, "dead.example", 3001, None),
        target(4, "srv-a.example", 6000, Some(10)),
    ];
    let looked = vec![
        Looked { target: 0, literal: None, addrs: vec!["192.0.2.1:3001".into(), "192.0.2.2:3001".into(), "[2001:db8::1]:3001".into()], dns_error: None },
        Looked { target: 1, literal: None, addrs: vec!["192.0.2.1:3001".into(), "192.0.2.2:3001".into(), "[2001:db8::1]:3001".into()], dns_error: None },
        Looked { target: 2, literal: Some("192.0.2.1:3001".into()), addrs: vec![], dns_error: None },
        Looked { target: 3, literal: None, addrs: vec![], dns_error: Some("no such host".into()) },
        Looked { target: 4, literal: None, addrs: vec!["192.0.2.9:6000".into()], dns_error: None },
    ];
    let eps = assemble(&targets, &looked, None);
    let keys: Vec<&str> = eps.iter().map(|e| e.key.as_str()).collect();
    assert_eq!(keys, vec!["192.0.2.1:3001", "192.0.2.2:3001", "192.0.2.9:6000", "[2001:db8::1]:3001", "dead.example:3001"]);
    let shared = eps.iter().find(|e| e.key == "192.0.2.1:3001").unwrap();
    assert_eq!(shared.entries, vec![0, 1, 2], "two pools' name and one literal on one address");
    assert_eq!(shared.addrs, vec![ip("192.0.2.1")]);
    let dead = eps.iter().find(|e| e.key == "dead.example:3001").unwrap();
    assert_eq!(dead.dns_error.as_deref(), Some("no such host"));
    assert!(dead.addrs.is_empty());
    let srv = eps.iter().find(|e| e.key == "192.0.2.9:6000").unwrap();
    assert_eq!(srv.weights, vec![Some(10)]);
    assert!(eps.iter().all(|e| !e.remembered));
}

#[test]
fn remembered_addresses_join_within_retention_only() {
    let targets = vec![target(0, "relays.example", 3001, None), target(1, "1.2.3.4", 3001, None), target(2, "srv.example", 6000, Some(5))];
    let looked = vec![
        Looked { target: 0, literal: None, addrs: vec!["192.0.2.1:3001".into()], dns_error: None },
        Looked { target: 1, literal: Some("1.2.3.4:3001".into()), addrs: vec![], dns_error: None },
        Looked { target: 2, literal: None, addrs: vec!["192.0.2.9:6000".into()], dns_error: None },
    ];
    let now = 1_000_000;
    let mut mem: Table<Vec<(String, u64)>> = Table::new();
    mem.slot(
        "relays.example:3001",
        vec![
            ("192.0.2.1:3001".to_string(), now - 60),
            ("192.0.2.2:3001".to_string(), now - 3600),
            ("192.0.2.3:3001".to_string(), now - REMEMBER_SECS - 1),
        ],
    );
    mem.slot("1.2.3.4:3001", vec![("9.9.9.9:3001".to_string(), now)]);
    mem.slot("srv.example", vec![("192.0.2.8:6000".to_string(), now)]);
    let eps = assemble(&targets, &looked, Some(&Memory { targets: &mem, now }));
    let keys: Vec<&str> = eps.iter().map(|e| e.key.as_str()).collect();
    assert_eq!(
        keys,
        vec!["1.2.3.4:3001", "192.0.2.1:3001", "192.0.2.2:3001", "192.0.2.9:6000"],
        "one remembered address added, the stale one dropped, literals and SRV untouched"
    );
    let fresh = eps.iter().find(|e| e.key == "192.0.2.1:3001").unwrap();
    assert!(!fresh.remembered, "returned this run, so not remembered");
    let old = eps.iter().find(|e| e.key == "192.0.2.2:3001").unwrap();
    assert_eq!(
        (old.remembered, old.last_seen, old.entries.as_slice(), old.weights.as_slice()),
        (true, Some(now - 3600), &[0][..], &[None][..])
    );
}

#[test]
fn what_is_remembered_is_forgotten_after_a_day() {
    assert_eq!(REMEMBER_SECS, 24 * 3600);
    let targets = vec![target(0, "relays.example", 1, None)];
    let looked = vec![Looked { target: 0, literal: None, addrs: vec!["192.0.2.1:1".into()], dns_error: None }];
    let mut mem: Table<Vec<(String, u64)>> = Table::new();
    mem.slot("relays.example:1", vec![("192.0.2.2:1".to_string(), 0), ("not an address".to_string(), 0)]);
    let kept = assemble(&targets, &looked, Some(&Memory { targets: &mem, now: REMEMBER_SECS }));
    assert_eq!(kept.len(), 2);
    let gone = assemble(&targets, &looked, Some(&Memory { targets: &mem, now: REMEMBER_SECS + 1 }));
    assert_eq!(gone.len(), 1);
}

#[test]
fn two_srv_records_on_one_endpoint_add_their_weights() {
    let targets = vec![target(0, "a.example", 1, Some(3)), target(0, "b.example", 1, Some(4)), target(1, "c.example", 1, Some(65535)), target(1, "d.example", 1, Some(5))];
    let at = |t: usize, addr: &str| Looked { target: t, literal: None, addrs: vec![addr.into()], dns_error: None };
    let eps = assemble(&targets, &[at(0, "192.0.2.1:1"), at(1, "192.0.2.1:1"), at(2, "192.0.2.1:1"), at(3, "192.0.2.1:1")], None);
    assert_eq!(eps.len(), 1);
    assert_eq!(eps[0].entries, vec![0, 1]);
    assert_eq!(eps[0].weights, vec![Some(7), Some(65535)]);
}

#[test]
fn entries_follow_the_pools_and_their_relays() {
    let relay = |a: &str, port: Option<u16>| Relay { address: a.into(), port };
    let snap = Snapshot {
        network_magic: 1,
        node_to_client_version: 2,
        point: Point { block_point_hash: "h".into(), block_point_slot: 3 },
        pools: vec![
            Pool { accumulated_stake: 0, relative_stake: 0, relays: vec![relay("a", Some(1)), relay("b", None)] },
            Pool { accumulated_stake: 0, relative_stake: 0, relays: vec![] },
            Pool { accumulated_stake: 0, relative_stake: 0, relays: vec![relay("c", Some(2))] },
        ],
    };
    let v = entries(&snap);
    let flat: Vec<(usize, &str, Option<u16>)> = v.iter().map(|e| (e.pool, e.address.as_str(), e.port)).collect();
    assert_eq!(flat, vec![(0, "a", Some(1)), (0, "b", None), (2, "c", Some(2))]);
    assert!(!v[0].is_srv() && v[1].is_srv());
    assert_eq!(srv_entries(&v), vec![1]);
}

fn record(priority: u16, target: &str, port: u16, weight: u16) -> SrvRecord {
    SrvRecord { priority, target: target.into(), port, weight }
}

#[test]
fn only_targets_of_the_lowest_priority_are_probed() {
    let records = [record(10, "b.example.", 2, 5), record(5, "z.example.", 1, 1), record(5, "a.example.", 3, 0)];
    let found = top_targets("srv.example", &records).unwrap();
    assert_eq!(found, vec![("z.example".to_string(), 1, 1), ("a.example".to_string(), 3, 0)]);
    assert_eq!(top_targets("srv.example", &[]), Err("no SRV records for srv.example".to_string()));
}

#[test]
fn srv_names_are_asked_for_as_absolute_names() {
    assert_eq!(srv_query("_cardano._tcp.example.org"), "_cardano._tcp.example.org.");
    assert_eq!(srv_query("_cardano._tcp.example.org."), "_cardano._tcp.example.org.");
    assert_eq!(srv_failed("srv.example", "timed out"), "SRV lookup failed for srv.example: timed out");
    assert_eq!(srv_unavailable("no config"), "SRV resolver unavailable: no config");
}

#[test]
fn a_plan_has_the_plain_relays_and_the_targets_of_srv_names() {
    let list = vec![
        Entry { pool: 0, address: "a.example".into(), port: Some(1) },
        Entry { pool: 0, address: "srv.example".into(), port: None },
        Entry { pool: 1, address: "bad.example".into(), port: None },
    ];
    let looked = vec![(1, Ok(vec![("t.example".to_string(), 6000, 7)])), (2, Err("gone".to_string()))];
    let (targets, errors) = plan(&list, &looked);
    let flat: Vec<(usize, &str, u16, Option<u16>)> = targets.iter().map(|t| (t.entry, t.host.as_str(), t.port, t.weight)).collect();
    assert_eq!(flat, vec![(0, "a.example", 1, None), (1, "t.example", 6000, Some(7))]);
    assert_eq!(errors, vec![None, None, Some("gone".to_string())]);
}

#[test]
fn literals_need_no_lookup() {
    let targets = vec![target(0, "relay.example", 1, None), target(1, "192.0.2.7", 2, None), target(2, "[2001:db8::7]", 3, None)];
    let (literals, names) = sift(&targets);
    let known: Vec<(usize, Option<&str>)> = literals.iter().map(|l| (l.target, l.literal.as_deref())).collect();
    assert_eq!(known, vec![(1, Some("192.0.2.7:2")), (2, Some("[2001:db8::7]:3"))]);
    assert_eq!(names, vec![0]);
}

#[test]
fn a_lookup_gives_addresses_or_an_error() {
    let found = looked_up(3, &Ok(vec![sock("192.0.2.2", 1), sock("2001:db8::1", 1)]));
    assert_eq!((found.target, found.literal, found.dns_error), (3, None, None));
    assert_eq!(found.addrs, vec!["192.0.2.2:1", "[2001:db8::1]:1"]);
    let local = SockAddr { ip: ip("fe80::1"), port: 1, scope: 2 };
    assert_eq!(looked_up(3, &Ok(vec![local])).addrs, vec!["[fe80::1%2]:1"]);
    let failed = looked_up(4, &Err("no such host".to_string()));
    assert!(failed.addrs.is_empty());
    assert_eq!(failed.dns_error.as_deref(), Some("no such host"));
    let empty = looked_up(4, &Ok(vec![]));
    assert!(empty.addrs.is_empty());
    assert_eq!(empty.dns_error.as_deref(), Some("no addresses"));
}

#[test]
fn grouping_takes_literals_and_lookups_together() {
    let targets = vec![target(0, "relay.example", 1, None), target(1, "192.0.2.7", 1, None)];
    let eps = group(&targets, &[(0, Ok(vec![sock("192.0.2.7", 1), sock("192.0.2.8", 1)]))], None);
    let flat: Vec<(&str, &[usize])> = eps.iter().map(|e| (e.key.as_str(), e.entries.as_slice())).collect();
    assert_eq!(flat, vec![("192.0.2.7:1", &[0, 1][..]), ("192.0.2.8:1", &[0][..])]);
}
