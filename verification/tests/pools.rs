use cardano_census::pools::{relay_key, PoolIndex, Record};

fn record(pool_id: &str, ticker: Option<&str>, relays: &[&str]) -> Record {
    Record {
        pool_id: pool_id.into(),
        ticker: ticker.map(Into::into),
        name: None,
        relays: relays.iter().map(|r| r.to_string()).collect(),
    }
}

#[test]
fn keys_normalise_case_dots_and_ip_forms() {
    assert_eq!(relay_key("Relay.Example.ORG.", Some(3001)), "relay.example.org:3001");
    assert_eq!(relay_key("192.0.2.1", Some(6000)), "192.0.2.1:6000");
    assert_eq!(relay_key("[2001:DB8::1]", Some(3001)), "[2001:db8::1]:3001");
    assert_eq!(relay_key("2001:db8:0:0::1", Some(3001)), "[2001:db8::1]:3001");
    assert_eq!(relay_key("_cardano._tcp.example.org", None), "_cardano._tcp.example.org");
}

#[test]
fn index_matches_by_any_spelling() {
    let idx = PoolIndex::from_records(vec![record(
        "pool1abc",
        Some("TST"),
        &["Relay.Example.org:3001", "[2001:db8::1]:3001", "srv.example.org"],
    )]);
    assert_eq!(idx.pools, 1);
    let one = |a: &str, p: Option<u16>| idx.identify(&[(a, p)]);
    assert_eq!(one("relay.example.org.", Some(3001)).unwrap().ticker.as_deref(), Some("TST"));
    assert_eq!(one("2001:DB8:0::1", Some(3001)).unwrap().pool_id, "pool1abc");
    assert!(one("srv.example.org", None).is_some());
    assert!(one("relay.example.org", Some(3002)).is_none());
}

#[test]
fn identity_goes_to_the_pool_most_relays_point_at() {
    let idx = PoolIndex::from_records(vec![
        record("pool1zzz", Some("ZZZ"), &["shared.example.org:3001", "zzz.example.org:3001"]),
        record("pool1aaa", Some("AAA"), &["shared.example.org:3001"]),
    ]);
    // Two relays vote zzz, one votes both: zzz wins on count.
    let zzz = idx.identify(&[("shared.example.org", Some(3001)), ("zzz.example.org", Some(3001))]);
    assert_eq!(zzz.unwrap().pool_id, "pool1zzz");
    // Only the shared relay: a tie, broken towards the smaller id.
    let tie = idx.identify(&[("shared.example.org", Some(3001))]);
    assert_eq!(tie.unwrap().pool_id, "pool1aaa");
}

#[test]
fn empty_ticker_reads_as_unknown() {
    let idx = PoolIndex::from_records(vec![record("pool1xyz", Some(""), &["r.example.org:3001"])]);
    assert_eq!(idx.identify(&[("r.example.org", Some(3001))]).unwrap().ticker, None);
}
