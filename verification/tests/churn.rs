use cardano_census::asn::AsInfo;
use cardano_census::churn::{diff, Change, PrevRelay, PrevState, Previous};
use cardano_census::ip::{Ip, SockAddr};
use cardano_census::probe::{Failed, Family, Outcome, Reached, Stage, Tip};
use cardano_census::resolve::Entry;
use cardano_census::stake::Share;
use cardano_census::table::Table;

fn ok() -> Outcome {
    Ok(Reached {
        peer: SockAddr { ip: Ip::V4(0xc0000201), port: 3001, scope: 0 },
        family: Family::V4,
        n2n_version: "14".into(),
        tip: Tip { slot: 1, hash: "aa".into(), block: 1 },
        rtt_ms: 10,
    })
}

fn down() -> Outcome {
    Err(Failed { stage: Stage::Connect, error: "timeout".into(), versions: None })
}

fn asn(n: u32) -> Option<AsInfo> {
    Some(AsInfo { asn: n, name: format!("AS{n}") })
}

fn sum(shares: &[Share], stakes: &[f64]) -> f64 {
    shares.iter().map(|s| stakes[s.pool] / s.parts as f64).sum::<f64>() + 0.0
}

#[test]
fn diff_counts_relays_once_and_stake_per_entry() {
    let mut by_key = Table::new();
    by_key.slot("shared.example:3001", PrevState { reachable: true, asn: Some(1) });
    by_key.slot("up.example:3001", PrevState { reachable: false, asn: Some(2) });
    by_key.slot("same.example:3001", PrevState { reachable: true, asn: Some(3) });
    let prev = Previous { timestamp_seconds: 100, by_key };
    let entries = vec![
        Entry { pool: 0, address: "shared.example".into(), port: Some(3001) },
        Entry { pool: 1, address: "shared.example".into(), port: Some(3001) },
        Entry { pool: 2, address: "up.example".into(), port: Some(3001) },
        Entry { pool: 3, address: "same.example".into(), port: Some(3001) },
        Entry { pool: 4, address: "new.example".into(), port: Some(3001) },
    ];
    let outcomes = vec![Some(down()), Some(down()), Some(ok()), Some(ok()), Some(down())];
    let asns = vec![asn(1), asn(1), asn(9), asn(3), asn(4)];
    let stakes = [0.1, 0.2, 0.3, 0.4, 0.5];
    let shares: Vec<Share> = (0..5).map(|pool| Share { pool, parts: 1 }).collect();
    let (c, changes) = diff(&prev, &entries, &outcomes, &asns, &shares);
    assert_eq!(c.to_unreachable, 1, "the shared relay went down once");
    assert!((sum(&c.stake_to_unreachable, &stakes) - 0.3).abs() < 1e-12, "but both pools behind it lost stake");
    assert_eq!((c.to_reachable, sum(&c.stake_to_reachable, &stakes)), (1, 0.3));
    assert_eq!(c.moved_network, 1, "up.example moved from AS2 to AS9");
    assert_eq!(c.previous_timestamp_seconds, 100);
    assert_eq!(changes, vec![Some(Change::BecameUnreachable), Some(Change::BecameUnreachable), Some(Change::BecameReachable), None, None]);
}

fn prev(address: &str, port: Option<u16>, reachable: bool, asn: Option<u32>) -> PrevRelay {
    PrevRelay { address: address.into(), port, reachable, asn }
}

#[test]
fn the_first_record_of_a_relay_counts() {
    let p = Previous::from_relays(&[prev("Relay.Example.", Some(1), true, Some(5)), prev("relay.example", Some(1), false, None), prev("srv.example", None, false, None)], 7);
    assert_eq!(p.timestamp_seconds, 7);
    assert_eq!(p.by_key.get("relay.example:1"), Some(&PrevState { reachable: true, asn: Some(5) }));
    assert_eq!(p.by_key.get("srv.example"), Some(&PrevState { reachable: false, asn: None }));
    assert_eq!(p.by_key.get("relay.example:2"), None);
}

#[test]
fn a_run_compared_with_itself_shows_no_churn() {
    let entries = vec![Entry { pool: 0, address: "a".into(), port: Some(1) }, Entry { pool: 0, address: "b".into(), port: Some(1) }];
    let p = Previous::from_relays(&[prev("a", Some(1), true, Some(1)), prev("b", Some(1), false, None)], 7);
    let shares = vec![Share { pool: 0, parts: 2 }; 2];
    let (c, changes) = diff(&p, &entries, &[Some(ok()), None], &[asn(1), asn(2)], &shares);
    assert_eq!((c.to_reachable, c.to_unreachable, c.moved_network), (0, 0, 0));
    assert!(c.stake_to_reachable.is_empty() && c.stake_to_unreachable.is_empty());
    assert_eq!(changes, vec![None, None]);
}
