use cardano_census::histogram::Ratio;
use cardano_census::ip::{Ip, SockAddr};
use cardano_census::outcomes::{best_outcomes, endpoints_by_entry, reach_probabilities};
use cardano_census::probe::{Failed, Family, Outcome, Reached, Stage, Tip};
use cardano_census::reasons::{connect_reason, entry_reasons, rank_reasons};
use cardano_census::resolve::{Endpoint, Entry};
use cardano_census::reversed::Shadow;

fn reached_in(rtt_ms: u64) -> Outcome {
    Ok(Reached {
        peer: SockAddr { ip: Ip::V4(0xc0000201), port: 3001, scope: 0 },
        family: Family::V4,
        n2n_version: "14".into(),
        tip: Tip { slot: 1, hash: "aa".into(), block: 1 },
        rtt_ms,
    })
}

fn reached() -> Outcome {
    reached_in(10)
}

fn failed_at(stage: Stage, error: &str) -> Outcome {
    Err(Failed { stage, error: error.into(), versions: None })
}

fn failed() -> Outcome {
    failed_at(Stage::Connect, "timeout")
}

fn endpoint(key: &str, entries: &[(usize, Option<u16>)]) -> Endpoint {
    Endpoint {
        key: key.into(),
        entries: entries.iter().map(|e| e.0).collect(),
        weights: entries.iter().map(|e| e.1).collect(),
        addrs: Vec::new(),
        dns_error: None,
        remembered: false,
        last_seen: None,
    }
}

fn entry(pool: usize, address: &str, port: Option<u16>) -> Entry {
    Entry { pool, address: address.into(), port }
}

fn value(r: Ratio) -> f64 {
    r.num as f64 / r.den as f64
}

#[test]
fn srv_probability_follows_weights_then_counts() {
    let entries = vec![
        Entry { pool: 0, address: "srv.example".into(), port: None },
        Entry { pool: 0, address: "zero.example".into(), port: None },
        Entry { pool: 0, address: "plain.example".into(), port: Some(3001) },
    ];
    let endpoints = vec![
        endpoint("a:6000", &[(0, Some(30)), (1, Some(0))]),
        endpoint("b:6000", &[(0, Some(10)), (1, Some(0))]),
        endpoint("c:6000", &[(1, Some(0))]),
        endpoint("plain.example:3001", &[(2, None)]),
    ];
    let outcomes = vec![Some(reached()), Some(failed()), Some(failed()), Some(failed())];
    let best = best_outcomes(&entries, &endpoints, &outcomes, &[None, None, None]);
    let p = reach_probabilities(&entries, &endpoints, &outcomes, &best);
    assert!((value(p[0]) - 0.75).abs() < 1e-12, "30 of 40 weight answered");
    assert!((value(p[1]) - 1.0 / 3.0).abs() < 1e-12, "all weights zero falls back to 1 of 3 targets");
    assert_eq!(value(p[2]), 0.0, "a plain relay that failed");
}

#[test]
fn connect_reasons_come_from_the_socket_error() {
    assert_eq!(connect_reason("timeout"), "timeout");
    assert_eq!(connect_reason("Connect error to 1.2.3.4:3001: Connection refused (os error 111)"), "refused");
    assert_eq!(connect_reason("Connect error to 10.0.0.1:3001: Network unreachable (os error 101)"), "unreachable");
    assert_eq!(connect_reason("Connect error to 1.2.3.4:3001: Host is unreachable (os error 113)"), "unreachable");
    assert_eq!(connect_reason("Connect error to 1.2.3.4:3001: No route to host (os error 113)"), "unreachable");
    assert_eq!(connect_reason("Invalid address: x"), "other");
}

#[test]
fn connect_reasons_ignore_case() {
    assert_eq!(connect_reason("Connection TIMED OUT"), "timeout");
    assert_eq!(connect_reason("REFUSED"), "refused");
    assert_eq!(connect_reason(""), "other");
}

#[test]
fn an_entry_takes_its_fastest_tip() {
    let entries = vec![entry(0, "a", None), entry(0, "b", Some(1)), entry(0, "c", None), entry(0, "d", Some(1))];
    let endpoints = vec![
        endpoint("x:1", &[(0, Some(1)), (1, None)]),
        endpoint("y:1", &[(0, Some(1))]),
        endpoint("z:1", &[(0, Some(1))]),
    ];
    let outcomes = vec![Some(failed()), Some(reached_in(30)), Some(reached_in(20))];
    let best = best_outcomes(&entries, &endpoints, &outcomes, &[None, None, Some("no SRV records".into()), None]);
    assert!(matches!(&best[0], Some(Ok(r)) if r.rtt_ms == 20));
    assert!(matches!(&best[1], Some(Err(f)) if f.stage == Stage::Connect));
    assert!(matches!(&best[2], Some(Err(f)) if f.stage == Stage::Srv && f.error == "no SRV records"));
    assert!(best[3].is_none());
}

#[test]
fn entries_on_one_endpoint_all_take_its_result() {
    let entries = vec![entry(0, "a", Some(1)), entry(1, "b", Some(1))];
    let endpoints = vec![endpoint("x:1", &[(0, None), (1, None)])];
    let best = best_outcomes(&entries, &endpoints, &[Some(reached_in(7))], &[None, None]);
    assert!(best.iter().all(|o| matches!(o, Some(Ok(r)) if r.rtt_ms == 7)));
    assert_eq!(endpoints_by_entry(2, &endpoints), vec![vec![0], vec![0]]);
}

#[test]
fn of_equal_failures_the_first_one_stays() {
    let entries = vec![entry(0, "a", None)];
    let endpoints = vec![endpoint("x:1", &[(0, Some(1))]), endpoint("y:1", &[(0, Some(1))])];
    let best = best_outcomes(&entries, &endpoints, &[Some(failed_at(Stage::Dns, "one")), Some(failed_at(Stage::Connect, "two"))], &[None]);
    assert!(matches!(&best[0], Some(Err(f)) if f.error == "one"));
}

#[test]
fn a_plain_relay_that_answered_has_every_chance() {
    let entries = vec![entry(0, "a", Some(1))];
    let endpoints = vec![endpoint("x:1", &[(0, None)])];
    let outcomes = vec![Some(reached())];
    let best = best_outcomes(&entries, &endpoints, &outcomes, &[None]);
    let p = reach_probabilities(&entries, &endpoints, &outcomes, &best);
    assert_eq!((p[0].num, p[0].den), (1, 1));
}

#[test]
fn why_an_entry_failed_starts_with_the_reversal() {
    let entries: Vec<Entry> = (0..7).map(|i| entry(0, &format!("r{i}"), Some(1))).collect();
    let mut private = endpoint("10.0.0.1:1", &[(1, None)]);
    private.addrs = vec![Ip::V4(0x0a000001)];
    let endpoints = vec![private];
    let at = vec![vec![], vec![0], vec![], vec![], vec![], vec![], vec![]];
    let best = vec![
        Some(failed()),
        Some(failed_at(Stage::Address, "private address 10.0.0.1, not probed")),
        Some(reached()),
        Some(failed_at(Stage::Dns, "no such host")),
        Some(failed_at(Stage::Srv, "no SRV records")),
        Some(failed_at(Stage::Handshake, "rejected")),
        None,
    ];
    let mut shadow = Shadow::none(7);
    shadow.reachable[0] = Some(true);
    let reasons = entry_reasons(&entries, &endpoints, &at, &best, &shadow, None);
    assert_eq!(reasons, vec![Some("reversed ipv4"), Some("private address"), None, Some("dns"), Some("srv"), Some("handshake"), None]);
}

#[test]
fn reasons_are_ranked_by_weight_then_by_name() {
    assert_eq!(rank_reasons(&[("timeout", 1), ("refused", 2), ("dns", 1), ("timeout", 1)]), vec!["refused", "timeout", "dns"]);
    assert_eq!(rank_reasons(&[("b", 1), ("a", 1)]), vec!["a", "b"]);
    assert_eq!(rank_reasons(&[("dns", 1), ("timeout", 1), ("timeout", 1), ("refused", 2)]), vec!["refused", "timeout", "dns"]);
    assert!(rank_reasons(&[]).is_empty());
}
