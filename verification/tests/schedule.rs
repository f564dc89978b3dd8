use cardano_census::ip::Ip;
use cardano_census::probe::{Failed, Outcome, Stage};
use cardano_census::resolve::Endpoint;
use cardano_census::schedule::{at_once, enter, in_any_order, probe_order, screen, screen_all, unprobed, worst_case};

fn endpoint(addrs: &[Ip], dns_error: Option<&str>) -> Endpoint {
    Endpoint {
        key: "k".into(),
        entries: vec![],
        weights: vec![],
        addrs: addrs.to_vec(),
        dns_error: dns_error.map(Into::into),
        remembered: false,
        last_seen: None,
    }
}

fn said(o: Option<Outcome>) -> Option<(Stage, String)> {
    o.map(|o| {
        let f = o.unwrap_err();
        (f.stage, f.error)
    })
}

fn failed(error: &str) -> Outcome {
    Err(Failed { stage: Stage::Connect, error: error.into(), versions: None })
}

const LOOPBACK: Ip = Ip::V4(0x7f000001);
const PUBLIC: Ip = Ip::V4(0x08080808);
const PUBLIC_V6: Ip = Ip::V6(0x2001_4860 << 96);

#[test]
fn what_cannot_answer_is_not_dialled() {
    assert_eq!(said(screen(&endpoint(&[], Some("no such host")), true)), Some((Stage::Dns, "no such host".into())));
    assert_eq!(said(screen(&endpoint(&[LOOPBACK], None), true)), Some((Stage::Address, "reserved address 127.0.0.1, not probed".into())));
    let private = screen(&endpoint(&[Ip::V4(0x0a000001), LOOPBACK], None), true);
    assert_eq!(said(private), Some((Stage::Address, "private address 10.0.0.1, not probed".into())));
    assert_eq!(said(screen(&endpoint(&[LOOPBACK, PUBLIC], None), true)), None);
    assert_eq!(
        said(screen(&endpoint(&[PUBLIC_V6], None), false)),
        Some((Stage::Connect, "IPv6 unreachable from the census host, 2001:4860:: not probed".into()))
    );
    assert_eq!(said(screen(&endpoint(&[PUBLIC_V6], None), true)), None);
    assert_eq!(said(screen(&endpoint(&[PUBLIC_V6, PUBLIC], None), false)), None);
    assert_eq!(said(screen(&endpoint(&[], None), false)), None);
}

#[test]
fn every_endpoint_is_screened_or_probed_once() {
    let endpoints = vec![endpoint(&[PUBLIC], None), endpoint(&[LOOPBACK], None), endpoint(&[], None), endpoint(&[], Some("x"))];
    let known = screen_all(&endpoints, true);
    assert_eq!(unprobed(&known), vec![0, 2]);
    let mut order = probe_order(&known);
    order.sort_unstable();
    assert_eq!(order, vec![0, 2]);
    let all = enter(known, vec![(2, failed("b")), (0, failed("a"))]);
    let words: Vec<String> = all.into_iter().map(|o| o.unwrap().unwrap_err().error).collect();
    assert_eq!(words, vec!["a", "reserved address 127.0.0.1, not probed", "b", "x"]);
}

#[test]
fn what_comes_last_counts() {
    let all = enter(vec![None], vec![(0, failed("first")), (0, failed("second"))]);
    assert_eq!(all[0].as_ref().unwrap().as_ref().unwrap_err().error, "second");
}

#[test]
fn shuffling_keeps_every_place_and_moves_some() {
    let places: Vec<usize> = (0..1000).collect();
    let shuffled = in_any_order(places.clone());
    assert_ne!(shuffled, places);
    let mut sorted = shuffled;
    sorted.sort_unstable();
    assert_eq!(sorted, places);
}

#[test]
fn a_run_takes_a_full_budget_per_wave_at_worst() {
    assert_eq!(worst_case(0, 128, 60), 0);
    assert_eq!(worst_case(128, 128, 60), 60);
    assert_eq!(worst_case(129, 128, 60), 120);
    assert_eq!(worst_case(usize::MAX, 1, u64::MAX), (usize::MAX as u128) * (u64::MAX as u128));
    assert_eq!((at_once(0), at_once(7)), (1, 7));
}
