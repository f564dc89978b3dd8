use cardano_census::ip::{Ip, SockAddr};
use cardano_census::net::ConnectError;
use cardano_census::probe::{advance, encode_survey, lowest_first, offered_versions, surveyed, Event, Family, Progress, Stage, Survey};
use pallas_codec::minicbor::Encoder;

fn peer() -> SockAddr {
    SockAddr { ip: Ip::V4(0xc0000201), port: 3001, scope: 0 }
}

fn failure(p: Progress) -> (Stage, String, Option<Vec<u64>>) {
    match p {
        Progress::Over { result: Err(f) } => (f.stage, f.error, f.versions),
        _ => panic!("no failure"),
    }
}

#[test]
fn survey_proposal_carries_the_query_flag() {
    let mut e = Encoder::new(Vec::new());
    e.map(1).unwrap().u64(14).unwrap();
    let mut bytes = e.into_writer();
    bytes.extend(encode_survey(2));
    // {14: [2, true, 0, true]}
    assert_eq!(bytes, vec![0xa1, 0x0e, 0x84, 0x02, 0xf5, 0x00, 0xf5]);
    assert_eq!(offered_versions(2), vec![11, 12, 13, 14]);
}

#[test]
fn a_large_magic_takes_all_its_bytes() {
    assert_eq!(encode_survey(764824073), vec![0x84, 0x1a, 0x2d, 0x96, 0x4a, 0x09, 0xf5, 0x00, 0xf5]);
}

#[test]
fn a_relay_is_reached_by_connecting_shaking_hands_and_its_tip() {
    let p = advance(Progress::Connecting, Event::Connected { peer: peer() }, 1);
    let p = advance(p, Event::Accepted { version: 14 }, 2);
    let p = advance(p, Event::Tip { point: Some((7, vec![0xab, 0x0c])), block: 5 }, 30);
    let Progress::Over { result: Ok(r) } = p else { panic!("not reached") };
    assert_eq!((r.peer, r.family, r.n2n_version.as_str(), r.rtt_ms), (peer(), Family::V4, "14", 30));
    assert_eq!((r.tip.slot, r.tip.hash.as_str(), r.tip.block), (7, "ab0c", 5));
}

#[test]
fn a_relay_at_the_origin_is_reached_too() {
    let six = SockAddr { ip: Ip::V6(1), port: 1, scope: 0 };
    let p = advance(Progress::Syncing { peer: six, version: 13 }, Event::Tip { point: None, block: 0 }, 9);
    let Progress::Over { result: Ok(r) } = p else { panic!("not reached") };
    assert_eq!((r.family, r.tip.slot, r.tip.hash.as_str()), (Family::V6, 0, "origin"));
}

#[test]
fn a_probe_fails_at_the_stage_it_was_in() {
    let connecting = advance(Progress::Connecting, Event::NotConnected { error: ConnectError::Timeout }, 1);
    assert_eq!(failure(connecting), (Stage::Connect, "timeout".into(), None));
    let shaking = || Progress::Handshaking { peer: peer() };
    let syncing = || Progress::Syncing { peer: peer(), version: 14 };
    assert_eq!(failure(advance(shaking(), Event::Timeout, 1)), (Stage::Handshake, "timeout".into(), None));
    assert_eq!(failure(advance(shaking(), Event::Failed { cause: "x".into() }, 1)), (Stage::Handshake, "x".into(), None));
    assert_eq!(failure(advance(shaking(), Event::VersionQuery, 1)), (Stage::Handshake, "peer answered with a version query".into(), None));
    assert_eq!(failure(advance(syncing(), Event::Timeout, 1)), (Stage::Chainsync, "timeout".into(), None));
    assert_eq!(failure(advance(syncing(), Event::Failed { cause: "y".into() }, 1)), (Stage::Chainsync, "y".into(), None));
}

#[test]
fn a_refusal_keeps_the_versions_it_named() {
    let refused = Event::Refused { reason: "VersionMismatch".into(), versions: Some(vec![16, 15]) };
    let f = failure(advance(Progress::Handshaking { peer: peer() }, refused, 1));
    assert_eq!(f, (Stage::Handshake, "rejected: VersionMismatch".into(), Some(vec![15, 16])));
}

#[test]
fn a_survey_lists_versions_or_says_why_not() {
    assert_eq!(surveyed(Survey::Versions(vec![17, 14, 16])), Ok(vec![14, 16, 17]));
    assert_eq!(surveyed(Survey::Accepted(14)), Err("accepted version 14 instead of answering the query".into()));
    assert_eq!(surveyed(Survey::Rejected("no".into())), Err("rejected: no".into()));
    assert_eq!(surveyed(Survey::Failed("eof".into())), Err("eof".into()));
    assert_eq!(surveyed(Survey::Timeout), Err("timeout".into()));
    assert_eq!(surveyed(Survey::NotConnected(ConnectError::Timeout)), Err("timeout".into()));
}

#[test]
fn versions_are_sorted_and_kept() {
    assert_eq!(lowest_first(vec![3, 1, 2, 3]), vec![1, 2, 3, 3]);
    assert_eq!(lowest_first(vec![]), Vec::<u64>::new());
}

#[test]
fn stages_have_their_labels() {
    let labels: Vec<&str> = Stage::ALL.iter().map(|s| s.label()).collect();
    assert_eq!(labels, vec!["srv", "dns", "address", "connect", "handshake", "chainsync"]);
}
