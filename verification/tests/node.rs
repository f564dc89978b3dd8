use cardano_census::node::{
    advance, after_kinded, after_plain, check_socket_path, decode_response, encode_query, parse_magic, DecodeError, Failure, Fault, Next, Part,
    Phase, QueryShape, Rational, Reply, Setting, Whole, MAINNET_MAGIC,
};
use pallas_codec::minicbor::data::Tag;
use pallas_codec::minicbor::Encoder;

fn rational(e: &mut Encoder<Vec<u8>>, num: u64, den: u64) {
    e.tag(Tag::new(30)).unwrap().array(2).unwrap().u64(num).unwrap().u64(den).unwrap();
}

fn whole(w: &Whole) -> f64 {
    match w {
        Whole::Int(i) => *i as f64,
        Whole::Big { negative, bytes } => {
            let v = bytes.iter().fold(0f64, |a, b| a * 256.0 + f64::from(*b));
            if *negative {
                -1.0 - v
            } else {
                v
            }
        }
    }
}

fn value(r: &Rational) -> f64 {
    whole(&r.num) / whole(&r.den)
}

fn fault(bytes: &[u8]) -> Fault {
    match decode_response(bytes) {
        Err(DecodeError::Shape(f)) => f,
        Err(DecodeError::Cbor(e)) => panic!("{e}"),
        Ok(_) => panic!("decoded"),
    }
}

#[test]
fn plain_query_shape() {
    // [0, [0, [6, [34]]]]
    assert_eq!(encode_query(6, QueryShape::Plain), vec![0x82, 0x00, 0x82, 0x00, 0x82, 0x06, 0x81, 0x18, 0x22]);
    assert_eq!(encode_query(6, QueryShape::Kinded), vec![0x82, 0x00, 0x82, 0x00, 0x82, 0x06, 0x82, 0x18, 0x22, 0x01]);
}

#[test]
fn decodes_v2_snapshot_with_every_relay_kind() {
    let mut e = Encoder::new(Vec::new());
    e.array(1).unwrap(); // Either Right
    e.array(2).unwrap().u8(1).unwrap(); // version 1
    e.array(2).unwrap();
    e.array(2).unwrap().u8(1).unwrap().u64(194344226).unwrap(); // At slot
    e.array(2).unwrap(); // two pools
    // pool 1: domain + ipv4
    e.array(2).unwrap();
    rational(&mut e, 1, 100);
    e.array(2).unwrap();
    rational(&mut e, 1, 100);
    e.array(2).unwrap();
    e.array(3).unwrap().u8(0).unwrap().u16(3001).unwrap().bytes(b"relay.example.org.").unwrap();
    e.array(3).unwrap().u8(1).unwrap().u16(6000).unwrap();
    e.array(4).unwrap().u8(10).unwrap().u8(0).unwrap().u8(0).unwrap().u8(1).unwrap();
    // pool 2: ipv6 + srv, indefinite relay list
    e.array(2).unwrap();
    rational(&mut e, 3, 100);
    e.array(2).unwrap();
    rational(&mut e, 2, 100);
    e.begin_array().unwrap();
    e.array(3).unwrap().u8(2).unwrap().u16(3001).unwrap();
    e.array(8).unwrap();
    for w in [0x2001u16, 0xdb8, 0, 0, 0, 0, 0, 1] {
        e.u16(w).unwrap();
    }
    e.array(2).unwrap().u8(3).unwrap().bytes(b"_cardano._tcp.example.org").unwrap();
    e.end().unwrap();

    let decoded = decode_response(&e.into_writer()).unwrap();
    assert_eq!(decoded.pools.len(), 2);
    assert!(decoded.point.is_none());
    let p1 = &decoded.pools[0];
    assert!((value(&p1.relative_stake) - 0.01).abs() < 1e-12);
    assert_eq!(p1.relays[0].address, "relay.example.org");
    assert_eq!(p1.relays[0].port, Some(3001));
    assert_eq!(p1.relays[1].address, "10.0.0.1");
    assert_eq!(p1.relays[1].port, Some(6000));
    let p2 = &decoded.pools[1];
    assert!((value(&p2.accumulated_stake) - 0.03).abs() < 1e-12);
    assert_eq!(p2.relays[0].address, "2001:db8::1");
    assert_eq!(p2.relays[1].address, "_cardano._tcp.example.org");
    assert_eq!(p2.relays[1].port, None);
}

#[test]
fn decodes_v23_snapshot_point_and_magic() {
    let mut e = Encoder::new(Vec::new());
    e.array(1).unwrap();
    e.array(2).unwrap().u8(2).unwrap();
    e.array(3).unwrap();
    e.array(3).unwrap().u8(1).unwrap().u64(42).unwrap().bytes(&[0xab; 32]).unwrap();
    e.u32(764824073).unwrap();
    // Version 2 pools are flat: [acc, rel, relays].
    e.begin_array().unwrap();
    e.array(3).unwrap();
    rational(&mut e, 1, 100);
    rational(&mut e, 1, 100);
    e.array(2).unwrap();
    e.array(3).unwrap().u8(0).unwrap().u16(3001).unwrap().bytes(b"relay.example.org").unwrap();
    e.array(3).unwrap().u8(1).unwrap().u16(6000).unwrap();
    e.array(4).unwrap().u8(10).unwrap().u8(0).unwrap().u8(0).unwrap().u8(1).unwrap();
    e.array(3).unwrap();
    rational(&mut e, 3, 100);
    rational(&mut e, 2, 100);
    e.array(1).unwrap();
    e.array(2).unwrap().u8(3).unwrap().bytes(b"_cardano._tcp.example.org").unwrap();
    e.end().unwrap();
    let decoded = decode_response(&e.into_writer()).unwrap();
    assert_eq!(decoded.magic, Some(764824073));
    assert_eq!(decoded.point.as_ref().unwrap().0, 42);
    assert_eq!(decoded.point.as_ref().unwrap().1.len(), 64);
    assert_eq!(decoded.pools.len(), 2);
    assert!((value(&decoded.pools[0].accumulated_stake) - 0.01).abs() < 1e-12);
    assert_eq!(decoded.pools[0].relays[1].address, "10.0.0.1");
    assert!((value(&decoded.pools[1].relative_stake) - 0.02).abs() < 1e-12);
    assert_eq!(decoded.pools[1].relays[0].port, None);
}

#[test]
fn v23_snapshot_rejects_the_nested_pool_shape() {
    let mut e = Encoder::new(Vec::new());
    e.array(1).unwrap();
    e.array(2).unwrap().u8(2).unwrap();
    e.array(3).unwrap();
    e.array(1).unwrap().u8(0).unwrap();
    e.u32(1).unwrap();
    e.array(1).unwrap();
    e.array(2).unwrap();
    rational(&mut e, 1, 100);
    e.array(2).unwrap();
    rational(&mut e, 1, 100);
    e.array(0).unwrap();
    assert!(decode_response(&e.into_writer()).is_err());
}

#[test]
fn era_mismatch_is_an_error() {
    let mut e = Encoder::new(Vec::new());
    e.array(2).unwrap().u8(6).unwrap().u8(5).unwrap();
    assert!(decode_response(&e.into_writer()).is_err());
}

#[test]
fn the_hash_of_a_point_is_written_in_hex() {
    let mut e = Encoder::new(Vec::new());
    e.array(1).unwrap().array(2).unwrap().u8(2).unwrap().array(3).unwrap();
    e.array(3).unwrap().u8(1).unwrap().u64(7).unwrap().bytes(&[0x0a, 0xff]).unwrap();
    e.u32(1).unwrap().array(0).unwrap();
    assert_eq!(decode_response(&e.into_writer()).unwrap().point, Some((7, "0aff".to_string())));
}

#[test]
fn a_domain_that_is_no_text_is_read_as_far_as_it_goes() {
    let mut e = Encoder::new(Vec::new());
    e.array(1).unwrap().array(2).unwrap().u8(1).unwrap().array(2).unwrap();
    e.array(1).unwrap().u8(0).unwrap();
    e.array(1).unwrap().array(2).unwrap();
    rational(&mut e, 1, 2);
    e.array(2).unwrap();
    rational(&mut e, 1, 2);
    e.array(2).unwrap();
    e.array(2).unwrap().u8(3).unwrap().bytes(&[b'a', 0xff, b'b']).unwrap();
    e.array(2).unwrap().u8(3).unwrap().str("text.example.").unwrap();
    let decoded = decode_response(&e.into_writer()).unwrap();
    assert_eq!(decoded.pools[0].relays[0].address, "a\u{fffd}b");
    assert_eq!(decoded.pools[0].relays[1].address, "text.example");
}

#[test]
fn big_and_negative_integers_are_kept_whole() {
    let mut e = Encoder::new(Vec::new());
    e.array(1).unwrap().array(2).unwrap().u8(1).unwrap().array(2).unwrap();
    e.array(1).unwrap().u8(0).unwrap();
    e.array(1).unwrap().array(2).unwrap();
    e.tag(Tag::new(30)).unwrap().array(2).unwrap().tag(Tag::new(2)).unwrap().bytes(&[1, 0]).unwrap().i64(-4).unwrap();
    e.array(2).unwrap();
    e.tag(Tag::new(30)).unwrap().array(2).unwrap().tag(Tag::new(3)).unwrap().bytes(&[9]).unwrap().u64(2).unwrap();
    e.array(0).unwrap();
    let decoded = decode_response(&e.into_writer()).unwrap();
    assert_eq!(value(&decoded.pools[0].accumulated_stake), -64.0);
    assert_eq!(value(&decoded.pools[0].relative_stake), -5.0);
}

#[test]
fn what_cannot_be_decoded_is_named() {
    assert!(matches!(fault(&[0x82, 6, 5]), Fault::EraMismatch));
    assert!(matches!(fault(&[0x83]), Fault::Wrapper(Some(3))));
    assert!(matches!(fault(&[0x9f]), Fault::Wrapper(None)));
    assert!(matches!(fault(&[0x81, 0x81]), Fault::Array(Part::Snapshot, 2, Some(1))));
    assert!(matches!(fault(&[0x81, 0x82, 3]), Fault::AllLedgerPeers));
    assert!(matches!(fault(&[0x81, 0x82, 9]), Fault::Version(9)));
    assert!(matches!(fault(&[0x81, 0x82, 1, 0x82, 0x81, 1]), Fault::WithOrigin));
    assert!(matches!(fault(&[0x81, 0x82, 2, 0x83, 0x81, 1]), Fault::Point));
    assert!(matches!(decode_response(&[]), Err(DecodeError::Cbor(_))));
    assert_eq!(Fault::EraMismatch.text(), "era mismatch reported by the node");
    assert_eq!(Fault::Version(9).text(), "unknown snapshot version 9");
    assert_eq!(Fault::AllLedgerPeers.text(), "node returned an all-ledger-peers snapshot, not big ledger peers");
    assert_eq!(Fault::Wrapper(Some(3)).text(), "unexpected result wrapper Some(3)");
    assert_eq!(Fault::Array(Part::Snapshot, 2, Some(1)).text(), "snapshot: expected a 2-element array, got Some(1)");
}

fn one_pool(relay: &[u8]) -> Vec<u8> {
    let mut bytes = vec![0x81, 0x82, 1, 0x82, 0x81, 0, 0x81, 0x82];
    bytes.extend_from_slice(&[0xd8, 30, 0x82, 1, 2, 0x82, 0xd8, 30, 0x82, 1, 2, 0x81]);
    bytes.extend_from_slice(relay);
    bytes
}

#[test]
fn relays_of_no_known_form_are_refused() {
    assert!(matches!(fault(&one_pool(&[0x83, 9])), Fault::Relay(Some(3), 9)));
    assert!(matches!(fault(&one_pool(&[0x83, 1, 0x1a, 0, 1, 0, 0])), Fault::Port(65536)));
    assert!(matches!(fault(&one_pool(&[0x83, 1, 5, 0x83, 1, 2, 3])), Fault::Components(Part::Ipv4, 3, 4)));
    assert!(matches!(fault(&one_pool(&[0x83, 1, 5, 0x81, 0x20])), Fault::Component(Part::Ipv4, -1)));
}

#[test]
fn stakes_that_are_no_fractions_are_refused() {
    let start = [0x81, 0x82, 1, 0x82, 0x81, 0, 0x81, 0x82];
    let with = |rest: &[u8]| {
        let mut v = start.to_vec();
        v.extend_from_slice(rest);
        v
    };
    assert!(matches!(fault(&with(&[0xd8, 31])), Fault::RationalTag(31)));
    assert!(matches!(fault(&with(&[0xd8, 30, 0x82, 1, 0])), Fault::ZeroDenominator));
    assert!(matches!(fault(&with(&[0xd8, 30, 0x82, 0xc5])), Fault::IntegerTag(5)));
    assert!(matches!(fault(&with(&[0xd8, 30, 0x81])), Fault::Array(Part::Rational, 2, Some(1))));
}

#[test]
fn a_magic_is_a_number_or_mainnet() {
    assert_eq!(parse_magic("mainnet"), Ok(MAINNET_MAGIC));
    assert_eq!(parse_magic("MainNet"), Ok(764824073));
    assert_eq!(parse_magic("2"), Ok(2));
    assert_eq!(parse_magic("18446744073709551615"), Ok(u64::MAX));
    assert_eq!(parse_magic("pre\"view"), Err("expected a network magic number or \"mainnet\", got \"pre\\\"view\"".to_string()));
    assert!(parse_magic("18446744073709551616").is_err());
    assert!(parse_magic("").is_err());
}

fn setting(shape: QueryShape) -> Setting {
    Setting { socket: "/run/node.socket".into(), magic: 2, shape, budget: 30 }
}

fn words(phase: Phase) -> (bool, String) {
    match phase {
        Phase::Over { result: Err(Failure::Setup(m)) } => (false, m),
        Phase::Over { result: Err(Failure::Query(m)) } => (true, m),
        _ => panic!("not over"),
    }
}

#[test]
fn a_session_ends_with_the_snapshot() {
    let at = setting(QueryShape::Plain);
    let mut answer = Encoder::new(Vec::new());
    answer.array(1).unwrap().array(2).unwrap().u8(1).unwrap().array(2).unwrap().array(1).unwrap().u8(0).unwrap().array(0).unwrap();
    let mut phase = Phase::Connect;
    for reply in [
        Reply::Connected,
        Reply::Accepted { version: 0x8010 },
        Reply::Acquired,
        Reply::Era { era: 6 },
        Reply::ChainPoint { point: Some((9, vec![0xab, 1])) },
        Reply::Answer { bytes: answer.into_writer() },
    ] {
        phase = advance(phase, reply, &at);
    }
    let Phase::Over { result: Ok(snap) } = phase else { panic!("no snapshot") };
    assert_eq!((snap.network_magic, snap.node_to_client_version), (2, 16));
    assert_eq!((snap.point.block_point_slot, snap.point.block_point_hash.as_str()), (9, "ab01"));
    assert!(snap.pools.is_empty());
}

#[test]
fn a_failed_step_says_what_failed() {
    let at = setting(QueryShape::Kinded);
    let failed = || Reply::Failed { cause: "broken pipe".into() };
    assert_eq!(words(advance(Phase::Connect, failed(), &at)), (false, "connecting to /run/node.socket: broken pipe".into()));
    assert_eq!(words(advance(Phase::Handshake, failed(), &at)), (false, "node-to-client handshake: broken pipe".into()));
    assert_eq!(words(advance(Phase::Acquire { version: 1 }, failed(), &at)), (false, "acquiring the node's tip: broken pipe".into()));
    assert_eq!(words(advance(Phase::Era { version: 1 }, failed(), &at)), (false, "querying the current era: broken pipe".into()));
    assert_eq!(words(advance(Phase::Point { version: 1, era: 6 }, failed(), &at)), (false, "querying the chain point: broken pipe".into()));
    let query = || Phase::Query { version: 1, era: 6, point: None };
    assert_eq!(words(advance(query(), failed(), &at)), (true, "GetBigLedgerPeerSnapshot as Kinded: broken pipe".into()));
    assert_eq!(words(advance(query(), Reply::Timeout, &at)), (false, "no snapshot from /run/node.socket within 30s".into()));
    let rejected = advance(Phase::Handshake, Reply::Rejected { reason: "no".into() }, &at);
    assert_eq!(words(rejected), (false, "node-to-client handshake rejected: no".into()));
    let asked = advance(Phase::Handshake, Reply::VersionQuery, &at);
    assert_eq!(words(asked), (false, "node answered the handshake with a version query".into()));
    let garbled = advance(query(), Reply::Answer { bytes: vec![0x82, 6, 5] }, &at);
    assert_eq!(words(garbled), (true, "decoding the snapshot (Kinded): era mismatch reported by the node".into()));
    let empty = advance(query(), Reply::Answer { bytes: vec![] }, &at);
    assert_eq!(words(empty), (true, "decoding the snapshot (Kinded): end of input bytes".into()));
}

#[test]
fn malformed_answers_are_refused_in_the_decoders_words() {
    let at = setting(QueryShape::Plain);
    let refusal = |bytes: &[u8]| {
        let (retry, text) = words(advance(Phase::Query { version: 1, era: 6, point: None }, Reply::Answer { bytes: bytes.to_vec() }, &at));
        assert!(retry);
        text.strip_prefix("decoding the snapshot (Plain): ").unwrap().to_string()
    };
    assert_eq!(refusal(&[0x00]), "unexpected type u8 at position 0: expected array");
    assert_eq!(refusal(&[0x81, 0x82, 0x80]), "unexpected type array at position 2: expected u8");
    assert_eq!(refusal(&[0x81, 0x82, 0x19, 1, 0]), "256 overflows target type at position 2: when converting u16 to u8");
    assert_eq!(refusal(&[0x81, 0x82, 1, 0x82, 0x82, 1, 0x80]), "unexpected type array at position 6: expected u64");
    let wide = [0x81, 0x82, 2, 0x83, 0x81, 0, 0x1b, 0, 0, 0, 1, 0, 0, 0, 0];
    assert_eq!(refusal(&wide), "4294967296 overflows target type at position 6: when converting u64 to u32");
    assert_eq!(refusal(&one_pool(&[0x83, 0, 0x60])), "unexpected type string at position 22: expected int");
    assert_eq!(refusal(&one_pool(&[0x83, 0, 5, 0x80])), "unexpected type array at position 23: expected bytes (definite length)");
    assert!(refusal(&one_pool(&[0x83, 0, 5, 0x61, 0xff])).starts_with("invalid utf-8 at position 23"));
    assert_eq!(refusal(&one_pool(&[0x83, 0, 5, 0x62, 0x61])), "end of input bytes");
    assert_eq!(refusal(&[0x81, 0x82, 1, 0x82, 0x81, 0, 0x81, 0x82, 0xd8]), "end of input bytes");
    assert_eq!(refusal(&[0x81, 0x82, 1, 0x82, 0x81, 0, 0x9f]), "end of input bytes");
}

#[test]
fn only_a_failed_query_is_tried_the_other_way() {
    assert!(matches!(after_plain(Ok(1)), Next::Done(1)));
    assert!(matches!(after_plain::<u8>(Err(Failure::Setup("x".into()))), Next::Fail(m) if m == "x"));
    assert!(matches!(after_plain::<u8>(Err(Failure::Query("y".into()))), Next::Retry(m) if m == "y"));
    assert_eq!(after_kinded("y", Ok(2)), Ok(2));
    let both = Err("snapshot query failed as [34] (y) and as [34, 1] (z)".to_string());
    assert_eq!(after_kinded::<u8>("y", Err(Failure::Query("z".into()))), both);
    assert_eq!(after_kinded::<u8>("y", Err(Failure::Setup("z".into()))), both);
}

#[test]
fn a_socket_path_has_room_for_107_bytes() {
    assert_eq!(check_socket_path(107, "p"), Ok(()));
    assert_eq!(check_socket_path(108, "p"), Err("socket path is 108 bytes, unix sockets allow 107: p".to_string()));
}
