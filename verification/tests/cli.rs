use cardano_census::cli::{parse_label, Args};
use cardano_census::schedule::{probe_magic, source, Source, SourceError};

fn args() -> Args {
    Args {
        snapshot: None,
        node_socket: None,
        network_magic: None,
        output: "-".into(),
        labels: vec![],
        report: None,
        timeout: 60,
        parallel: 128,
        fork_tolerance: 10,
        asn_db: None,
        asn_min_relays: 3,
        prefer_ipv4: false,
        happy_eyeballs_delay_ms: 500,
        pool_index: None,
        top_pools: 20,
    }
}

#[test]
fn a_label_is_a_key_and_a_value() {
    assert_eq!(parse_label("env=x"), Ok(("env".to_string(), "x".to_string())));
    assert_eq!(parse_label("_a1=b=c"), Ok(("_a1".to_string(), "b=c".to_string())));
    assert_eq!(parse_label("k="), Ok(("k".to_string(), String::new())));
    assert_eq!(parse_label("novalue"), Err("expected KEY=VALUE, got \"novalue\"".to_string()));
    for bad in ["", "1a", "__a", "a-b", "é"] {
        assert!(parse_label(&format!("{bad}=x")).is_err(), "{bad}");
    }
    assert_eq!(parse_label("1\t=x"), Err("\"1\\t\" is not a valid label name".to_string()));
}

#[test]
fn a_dash_is_standard_output() {
    let mut a = args();
    assert!(a.output_is_stdout());
    a.output = "metrics.prom".into();
    assert!(!a.output_is_stdout());
}

#[test]
fn the_snapshot_comes_from_a_socket_or_a_file() {
    let mut a = args();
    assert!(matches!(source(&a), Err(SourceError::NoSource)));
    assert_eq!(SourceError::NoSource.text(), "one of --snapshot or --node-socket is required");
    a.snapshot = Some("s.json".into());
    assert!(matches!(source(&a), Ok(Source::File { path }) if path == "s.json"));
    a.node_socket = Some("n.sock".into());
    assert!(matches!(source(&a), Err(SourceError::NoMagic)));
    assert_eq!(SourceError::NoMagic.text(), "--node-socket needs --network-magic");
    a.network_magic = Some(2);
    assert!(matches!(source(&a), Ok(Source::Node { socket, magic: 2 }) if socket == "n.sock"));
}

#[test]
fn the_magic_asked_for_overrides_the_snapshots() {
    let mut a = args();
    assert_eq!(probe_magic(&a, 5), 5);
    a.network_magic = Some(2);
    assert_eq!(probe_magic(&a, 5), 2);
}
