use cardano_census::ip::{parse_ip, parse_sock, parse_v4, parse_v6, reverse_octets, write_addr, write_ip, write_sock, write_v4, write_v6, Ip, SockAddr};
use cardano_census::net::{connect_failed, connect_target, format_host_port, ConnectError};
use cardano_census::resolve::Entry;
use cardano_census::reversed::{may_dial, reverse, shadow, shadow_keys, targets, Shadow};
use cardano_census::table::Table;

fn chars(s: &str) -> Vec<char> {
    s.chars().collect()
}

fn text(v: Vec<char>) -> String {
    v.into_iter().collect()
}

fn entry(pool: usize, address: &str, port: Option<u16>) -> Entry {
    Entry { pool, address: address.into(), port }
}

#[test]
fn reverses_octets() {
    let given = parse_v4(&chars("20.61.229.103")).unwrap();
    assert_eq!(reverse(given), parse_v4(&chars("103.229.61.20")).unwrap());
}

#[test]
fn targets_only_ipv4_literals_with_ports() {
    let entries = vec![
        entry(0, "20.61.229.103", Some(3001)),
        entry(0, "relay.example", Some(3001)),
        entry(0, "2001:db8::1", Some(3001)),
        entry(1, "_cardano._tcp.example", None),
    ];
    let t = targets(&entries);
    assert_eq!(t[0].as_deref(), Some("103.229.61.20:3001"));
    assert!(t[1].is_none() && t[2].is_none() && t[3].is_none());
}

#[test]
fn reversing_twice_gives_the_address_back() {
    for a in [0u32, 1, 0x01020304, 0xfffefdfc] {
        assert_eq!(reverse_octets(reverse_octets(a)), a);
    }
    assert_eq!(reverse_octets(0x01020304), 0x04030201);
}

#[test]
fn an_ipv4_literal_is_four_plain_octets() {
    for (s, a) in [("0.0.0.0", 0), ("1.2.3.4", 0x01020304), ("255.255.255.255", u32::MAX)] {
        assert_eq!(parse_v4(&chars(s)), Some(a), "{s:?}");
    }
    for s in ["256.1.1.1", "1.2.3", "1.2.3.4.5", "01.2.3.4", "1.2.3.04", "", "1..2.3", "a.b.c.d", " 1.2.3.4", "1.2.3.4 ", "+1.2.3.4"] {
        assert_eq!(parse_v4(&chars(s)), None, "{s:?}");
    }
}

#[test]
fn an_ipv6_literal_has_one_gap_and_a_quad_at_its_end() {
    for (s, a) in [
        ("::", 0u128),
        ("::1", 1),
        ("1::", 1 << 112),
        ("2001:db8::1", (0x2001_0db8 << 96) | 1),
        ("2001:DB8:0:0::1", (0x2001_0db8 << 96) | 1),
        ("1:2:3:4:5:6:7:8", 0x0001_0002_0003_0004_0005_0006_0007_0008),
        ("::ffff:1.2.3.4", 0xffff_0102_0304),
        ("::1.2.3.4", 0x0102_0304),
        ("1:2:3:4:5:6:1.2.3.4", 0x0001_0002_0003_0004_0005_0006_0102_0304),
        ("1:2:3:4:5:6:7::", 0x0001_0002_0003_0004_0005_0006_0007_0000),
        ("::2:3:4:5:6:7:8", 0x0002_0003_0004_0005_0006_0007_0008),
    ] {
        assert_eq!(parse_v6(&chars(s)), Some(a), "{s:?}");
    }
    for s in [
        "1:2:3:4:5:6:7", "1:2:3:4:5:6:7:8:9", "1::2::3", "1:2:3:4:5:6:7:1.2.3.4", "1.2.3.4::", "12345::", "g::", ":1::", "fe80::1%eth0", "[::1]", "",
        ":", ":::", "1:::2",
    ] {
        assert_eq!(parse_v6(&chars(s)), None, "{s:?}");
    }
}

#[test]
fn addresses_are_written_in_their_shortest_form() {
    for (a, s) in [(0u32, "0.0.0.0"), (1, "0.0.0.1"), (0x7f000001, "127.0.0.1"), (u32::MAX, "255.255.255.255")] {
        assert_eq!(text(write_v4(a)), s);
    }
    for (a, s) in [
        (0u128, "::"),
        (1, "::1"),
        (0x2001_0db8 << 96, "2001:db8::"),
        ((0x2001_0db8u128 << 96) | 1, "2001:db8::1"),
        (0xffff_0102_0304, "::ffff:1.2.3.4"),
        (0x0102_0304, "::102:304"),
        (u128::MAX, "ffff:ffff:ffff:ffff:ffff:ffff:ffff:ffff"),
        (0x0001_0000_0000_0002_0000_0000_0000_0003, "1:0:0:2::3"),
        (0x0001_0000_0002_0003_0004_0005_0006_0007, "1:0:2:3:4:5:6:7"),
        (0x0001_0000_0000_0002_0003_0000_0000_0004, "1::2:3:0:0:4"),
    ] {
        assert_eq!(text(write_v6(a)), s);
    }
}

#[test]
fn what_is_written_reads_back() {
    for ip in [Ip::V4(0x01020304), Ip::V6(1), Ip::V6((0x2001_0db8u128 << 96) | 7), Ip::V6(0xffff_0102_0304)] {
        assert_eq!(parse_ip(&write_ip(ip)), Some(ip));
        assert_eq!(parse_sock(&write_sock(ip, 3001)), Some(SockAddr { ip, port: 3001, scope: 0 }));
        assert_eq!(parse_sock(&write_addr(SockAddr { ip, port: 3001, scope: 0 })), Some(SockAddr { ip, port: 3001, scope: 0 }));
    }
}

#[test]
fn a_socket_address_is_an_address_and_a_port() {
    for (s, t) in [("1.2.3.4:5", "1.2.3.4:5"), ("1.2.3.4:65535", "1.2.3.4:65535"), ("[::1]:80", "[::1]:80"), ("[fe80::1%7]:80", "[fe80::1%7]:80"), ("[fe80::1%0]:80", "[fe80::1]:80"), ("1.2.3.4:005", "1.2.3.4:5")] {
        assert_eq!(parse_sock(&chars(s)).map(|a| text(write_addr(a))), Some(t.to_string()), "{s:?}");
    }
    for s in ["1.2.3.4:65536", "1.2.3.4", "1.2.3.4:", "::1:80", "[::1]", "[1.2.3.4]:5", "[::1%]:5", "[::1%x]:5", "[::1%4294967296]:5", "relay.example:3001", "1.2.3.4:+5"] {
        assert!(parse_sock(&chars(s)).is_none(), "{s:?}");
    }
}

#[test]
fn hosts_with_colons_get_brackets() {
    assert_eq!(format_host_port("relay.example", 3001), "relay.example:3001");
    assert_eq!(format_host_port("192.0.2.1", 3001), "192.0.2.1:3001");
    assert_eq!(format_host_port("2001:db8::1", 3001), "[2001:db8::1]:3001");
    assert_eq!(format_host_port("[2001:db8::1]", 3001), "[2001:db8::1]:3001");
}

#[test]
fn only_socket_addresses_are_dialled() {
    assert!(matches!(connect_target("192.0.2.1:3001"), Ok(SockAddr { ip: Ip::V4(_), port: 3001, scope: 0 })));
    let bad = connect_target("x").unwrap_err();
    assert_eq!(bad.text(), "Invalid address: x");
    let refused = connect_failed(SockAddr { ip: Ip::V4(0x01020304), port: 3001, scope: 0 }, "Connection refused (os error 111)");
    assert_eq!(refused.text(), "Connect error to 1.2.3.4:3001: Connection refused (os error 111)");
    let scoped = connect_target("[fe80::1%3]:3001").unwrap();
    assert_eq!(scoped, SockAddr { ip: Ip::V6((0xfe80u128 << 112) | 1), port: 3001, scope: 3 });
    assert_eq!(connect_failed(scoped, "No route").text(), "Connect error to [fe80::1%3]:3001: No route");
    assert_eq!(ConnectError::Timeout.text(), "timeout");
}

#[test]
fn every_shadow_address_is_probed_once() {
    let entries = vec![entry(0, "1.2.3.4", Some(1)), entry(1, "1.2.3.4", Some(1)), entry(1, "x", Some(1)), entry(2, "5.6.7.8", Some(2))];
    let addresses = targets(&entries);
    assert_eq!(shadow_keys(&addresses), vec!["4.3.2.1:1", "8.7.6.5:2"]);
    let mut answered = Table::new();
    answered.slot("4.3.2.1:1", true);
    let s = shadow(addresses, &answered);
    assert_eq!(s.reachable, vec![Some(true), Some(true), None, Some(false)]);
    assert_eq!(s.address[3].as_deref(), Some("8.7.6.5:2"));
}

#[test]
fn a_reversal_into_special_use_space_is_not_dialled() {
    assert!(!may_dial("127.0.0.1:3001"));
    assert!(!may_dial("10.1.2.3:3001"));
    assert!(may_dial("103.229.61.20:3001"));
    assert!(may_dial("relay.example:3001"));
}

#[test]
fn no_shadow_has_neither_address_nor_answer() {
    let s = Shadow::none(2);
    assert_eq!(s.address, vec![None, None]);
    assert_eq!(s.reachable, vec![None, None]);
}
