use cardano_census::asn::{special_use, AsnDb, SpecialUse};
use cardano_census::ip::{parse_ip, Ip};

fn db() -> AsnDb {
    AsnDb::parse(
        "1.0.0.0\t1.0.0.255\t13335\tUS\tCLOUDFLARENET\n\
         1.0.1.0\t1.0.3.255\t0\tNone\tNot routed\n\
         10.0.0.0\t10.255.255.255\t64512\tDE\tHETZNER-AS Hetzner Online GmbH\n\
         2001:db8::\t2001:db8:ffff:ffff:ffff:ffff:ffff:ffff\t64513\tNL\tEXAMPLE-V6\n",
    )
}

fn ip(s: &str) -> Ip {
    let chars: Vec<char> = s.chars().collect();
    parse_ip(&chars).unwrap()
}

#[test]
fn finds_ranges_and_takes_the_handle() {
    let db = db();
    assert_eq!(db.len(), 3);
    let h = db.lookup(ip("10.20.30.40")).unwrap();
    assert_eq!((h.asn, h.name.as_str()), (64512, "HETZNER-AS"));
    assert_eq!(db.lookup(ip("1.0.0.7")).unwrap().name, "CLOUDFLARENET");
    assert_eq!(db.lookup(ip("2001:db8::1")).unwrap().asn, 64513);
}

#[test]
fn misses_unrouted_and_gaps() {
    let db = db();
    assert!(db.lookup(ip("1.0.2.1")).is_none());
    assert!(db.lookup(ip("9.9.9.9")).is_none());
    assert!(db.lookup(ip("2001:db9::1")).is_none());
}

#[test]
fn broken_lines_say_nothing() {
    let db = AsnDb::parse("1.0.0.0\t1.0.0.255\n\nx\ty\t1\tUS\tA\n1.0.0.0\t2001:db8::\t1\tUS\tA\n1.0.0.0\t1.0.0.255\t-1\tUS\tA");
    assert_eq!(db.len(), 0);
}

#[test]
fn a_range_without_a_description_is_named_by_its_number() {
    let db = AsnDb::parse("5.0.0.0\t5.0.0.255\t77\r\n6.0.0.0\t6.0.0.255\t78\tUS\t \r\n");
    assert_eq!(db.lookup(ip("5.0.0.1")).unwrap().name, "AS77");
    assert_eq!(db.lookup(ip("6.0.0.1")).unwrap().name, "AS78");
}

#[test]
fn the_last_range_that_starts_in_time_decides() {
    // Out of order, and one range inside another.
    let db = AsnDb::parse("8.0.0.10\t8.0.0.20\t2\tUS\tINNER\n8.0.0.0\t8.0.0.255\t1\tUS\tOUTER\n");
    assert_eq!(db.lookup(ip("8.0.0.5")).unwrap().asn, 1);
    assert_eq!(db.lookup(ip("8.0.0.10")).unwrap().asn, 2);
    assert_eq!(db.lookup(ip("8.0.0.20")).unwrap().asn, 2);
    assert!(db.lookup(ip("8.0.0.21")).is_none());
    assert!(db.lookup(ip("7.255.255.255")).is_none());
}

#[test]
fn private_and_reserved_space_is_told_from_public() {
    for a in ["10.0.0.0", "10.255.255.255", "172.16.0.1", "172.31.255.255", "192.168.1.1", "fc00::1", "fdff::"] {
        assert_eq!(special_use(ip(a)), Some(SpecialUse::Private), "{a}");
    }
    for a in [
        "0.0.0.0", "100.64.0.1", "127.0.0.1", "169.254.1.1", "192.0.0.1", "192.0.2.1", "198.18.0.1", "198.51.100.7",
        "203.0.113.9", "224.0.0.1", "255.255.255.255", "::", "::1", "fe80::1", "ff02::1", "2001:db8::1", "100::1",
    ] {
        assert_eq!(special_use(ip(a)), Some(SpecialUse::Reserved), "{a}");
    }
    for a in ["9.255.255.255", "11.0.0.0", "172.15.0.1", "172.32.0.0", "192.167.0.1", "192.169.0.0", "223.255.255.255", "2001:4860::1"] {
        assert_eq!(special_use(ip(a)), None, "{a}");
    }
    assert_eq!(SpecialUse::Private.label(), "private");
    assert_eq!(SpecialUse::Reserved.label(), "reserved");
}
