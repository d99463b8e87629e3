use dns_live::addr::parse_server_addr;
use dns_live::addr::ServerAddr;

#[test]
fn parses_ipv4() {
    assert_eq!(
        parse_server_addr("1.2.3.4"),
        Some(ServerAddr::V4 { a: 1, b: 2, c: 3, d: 4 })
    );
    assert_eq!(
        parse_server_addr("0.0.0.0"),
        Some(ServerAddr::V4 { a: 0, b: 0, c: 0, d: 0 })
    );
    assert_eq!(
        parse_server_addr("255.255.255.255"),
        Some(ServerAddr::V4 { a: 255, b: 255, c: 255, d: 255 })
    );
}

#[test]
fn rejects_bad_ipv4() {
    assert_eq!(parse_server_addr("256.1.1.1"), None);
    assert_eq!(parse_server_addr("01.2.3.4"), None);
    assert_eq!(parse_server_addr("1.2.3"), None);
    assert_eq!(parse_server_addr("1.2.3.4.5"), None);
    assert_eq!(parse_server_addr("1.2.3."), None);
    assert_eq!(parse_server_addr("a.b.c.d"), None);
    assert_eq!(parse_server_addr(""), None);
    assert_eq!(parse_server_addr("not an ip"), None);
    assert_eq!(parse_server_addr(" 1.2.3.4"), None);
}

#[test]
fn parses_ipv6() {
    assert_eq!(
        parse_server_addr("::1"),
        Some(ServerAddr::V6 { g0: 0, g1: 0, g2: 0, g3: 0, g4: 0, g5: 0, g6: 0, g7: 1 })
    );
    assert_eq!(
        parse_server_addr("::"),
        Some(ServerAddr::V6 { g0: 0, g1: 0, g2: 0, g3: 0, g4: 0, g5: 0, g6: 0, g7: 0 })
    );
    assert_eq!(
        parse_server_addr("1:2:3:4:5:6:7:8"),
        Some(ServerAddr::V6 { g0: 1, g1: 2, g2: 3, g3: 4, g4: 5, g5: 6, g6: 7, g7: 8 })
    );
    assert_eq!(
        parse_server_addr("2001:db8::8a2e:370:7334"),
        Some(ServerAddr::V6 {
            g0: 0x2001,
            g1: 0xdb8,
            g2: 0,
            g3: 0,
            g4: 0,
            g5: 0x8a2e,
            g6: 0x370,
            g7: 0x7334
        })
    );
    assert_eq!(
        parse_server_addr("fe80::"),
        Some(ServerAddr::V6 { g0: 0xfe80, g1: 0, g2: 0, g3: 0, g4: 0, g5: 0, g6: 0, g7: 0 })
    );
    assert_eq!(
        parse_server_addr("ABCD:ef01::1"),
        Some(ServerAddr::V6 { g0: 0xabcd, g1: 0xef01, g2: 0, g3: 0, g4: 0, g5: 0, g6: 0, g7: 1 })
    );
}

#[test]
fn parses_ipv4_in_ipv6() {
    assert_eq!(
        parse_server_addr("::ffff:192.0.2.128"),
        Some(ServerAddr::V6 { g0: 0, g1: 0, g2: 0, g3: 0, g4: 0, g5: 0xffff, g6: 0xc000, g7: 0x280 })
    );
    assert_eq!(
        parse_server_addr("1:2:3:4:5:6:7.8.9.10"),
        Some(ServerAddr::V6 {
            g0: 1,
            g1: 2,
            g2: 3,
            g3: 4,
            g4: 5,
            g5: 6,
            g6: 7 * 256 + 8,
            g7: 9 * 256 + 10
        })
    );
}

#[test]
fn rejects_bad_ipv6() {
    assert_eq!(parse_server_addr(":::"), None);
    assert_eq!(parse_server_addr("1::2::3"), None);
    assert_eq!(parse_server_addr("1:2:3:4:5:6:7"), None);
    assert_eq!(parse_server_addr("1:2:3:4:5:6:7:8:9"), None);
    assert_eq!(parse_server_addr("1:2:3:4:5:6:7:8::"), None);
    assert_eq!(parse_server_addr("12345::"), None);
    assert_eq!(parse_server_addr(":1:2:3:4:5:6:7"), None);
    assert_eq!(parse_server_addr("1:2:3:4:5:6:7:"), None);
    assert_eq!(parse_server_addr("g::1"), None);
}

#[test]
fn ipv6_edge_forms() {
    assert_eq!(
        parse_server_addr("0:0:0:0:0:0:0:1"),
        Some(ServerAddr::V6 { g0: 0, g1: 0, g2: 0, g3: 0, g4: 0, g5: 0, g6: 0, g7: 1 })
    );
    assert_eq!(
        parse_server_addr("1::8"),
        Some(ServerAddr::V6 { g0: 1, g1: 0, g2: 0, g3: 0, g4: 0, g5: 0, g6: 0, g7: 8 })
    );
    assert_eq!(
        parse_server_addr("::1.2.3.4"),
        Some(ServerAddr::V6 { g0: 0, g1: 0, g2: 0, g3: 0, g4: 0, g5: 0, g6: 0x102, g7: 0x304 })
    );
    assert_eq!(
        parse_server_addr("00ff::"),
        Some(ServerAddr::V6 { g0: 0xff, g1: 0, g2: 0, g3: 0, g4: 0, g5: 0, g6: 0, g7: 0 })
    );
    // The dotted tail only stands at the end, and only as a whole group.
    assert_eq!(parse_server_addr("1.2.3.4::"), None);
    assert_eq!(parse_server_addr("::1.2.3.4:5"), None);
    assert_eq!(parse_server_addr("1:2:3:4:5:6:7:1.2.3.4"), None);
}
