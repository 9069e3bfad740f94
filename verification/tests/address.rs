use floresta_wire::address::parse_connect_host;
use floresta_wire::address::resolve_connect_host;
use floresta_wire::address::ConnectHost;
use floresta_wire::address::ResolvedHost;
use floresta_wire::types::AddrV2;
use floresta_wire::types::AddressState;
use floresta_wire::types::ServiceFlags;
use floresta_wire::types::AddrParseError;

fn parse(address: &str, port: u16) -> Result<(ConnectHost, u16), AddrParseError> {
    parse_connect_host(address, port).map(|t| (t.host, t.port))
}

fn ipv4(address: &str, port: u16) -> (u32, u16) {
    match parse(address, port) {
        Ok((ConnectHost::Ipv4(ip), p)) => (ip, p),
        other => panic!("expected an IPv4 address for {address:?}, got {other:?}"),
    }
}

fn ipv6(address: &str, port: u16) -> (u128, u16) {
    match parse(address, port) {
        Ok((ConnectHost::Ipv6(ip), p)) => (ip, p),
        other => panic!("expected an IPv6 address for {address:?}, got {other:?}"),
    }
}

fn hostname(address: &str, port: u16) -> (Vec<u8>, u16) {
    match parse(address, port) {
        Ok((ConnectHost::Hostname(h), p)) => (h, p),
        other => panic!("expected a host name for {address:?}, got {other:?}"),
    }
}

fn error(address: &str, port: u16) -> AddrParseError {
    match parse(address, port) {
        Err(e) => e,
        Ok(other) => panic!("expected an error for {address:?}, got {other:?}"),
    }
}

#[test]
fn parse_ipv6_without_port() {
    assert_eq!(ipv6("[::1]", 8333), (1, 8333));
}

#[test]
fn parse_ipv6_unclosed_bracket() {
    assert_eq!(error("[::1", 8333), AddrParseError::InvalidIpv6);
}

#[test]
fn parse_ipv6_with_port() {
    assert_eq!(ipv6("[::1]:8333", 18444), (1, 8333));
}

#[test]
fn parse_ipv6_with_two_ports() {
    assert_eq!(error("[::1]:8333:8333", 8333), AddrParseError::InvalidPort);
}

#[test]
fn parse_ipv4_without_port() {
    assert_eq!(ipv4("127.0.0.1", 8333), (0x7f00_0001, 8333));
}

#[test]
fn parse_ipv4_out_of_range_is_a_host_name() {
    // Not an IPv4 address, so it is left to the resolver, which refuses it.
    assert_eq!(hostname("321.321.321.321", 8333), (b"321.321.321.321".to_vec(), 8333));
}

#[test]
fn parse_ipv4_with_port() {
    assert_eq!(ipv4("127.0.0.1:8333", 1), (0x7f00_0001, 8333));
}

#[test]
fn parse_ipv4_with_two_ports() {
    assert_eq!(error("127.0.0.1:8333:8333", 8333), AddrParseError::Inconclusive);
}

#[test]
fn parse_hostname_without_port() {
    assert_eq!(hostname("example.com", 8333), (b"example.com".to_vec(), 8333));
}

#[test]
fn parse_single_label_hostname() {
    assert_eq!(hostname("example", 8333), (b"example".to_vec(), 8333));
}

#[test]
fn parse_hostname_with_port() {
    assert_eq!(hostname("example.com:8333", 1), (b"example.com".to_vec(), 8333));
}

#[test]
fn parse_hostname_with_two_ports() {
    assert_eq!(error("example.com:8333:8333", 8333), AddrParseError::Inconclusive);
}

#[test]
fn parse_empty_is_localhost() {
    assert_eq!(ipv4("", 8333), (0x7f00_0001, 8333));
}

#[test]
fn parse_surrounding_spaces_refused() {
    assert_eq!(error(" 127.0.0.1:8333 ", 8333), AddrParseError::InvalidPort);
}

#[test]
fn parse_port_zero() {
    assert_eq!(ipv4("127.0.0.1:0", 0), (0x7f00_0001, 0));
}

#[test]
fn parse_maximum_port() {
    assert_eq!(ipv4("127.0.0.1:65535", 65535), (0x7f00_0001, 65535));
}

#[test]
fn parse_out_of_range_port() {
    assert_eq!(error("127.0.0.1:65536", 65535), AddrParseError::InvalidPort);
}

#[test]
fn parse_port_with_plus_sign() {
    assert_eq!(ipv4("10.0.0.2:+18444", 1), (0x0a00_0002, 18444));
    assert_eq!(error("10.0.0.2:+", 1), AddrParseError::InvalidPort);
    assert_eq!(error("10.0.0.2:-1", 1), AddrParseError::InvalidPort);
}

#[test]
fn parse_empty_port_refused() {
    assert_eq!(error("10.0.0.2:", 1), AddrParseError::InvalidPort);
}

#[test]
fn parse_ipv4_leading_zero_is_a_host_name() {
    assert_eq!(hostname("1.2.3.04", 1), (b"1.2.3.04".to_vec(), 1));
    assert_eq!(ipv4("1.2.3.0", 1), (0x0102_0300, 1));
}

#[test]
fn parse_full_ipv6() {
    assert_eq!(
        ipv6("[2001:db8:0:0:1:0:0:1]:18444", 1),
        (0x2001_0db8_0000_0000_0001_0000_0000_0001, 18444)
    );
    assert_eq!(
        ipv6("[1:2:3:4:5:6:7:8]", 9),
        (0x0001_0002_0003_0004_0005_0006_0007_0008, 9)
    );
}

#[test]
fn parse_compressed_ipv6() {
    assert_eq!(
        ipv6("[2001:DB8::ff00:42:8329]", 1),
        (0x2001_0db8_0000_0000_0000_ff00_0042_8329, 1)
    );
    assert_eq!(ipv6("[::]", 1), (0, 1));
    assert_eq!(ipv6("[fe80::]", 1), (0xfe80_u128 << 112, 1));
}

#[test]
fn parse_ipv6_with_embedded_ipv4() {
    assert_eq!(ipv6("[::ffff:1.2.3.4]", 1), (0xffff_0102_0304, 1));
    assert_eq!(
        ipv6("[1:2:3:4:5:6:7.8.9.10]", 1),
        (0x0001_0002_0003_0004_0005_0006_0708_090a, 1)
    );
}

#[test]
fn parse_malformed_ipv6_refused() {
    assert_eq!(error("[1:2:3:4:5:6:7:8:9]", 1), AddrParseError::InvalidIpv6);
    assert_eq!(error("[1::2::3]", 1), AddrParseError::InvalidIpv6);
    assert_eq!(error("[12345::]", 1), AddrParseError::InvalidIpv6);
    assert_eq!(error("[1.2.3.4::]", 1), AddrParseError::InvalidIpv6);
    assert_eq!(error("[]", 1), AddrParseError::InvalidIpv6);
    assert_eq!(error("[:1]", 1), AddrParseError::InvalidIpv6);
}

#[test]
fn parse_ipv6_trailing_whitespace_trimmed() {
    assert_eq!(ipv6("[::1]:8333  ", 1), (1, 8333));
    assert_eq!(ipv6("[::2]\u{3000}", 7), (2, 7));
}

#[test]
fn parse_ipv6_port_colons_skipped() {
    assert_eq!(ipv6("[::1]::8333", 1), (1, 8333));
    assert_eq!(ipv6("[::1]8333", 1), (1, 8333));
}

#[test]
fn resolve_ip_addresses_directly() {
    match resolve_connect_host("127.0.0.1:8333", 1) {
        Ok(ResolvedHost::Address(a)) => {
            assert_eq!(a.address, AddrV2::Ipv4(0x7f00_0001));
            assert_eq!(a.port, 8333);
            assert_eq!(a.state, AddressState::NeverTried);
            assert_eq!(a.services, ServiceFlags::none());
            assert_eq!(a.last_connected, 0);
        }
        other => panic!("unexpected {other:?}"),
    }
    match resolve_connect_host("[::1]", 18444) {
        Ok(ResolvedHost::Address(a)) => {
            assert_eq!(a.address, AddrV2::Ipv6(1));
            assert_eq!(a.port, 18444);
        }
        other => panic!("unexpected {other:?}"),
    }
}

#[test]
fn resolve_leaves_host_names_to_look_up() {
    match resolve_connect_host("example.com:8333", 1) {
        Ok(ResolvedHost::Lookup(name, port)) => {
            assert_eq!(name, b"example.com".to_vec());
            assert_eq!(port, 8333);
        }
        other => panic!("unexpected {other:?}"),
    }
    assert!(matches!(
        resolve_connect_host("[::1", 1),
        Err(AddrParseError::InvalidIpv6)
    ));
}

fn resolved_address(address: &str, port: u16) -> (AddrV2, u16) {
    match resolve_connect_host(address, port) {
        Ok(ResolvedHost::Address(a)) => {
            assert_eq!(a.state, AddressState::NeverTried);
            assert_eq!(a.services, ServiceFlags(0));
            (a.address, a.port)
        }
        other => panic!("expected an address for {address:?}, got {other:?}"),
    }
}

#[test]
fn dotted_decimal_text_reads_back() {
    for &(a, b, c, d) in &[(0u32, 0u32, 0u32, 0u32), (255, 255, 255, 255), (10, 0, 2, 15), (1, 20, 100, 9)] {
        let ip = (a << 24) | (b << 16) | (c << 8) | d;
        for &port in &[0u16, 8, 8333, 65535] {
            let text = format!("{a}.{b}.{c}.{d}:{port}");
            assert_eq!(resolved_address(&text, 1), (AddrV2::Ipv4(ip), port));
        }
        assert_eq!(resolved_address(&format!("{a}.{b}.{c}.{d}"), 18444), (AddrV2::Ipv4(ip), 18444));
    }
}

#[test]
fn full_ipv6_text_reads_back() {
    let groups: [u128; 8] = [0x2001, 0xdb8, 0x85a3, 0x1, 0x8a2e, 0x370, 0x7334, 0xffff];
    let mut ip: u128 = 0;
    for g in groups {
        ip = (ip << 16) | g;
    }
    let text: Vec<String> = groups.iter().map(|g| format!("{g:x}")).collect();
    let text = text.join(":");
    assert_eq!(resolved_address(&format!("[{text}]:8333"), 1), (AddrV2::Ipv6(ip), 8333));
    assert_eq!(resolved_address(&format!("[{text}]"), 18444), (AddrV2::Ipv6(ip), 18444));
}

#[test]
fn compressed_ipv6_text_reads_back() {
    let ip: u128 = (0x2001u128 << 112) | (0xdb8u128 << 96) | 1;
    assert_eq!(resolved_address("[2001:db8::1]:8333", 1), (AddrV2::Ipv6(ip), 8333));
    assert_eq!(resolved_address("[2001:db8::1]", 18444), (AddrV2::Ipv6(ip), 18444));
    assert_eq!(resolved_address("[::]:1", 2), (AddrV2::Ipv6(0), 1));
    assert_eq!(resolved_address("[1::]", 2), (AddrV2::Ipv6(1u128 << 112), 2));
}

#[test]
fn ipv4_mapped_text_reads_back() {
    assert_eq!(
        resolved_address("[::ffff:1.2.3.4]:8333", 1),
        (AddrV2::Ipv6(0xffff_0102_0304), 8333)
    );
    assert_eq!(resolved_address("[::ffff:10.0.0.255]", 7), (AddrV2::Ipv6(0xffff_0a00_00ff), 7));
}
