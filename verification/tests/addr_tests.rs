use std::str::FromStr;

use scion_net::as_from_dotted_hex;
use scion_net::as_from_ia;
use scion_net::as_to_dotted_hex;
use scion_net::isd_from_ia;
use scion_net::make_ia;
use scion_net::parse_scion_impl;
use scion_net::scion_addr::format_AS;
use scion_net::AddrKind;
use scion_net::AddrParseError;
use scion_net::DisplayBuffer;
use scion_net::IpAddr;
use scion_net::Ipv4Addr;
use scion_net::Ipv6Addr;
use scion_net::Ipv6MulticastScope;
use scion_net::ScionAddr;
use scion_net::SocketAddr;
use scion_net::SocketAddrScion;
use scion_net::SocketAddrV4;
use scion_net::SocketAddrV6;

#[test]
fn it_works() {
    let result = 2 + 2;
    assert_eq!(result, 4);
}

#[test]
fn parse_scion_addr() {
    let b = as_from_dotted_hex("ffaa:1:1067");
    assert_eq!(b, 281105609592935);

    assert_eq!(as_to_dotted_hex(b), "ffaa:1:1067");

    let a = SocketAddr::from_str("19-ffaa:1:1067,127.0.0.1:53").unwrap();
    let ia = if let SocketAddr::SCION(SocketAddrScion { addr, port: _ }) = a {
        addr.get_ia()
    } else {
        0
    };
    let port = if let SocketAddr::SCION(SocketAddrScion { addr: _, port: p }) = a {
        p
    } else {
        0
    };
    assert_eq!(port, 53);

    assert_eq!(make_ia(19, b), 5629130167095399);
    assert_eq!(ia, make_ia(19, b));

    assert_eq!(
        if let SocketAddr::SCION(SocketAddrScion { addr, port: _ }) = a {
            addr.get_isd()
        } else {
            0
        },
        19
    );
    assert_eq!(
        if let SocketAddr::SCION(SocketAddrScion { addr, port: _ }) = a {
            addr.get_as()
        } else {
            0
        },
        281105609592935
    );

    assert_eq!(a.to_string(), "19-ffaa:1:1067,127.0.0.1:53");

    let expected = SocketAddr::SCION(SocketAddrScion::new1(
        ScionAddr::new1(19, b, IpAddr::V4(Ipv4Addr::new(127, 0, 0, 1))),
        53,
    ));
    assert_eq!(a, expected);
}

#[test]
fn ipv4_round_trip_canonical() {
    let texts = ["0.0.0.0", "127.0.0.1", "192.168.0.1", "255.255.255.255", "8.8.8.8"];
    for t in texts {
        let ip = Ipv4Addr::from_str(t).unwrap();
        assert_eq!(ip.to_string(), t);
        assert_eq!(Ipv4Addr::from_str(&ip.to_string()).unwrap(), ip);
    }
}

#[test]
fn ipv6_mapped_display() {
    let ip = Ipv6Addr::new(0, 0, 0, 0, 0, 0xffff, 0xc00a, 0x2ff);
    assert_eq!(ip.to_string(), "::ffff:192.10.2.255");
}

#[test]
fn ipv6_single_zero_not_compressed() {
    let ip = Ipv6Addr::from_str("1:0:1:1:1:1:1:1").unwrap();
    assert_eq!(ip.to_string(), "1:0:1:1:1:1:1:1");
}

#[test]
fn ipv6_compression_rules() {
    assert_eq!(Ipv6Addr::new(0, 0, 0, 0, 0, 0, 0, 1).to_string(), "::1");
    assert_eq!(Ipv6Addr::new(0, 0, 0, 0, 0, 0, 0, 0).to_string(), "::");
    // first of two equally long zero runs wins
    assert_eq!(Ipv6Addr::new(1, 0, 0, 2, 3, 0, 0, 4).to_string(), "1::2:3:0:0:4");
    // the longer run wins even when it comes later
    assert_eq!(Ipv6Addr::new(1, 0, 0, 2, 0, 0, 0, 4).to_string(), "1:0:0:2::4");
    assert_eq!(
        Ipv6Addr::from_str("2001:db8::1").unwrap().to_string(),
        "2001:db8::1"
    );
}

#[test]
fn ipv6_round_trip() {
    let texts = ["::", "::1", "1:2:3:4:5:6:7:8", "2001:db8::8:800:200c:417a", "::ffff:1.2.3.4"];
    for t in texts {
        let ip = Ipv6Addr::from_str(t).unwrap();
        let shown = ip.to_string();
        assert_eq!(Ipv6Addr::from_str(&shown).unwrap(), ip);
    }
}

#[test]
fn ipv6_embedded_ipv4_parses() {
    let ip = Ipv6Addr::from_str("::ffff:192.10.2.255").unwrap();
    assert_eq!(
        ip.segments(),
        [0, 0, 0, 0, 0, 0xffff, 0xc00a, 0x2ff]
    );
    assert_eq!(ip.to_ipv4_mapped(), Some(Ipv4Addr::new(192, 10, 2, 255)));
}

#[test]
fn identifier_codec() {
    assert_eq!(isd_from_ia(make_ia(19, 281105609592935)), 19);
    assert_eq!(as_from_ia(make_ia(19, 281105609592935)), 281105609592935);
    assert_eq!(isd_from_ia(make_ia(65535, 0xffffffffffff)), 65535);
    assert_eq!(as_from_ia(make_ia(65535, 0xffffffffffff)), 0xffffffffffff);
    assert_eq!(make_ia(0, 0), 0);
}

#[test]
fn as_dotted_hex_round_trip() {
    assert_eq!(as_from_dotted_hex("ffaa:1:1067"), 281105609592935);
    assert_eq!(as_to_dotted_hex(281105609592935), "ffaa:1:1067");
    assert_eq!(as_from_dotted_hex("0:0:0"), 0);
    assert_eq!(as_from_dotted_hex("1"), 1);
}

#[test]
fn as_dotted_hex_misaligned_chunking() {
    // The hex numeral of 65536 is five digits long, so the display
    // machine chunks it as 1000|0 and the trailing lone zero never
    // flushes: the known misalignment of the string-position chunking.
    assert_eq!(as_to_dotted_hex(65536), "1000:");
    // An all-zero final chunk flushes as "0:" with its own colon.
    assert_eq!(as_to_dotted_hex(0xffaa00010000), "ffaa:1:0:");
    assert_eq!(as_to_dotted_hex(0), "");
}

#[test]
fn format_as_dual_mode() {
    assert_eq!(format_AS(0), "0");
    assert_eq!(format_AS(65551), "65551");
    assert_eq!(format_AS(4294967295), "4294967295");
    assert_eq!(format_AS(281105609592935), "ffaa:1:1067");
}

#[test]
fn rejection_cases() {
    // leading-zero octet
    assert!(Ipv4Addr::from_str("01.0.0.1").is_err());
    assert_eq!(
        Ipv4Addr::parse_ascii(b"01.0.0.1"),
        Err(AddrParseError(AddrKind::Ipv4))
    );
    // two-group AS form
    assert!(ScionAddr::from_str("19-1:2,127.0.0.1").is_err());
    // double compression
    assert!(Ipv6Addr::from_str("1::2::3").is_err());
    assert_eq!(
        Ipv6Addr::parse_ascii(b"1::2::3"),
        Err(AddrParseError(AddrKind::Ipv6))
    );
}

#[test]
fn more_rejections() {
    assert!(Ipv4Addr::from_str("256.0.0.1").is_err());
    assert!(Ipv4Addr::from_str("1.2.3").is_err());
    assert!(Ipv4Addr::from_str("1.2.3.4.5").is_err());
    // longer than the longest possible IPv4 literal
    assert!(Ipv4Addr::from_str("1111.1111.1111.1111").is_err());
    assert!(Ipv6Addr::from_str("1:2:3:4:5:6:7:8:9").is_err());
    assert!(Ipv6Addr::from_str(":::").is_err());
    // an embedded IPv4 literal may not appear before the compression
    assert!(Ipv6Addr::from_str("1.2.3.4::1").is_err());
    assert_eq!(
        IpAddr::parse_ascii(b"not an address"),
        Err(AddrParseError(AddrKind::Ip))
    );
    assert_eq!(
        SocketAddrV4::parse_ascii(b"1.2.3.4"),
        Err(AddrParseError(AddrKind::SocketV4))
    );
    assert_eq!(
        SocketAddrV6::parse_ascii(b"[::1]"),
        Err(AddrParseError(AddrKind::SocketV6))
    );
    assert_eq!(
        SocketAddrScion::parse_ascii(b"19-ffaa:1:1067,127.0.0.1"),
        Err(AddrParseError(AddrKind::SocketScion))
    );
    assert_eq!(
        ScionAddr::parse_ascii(b"19+ffaa:1:1067,127.0.0.1"),
        Err(AddrParseError(AddrKind::Scion))
    );
    assert_eq!(
        SocketAddr::parse_ascii(b"19-ffaa:1:1067,127.0.0.1"),
        Err(AddrParseError(AddrKind::Socket))
    );
    // ports above 16 bits overflow
    assert!(SocketAddrV4::from_str("1.2.3.4:65536").is_err());
}

#[test]
fn socket_round_trips() {
    let v4 = SocketAddr::from_str("1.2.3.4:80").unwrap();
    assert_eq!(v4.to_string(), "1.2.3.4:80");
    assert_eq!(SocketAddr::from_str(&v4.to_string()).unwrap(), v4);
    assert!(v4.is_ipv4() && !v4.is_ipv6());

    let v6 = SocketAddr::from_str("[2001:db8::1]:443").unwrap();
    assert_eq!(v6.to_string(), "[2001:db8::1]:443");
    assert_eq!(SocketAddr::from_str(&v6.to_string()).unwrap(), v6);
    assert!(v6.is_ipv6());

    let sc = SocketAddr::from_str("19-ffaa:1:1067,127.0.0.1:53").unwrap();
    assert_eq!(SocketAddr::from_str(&sc.to_string()).unwrap(), sc);
}

#[test]
fn socket_v6_scope_id() {
    let s = SocketAddrV6::from_str("[fe80::1%42]:8080").unwrap();
    assert_eq!(s.scope_id(), 42);
    assert_eq!(s.port(), 8080);
    assert_eq!(s.flowinfo(), 0);
    assert_eq!(s.to_string(), "[fe80::1%42]:8080");
    assert_eq!(SocketAddrV6::from_str(&s.to_string()).unwrap(), s);
}

#[test]
fn scion_addr_accessors() {
    let mut sa = ScionAddr::new1(19, 281105609592935, IpAddr::V4(Ipv4Addr::new(127, 0, 0, 1)));
    assert_eq!(sa.get_isd(), 19);
    assert_eq!(sa.get_as(), 281105609592935);
    assert_eq!(sa.get_ia(), 5629130167095399);
    sa.set_isd(20);
    assert_eq!(sa.get_isd(), 20);
    assert_eq!(sa.get_as(), 281105609592935);
    sa.set_as(7);
    assert_eq!(sa.get_isd(), 20);
    assert_eq!(sa.get_as(), 7);
    sa.set_host(IpAddr::V6(Ipv6Addr::new(0, 0, 0, 0, 0, 0, 0, 1)));
    assert!(sa.get_host().is_ipv6());
    assert_eq!(sa.to_string(), "20-7,::1");
}

#[test]
fn scion_addr_bracketed_host() {
    let sa = ScionAddr::from_str("19-ffaa:1:1067,[2001:db8::1]").unwrap();
    assert_eq!(sa.get_isd(), 19);
    assert!(sa.get_host().is_ipv6());
    // the tolerant mode consumes brackets without insisting on balance
    let sb = ScionAddr::from_str("19-ffaa:1:1067,2001:db8::1").unwrap();
    assert_eq!(sa, sb);
}

#[test]
fn socket_addr_mutators() {
    let mut a = SocketAddr::new_ip(IpAddr::V4(Ipv4Addr::new(1, 2, 3, 4)), 80);
    a.set_port(81);
    assert_eq!(a.port(), 81);
    a.set_ip(IpAddr::V4(Ipv4Addr::new(9, 9, 9, 9)));
    assert_eq!(a.host(), IpAddr::V4(Ipv4Addr::new(9, 9, 9, 9)));
    assert_eq!(a.port(), 81);
    // a family change rebuilds the endpoint
    a.set_ip(IpAddr::V6(Ipv6Addr::new(0, 0, 0, 0, 0, 0, 0, 1)));
    assert!(a.is_ipv6());
    assert_eq!(a.port(), 81);

    let mut s = SocketAddr::new_scion(make_ia(19, 7), IpAddr::V4(Ipv4Addr::new(127, 0, 0, 1)), 53);
    s.set_ip(IpAddr::V6(Ipv6Addr::new(0, 0, 0, 0, 0, 0, 0, 1)));
    // a SCION endpoint keeps its identifier whatever the host family
    if let SocketAddr::SCION(sc) = s {
        assert_eq!(sc.ia(), make_ia(19, 7));
        assert!(sc.host().is_ipv6());
    } else {
        panic!("expected a SCION endpoint");
    }
}

#[test]
fn classification_predicates() {
    assert!(Ipv4Addr::new(127, 0, 0, 1).is_loopback());
    assert!(Ipv4Addr::new(10, 1, 2, 3).is_private());
    assert!(Ipv4Addr::new(169, 254, 0, 1).is_link_local());
    assert!(Ipv4Addr::new(255, 255, 255, 255).is_broadcast());
    assert!(Ipv4Addr::new(224, 0, 0, 1).is_multicast());
    assert!(Ipv4Addr::new(192, 0, 2, 7).is_documentation());
    assert!(!Ipv4Addr::new(8, 8, 8, 8).is_private());
    assert!(Ipv4Addr::new(8, 8, 8, 8).is_global());
    assert!(IpAddr::V4(Ipv4Addr::new(0, 0, 0, 0)).is_unspecified());

    assert!(Ipv6Addr::new(0, 0, 0, 0, 0, 0, 0, 1).is_loopback());
    assert!(Ipv6Addr::new(0, 0, 0, 0, 0, 0, 0, 0).is_unspecified());
    assert!(Ipv6Addr::new(0xfc02, 0, 0, 0, 0, 0, 0, 1).is_unique_local());
    assert!(Ipv6Addr::new(0xfe80, 0, 0, 0, 0, 0, 0, 1).is_unicast_link_local());
    assert!(Ipv6Addr::new(0x2001, 0xdb8, 0, 0, 0, 0, 0, 1).is_documentation());
    assert_eq!(
        Ipv6Addr::new(0xff0e, 0, 0, 0, 0, 0, 0, 1).multicast_scope(),
        Some(Ipv6MulticastScope::Global)
    );
    assert_eq!(
        Ipv6Addr::new(0xff05, 0, 0, 0, 0, 0, 0, 1).multicast_scope(),
        Some(Ipv6MulticastScope::SiteLocal)
    );
    assert!(Ipv6Addr::new(0x2001, 0xdb8, 0, 0, 0, 0, 0, 1).is_unicast());
}

#[test]
fn conversions() {
    let v4 = Ipv4Addr::new(1, 2, 3, 4);
    assert_eq!(v4.to_bits(), 0x01020304);
    assert_eq!(Ipv4Addr::from_bits(0x01020304), v4);
    assert_eq!(v4.octets(), [1, 2, 3, 4]);
    assert_eq!(
        v4.to_ipv6_mapped().to_string(),
        "::ffff:1.2.3.4"
    );
    assert_eq!(v4.to_ipv6_compatible().segments(), [0, 0, 0, 0, 0, 0, 0x0102, 0x0304]);

    let v6 = Ipv6Addr::new(0, 0, 0, 0, 0, 0xffff, 0x0102, 0x0304);
    assert_eq!(v6.to_ipv4(), Some(v4));
    assert_eq!(v6.to_ipv4_mapped(), Some(v4));
    assert_eq!(v6.to_canonical(), IpAddr::V4(v4));
    assert_eq!(IpAddr::V6(v6).to_canonical(), IpAddr::V4(v4));
    let plain = Ipv6Addr::new(1, 2, 3, 4, 5, 6, 7, 8);
    assert_eq!(plain.to_ipv4(), None);
    assert_eq!(plain.to_bits(), 0x00010002000300040005000600070008u128);
    assert_eq!(Ipv6Addr::from_bits(plain.to_bits()), plain);
}

#[test]
fn parse_leading_zero_rules() {
    // leading zeros are fine in hex groups, the ISD, ports and scope ids
    assert!(Ipv6Addr::from_str("0001:2:3:4:5:6:7:8").is_ok());
    let sc = ScionAddr::from_str("019-1,1.2.3.4").unwrap();
    assert_eq!(sc.get_isd(), 19);
    let sa = SocketAddrV4::from_str("1.2.3.4:0080").unwrap();
    assert_eq!(sa.port(), 80);
}

#[test]
fn display_buffer_staging() {
    let mut buf: DisplayBuffer<15> = DisplayBuffer::new();
    assert!(buf.write_str("255.255.255.255"));
    assert_eq!(buf.as_str(), "255.255.255.255");
    assert!(!buf.write_str("0"));
    assert_eq!(buf.as_str(), "255.255.255.255");
}

#[test]
fn error_descriptions() {
    assert_eq!(
        AddrParseError(AddrKind::Ip).description(),
        "invalid IP address syntax"
    );
    assert_eq!(
        AddrParseError(AddrKind::SocketScion).description(),
        "invalid ScionSocket address syntax"
    );
}

#[test]
fn parse_scion_line_with_inline_port() {
    let (ia, isd, as_num, host, port) = parse_scion_impl("19-ffaa:1:1067,127.0.0.1:53", "9999");
    assert_eq!(ia, 5629130167095399);
    assert_eq!(isd, 19);
    assert_eq!(as_num, 281105609592935);
    assert_eq!(host, "127.0.0.1");
    assert_eq!(port, 53);
}

#[test]
fn parse_scion_line_bracketed_host_and_outer_port() {
    let (ia, isd, as_num, host, port) = parse_scion_impl("19-ffaa:1:1067,[2001:db8::1]", "53");
    assert_eq!(ia, make_ia(19, 281105609592935));
    assert_eq!(isd, 19);
    assert_eq!(as_num, 281105609592935);
    assert_eq!(host, "2001:db8::1");
    assert_eq!(port, 53);
}
