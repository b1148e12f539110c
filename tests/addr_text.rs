use crust::addr::{IpAddr, PaAddr, ParseError, SocketAddr};

fn v4(a: u8, b: u8, c: u8, d: u8, port: u16) -> SocketAddr {
    SocketAddr { ip: IpAddr::V4(a, b, c, d), port }
}

#[test]
fn test_url_parsing_and_formatting_are_inverse() {
    let strings = &["tcp://127.0.0.1:45666", "utp://127.0.0.1:45666"];
    for str_in in strings {
        let addr = PaAddr::from_str(str_in).unwrap();
        let str_out = addr.to_url_string();
        assert_eq!(*str_in, str_out);
    }
}

#[test]
fn parses_both_schemes() {
    assert_eq!(PaAddr::from_str("tcp://127.0.0.1:45666").unwrap(), PaAddr::Tcp(v4(127, 0, 0, 1, 45666)));
    assert_eq!(PaAddr::from_str("utp://10.0.0.255:1").unwrap(), PaAddr::Utp(v4(10, 0, 0, 255, 1)));
}

#[test]
fn formats_ipv6_with_the_longest_zero_run_shortened() {
    let a = PaAddr::Tcp(SocketAddr { ip: IpAddr::V6(0xfe80, 0, 0, 0, 0xabcd, 0, 0, 1), port: 80 });
    assert_eq!(a.to_url_string(), "tcp://[fe80::abcd:0:0:1]:80");
    assert_eq!(PaAddr::from_str("tcp://[fe80::abcd:0:0:1]:80").unwrap(), a);
    assert_eq!(PaAddr::from_str("tcp://[fe80:0:0:0:abcd:0:0:1]:80").unwrap(), a);
    assert_eq!(PaAddr::from_str("tcp://[FE80:0:0:0:ABCD:0:0:1]:80").unwrap(), a);
}

#[test]
fn round_trip_on_edge_values() {
    let addrs = vec![
        PaAddr::Tcp(v4(0, 0, 0, 0, 0)),
        PaAddr::Utp(v4(255, 255, 255, 255, 65535)),
        PaAddr::Utp(SocketAddr { ip: IpAddr::V6(0xffff, 1, 2, 3, 4, 5, 6, 0x10), port: 9 }),
        PaAddr::Tcp(SocketAddr { ip: IpAddr::V6(0, 0, 0, 0, 0, 0, 0, 0), port: 65535 }),
    ];
    for a in addrs {
        let bytes = a.to_url_bytes();
        assert_eq!(PaAddr::from_url_bytes(&bytes).unwrap(), a);
        assert_eq!(PaAddr::from_str(&a.to_url_string()).unwrap(), a);
    }
    assert_eq!(PaAddr::Utp(v4(255, 255, 255, 255, 65535)).to_url_string(), "utp://255.255.255.255:65535");
}

#[test]
fn unknown_scheme_is_reported_with_its_text() {
    match PaAddr::from_str("http://1.2.3.4:5") {
        Err(ParseError::UnknownScheme(s)) => assert_eq!(s, b"http".to_vec()),
        other => panic!("unexpected {:?}", other),
    }
    match PaAddr::from_str("HTTP://1.2.3.4:5") {
        Err(ParseError::UnknownScheme(s)) => assert_eq!(s, b"http".to_vec()),
        other => panic!("unexpected {:?}", other),
    }
}

#[test]
fn scheme_is_read_without_regard_to_case() {
    assert_eq!(PaAddr::from_str("TCP://1.2.3.4:5").unwrap(), PaAddr::Tcp(v4(1, 2, 3, 4, 5)));
    assert_eq!(PaAddr::from_str("uTp://1.2.3.4:5").unwrap(), PaAddr::Utp(v4(1, 2, 3, 4, 5)));
}

#[test]
fn host_is_checked_before_port() {
    assert!(matches!(PaAddr::from_str("tcp://localhost"), Err(ParseError::MalformedHost)));
    assert!(matches!(PaAddr::from_str("tcp://example.com:5"), Err(ParseError::MalformedHost)));
}

#[test]
fn url_faults_come_before_the_host_check() {
    assert!(matches!(PaAddr::from_str("tcp://localhost:99999"), Err(ParseError::MalformedUrl)));
    assert!(matches!(PaAddr::from_str("tcp://localhost:8x"), Err(ParseError::MalformedUrl)));
    assert!(matches!(PaAddr::from_str("tcp://[1:2]"), Err(ParseError::MalformedUrl)));
}

#[test]
fn text_without_slashes_reports_its_scheme() {
    match PaAddr::from_str("ab:c") {
        Err(ParseError::UnknownScheme(s)) => assert_eq!(s, b"ab".to_vec()),
        other => panic!("unexpected {:?}", other),
    }
    match PaAddr::from_str("MailTo:x") {
        Err(ParseError::UnknownScheme(s)) => assert_eq!(s, b"mailto".to_vec()),
        other => panic!("unexpected {:?}", other),
    }
    assert!(matches!(PaAddr::from_str("tcp:1.2.3.4:5"), Err(ParseError::MalformedUrl)));
    assert!(matches!(PaAddr::from_str("1ab:c"), Err(ParseError::MalformedUrl)));
}

#[test]
fn host_and_port_end_at_a_path_query_or_fragment() {
    assert!(matches!(PaAddr::from_str("tcp://127.0.0.1/"), Err(ParseError::MissingPort)));
    assert_eq!(PaAddr::from_str("tcp://1.2.3.4:80/").unwrap(), PaAddr::Tcp(v4(1, 2, 3, 4, 80)));
    assert_eq!(PaAddr::from_str("utp://1.2.3.4:80?x#y").unwrap(), PaAddr::Utp(v4(1, 2, 3, 4, 80)));
    assert_eq!(PaAddr::from_str("utp://1.2.3.4:81#f").unwrap(), PaAddr::Utp(v4(1, 2, 3, 4, 81)));
}

#[test]
fn missing_port_is_reported() {
    assert!(matches!(PaAddr::from_str("tcp://1.2.3.4"), Err(ParseError::MissingPort)));
    assert!(matches!(PaAddr::from_str("tcp://1.2.3.4:"), Err(ParseError::MissingPort)));
    assert!(matches!(PaAddr::from_str("utp://[0:0:0:0:0:0:0:1]"), Err(ParseError::MissingPort)));
}

#[test]
fn malformed_host_is_reported() {
    assert!(matches!(PaAddr::from_str("tcp://1.2.3:5"), Err(ParseError::MalformedHost)));
    assert!(matches!(PaAddr::from_str("tcp://1.2.3.256:5"), Err(ParseError::MalformedHost)));
    assert!(matches!(PaAddr::from_str("tcp://example:5"), Err(ParseError::MalformedHost)));
    assert!(matches!(PaAddr::from_str("tcp://[1:2:3]:5"), Err(ParseError::MalformedUrl)));
    assert!(matches!(PaAddr::from_str("tcp://[1:2:3:4:5:6:7:8:9]:5"), Err(ParseError::MalformedUrl)));
}

#[test]
fn malformed_url_is_reported() {
    assert!(matches!(PaAddr::from_str("tcp:/1.2.3.4:5"), Err(ParseError::MalformedUrl)));
    assert!(matches!(PaAddr::from_str("1.2.3.4"), Err(ParseError::MalformedUrl)));
    assert!(matches!(PaAddr::from_str("tcp://:80"), Err(ParseError::MalformedUrl)));
    assert!(matches!(PaAddr::from_str("tcp://1.2.3.4:70000"), Err(ParseError::MalformedUrl)));
    assert!(matches!(PaAddr::from_str("tcp://[::1:80"), Err(ParseError::MalformedUrl)));
    assert!(matches!(PaAddr::from_str(""), Err(ParseError::MalformedUrl)));
}

#[test]
fn accessors_report_protocol_and_socket() {
    let t = PaAddr::Tcp(v4(1, 2, 3, 4, 5));
    let u = PaAddr::Utp(v4(1, 2, 3, 4, 5));
    assert!(t.is_tcp() && !t.is_utp());
    assert!(u.is_utp() && !u.is_tcp());
    assert_eq!(t.ip(), IpAddr::V4(1, 2, 3, 4));
    assert_eq!(u.inner(), v4(1, 2, 3, 4, 5));
}

#[test]
fn unspecified_becomes_localhost() {
    assert_eq!(PaAddr::Tcp(v4(0, 0, 0, 0, 80)).unspecified_to_localhost(), PaAddr::Tcp(v4(127, 0, 0, 1, 80)));
    assert_eq!(PaAddr::Utp(v4(0, 0, 0, 0, 81)).unspecified_to_localhost(), PaAddr::Utp(v4(127, 0, 0, 1, 81)));
    assert_eq!(PaAddr::Utp(v4(8, 8, 8, 8, 81)).unspecified_to_localhost(), PaAddr::Utp(v4(8, 8, 8, 8, 81)));
}

#[test]
fn unspecified_expands_over_interfaces_of_its_family() {
    let ips = vec![
        IpAddr::V4(192, 168, 1, 2),
        IpAddr::V6(0xfe80, 0, 0, 0, 0, 0, 0, 1),
        IpAddr::V4(127, 0, 0, 1),
    ];
    let any = PaAddr::Utp(v4(0, 0, 0, 0, 5000));
    assert_eq!(
        any.expand_local_unspecified(&ips),
        vec![PaAddr::Utp(v4(192, 168, 1, 2, 5000)), PaAddr::Utp(v4(127, 0, 0, 1, 5000))]
    );
    let any6 = PaAddr::Tcp(SocketAddr { ip: IpAddr::V6(0, 0, 0, 0, 0, 0, 0, 0), port: 7 });
    assert_eq!(
        any6.expand_local_unspecified(&ips),
        vec![PaAddr::Tcp(SocketAddr { ip: IpAddr::V6(0xfe80, 0, 0, 0, 0, 0, 0, 1), port: 7 })]
    );
    let one = PaAddr::Tcp(v4(10, 0, 0, 1, 9));
    assert_eq!(one.expand_local_unspecified(&ips), vec![one]);
    assert_eq!(any.expand_local_unspecified(&Vec::new()), Vec::<PaAddr>::new());
}

fn v6(g: [u16; 8], port: u16) -> PaAddr {
    PaAddr::Utp(SocketAddr { ip: IpAddr::V6(g[0], g[1], g[2], g[3], g[4], g[5], g[6], g[7]), port })
}

#[test]
fn ipv6_text_shortens_zero_runs_and_maps_ipv4() {
    let cases: Vec<([u16; 8], &str)> = vec![
        ([0, 0, 0, 0, 0, 0, 0, 1], "utp://[::1]:9"),
        ([0, 0, 0, 0, 0, 0, 0, 0], "utp://[::]:9"),
        ([1, 0, 0, 0, 0, 0, 0, 0], "utp://[1::]:9"),
        ([1, 0, 2, 0, 0, 3, 0, 4], "utp://[1:0:2::3:0:4]:9"),
        ([1, 0, 0, 2, 0, 0, 3, 4], "utp://[1::2:0:0:3:4]:9"),
        ([1, 2, 3, 4, 5, 6, 7, 8], "utp://[1:2:3:4:5:6:7:8]:9"),
        ([1, 0, 3, 4, 5, 6, 7, 8], "utp://[1:0:3:4:5:6:7:8]:9"),
        ([0, 0, 0, 0, 0, 0xffff, 0x0102, 0x0304], "utp://[::ffff:1.2.3.4]:9"),
    ];
    for (g, text) in cases {
        let a = v6(g, 9);
        assert_eq!(a.to_url_string(), text);
        assert_eq!(PaAddr::from_str(text).unwrap(), a);
    }
}

#[test]
fn bad_ipv6_text_is_a_malformed_url() {
    assert!(matches!(PaAddr::from_str("tcp://[1::2::3]:5"), Err(ParseError::MalformedUrl)));
    assert!(matches!(PaAddr::from_str("tcp://[1:2:3:4::5:6:7:8]:5"), Err(ParseError::MalformedUrl)));
    assert!(matches!(PaAddr::from_str("tcp://[::ffff:1.2.3]:5"), Err(ParseError::MalformedUrl)));
    assert!(matches!(PaAddr::from_str("tcp://[1:2.3]:5"), Err(ParseError::MalformedUrl)));
}
