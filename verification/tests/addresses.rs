use udptoxy::double::Double;
use udptoxy::types::{endpoints, parse_addr, Args, Ipv4Addr, SocketAddr};

fn host() -> Ipv4Addr {
    Ipv4Addr::new(127, 0, 0, 1)
}

fn parsed(value: &str) -> Option<SocketAddr> {
    parse_addr(value, host()).ok()
}

fn args(in_addr: &str, out_addr: &str) -> Args {
    Args {
        in_addr: in_addr.to_string(),
        out_addr: out_addr.to_string(),
        latency_ms: 0,
        jitter_ms: 0,
        loss_percent: Double { bits: 0 },
        rate_bytes_per_sec: 0,
    }
}

#[test]
fn reads_a_port_alone() {
    assert_eq!(parsed("9000"), Some(SocketAddr::new(host(), 9000)));
    assert_eq!(parsed("0"), Some(SocketAddr::new(host(), 0)));
    assert_eq!(parsed("65535"), Some(SocketAddr::new(host(), 65535)));
    assert_eq!(parsed("+80"), Some(SocketAddr::new(host(), 80)));
    assert_eq!(parsed("00080"), Some(SocketAddr::new(host(), 80)));
}

#[test]
fn reads_an_address() {
    let any = Ipv4Addr::new(0, 0, 0, 0);
    assert_eq!(parsed("0.0.0.0:9000"), Some(SocketAddr::new(any, 9000)));
    assert_eq!(parsed("127.0.0.1:9001"), Some(SocketAddr::new(host(), 9001)));
    assert_eq!(parsed("255.255.255.255:65535"), Some(SocketAddr::new(Ipv4Addr::new(255, 255, 255, 255), 65535)));
    assert_eq!(parsed("1.2.3.4:00000000000001"), Some(SocketAddr::new(Ipv4Addr::new(1, 2, 3, 4), 1)));
    assert_eq!(parsed("1.2.3.4:007"), Some(SocketAddr::new(Ipv4Addr::new(1, 2, 3, 4), 7)));
}

#[test]
fn refuses_what_is_no_address() {
    for value in [
        "", "+", "-1", "+-1", "65536", "80 ", " 80", "localhost", "localhost:80", "1.2.3.4", "1.2.3.4:", "1.2.3:80",
        "1.2.3.4.5:80", "1.2.3.4:65536", "1.2.3.4:+80", "256.0.0.1:80", "01.2.3.4:80", "1.2.3.4444:80", "1..2.3:80",
        "1.2.3.4:80x", "1.2.3.a:80", "[::1]:80", "::1", "1.2.3.4:99999999999999999999", "\u{0661}\u{0662}",
        "00.0.0.0:1", "1.2.3.256:1", "1.2.3.4 :1", "1.2.3.4: 1", "999.1.1.1:1", ":1", ".1.1.1:1", "1.2.3.4:1\n",
    ] {
        let error = parse_addr(value, host()).unwrap_err();
        assert_eq!(error, format!("invalid address '{value}': invalid socket address syntax"));
    }
}

#[test]
fn writes_and_reads_back() {
    for (ip, port) in [([0, 0, 0, 0], 0), ([127, 0, 0, 1], 19877), ([255, 9, 10, 100], 65535)] {
        let addr = SocketAddr::new(Ipv4Addr::new(ip[0], ip[1], ip[2], ip[3]), port);
        let text = addr.to_text();
        assert_eq!(text, format!("{}.{}.{}.{}:{}", ip[0], ip[1], ip[2], ip[3], port));
        assert_eq!(parse_addr(&text, host()), Ok(addr));
    }
}

#[test]
fn ports_alone_get_their_hosts() {
    let (inner, outer) = endpoints(&args("9000", "9001")).unwrap();
    assert_eq!(inner.to_text(), "0.0.0.0:9000");
    assert_eq!(outer.to_text(), "127.0.0.1:9001");
    let (inner, outer) = endpoints(&args("10.0.0.1:1", "10.0.0.2:2")).unwrap();
    assert_eq!(inner.to_text(), "10.0.0.1:1");
    assert_eq!(outer.to_text(), "10.0.0.2:2");
}

#[test]
fn says_which_address_is_wrong() {
    assert_eq!(
        endpoints(&args("x", "y")).unwrap_err(),
        "--in invalid address 'x': invalid socket address syntax"
    );
    assert_eq!(
        endpoints(&args("1", "y")).unwrap_err(),
        "--out invalid address 'y': invalid socket address syntax"
    );
}
