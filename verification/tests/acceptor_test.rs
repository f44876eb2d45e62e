use zentinel::acceptor::{
    encode_upstream_prefix, read_step, Admission, HeaderOutcome, ProxyProtocolAcceptor, ReadStep,
    Refusal,
};
use zentinel::addr::{IpAddr, SocketAddr};
use zentinel::config::ProxyProtocolVersion;
use zentinel::proxy_protocol::{parse, ProxyHeader, Transport};
use zentinel::server::{ListenerConfig, ListenerProtocol, ProxyProtocolConfig};

fn addr(s: &str) -> SocketAddr {
    SocketAddr::parse(s).expect("test addr")
}

fn listener(id: &str, address: &str, pp: Option<ProxyProtocolConfig>) -> ListenerConfig {
    ListenerConfig {
        id: id.to_string(),
        address: address.to_string(),
        protocol: ListenerProtocol::Http,
        tls: None,
        default_route: None,
        namespace: None,
        request_timeout_secs: 60,
        keepalive_timeout_secs: 75,
        max_concurrent_streams: 100,
        keepalive_max_requests: None,
        proxy_protocol: pp,
    }
}

fn pp_config(trusted: &[&str], timeout_ms: u64) -> ProxyProtocolConfig {
    ProxyProtocolConfig {
        trusted: trusted.iter().map(|s| s.to_string()).collect(),
        header_timeout_ms: timeout_ms,
    }
}

fn client_source() -> SocketAddr {
    addr("203.0.113.7:51234")
}

/// A connection that a load balancer at `127.0.0.1` makes to port 8080.
struct Connection {
    acceptor: ProxyProtocolAcceptor,
    wire: Vec<u8>,
    /// The writer stalls behind the bytes instead of closing.
    stalls: bool,
}

fn accept_pair(trusted: &[&str], timeout_ms: u64, wire: &[u8]) -> Connection {
    let acceptor = ProxyProtocolAcceptor::from_listeners(&vec![listener(
        "test",
        "127.0.0.1:8080",
        Some(pp_config(trusted, timeout_ms)),
    )])
    .expect("build acceptor")
    .expect("acceptor must be Some for PROXY-enabled listener");
    Connection {
        acceptor,
        wire: wire.to_vec(),
        stalls: false,
    }
}

/// The reported peer address and the unread bytes, or the refusal.
fn preprocess(c: &Connection) -> Result<(SocketAddr, Vec<u8>), Refusal> {
    let local = addr("127.0.0.1:8080");
    let peer = addr("127.0.0.1:40000");
    let pending = match c.acceptor.preprocess(Some(local), Some(peer)) {
        Admission::PassThrough => return Ok((peer, c.wire.clone())),
        Admission::Refuse(r) => return Err(r),
        Admission::ReadHeader(p) => p,
    };
    let mut at = 0;
    let outcome = loop {
        match read_step(&c.wire[..at]) {
            ReadStep::Done(h) => break HeaderOutcome::Header(h),
            ReadStep::Invalid(m) => break HeaderOutcome::Invalid(m),
            ReadStep::Read(n) if at + n <= c.wire.len() => at += n,
            ReadStep::Read(_) if c.stalls => break HeaderOutcome::TimedOut,
            ReadStep::Read(_) => break HeaderOutcome::Closed("early eof".to_string()),
        }
    };
    let reported = pending.conclude(outcome)?;
    Ok((reported, c.wire[at..].to_vec()))
}

#[test]
fn v2_header_from_trusted_peer_rewrites_client_address() {
    let header = ProxyHeader::Proxy {
        transport: Transport::Stream,
        source: client_source(),
        destination: addr("10.0.0.1:443"),
    };
    let mut bytes = header.encode_v2();
    bytes.extend_from_slice(b"GET");
    let c = accept_pair(&["127.0.0.0/8"], 2000, &bytes);
    let (peer, app) = preprocess(&c).expect("trusted v2 header must be accepted");
    assert_eq!(peer, client_source());
    // Application bytes after the header remain unread on the stream.
    assert_eq!(app, b"GET");
}

#[test]
fn v1_header_consumes_exactly_through_crlf() {
    let c = accept_pair(
        &["127.0.0.0/8"],
        2000,
        b"PROXY TCP4 203.0.113.7 10.0.0.1 51234 443\r\nGET",
    );
    let (peer, app) = preprocess(&c).expect("trusted v1 header must be accepted");
    assert_eq!(peer, client_source());
    assert_eq!(app, b"GET");
}

#[test]
fn untrusted_peer_is_dropped_before_reading() {
    let c = accept_pair(
        &["10.0.0.0/8"],
        2000,
        b"PROXY TCP4 203.0.113.7 10.0.0.1 51234 443\r\n",
    );
    // Even a valid header must not be honored from an untrusted peer.
    let err = preprocess(&c).expect_err("untrusted peer must be rejected");
    assert_eq!(err.reason.code(), "proxy_protocol_untrusted");
    assert_eq!(
        err.context,
        "listener 'test': peer 127.0.0.1:40000 not in trusted CIDRs"
    );
}

#[test]
fn garbage_first_bytes_drop_the_connection() {
    let c = accept_pair(&["127.0.0.0/8"], 2000, b"GET / HTTP/1.1\r\n");
    let err = preprocess(&c).expect_err("non-PROXY bytes on a PROXY listener must be rejected");
    assert_eq!(err.reason.code(), "proxy_protocol_invalid");
    assert!(err
        .context
        .starts_with("listener 'test': invalid PROXY header from 127.0.0.1:40000: "));
}

#[test]
fn local_header_keeps_socket_peer_address() {
    let c = accept_pair(&["127.0.0.0/8"], 2000, b"PROXY UNKNOWN\r\n");
    let (peer, _) = preprocess(&c).expect("LOCAL/UNKNOWN header must be accepted");
    assert_eq!(peer.ip(), IpAddr::parse("127.0.0.1").expect("ip"));
}

#[test]
fn stalled_header_times_out() {
    // Only the start of a v2 signature, then a stall.
    let mut c = accept_pair(&["127.0.0.0/8"], 100, &[0x0D, 0x0A]);
    c.stalls = true;
    let err = preprocess(&c).expect_err("stalled header must time out");
    assert_eq!(err.reason.code(), "proxy_protocol_timeout");
    assert_eq!(
        err.context,
        "listener 'test': PROXY header from 127.0.0.1:40000 incomplete after 100ms"
    );
}

#[test]
fn timeouts_are_shown_in_the_largest_unit() {
    for (ms, shown) in [
        (0, "0ns"),
        (999, "999ms"),
        (1000, "1s"),
        (1500, "1.5s"),
        (2050, "2.05s"),
        (60001, "60.001s"),
    ] {
        let mut c = accept_pair(&["127.0.0.0/8"], ms, &[]);
        c.stalls = true;
        let err = preprocess(&c).unwrap_err();
        assert!(
            err.context.ends_with(&format!(" incomplete after {shown}")),
            "{}",
            err.context
        );
    }
}

#[test]
fn closed_connection_is_invalid() {
    let c = accept_pair(&["127.0.0.0/8"], 2000, b"PROXY TC");
    let err = preprocess(&c).unwrap_err();
    assert_eq!(err.reason.code(), "proxy_protocol_invalid");
    assert!(err.context.ends_with("connection closed mid-header: early eof"));
}

#[test]
fn listener_without_rule_is_untouched() {
    // Build the acceptor for a *different* port than the accepted socket.
    let acceptor = ProxyProtocolAcceptor::from_listeners(&vec![listener(
        "other",
        "127.0.0.1:8079",
        Some(pp_config(&["10.0.0.0/8"], 2000)),
    )])
    .expect("build acceptor")
    .expect("acceptor present");
    let c = Connection {
        acceptor,
        wire: b"GET".to_vec(),
        stalls: false,
    };
    let (_, app) = preprocess(&c).expect("non-PROXY listener must pass through");
    // Bytes still there: nothing was consumed.
    assert_eq!(app, b"GET");
}

#[test]
fn sockets_without_addresses() {
    let c = accept_pair(&["127.0.0.0/8"], 2000, b"");
    assert!(matches!(
        c.acceptor.preprocess(None, Some(addr("127.0.0.1:1"))),
        Admission::PassThrough
    ));
    match c.acceptor.preprocess(Some(addr("127.0.0.1:8080")), None) {
        Admission::Refuse(r) => {
            assert_eq!(r.reason.code(), "proxy_protocol_no_peer");
            assert_eq!(
                r.context,
                "listener 'test': cannot verify PROXY trust without a peer address"
            );
        }
        other => panic!("unexpected {other:?}"),
    }
}

#[test]
fn upstream_prefix_v2_round_trips_through_codec() {
    let client = addr("203.0.113.7:51234");
    let server = addr("10.0.0.1:8080");
    let prefix = encode_upstream_prefix(ProxyProtocolVersion::V2, Some(client), Some(server));

    let (header, consumed) = parse(&prefix).expect("prefix must decode");
    assert_eq!(consumed, prefix.len());
    assert_eq!(
        header,
        ProxyHeader::Proxy {
            transport: Transport::Stream,
            source: client,
            destination: server,
        }
    );
}

#[test]
fn upstream_prefix_v1_is_text_form() {
    let prefix = encode_upstream_prefix(
        ProxyProtocolVersion::V1,
        Some(addr("203.0.113.7:51234")),
        Some(addr("10.0.0.1:8080")),
    );
    assert_eq!(
        &prefix[..],
        b"PROXY TCP4 203.0.113.7 10.0.0.1 51234 8080\r\n"
    );
}

#[test]
fn upstream_prefix_missing_endpoint_falls_back_to_local() {
    let prefix =
        encode_upstream_prefix(ProxyProtocolVersion::V2, None, Some(addr("10.0.0.1:8080")));
    let (header, _) = parse(&prefix).expect("prefix must decode");
    assert_eq!(header, ProxyHeader::Local);

    let v1 = encode_upstream_prefix(ProxyProtocolVersion::V1, None, None);
    assert_eq!(&v1[..], b"PROXY UNKNOWN\r\n");
}

#[test]
fn upstream_prefix_mixed_family_falls_back_to_local() {
    let prefix = encode_upstream_prefix(
        ProxyProtocolVersion::V2,
        Some(addr("203.0.113.7:51234")),
        Some(addr("[2001:db8::1]:8080")),
    );
    let (header, _) = parse(&prefix).expect("prefix must decode");
    assert_eq!(header, ProxyHeader::Local);
}

#[test]
fn upstream_prefix_canonicalizes_v4_mapped_client() {
    let prefix = encode_upstream_prefix(
        ProxyProtocolVersion::V2,
        Some(addr("[::ffff:203.0.113.7]:51234")),
        Some(addr("10.0.0.1:8080")),
    );
    let (header, _) = parse(&prefix).expect("prefix must decode");
    assert_eq!(
        header,
        ProxyHeader::Proxy {
            transport: Transport::Stream,
            source: addr("203.0.113.7:51234"),
            destination: addr("10.0.0.1:8080"),
        }
    );
}

#[test]
fn from_listeners_returns_none_without_proxy_protocol() {
    let acceptor =
        ProxyProtocolAcceptor::from_listeners(&vec![listener("plain", "0.0.0.0:8080", None)])
            .expect("build");
    assert!(acceptor.is_none());
}

#[test]
fn exact_bind_ip_rule_wins_over_wildcard() {
    let acceptor = ProxyProtocolAcceptor::from_listeners(&vec![
        listener(
            "wild",
            "0.0.0.0:8080",
            Some(pp_config(&["10.0.0.0/8"], 2000)),
        ),
        listener(
            "exact",
            "192.0.2.1:8080",
            Some(pp_config(&["172.16.0.0/12"], 2000)),
        ),
    ])
    .expect("build")
    .expect("present");

    let exact = acceptor.rule_for(&addr("192.0.2.1:8080")).expect("rule");
    assert_eq!(exact.listener_id, "exact");

    let wild = acceptor.rule_for(&addr("192.0.2.99:8080")).expect("rule");
    assert_eq!(wild.listener_id, "wild");

    assert!(acceptor.rule_for(&addr("192.0.2.1:9999")).is_none());
}

#[test]
fn unreadable_listeners_are_refused() {
    let err = ProxyProtocolAcceptor::from_listeners(&vec![listener(
        "edge",
        "localhost:8080",
        Some(pp_config(&["10.0.0.0/8"], 2000)),
    )])
    .unwrap_err();
    assert_eq!(
        err.message,
        "listener 'edge': proxy-protocol requires a numeric bind address, got 'localhost:8080': invalid socket address syntax"
    );
    let err = ProxyProtocolAcceptor::from_listeners(&vec![listener(
        "edge",
        "0.0.0.0:8080",
        Some(pp_config(&["10.0.0.0/8", "10.0.0.0"], 2000)),
    )])
    .unwrap_err();
    assert_eq!(
        err.message,
        "listener 'edge': invalid trusted CIDR '10.0.0.0': expected 'address/prefix' form, got '10.0.0.0'"
    );
}

/// The chain from the load balancer over the proxy to the backend.
fn propagate(outbound: ProxyProtocolVersion) {
    let header = ProxyHeader::Proxy {
        transport: Transport::Stream,
        source: client_source(),
        destination: addr("10.0.0.1:443"),
    };
    let mut wire = header.encode_v2();
    wire.extend_from_slice(b"GET / HTTP/1.1\r\n\r\n");
    let c = accept_pair(&["127.0.0.0/8"], 2000, &wire);
    let (client_addr, _) = preprocess(&c).expect("trusted PROXY header accepted");
    assert_eq!(client_addr, client_source());

    let local_addr = addr("127.0.0.1:8080");
    let prefix = encode_upstream_prefix(outbound, Some(client_addr), Some(local_addr));
    let mut backend = prefix.to_vec();
    backend.extend_from_slice(b"GET");
    let (header, consumed) = parse(&backend).expect("backend reads the header");
    assert_eq!(
        header,
        ProxyHeader::Proxy {
            transport: Transport::Stream,
            source: client_source(),
            destination: local_addr,
        }
    );
    assert_eq!(&backend[consumed..], b"GET");
}

#[test]
fn real_client_ip_propagates_lb_to_backend_v2() {
    propagate(ProxyProtocolVersion::V2);
}

#[test]
fn real_client_ip_propagates_lb_to_backend_v1() {
    propagate(ProxyProtocolVersion::V1);
}

#[test]
fn untrusted_lb_cannot_inject_client_address() {
    let header = ProxyHeader::Proxy {
        transport: Transport::Stream,
        source: addr("198.51.100.99:443"),
        destination: addr("10.0.0.1:443"),
    };
    let c = accept_pair(&["198.51.100.0/24"], 2000, &header.encode_v2());
    let err = preprocess(&c)
        .expect_err("spoofed header from untrusted source must drop the connection");
    assert_eq!(err.reason.code(), "proxy_protocol_untrusted");
}

#[test]
fn scope_of_a_link_local_peer_is_kept() {
    let peer = SocketAddr::V6 {
        ip: 0xfe80_0000_0000_0000_0000_0000_0000_0001,
        port: 40000,
        flowinfo: 7,
        scope_id: 3,
    };
    assert_eq!(peer.text(), "[fe80::1%3]:40000");
    let acceptor = |trusted: &str| {
        ProxyProtocolAcceptor::from_listeners(&vec![listener(
            "test",
            "[::]:8080",
            Some(pp_config(&[trusted], 2000)),
        )])
        .expect("build acceptor")
        .expect("a rule")
    };
    let local = Some(addr("[fe80::2%3]:8080"));
    match acceptor("10.0.0.0/8").preprocess(local, Some(peer)) {
        Admission::Refuse(r) => assert_eq!(
            r.context,
            "listener 'test': peer [fe80::1%3]:40000 not in trusted CIDRs"
        ),
        other => panic!("expected a refusal, got {other:?}"),
    }
    match acceptor("fe80::/10").preprocess(local, Some(peer)) {
        Admission::ReadHeader(p) => {
            let kept = p.conclude(HeaderOutcome::Header(ProxyHeader::Local)).unwrap();
            assert_eq!(kept, peer);
        }
        other => panic!("expected to read a header, got {other:?}"),
    }
    // No header has room for the scope.
    let header = encode_upstream_prefix(ProxyProtocolVersion::V2, Some(peer), local);
    match parse(&header).unwrap().0 {
        ProxyHeader::Proxy { source, .. } => assert_eq!(source, addr("[fe80::1]:40000")),
        other => panic!("expected a client, got {other:?}"),
    }
}

#[test]
fn socket_text_carries_a_scope() {
    assert_eq!(
        SocketAddr::parse("[fe80::1%12]:80"),
        Some(SocketAddr::V6 {
            ip: 0xfe80_0000_0000_0000_0000_0000_0000_0001,
            port: 80,
            flowinfo: 0,
            scope_id: 12,
        })
    );
    assert_eq!(addr("[fe80::1%12]:80").text(), "[fe80::1%12]:80");
    assert_eq!(addr("[fe80::1%0]:80").text(), "[fe80::1]:80");
    for bad in ["[fe80::1%]:80", "[fe80::1%eth0]:80", "[fe80::1%4294967296]:80"] {
        assert_eq!(SocketAddr::parse(bad), None, "{bad}");
    }
    let a = SocketAddr::new(IpAddr::V4(0x0A00_0001), 80);
    assert_eq!((a.ip(), a.port()), (IpAddr::V4(0x0A00_0001), 80));
    assert_eq!(a.text(), "10.0.0.1:80");
}

#[test]
fn headers_with_extra_parts_are_read_to_their_end() {
    // A v2 header with a vendor block behind the addresses.
    let mut v2 = ProxyHeader::Proxy {
        transport: Transport::Stream,
        source: client_source(),
        destination: addr("10.0.0.1:443"),
    }
    .encode_v2();
    v2[15] += 4;
    v2.extend_from_slice(&[0x04, 0x00, 0x01, 0xAA]);
    // A v1 line that says more than it has to.
    let v1 = b"PROXY UNKNOWN what follows is ignored\r\n".to_vec();
    for mut wire in [v2, v1] {
        let (_, consumed) = parse(&wire).unwrap();
        assert_eq!(consumed, wire.len());
        wire.extend_from_slice(b"GET");
        let (_, app) = preprocess(&accept_pair(&["127.0.0.0/8"], 2000, &wire)).unwrap();
        assert_eq!(app, b"GET");
    }
}
