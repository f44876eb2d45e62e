use zentinel::addr::SocketAddr;
use zentinel::proxy_protocol::{
    parse, ProxyHeader, ProxyProtocolError, Transport, V1_MAX_LEN, V2_HEADER_LEN, V2_SIGNATURE,
};


fn sa(s: &str) -> SocketAddr {
    SocketAddr::parse(s).unwrap()
}

// --- v1 decode ---------------------------------------------------------

#[test]
fn v1_tcp4_decodes() {
    let input = b"PROXY TCP4 192.0.2.1 203.0.113.7 56324 443\r\nGET / HTTP/1.1\r\n";
    let (hdr, consumed) = parse(input).unwrap();
    assert_eq!(
        hdr,
        ProxyHeader::Proxy {
            transport: Transport::Stream,
            source: sa("192.0.2.1:56324"),
            destination: sa("203.0.113.7:443"),
        }
    );
    // Consumed exactly the header line; the HTTP request remains.
    assert_eq!(&input[consumed..], b"GET / HTTP/1.1\r\n");
}

#[test]
fn v1_tcp6_decodes() {
    let input = b"PROXY TCP6 2001:db8::1 2001:db8::2 4321 443\r\n";
    let (hdr, consumed) = parse(input).unwrap();
    assert_eq!(
        hdr,
        ProxyHeader::Proxy {
            transport: Transport::Stream,
            source: sa("[2001:db8::1]:4321"),
            destination: sa("[2001:db8::2]:443"),
        }
    );
    assert_eq!(consumed, input.len());
}

#[test]
fn v1_unknown_is_local() {
    let input = b"PROXY UNKNOWN\r\n";
    let (hdr, consumed) = parse(input).unwrap();
    assert_eq!(hdr, ProxyHeader::Local);
    assert_eq!(consumed, input.len());
}

#[test]
fn v1_unknown_with_trailing_is_ignored() {
    // Spec: after UNKNOWN, receivers ignore up to the CRLF.
    let input = b"PROXY UNKNOWN 65535 65535 65535 65535\r\n";
    let (hdr, _) = parse(input).unwrap();
    assert_eq!(hdr, ProxyHeader::Local);
}

#[test]
fn v1_partial_line_is_incomplete() {
    let input = b"PROXY TCP4 192.0.2.1 203.0.113.7 56324 44";
    assert!(matches!(
        parse(input),
        Err(ProxyProtocolError::Incomplete { .. })
    ));
}

#[test]
fn v1_line_too_long() {
    // 107+ bytes with no CRLF.
    let mut input = b"PROXY TCP4 ".to_vec();
    input.extend(vec![b'9'; V1_MAX_LEN]);
    assert_eq!(parse(&input), Err(ProxyProtocolError::V1LineTooLong));
}

#[test]
fn v1_bad_port_rejected() {
    let input = b"PROXY TCP4 192.0.2.1 203.0.113.7 99999 443\r\n";
    assert!(matches!(
        parse(input),
        Err(ProxyProtocolError::MalformedV1(_))
    ));
}

#[test]
fn v1_bad_ip_rejected() {
    let input = b"PROXY TCP4 not.an.ip 203.0.113.7 100 443\r\n";
    assert!(matches!(
        parse(input),
        Err(ProxyProtocolError::MalformedV1(_))
    ));
}

#[test]
fn v1_trailing_fields_rejected() {
    let input = b"PROXY TCP4 192.0.2.1 203.0.113.7 100 443 extra\r\n";
    assert!(matches!(
        parse(input),
        Err(ProxyProtocolError::MalformedV1(_))
    ));
}

// --- v2 decode ---------------------------------------------------------

#[test]
fn v2_inet4_round_trips() {
    let hdr = ProxyHeader::Proxy {
        transport: Transport::Stream,
        source: sa("192.0.2.1:56324"),
        destination: sa("203.0.113.7:443"),
    };
    let bytes = hdr.encode_v2();
    let (decoded, consumed) = parse(&bytes).unwrap();
    assert_eq!(decoded, hdr);
    assert_eq!(consumed, bytes.len());
}

#[test]
fn v2_inet6_round_trips() {
    let hdr = ProxyHeader::Proxy {
        transport: Transport::Dgram,
        source: sa("[2001:db8::1]:4321"),
        destination: sa("[2001:db8::2]:443"),
    };
    let bytes = hdr.encode_v2();
    let (decoded, consumed) = parse(&bytes).unwrap();
    assert_eq!(decoded, hdr);
    assert_eq!(consumed, bytes.len());
}

#[test]
fn v2_local_round_trips() {
    let bytes = ProxyHeader::Local.encode_v2();
    let (decoded, consumed) = parse(&bytes).unwrap();
    assert_eq!(decoded, ProxyHeader::Local);
    assert_eq!(consumed, bytes.len());
}

#[test]
fn v2_trailing_payload_boundary() {
    let hdr = ProxyHeader::Proxy {
        transport: Transport::Stream,
        source: sa("10.0.0.1:1000"),
        destination: sa("10.0.0.2:2000"),
    };
    let mut bytes = hdr.encode_v2();
    let header_len = bytes.len();
    bytes.extend_from_slice(b"POST /x");
    let (decoded, consumed) = parse(&bytes).unwrap();
    assert_eq!(decoded, hdr);
    assert_eq!(consumed, header_len);
    assert_eq!(&bytes[consumed..], b"POST /x");
}

#[test]
fn v2_tlv_bytes_are_skipped() {
    // A well-formed INET4 header whose length claims 4 extra TLV bytes.
    let mut bytes = Vec::new();
    bytes.extend_from_slice(&V2_SIGNATURE);
    bytes.push(0x21); // v2, PROXY
    bytes.push(0x11); // AF_INET, STREAM
    bytes.extend_from_slice(&(12u16 + 4).to_be_bytes());
    bytes.extend_from_slice(&[192, 0, 2, 1, 203, 0, 113, 7]);
    bytes.extend_from_slice(&56324u16.to_be_bytes());
    bytes.extend_from_slice(&443u16.to_be_bytes());
    bytes.extend_from_slice(&[0xEE; 4]); // TLV padding
    let (decoded, consumed) = parse(&bytes).unwrap();
    assert_eq!(
        decoded,
        ProxyHeader::Proxy {
            transport: Transport::Stream,
            source: sa("192.0.2.1:56324"),
            destination: sa("203.0.113.7:443"),
        }
    );
    assert_eq!(consumed, bytes.len());
}

#[test]
fn v2_partial_header_is_incomplete() {
    let full = ProxyHeader::Local.encode_v2();
    for cut in 1..full.len() {
        match parse(&full[..cut]) {
            Err(ProxyProtocolError::Incomplete { needed }) => assert!(needed > 0),
            other => panic!("expected Incomplete at cut {cut}, got {other:?}"),
        }
    }
}

#[test]
fn v2_partial_address_block_is_incomplete() {
    let hdr = ProxyHeader::Proxy {
        transport: Transport::Stream,
        source: sa("192.0.2.1:1"),
        destination: sa("203.0.113.7:2"),
    };
    let full = hdr.encode_v2();
    // Truncate inside the address block (past the 16-byte fixed header).
    let (_, needed) = match parse(&full[..V2_HEADER_LEN + 4]) {
        Err(ProxyProtocolError::Incomplete { needed }) => ((), needed),
        other => panic!("expected Incomplete, got {other:?}"),
    };
    assert!(needed > 0);
}

#[test]
fn v2_bad_signature_rejected() {
    let mut bytes = ProxyHeader::Local.encode_v2();
    bytes[5] = 0xFF; // corrupt inside the signature
    assert_eq!(parse(&bytes), Err(ProxyProtocolError::InvalidSignature));
}

#[test]
fn v2_short_bad_signature_fails_fast() {
    // Starts with 0x0D but diverges from the signature before 16 bytes.
    let bytes = [0x0D, 0x0A, 0xFF, 0xFF];
    assert_eq!(parse(&bytes), Err(ProxyProtocolError::InvalidSignature));
}

#[test]
fn v2_unsupported_version_rejected() {
    let mut bytes = ProxyHeader::Local.encode_v2();
    bytes[12] = 0x30; // version 3
    assert_eq!(
        parse(&bytes),
        Err(ProxyProtocolError::UnsupportedVersion(3))
    );
}

#[test]
fn v2_unix_family_rejected() {
    let mut bytes = Vec::new();
    bytes.extend_from_slice(&V2_SIGNATURE);
    bytes.push(0x21); // v2, PROXY
    bytes.push(0x31); // AF_UNIX, STREAM
    bytes.extend_from_slice(&216u16.to_be_bytes());
    bytes.extend_from_slice(&[0u8; 216]);
    assert_eq!(
        parse(&bytes),
        Err(ProxyProtocolError::UnsupportedAddressFamily(0x3))
    );
}

#[test]
fn v2_bad_transport_rejected() {
    let mut bytes = Vec::new();
    bytes.extend_from_slice(&V2_SIGNATURE);
    bytes.push(0x21);
    bytes.push(0x13); // AF_INET, transport 3 (invalid)
    bytes.extend_from_slice(&12u16.to_be_bytes());
    bytes.extend_from_slice(&[0u8; 12]);
    assert_eq!(
        parse(&bytes),
        Err(ProxyProtocolError::UnsupportedTransport(3))
    );
}

#[test]
fn v2_local_command_ignores_addresses() {
    // LOCAL with an INET address block present -> Local (addresses ignored).
    let mut bytes = Vec::new();
    bytes.extend_from_slice(&V2_SIGNATURE);
    bytes.push(0x20); // v2, LOCAL
    bytes.push(0x11); // AF_INET, STREAM
    bytes.extend_from_slice(&12u16.to_be_bytes());
    bytes.extend_from_slice(&[192, 0, 2, 1, 203, 0, 113, 7]);
    bytes.extend_from_slice(&1u16.to_be_bytes());
    bytes.extend_from_slice(&2u16.to_be_bytes());
    let (hdr, consumed) = parse(&bytes).unwrap();
    assert_eq!(hdr, ProxyHeader::Local);
    assert_eq!(consumed, bytes.len());
}

// --- detection / boundaries -------------------------------------------

#[test]
fn non_proxy_bytes_rejected() {
    assert_eq!(
        parse(b"GET / HTTP/1.1\r\n"),
        Err(ProxyProtocolError::NotProxyProtocol)
    );
}

#[test]
fn empty_input_is_incomplete() {
    assert_eq!(
        parse(b""),
        Err(ProxyProtocolError::Incomplete { needed: 1 })
    );
}

#[test]
fn v1_prefix_lookalike_is_incomplete() {
    // "P" alone can't yet be distinguished from a valid "PROXY " start.
    assert!(matches!(
        parse(b"PRO"),
        Err(ProxyProtocolError::Incomplete { .. })
    ));
}

// --- encode edge cases -------------------------------------------------

#[test]
fn encode_v1_dgram_unrepresentable() {
    let hdr = ProxyHeader::Proxy {
        transport: Transport::Dgram,
        source: sa("192.0.2.1:1"),
        destination: sa("203.0.113.7:2"),
    };
    assert_eq!(
        hdr.encode_v1(),
        Err(ProxyProtocolError::V1Unrepresentable("Dgram"))
    );
}

#[test]
fn encode_v1_local_is_unknown() {
    assert_eq!(
        ProxyHeader::Local.encode_v1().unwrap(),
        b"PROXY UNKNOWN\r\n"
    );
}

#[test]
fn try_encode_v2_mixed_family_errors() {
    let hdr = ProxyHeader::Proxy {
        transport: Transport::Stream,
        source: sa("192.0.2.1:1"),
        destination: sa("[2001:db8::2]:2"),
    };
    assert_eq!(
        hdr.try_encode_v2(),
        Err(ProxyProtocolError::MixedAddressFamily)
    );
    // The infallible wrapper degrades to LOCAL rather than panicking.
    let bytes = hdr.encode_v2();
    assert_eq!(parse(&bytes).unwrap().0, ProxyHeader::Local);
}

#[test]
fn v1_round_trips_through_encode_parse() {
    let hdr = ProxyHeader::Proxy {
        transport: Transport::Stream,
        source: sa("198.51.100.9:40000"),
        destination: sa("203.0.113.1:80"),
    };
    let bytes = hdr.encode_v1().unwrap();
    let (decoded, consumed) = parse(&bytes).unwrap();
    assert_eq!(decoded, hdr);
    assert_eq!(consumed, bytes.len());
}

// --- fuzz-adjacent: never panic on arbitrary bytes ---------------------

#[test]
fn arbitrary_prefixes_never_panic() {
    for b in 0u16..=255 {
        let b = b as u8;
        let _ = parse(&[b]);
        let _ = parse(&[b, 0x00, 0x01, 0x02]);
        let _ = parse(&[b; 20]);
    }
}

// --- messages and exact bytes --------------------------------------------

#[test]
fn v2_inet4_bytes_are_exact() {
    let hdr = ProxyHeader::Proxy {
        transport: Transport::Stream,
        source: sa("192.0.2.1:56324"),
        destination: sa("203.0.113.7:443"),
    };
    let mut want = V2_SIGNATURE.to_vec();
    want.extend_from_slice(&[0x21, 0x11, 0x00, 0x0C]);
    want.extend_from_slice(&[192, 0, 2, 1, 203, 0, 113, 7, 0xDC, 0x04, 0x01, 0xBB]);
    assert_eq!(hdr.encode_v2(), want);
}

#[test]
fn v1_tcp6_line_is_exact() {
    let hdr = ProxyHeader::Proxy {
        transport: Transport::Stream,
        source: sa("[2001:db8::1]:4321"),
        destination: sa("[2001:db8::2]:443"),
    };
    assert_eq!(
        hdr.encode_v1().unwrap(),
        b"PROXY TCP6 2001:db8::1 2001:db8::2 4321 443\r\n"
    );
}

#[test]
fn v2_prefixes_ask_for_bytes_of_the_header_only() {
    let full = ProxyHeader::Proxy {
        transport: Transport::Stream,
        source: sa("192.0.2.1:1"),
        destination: sa("203.0.113.7:2"),
    }
    .encode_v2();
    for cut in 1..full.len() {
        let want = if cut < 16 { 16 - cut } else { full.len() - cut };
        assert_eq!(
            parse(&full[..cut]),
            Err(ProxyProtocolError::Incomplete { needed: want })
        );
    }
}

#[test]
fn v2_invalid_command_is_rejected() {
    let mut bytes = ProxyHeader::Local.encode_v2();
    bytes[12] = 0x22;
    assert_eq!(parse(&bytes), Err(ProxyProtocolError::InvalidCommand(2)));
}

#[test]
fn v2_short_address_block_is_rejected() {
    let mut bytes = V2_SIGNATURE.to_vec();
    bytes.extend_from_slice(&[0x21, 0x11, 0x00, 0x04, 1, 2, 3, 4]);
    let err = parse(&bytes).unwrap_err();
    assert!(!matches!(err, ProxyProtocolError::Incomplete { .. }));
}

#[test]
fn every_error_has_a_message() {
    assert!(ProxyProtocolError::NotProxyProtocol.message().len() > 0);
    assert!(ProxyProtocolError::InvalidSignature.message().len() > 0);
    assert!(ProxyProtocolError::UnsupportedVersion(3).message().contains('3'));
    assert!(ProxyProtocolError::V1Unrepresentable("Dgram").message().contains("Dgram"));
}

#[test]
fn v1_prefixes_never_ask_for_too_much() {
    // No header line is shorter than "PROXY UNKNOWN\r\n".
    let shortest = b"PROXY UNKNOWN\r\n";
    for cut in 1..=13 {
        assert_eq!(
            parse(&shortest[..cut]),
            Err(ProxyProtocolError::Incomplete { needed: 15 - cut })
        );
    }
    assert_eq!(
        parse(&shortest[..14]),
        Err(ProxyProtocolError::Incomplete { needed: 1 })
    );
    let full = b"PROXY TCP4 192.0.2.1 203.0.113.7 56324 443\r\n";
    for cut in 1..full.len() {
        match parse(&full[..cut]) {
            Err(ProxyProtocolError::Incomplete { needed }) => {
                assert!(0 < needed && cut + needed <= full.len(), "cut {cut}")
            }
            other => panic!("expected Incomplete at cut {cut}, got {other:?}"),
        }
    }
}
