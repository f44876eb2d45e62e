use bytes::Bytes;
use zentinel::binary::{
    AgentProtocolError, BinaryFrame, FrameState, FrameStep, MessageType, MAX_BINARY_MESSAGE_SIZE,
};
use zentinel::messages::{
    BinaryAgentResponse, BinaryBodyChunk, BinaryRequestHeaders, Decision, HeaderOp,
};
use zentinel::strmap::StringMap;


#[test]
fn test_message_type_roundtrip() {
    for t in [
        MessageType::HandshakeRequest,
        MessageType::HandshakeResponse,
        MessageType::RequestHeaders,
        MessageType::RequestBodyChunk,
        MessageType::AgentResponse,
        MessageType::Ping,
        MessageType::Pong,
        MessageType::Cancel,
        MessageType::Error,
    ] {
        let byte = t.code();
        let decoded = MessageType::try_from(byte).unwrap();
        assert_eq!(t, decoded);
    }
}

#[test]
fn test_binary_frame_encode_decode() {
    let frame = BinaryFrame::new(MessageType::Ping, Bytes::from_static(b"hello"));
    let encoded = frame.encode();

    // Verify structure
    assert_eq!(encoded.len(), 4 + 1 + 5); // len + type + payload
    assert_eq!(&encoded[0..4], &[0, 0, 0, 6]); // length = 6 (type + payload)
    assert_eq!(encoded[4], MessageType::Ping.code());
    assert_eq!(&encoded[5..], b"hello");
}

#[test]
fn test_binary_request_headers_roundtrip() {
    let headers = BinaryRequestHeaders {
        correlation_id: "req-123".to_string(),
        method: "POST".to_string(),
        uri: "/api/test".to_string(),
        headers: {
            let mut h = StringMap::new();
            h.insert(
                "content-type".to_string(),
                vec!["application/json".to_string()],
            );
            h.insert(
                "x-custom".to_string(),
                vec!["value1".to_string(), "value2".to_string()],
            );
            h
        },
        client_ip: "192.168.1.1".to_string(),
        client_port: 12345,
    };

    let encoded = headers.encode();
    let decoded = BinaryRequestHeaders::decode(encoded).unwrap();

    assert_eq!(decoded.correlation_id, "req-123");
    assert_eq!(decoded.method, "POST");
    assert_eq!(decoded.uri, "/api/test");
    assert_eq!(decoded.client_ip, "192.168.1.1");
    assert_eq!(decoded.client_port, 12345);
    assert_eq!(
        decoded.headers.get("content-type").unwrap(),
        &vec!["application/json".to_string()]
    );
}

#[test]
fn test_binary_request_headers_encode_is_deterministic() {
    // With several header names, an unsorted encoder would re-serialize a
    // decoded frame (fresh HashMap, different seed) in a different order.
    let mut h = StringMap::new();
    for name in ["content-type", "a", "z", "m", "b", "x-custom", "d"] {
        h.insert(name.to_string(), vec!["v".to_string()]);
    }
    let x = BinaryRequestHeaders {
        correlation_id: "r".to_string(),
        method: "GET".to_string(),
        uri: "/".to_string(),
        headers: h,
        client_ip: "127.0.0.1".to_string(),
        client_port: 80,
    };
    let e1 = x.encode();
    let e2 = BinaryRequestHeaders::decode(e1.clone()).unwrap().encode();
    assert_eq!(e1, e2, "encode must be stable across a decode round-trip");
}

#[test]
fn test_binary_agent_response_block_headers_deterministic() {
    let mut bh = StringMap::new();
    for name in ["retry-after", "x-a", "x-z", "x-m", "location"] {
        bh.insert(name.to_string(), "v".to_string());
    }
    let x = BinaryAgentResponse {
        correlation_id: "r".to_string(),
        decision: Decision::Block {
            status: 403,
            body: Some("no".to_string()),
            headers: Some(bh),
        },
        request_headers: vec![],
        response_headers: vec![],
        needs_more: false,
    };
    let e1 = x.encode();
    let e2 = BinaryAgentResponse::decode(e1.clone()).unwrap().encode();
    assert_eq!(
        e1, e2,
        "block-headers encode must be stable across a round-trip"
    );
}

#[test]
fn test_binary_body_chunk_roundtrip() {
    let chunk = BinaryBodyChunk {
        correlation_id: "req-456".to_string(),
        chunk_index: 2,
        is_last: true,
        data: Bytes::from_static(b"binary data here"),
    };

    let encoded = chunk.encode();
    let decoded = BinaryBodyChunk::decode(encoded).unwrap();

    assert_eq!(decoded.correlation_id, "req-456");
    assert_eq!(decoded.chunk_index, 2);
    assert!(decoded.is_last);
    assert_eq!(&decoded.data[..], b"binary data here");
}

#[test]
fn test_binary_agent_response_allow() {
    let response = BinaryAgentResponse {
        correlation_id: "req-789".to_string(),
        decision: Decision::Allow,
        request_headers: vec![HeaderOp::Replace {
            name: "X-Added".to_string(),
            value: "true".to_string(),
        }],
        response_headers: vec![],
        needs_more: false,
    };

    let encoded = response.encode();
    let decoded = BinaryAgentResponse::decode(encoded).unwrap();

    assert_eq!(decoded.correlation_id, "req-789");
    assert!(matches!(decoded.decision, Decision::Allow));
    assert_eq!(decoded.request_headers.len(), 1);
    assert!(!decoded.needs_more);
}

#[test]
fn test_binary_agent_response_block() {
    let response = BinaryAgentResponse {
        correlation_id: "req-block".to_string(),
        decision: Decision::Block {
            status: 403,
            body: Some("Forbidden".to_string()),
            headers: None,
        },
        request_headers: vec![],
        response_headers: vec![],
        needs_more: false,
    };

    let encoded = response.encode();
    let decoded = BinaryAgentResponse::decode(encoded).unwrap();

    assert_eq!(decoded.correlation_id, "req-block");
    match decoded.decision {
        Decision::Block {
            status,
            body,
            headers,
        } => {
            assert_eq!(status, 403);
            assert_eq!(body, Some("Forbidden".to_string()));
            assert!(headers.is_none());
        }
        _ => panic!("Expected Block decision"),
    }
}

#[test]
fn unknown_message_type_is_refused() {
    assert_eq!(
        MessageType::try_from(0x99),
        Err(AgentProtocolError::InvalidMessage(
            "Unknown message type: 0x99".to_string()
        ))
    );
    assert_eq!(MessageType::WebSocketFrame.code(), 0x15);
}

#[test]
fn every_decision_and_operation_round_trips() {
    let mut params = StringMap::new();
    params.insert("sitekey".to_string(), "k".to_string());
    let decisions = vec![
        Decision::Redirect {
            url: "https://example.com/".to_string(),
            status: 302,
        },
        Decision::Challenge {
            challenge_type: "captcha".to_string(),
            params,
        },
    ];
    for decision in decisions {
        let response = BinaryAgentResponse {
            correlation_id: "c".to_string(),
            decision,
            request_headers: vec![
                HeaderOp::Add {
                    name: "a".to_string(),
                    value: "1".to_string(),
                },
                HeaderOp::Remove {
                    name: "b".to_string(),
                },
            ],
            response_headers: vec![HeaderOp::Replace {
                name: "c".to_string(),
                value: "2".to_string(),
            }],
            needs_more: true,
        };
        let decoded = BinaryAgentResponse::decode(response.encode()).unwrap();
        assert_eq!(decoded, response);
    }
}

#[test]
fn truncated_messages_are_refused() {
    let chunk = BinaryBodyChunk {
        correlation_id: "c".to_string(),
        chunk_index: 1,
        is_last: false,
        data: Bytes::from_static(b"abc"),
    };
    let encoded = chunk.encode();
    for cut in 0..6 {
        assert!(BinaryBodyChunk::decode(encoded.slice(0..cut)).is_err());
    }
    assert!(BinaryRequestHeaders::decode(Bytes::from_static(b"")).is_err());
    assert!(BinaryAgentResponse::decode(Bytes::from_static(b"\x00")).is_err());
}

#[test]
fn frames_are_read_back() {
    let frame = BinaryFrame::new(MessageType::Ping, Bytes::from_static(b"hello"));
    let encoded = frame.encode();
    let mut state = FrameState::Length;
    let mut at = 0;
    loop {
        let n = state.wanted();
        let bytes = encoded[at..at + n].to_vec();
        at += n;
        match state.advance(bytes).unwrap() {
            FrameStep::Read(next) => state = next,
            FrameStep::Done(f) => {
                assert_eq!(f.msg_type, MessageType::Ping);
                assert_eq!(&f.payload[..], b"hello");
                break;
            }
        }
    }
    assert_eq!(at, encoded.len());
}

#[test]
fn oversized_and_empty_frames_are_refused() {
    let too_big = (MAX_BINARY_MESSAGE_SIZE as u32 + 1).to_be_bytes().to_vec();
    assert!(FrameState::Length.advance(too_big).is_err());
    assert!(FrameState::Length.advance(vec![0, 0, 0, 0]).is_err());
}

#[test]
fn cut_messages_are_refused_and_bytes_behind_are_ignored() {
    let response = BinaryAgentResponse {
        correlation_id: "req-1".to_string(),
        decision: Decision::Block {
            status: 403,
            body: Some("no".to_string()),
            headers: None,
        },
        request_headers: vec![HeaderOp::Remove {
            name: "x-a".to_string(),
        }],
        response_headers: vec![],
        needs_more: true,
    };
    let encoded = response.encode();
    for cut in 0..encoded.len() {
        assert!(
            BinaryAgentResponse::decode(encoded.slice(0..cut)).is_err(),
            "response cut at {cut}"
        );
    }
    let mut longer = encoded.to_vec();
    longer.extend_from_slice(b"more");
    let decoded = BinaryAgentResponse::decode(Bytes::from(longer)).unwrap();
    assert_eq!(decoded.encode(), encoded);

    let chunk = BinaryBodyChunk {
        correlation_id: "req-2".to_string(),
        chunk_index: 3,
        is_last: true,
        data: Bytes::from_static(b"body"),
    };
    let encoded = chunk.encode();
    for cut in 0..encoded.len() {
        assert!(BinaryBodyChunk::decode(encoded.slice(0..cut)).is_err());
    }
    let mut longer = encoded.to_vec();
    longer.extend_from_slice(b"more");
    let decoded = BinaryBodyChunk::decode(Bytes::from(longer)).unwrap();
    assert_eq!(&decoded.data[..], b"body");
    assert_eq!(decoded.encode(), encoded);
}
