use zentinel::conformance::{
    all_checks, result, supports_version, Action, AgentReply, Check, ConformanceReport, Event,
    HandshakeReply, Op, Outgoing, Probe, Received, ReplyType, Session, SocketFault,
    CONFORMANCE_VERSION, GARBAGE_PAYLOAD, PING_PAYLOAD, PROTOCOL_VERSION_2,
};

#[test]
fn test_version_support() {
    assert!(supports_version(1));
    assert!(supports_version(2));
    assert!(!supports_version(3));
}

fn handshake(success: bool, error: Option<&str>) -> Received {
    Received {
        reply_type: ReplyType::HandshakeResponse,
        handshake: Ok(HandshakeReply {
            success,
            protocol_version: PROTOCOL_VERSION_2,
            error: error.map(str::to_string),
            agent_id: "ref-agent".to_string(),
            name: "Reference Agent".to_string(),
            version: "1.0.0".to_string(),
            supported_events: vec![1],
        }),
        response: Err("not a response".to_string()),
        payload: vec![],
    }
}

fn response(cid: Option<&str>) -> Received {
    Received {
        reply_type: ReplyType::AgentResponse,
        handshake: Err("not a handshake".to_string()),
        response: Ok(AgentReply {
            version: PROTOCOL_VERSION_2,
            correlation_id: cid.map(str::to_string),
        }),
        payload: vec![],
    }
}

fn pong(payload: &[u8]) -> Received {
    Received {
        reply_type: ReplyType::Pong,
        handshake: Err("not a handshake".to_string()),
        response: Err("not a response".to_string()),
        payload: payload.to_vec(),
    }
}

/// An agent that keeps the protocol.
fn reference(sent: Outgoing) -> Vec<Received> {
    match sent {
        Outgoing::Handshake(v) if supports_version(v) => vec![handshake(true, None)],
        Outgoing::Handshake(_) => vec![handshake(false, Some("unsupported version"))],
        Outgoing::Event(p) => vec![response(Some(p.correlation_id()))],
        Outgoing::Ping => vec![pong(&PING_PAYLOAD)],
        Outgoing::Garbage => vec![response(None)],
    }
}

fn run(check: Check, agent: &dyn Fn(Outgoing) -> Vec<Received>) -> Result<(), String> {
    let mut session = Session::new(check);
    let mut queue: Vec<Received> = vec![];
    let mut event = Event::Connected;
    loop {
        match session.next(&event) {
            Action::Finish(v) => return v,
            Action::Send(o) => {
                queue.extend(agent(o));
                event = Event::Sent;
            }
            Action::Receive => {
                event = if queue.is_empty() {
                    Event::Failed(SocketFault::NoReply)
                } else {
                    Event::Frame(queue.remove(0))
                };
            }
        }
    }
}

fn report(socket: &str, agent: &dyn Fn(Outgoing) -> Vec<Received>) -> ConformanceReport {
    let checks = all_checks()
        .into_iter()
        .map(|c| result(c, run(c, agent)))
        .collect();
    ConformanceReport::new(socket, checks)
}

#[test]
fn reference_rust_agent_passes_conformance() {
    let report = report("/tmp/ref.sock", &reference);
    assert!(
        report.passed,
        "reference agent must pass its own conformance suite:\n{}",
        report.render_text()
    );
    assert_eq!(report.checks.len(), 6);
    assert_eq!(report.conformance_version, CONFORMANCE_VERSION);
    assert!(report
        .render_text()
        .ends_with("Result: PASS — agent passes zentinel-conformance v1\n"));
}

#[test]
fn unreachable_socket_fails_all_checks() {
    let checks = all_checks()
        .into_iter()
        .map(|c| {
            let mut s = Session::new(c);
            let fault = SocketFault::ConnectFailed("no such file".to_string());
            match s.next(&Event::Failed(fault)) {
                Action::Finish(v) => result(c, v),
                other => panic!("unexpected {other:?}"),
            }
        })
        .collect();
    let report = ConformanceReport::new("/nonexistent/agent.sock", checks);
    assert!(!report.passed);
    assert!(report.checks.iter().all(|c| !c.passed));
    assert_eq!(report.checks[0].detail, "connect failed: no such file");
    assert!(report.render_text().contains(
        "  [FAIL] handshake — valid handshake response with well-formed capabilities\n         connect failed: no such file\n"
    ));
    assert!(report.render_text().ends_with("Result: FAIL\n"));
}

#[test]
fn handshake_faults_are_told_apart() {
    let judged = |r: fn() -> Received| run(Check::Handshake, &move |_| vec![r()]).unwrap_err();
    assert_eq!(
        judged(|| pong(b"")),
        "expected HandshakeResponse (0x02), got Pong"
    );
    assert_eq!(
        judged(|| handshake(false, Some("no"))),
        "success=false for supported version: Some(\"no\")"
    );
    assert_eq!(
        judged(|| handshake(false, None)),
        "success=false for supported version: None"
    );
    let with = |f: fn(&mut HandshakeReply)| {
        run(Check::Handshake, &move |_| {
            let mut r = handshake(true, None);
            if let Ok(h) = &mut r.handshake {
                f(h);
            }
            vec![r]
        })
        .unwrap_err()
    };
    assert_eq!(with(|h| h.protocol_version = 3), "protocol_version=3, want 2");
    assert_eq!(
        with(|h| h.name = String::new()),
        "capabilities agent_id/name/version must be non-empty"
    );
    assert_eq!(
        with(|h| h.supported_events = vec![2, 3]),
        "supported_events [2, 3] must include 1 (RequestHeaders)"
    );
    assert_eq!(
        with(|h| h.supported_events = vec![]),
        "supported_events [] must include 1 (RequestHeaders)"
    );
}

#[test]
fn version_must_be_rejected_with_a_reason() {
    let accepts = |_| vec![handshake(true, None)];
    assert_eq!(
        run(Check::VersionRejection, &accepts).unwrap_err(),
        "accepted unknown protocol version 99"
    );
    let silent = |_| vec![handshake(false, None)];
    assert_eq!(
        run(Check::VersionRejection, &silent).unwrap_err(),
        "rejection must carry an error message"
    );
}

#[test]
fn correlation_id_must_be_echoed() {
    let wrong = |o: Outgoing| match o {
        Outgoing::Event(Probe::Second) => vec![response(Some("conform-cid-1"))],
        other => reference(other),
    };
    let err = run(Check::CorrelationRouting, &wrong).unwrap_err();
    assert!(err.starts_with(
        "audit.custom.correlation_id = Some(\"conform-cid-1\"), want \"conform-cid-2\" ("
    ));
}

#[test]
fn pong_must_echo_the_ping() {
    let wrong = |o: Outgoing| match o {
        Outgoing::Ping => vec![pong(b"{}")],
        other => reference(other),
    };
    assert_eq!(
        run(Check::PingPong, &wrong).unwrap_err(),
        "pong must echo the ping payload"
    );
    assert_eq!(&PING_PAYLOAD, b"{\"seq\":42}");
    assert_eq!(&GARBAGE_PAYLOAD, b"\x00not json\xff");
}

#[test]
fn decision_must_carry_the_version() {
    let old = |o: Outgoing| match o {
        Outgoing::Event(_) => {
            let mut r = response(None);
            r.response = Ok(AgentReply {
                version: 1,
                correlation_id: None,
            });
            vec![r]
        }
        other => reference(other),
    };
    assert_eq!(
        run(Check::DecisionShape, &old).unwrap_err(),
        "version=1, want 2"
    );
    let broken = |o: Outgoing| match o {
        Outgoing::Event(_) => vec![pong(b"")],
        other => reference(other),
    };
    assert_eq!(
        run(Check::DecisionShape, &broken).unwrap_err(),
        "expected AgentResponse (0x20), got Pong"
    );
}

#[test]
fn malformed_payload_may_be_ignored_but_not_wedge() {
    let ignores = |o: Outgoing| match o {
        Outgoing::Garbage => vec![],
        other => reference(other),
    };
    assert_eq!(run(Check::MalformedPayload, &ignores), Ok(()));
    let wedged = |o: Outgoing| match o {
        Outgoing::Event(_) => vec![],
        other => reference(other),
    };
    assert_eq!(
        run(Check::MalformedPayload, &wedged).unwrap_err(),
        "no reply within 5s"
    );
    let confused = |o: Outgoing| match o {
        Outgoing::Event(_) => vec![response(None)],
        other => reference(other),
    };
    assert_eq!(
        run(Check::MalformedPayload, &confused).unwrap_err(),
        "agent stopped answering after a malformed payload"
    );
}

#[test]
fn refused_handshake_ends_the_other_checks() {
    let refuses = |_| vec![handshake(false, Some("busy"))];
    assert_eq!(
        run(Check::PingPong, &refuses).unwrap_err(),
        "handshake rejected: Some(\"busy\")"
    );
    assert_ne!(Op::Receive, Op::Send(Outgoing::Ping));
}
