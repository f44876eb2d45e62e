//! Conformance checks for agents: what is sent to an agent, and what its replies
//! must look like.
//!
//! A check is a fixed script of sends and receives on a fresh connection. The
//! caller owns the socket: it performs each [`Action`] and hands the [`Event`] that
//! came of it to [`Session::next`], until the check ends in a verdict.

use crate::text;
use vstd::prelude::*;
use vstd::string::*;

verus! {

/// Protocol version 2.
pub const PROTOCOL_VERSION_2: u32 = 2;

/// A version that no agent can know.
pub const UNKNOWN_VERSION: u32 = 99;

/// Version of the check suite, raised when checks are added or tightened.
pub const CONFORMANCE_VERSION: u32 = 1;

/// Check if a version is supported.
pub fn supports_version(version: u32) -> (r: bool)
    ensures
        r == (version <= PROTOCOL_VERSION_2),
{
    version <= PROTOCOL_VERSION_2
}

// ---------------------------------------------------------------------------
// Replies
// ---------------------------------------------------------------------------

/// The type of a reply, as far as the checks tell them apart.
#[derive(Debug)]
pub enum ReplyType {
    /// Answer to a handshake.
    HandshakeResponse,
    /// Decision of the agent.
    AgentResponse,
    /// Answer to a ping.
    Pong,
    /// Any other type, by name.
    Other(String),
}

/// The name of a reply type.
pub open spec fn reply_name(t: ReplyType) -> Seq<char> {
    match t {
        ReplyType::HandshakeResponse => "HandshakeResponse"@,
        ReplyType::AgentResponse => "AgentResponse"@,
        ReplyType::Pong => "Pong"@,
        ReplyType::Other(s) => s@,
    }
}

impl ReplyType {
    fn name(&self) -> (r: &str)
        ensures
            r@ == reply_name(*self),
    {
        match self {
            ReplyType::HandshakeResponse => "HandshakeResponse",
            ReplyType::AgentResponse => "AgentResponse",
            ReplyType::Pong => "Pong",
            ReplyType::Other(s) => s.as_str(),
        }
    }
}

/// What a handshake response says.
#[derive(Debug)]
pub struct HandshakeReply {
    /// The agent accepts the connection.
    pub success: bool,
    /// The version it speaks.
    pub protocol_version: u32,
    /// Why it does not.
    pub error: Option<String>,
    /// Agent identifier.
    pub agent_id: String,
    /// Agent name.
    pub name: String,
    /// Agent version.
    pub version: String,
    /// Codes of the events it handles.
    pub supported_events: Vec<i32>,
}

/// What an agent response says, as far as the checks read it.
#[derive(Debug)]
pub struct AgentReply {
    /// Protocol version of the response.
    pub version: u32,
    /// The correlation id echoed in the audit data.
    pub correlation_id: Option<String>,
}

/// A frame from the agent, with its payload read as either kind of message.
#[derive(Debug)]
pub struct Received {
    /// Its type.
    pub reply_type: ReplyType,
    /// The payload as a handshake response, or why it is none.
    pub handshake: Result<HandshakeReply, String>,
    /// The payload as an agent response, or why it is none.
    pub response: Result<AgentReply, String>,
    /// The payload.
    pub payload: Vec<u8>,
}

/// How socket work fails.
#[derive(Debug)]
pub enum SocketFault {
    /// No connection in time.
    ConnectTimedOut,
    /// No connection.
    ConnectFailed(String),
    /// A write was not done in time.
    WriteTimedOut,
    /// A write failed.
    WriteFailed(String),
    /// No reply in time.
    NoReply,
    /// A read failed.
    ReadFailed(String),
}

/// The words for a socket fault.
pub open spec fn socket_text(f: SocketFault) -> Seq<char> {
    match f {
        SocketFault::ConnectTimedOut => "connect timed out"@,
        SocketFault::ConnectFailed(e) => "connect failed: "@ + e@,
        SocketFault::WriteTimedOut => "write timed out"@,
        SocketFault::WriteFailed(e) => "write failed: "@ + e@,
        SocketFault::NoReply => "no reply within 5s"@,
        SocketFault::ReadFailed(e) => "read failed: "@ + e@,
    }
}

fn cat2(a: &str, b: &str) -> (r: String)
    ensures
        r@ == a@ + b@,
{
    let mut out = a.to_owned();
    out.append(b);
    out
}

fn socket_message(f: &SocketFault) -> (r: String)
    ensures
        r@ == socket_text(*f),
{
    match f {
        SocketFault::ConnectTimedOut => "connect timed out".to_owned(),
        SocketFault::ConnectFailed(e) => cat2("connect failed: ", e.as_str()),
        SocketFault::WriteTimedOut => "write timed out".to_owned(),
        SocketFault::WriteFailed(e) => cat2("write failed: ", e.as_str()),
        SocketFault::NoReply => "no reply within 5s".to_owned(),
        SocketFault::ReadFailed(e) => cat2("read failed: ", e.as_str()),
    }
}

// ---------------------------------------------------------------------------
// Checks and their scripts
// ---------------------------------------------------------------------------

/// The checks of the suite.
#[derive(Debug, Clone, Copy, PartialEq, Eq, Structural)]
pub enum Check {
    /// Valid handshake.
    Handshake,
    /// Rejection of an unknown version.
    VersionRejection,
    /// Shape of a decision.
    DecisionShape,
    /// Echo of the correlation id.
    CorrelationRouting,
    /// Ping and pong.
    PingPong,
    /// Resilience to a malformed payload.
    MalformedPayload,
}

/// The stable name of a check.
pub open spec fn check_name(c: Check) -> Seq<char> {
    match c {
        Check::Handshake => "handshake"@,
        Check::VersionRejection => "version_rejection"@,
        Check::DecisionShape => "decision_shape"@,
        Check::CorrelationRouting => "correlation_routing"@,
        Check::PingPong => "ping_pong"@,
        Check::MalformedPayload => "malformed_payload"@,
    }
}

/// What a check verifies.
pub open spec fn check_description(c: Check) -> Seq<char> {
    match c {
        Check::Handshake => "valid handshake response with well-formed capabilities"@,
        Check::VersionRejection => "unknown protocol version is rejected with an error"@,
        Check::DecisionShape => "RequestHeaders is answered with a well-formed AgentResponse"@,
        Check::CorrelationRouting => "responses echo the request correlation_id in audit.custom"@,
        Check::PingPong => "ping is answered with an echoing pong"@,
        Check::MalformedPayload => "a malformed event payload does not wedge the connection"@,
    }
}

impl Check {
    /// The stable name.
    pub fn name(&self) -> (r: &'static str)
        ensures
            r@ == check_name(*self),
    {
        match self {
            Check::Handshake => "handshake",
            Check::VersionRejection => "version_rejection",
            Check::DecisionShape => "decision_shape",
            Check::CorrelationRouting => "correlation_routing",
            Check::PingPong => "ping_pong",
            Check::MalformedPayload => "malformed_payload",
        }
    }

    /// What the check verifies.
    pub fn description(&self) -> (r: &'static str)
        ensures
            r@ == check_description(*self),
    {
        match self {
            Check::Handshake => "valid handshake response with well-formed capabilities",
            Check::VersionRejection => "unknown protocol version is rejected with an error",
            Check::DecisionShape => "RequestHeaders is answered with a well-formed AgentResponse",
            Check::CorrelationRouting => "responses echo the request correlation_id in audit.custom",
            Check::PingPong => "ping is answered with an echoing pong",
            Check::MalformedPayload => "a malformed event payload does not wedge the connection",
        }
    }
}

/// The checks in the order in which they run.
pub open spec fn suite() -> Seq<Check> {
    seq![
        Check::Handshake,
        Check::VersionRejection,
        Check::DecisionShape,
        Check::CorrelationRouting,
        Check::PingPong,
        Check::MalformedPayload,
    ]
}

/// The checks in the order in which they run.
pub fn all_checks() -> (r: Vec<Check>)
    ensures
        r@ == suite(),
{
    vec![
        Check::Handshake,
        Check::VersionRejection,
        Check::DecisionShape,
        Check::CorrelationRouting,
        Check::PingPong,
        Check::MalformedPayload,
    ]
}

/// A frame to the agent.
#[derive(Debug, Clone, Copy, PartialEq, Eq, Structural)]
pub enum Outgoing {
    /// A handshake request that offers one version.
    Handshake(u32),
    /// A request-headers event with one of the suite's correlation ids.
    Event(Probe),
    /// A ping with [`PING_PAYLOAD`].
    Ping,
    /// A request-headers frame with [`GARBAGE_PAYLOAD`].
    Garbage,
}

/// The requests that the suite sends.
#[derive(Debug, Clone, Copy, PartialEq, Eq, Structural)]
pub enum Probe {
    /// The request of the decision check.
    Decision,
    /// The first request of the correlation check.
    First,
    /// The second request of the correlation check.
    Second,
    /// The request behind the malformed one.
    AfterGarbage,
}

/// The payload of the ping, `{"seq":42}`.
pub const PING_PAYLOAD: [u8; 10] = [
    0x7B, 0x22, 0x73, 0x65, 0x71, 0x22, 0x3A, 0x34, 0x32, 0x7D,
];

/// A payload that is no JSON.
pub const GARBAGE_PAYLOAD: [u8; 10] = [
    0x00, 0x6E, 0x6F, 0x74, 0x20, 0x6A, 0x73, 0x6F, 0x6E, 0xFF,
];

/// The correlation id of a request.
pub open spec fn probe_id(p: Probe) -> Seq<char> {
    match p {
        Probe::Decision => "conform-decision"@,
        Probe::First => "conform-cid-1"@,
        Probe::Second => "conform-cid-2"@,
        Probe::AfterGarbage => "conform-after-garbage"@,
    }
}

impl Probe {
    /// The correlation id of the request.
    pub fn correlation_id(&self) -> (r: &'static str)
        ensures
            r@ == probe_id(*self),
    {
        match self {
            Probe::Decision => "conform-decision",
            Probe::First => "conform-cid-1",
            Probe::Second => "conform-cid-2",
            Probe::AfterGarbage => "conform-after-garbage",
        }
    }
}

/// A step of a script.
#[derive(Debug, Clone, Copy, PartialEq, Eq, Structural)]
pub enum Op {
    /// Send a frame.
    Send(Outgoing),
    /// Wait for a frame.
    Receive,
}

/// The steps of a check on its connection. All but the handshake checks open with
/// a handshake that has to succeed.
pub open spec fn script(c: Check) -> Seq<Op> {
    let hello = Op::Send(Outgoing::Handshake(PROTOCOL_VERSION_2));
    match c {
        Check::Handshake => seq![hello, Op::Receive],
        Check::VersionRejection => seq![
            Op::Send(Outgoing::Handshake(UNKNOWN_VERSION)),
            Op::Receive,
        ],
        Check::DecisionShape => seq![
            hello,
            Op::Receive,
            Op::Send(Outgoing::Event(Probe::Decision)),
            Op::Receive,
        ],
        Check::CorrelationRouting => seq![
            hello,
            Op::Receive,
            Op::Send(Outgoing::Event(Probe::First)),
            Op::Receive,
            Op::Send(Outgoing::Event(Probe::Second)),
            Op::Receive,
        ],
        Check::PingPong => seq![hello, Op::Receive, Op::Send(Outgoing::Ping), Op::Receive],
        Check::MalformedPayload => seq![
            hello,
            Op::Receive,
            Op::Send(Outgoing::Garbage),
            Op::Send(Outgoing::Event(Probe::AfterGarbage)),
            Op::Receive,
            Op::Receive,
        ],
    }
}

fn script_of(c: Check) -> (r: Vec<Op>)
    ensures
        r@ == script(c),
{
    let hello = Op::Send(Outgoing::Handshake(PROTOCOL_VERSION_2));
    match c {
        Check::Handshake => vec![hello, Op::Receive],
        Check::VersionRejection => vec![
            Op::Send(Outgoing::Handshake(UNKNOWN_VERSION)),
            Op::Receive,
        ],
        Check::DecisionShape => vec![
            hello,
            Op::Receive,
            Op::Send(Outgoing::Event(Probe::Decision)),
            Op::Receive,
        ],
        Check::CorrelationRouting => vec![
            hello,
            Op::Receive,
            Op::Send(Outgoing::Event(Probe::First)),
            Op::Receive,
            Op::Send(Outgoing::Event(Probe::Second)),
            Op::Receive,
        ],
        Check::PingPong => vec![hello, Op::Receive, Op::Send(Outgoing::Ping), Op::Receive],
        Check::MalformedPayload => vec![
            hello,
            Op::Receive,
            Op::Send(Outgoing::Garbage),
            Op::Send(Outgoing::Event(Probe::AfterGarbage)),
            Op::Receive,
            Op::Receive,
        ],
    }
}

// ---------------------------------------------------------------------------
// Judging replies
// ---------------------------------------------------------------------------

/// An optional text as it is shown to a developer.
pub open spec fn shown_option(o: Option<Seq<char>>) -> Seq<char> {
    match o {
        None => "None"@,
        Some(s) => "Some("@ + text::debug_quoted(s) + ")"@,
    }
}

/// The view of an optional text.
pub open spec fn option_view(o: Option<String>) -> Option<Seq<char>> {
    match o {
        None => None,
        Some(s) => Some(s@),
    }
}

fn show_option(o: &Option<String>) -> (r: String)
    ensures
        r@ == shown_option(option_view(*o)),
{
    match o {
        None => "None".to_owned(),
        Some(s) => {
            let mut out = "Some(".to_owned();
            out.append(text::quote_debug(s.as_str()).as_str());
            out.append(")");
            out
        },
    }
}

/// A list of numbers as it is shown to a developer, without the closing bracket.
pub open spec fn shown_items(list: Seq<i32>) -> Seq<char>
    decreases list.len(),
{
    if list.len() == 0 {
        "["@
    } else if list.len() == 1 {
        "["@ + text::int_text(list[0] as int)
    } else {
        shown_items(list.drop_last()) + ", "@ + text::int_text(list.last() as int)
    }
}

/// A list of numbers as it is shown to a developer.
pub open spec fn shown_list(list: Seq<i32>) -> Seq<char> {
    shown_items(list) + "]"@
}

fn show_list(list: &Vec<i32>) -> (r: String)
    ensures
        r@ == shown_list(list@),
{
    let mut out = "[".to_owned();
    let mut i: usize = 0;
    assert(list@.take(0) =~= Seq::empty());
    while i < list.len()
        invariant
            0 <= i <= list.len(),
            out@ == shown_items(list@.take(i as int)),
        decreases list.len() - i,
    {
        assert(list@.take(i + 1).drop_last() =~= list@.take(i as int));
        assert(list@.take(i + 1).last() == list@[i as int]);
        if i > 0 {
            out.append(", ");
        } else {
            assert(list@.take(1)[0] == list@[0]);
        }
        out.append(text::decimal_signed(list[i] as i64).as_str());
        i += 1;
    }
    assert(list@.take(list@.len() as int) =~= list@);
    out.append("]");
    out
}

/// What is wrong with the reply to a handshake that offers the current version.
pub open spec fn handshake_fault(r: Received) -> Option<Seq<char>> {
    if !(r.reply_type is HandshakeResponse) {
        Some("expected HandshakeResponse (0x02), got "@ + reply_name(r.reply_type))
    } else {
        match r.handshake {
            Err(e) => Some("response not valid JSON: "@ + e@),
            Ok(h) => if !h.success {
                Some("success=false for supported version: "@ + shown_option(option_view(h.error)))
            } else if h.protocol_version != PROTOCOL_VERSION_2 {
                Some("protocol_version="@ + text::digits(h.protocol_version as nat) + ", want 2"@)
            } else if h.agent_id@.len() == 0 || h.name@.len() == 0 || h.version@.len() == 0 {
                Some("capabilities agent_id/name/version must be non-empty"@)
            } else if !h.supported_events@.contains(1) {
                Some(
                    "supported_events "@ + shown_list(h.supported_events@)
                        + " must include 1 (RequestHeaders)"@,
                )
            } else {
                None
            },
        }
    }
}

/// What is wrong with the reply to a handshake that offers an unknown version.
pub open spec fn rejection_fault(r: Received) -> Option<Seq<char>> {
    if !(r.reply_type is HandshakeResponse) {
        Some("expected HandshakeResponse, got "@ + reply_name(r.reply_type))
    } else {
        match r.handshake {
            Err(e) => Some("response not valid JSON: "@ + e@),
            Ok(h) => if h.success {
                Some("accepted unknown protocol version 99"@)
            } else if h.error is None || h.error->0@.len() == 0 {
                Some("rejection must carry an error message"@)
            } else {
                None
            },
        }
    }
}

/// What is wrong with the reply to the handshake that opens the other checks.
pub open spec fn opening_fault(r: Received) -> Option<Seq<char>> {
    if !(r.reply_type is HandshakeResponse) {
        Some("expected HandshakeResponse, got "@ + reply_name(r.reply_type))
    } else {
        match r.handshake {
            Err(e) => Some("handshake decode: "@ + e@),
            Ok(h) => if !h.success {
                Some("handshake rejected: "@ + shown_option(option_view(h.error)))
            } else {
                None
            },
        }
    }
}

/// What is wrong with a decision.
pub open spec fn decision_fault(r: Received) -> Option<Seq<char>> {
    if !(r.reply_type is AgentResponse) {
        Some("expected AgentResponse (0x20), got "@ + reply_name(r.reply_type))
    } else {
        match r.response {
            Err(e) => Some("response does not deserialize as AgentResponse: "@ + e@),
            Ok(a) => if a.version != PROTOCOL_VERSION_2 {
                Some("version="@ + text::digits(a.version as nat) + ", want 2"@)
            } else {
                None
            },
        }
    }
}

/// What is wrong with a response that has to echo a correlation id.
pub open spec fn echo_fault(r: Received, want: Seq<char>) -> Option<Seq<char>> {
    match r.response {
        Err(e) => Some("response decode: "@ + e@),
        Ok(a) => if option_view(a.correlation_id) == Some(want) {
            None
        } else {
            Some(
                "audit.custom.correlation_id = "@ + shown_option(option_view(a.correlation_id))
                    + ", want "@ + text::debug_quoted(want)
                    + " (the proxy routes responses by it; without it every in-flight request on the connection stalls)"@,
            )
        },
    }
}

/// What is wrong with the reply to a ping.
pub open spec fn pong_fault(r: Received) -> Option<Seq<char>> {
    if !(r.reply_type is Pong) {
        Some("expected Pong (0x42), got "@ + reply_name(r.reply_type))
    } else if r.payload@ != PING_PAYLOAD@ {
        Some("pong must echo the ping payload"@)
    } else {
        None
    }
}

/// A response to the request behind the malformed one.
pub open spec fn answers_after_garbage(r: Received) -> bool {
    r.reply_type is AgentResponse && (r.response matches Ok(a) && option_view(a.correlation_id)
        == Some(probe_id(Probe::AfterGarbage)))
}

fn judge_handshake(r: &Received) -> (f: Option<String>)
    ensures
        option_view(f) == handshake_fault(*r),
{
    if !matches!(r.reply_type, ReplyType::HandshakeResponse) {
        return Some(cat2("expected HandshakeResponse (0x02), got ", r.reply_type.name()));
    }
    match &r.handshake {
        Err(e) => Some(cat2("response not valid JSON: ", e.as_str())),
        Ok(h) => {
            if !h.success {
                let shown = show_option(&h.error);
                Some(cat2("success=false for supported version: ", shown.as_str()))
            } else if h.protocol_version != PROTOCOL_VERSION_2 {
                let mut m = "protocol_version=".to_owned();
                text::push_decimal(&mut m, h.protocol_version as u64);
                m.append(", want 2");
                Some(m)
            } else if is_empty(h.agent_id.as_str()) || is_empty(h.name.as_str()) || is_empty(
                h.version.as_str(),
            ) {
                Some("capabilities agent_id/name/version must be non-empty".to_owned())
            } else if !holds(&h.supported_events, 1) {
                let mut m = "supported_events ".to_owned();
                m.append(show_list(&h.supported_events).as_str());
                m.append(" must include 1 (RequestHeaders)");
                Some(m)
            } else {
                None
            }
        },
    }
}

fn is_empty(s: &str) -> (r: bool)
    ensures
        r == (s@.len() == 0),
{
    s.unicode_len() == 0
}

fn holds(list: &Vec<i32>, x: i32) -> (r: bool)
    ensures
        r == list@.contains(x),
{
    let mut i: usize = 0;
    while i < list.len()
        invariant
            0 <= i <= list.len(),
            forall|j: int| 0 <= j < i ==> list@[j] != x,
        decreases list.len() - i,
    {
        if list[i] == x {
            return true;
        }
        i += 1;
    }
    false
}

fn judge_rejection(r: &Received) -> (f: Option<String>)
    ensures
        option_view(f) == rejection_fault(*r),
{
    if !matches!(r.reply_type, ReplyType::HandshakeResponse) {
        return Some(cat2("expected HandshakeResponse, got ", r.reply_type.name()));
    }
    match &r.handshake {
        Err(e) => Some(cat2("response not valid JSON: ", e.as_str())),
        Ok(h) => {
            if h.success {
                return Some("accepted unknown protocol version 99".to_owned());
            }
            let silent = match &h.error {
                None => true,
                Some(e) => is_empty(e.as_str()),
            };
            if silent {
                Some("rejection must carry an error message".to_owned())
            } else {
                None
            }
        },
    }
}

fn judge_opening(r: &Received) -> (f: Option<String>)
    ensures
        option_view(f) == opening_fault(*r),
{
    if !matches!(r.reply_type, ReplyType::HandshakeResponse) {
        return Some(cat2("expected HandshakeResponse, got ", r.reply_type.name()));
    }
    match &r.handshake {
        Err(e) => Some(cat2("handshake decode: ", e.as_str())),
        Ok(h) => {
            if !h.success {
                let shown = show_option(&h.error);
                Some(cat2("handshake rejected: ", shown.as_str()))
            } else {
                None
            }
        },
    }
}

fn judge_decision(r: &Received) -> (f: Option<String>)
    ensures
        option_view(f) == decision_fault(*r),
{
    if !matches!(r.reply_type, ReplyType::AgentResponse) {
        return Some(cat2("expected AgentResponse (0x20), got ", r.reply_type.name()));
    }
    match &r.response {
        Err(e) => Some(cat2("response does not deserialize as AgentResponse: ", e.as_str())),
        Ok(a) => {
            if a.version != PROTOCOL_VERSION_2 {
                let mut m = "version=".to_owned();
                text::push_decimal(&mut m, a.version as u64);
                m.append(", want 2");
                Some(m)
            } else {
                None
            }
        },
    }
}

fn echoes(o: &Option<String>, want: &str) -> (r: bool)
    ensures
        r == (option_view(*o) == Some(want@)),
{
    match o {
        None => false,
        Some(s) => text::same(s.as_str(), want),
    }
}

fn judge_echo(r: &Received, want: &str) -> (f: Option<String>)
    ensures
        option_view(f) == echo_fault(*r, want@),
{
    match &r.response {
        Err(e) => Some(cat2("response decode: ", e.as_str())),
        Ok(a) => {
            if echoes(&a.correlation_id, want) {
                None
            } else {
                let mut m = "audit.custom.correlation_id = ".to_owned();
                m.append(show_option(&a.correlation_id).as_str());
                m.append(", want ");
                m.append(text::quote_debug(want).as_str());
                m.append(
                    " (the proxy routes responses by it; without it every in-flight request on the connection stalls)",
                );
                Some(m)
            }
        },
    }
}

fn judge_pong(r: &Received) -> (f: Option<String>)
    ensures
        option_view(f) == pong_fault(*r),
{
    if !matches!(r.reply_type, ReplyType::Pong) {
        return Some(cat2("expected Pong (0x42), got ", r.reply_type.name()));
    }
    if !same_bytes(&r.payload, &PING_PAYLOAD) {
        return Some("pong must echo the ping payload".to_owned());
    }
    None
}

fn same_bytes(a: &Vec<u8>, b: &[u8; 10]) -> (r: bool)
    ensures
        r == (a@ == b@),
{
    if a.len() != 10 {
        return false;
    }
    let mut i: usize = 0;
    while i < 10
        invariant
            a@.len() == 10,
            0 <= i <= 10,
            forall|j: int| 0 <= j < i ==> a@[j] == b@[j],
        decreases 10 - i,
    {
        if a[i] != b[i] {
            return false;
        }
        i += 1;
    }
    assert(a@ =~= b@);
    true
}

// ---------------------------------------------------------------------------
// Running a check
// ---------------------------------------------------------------------------

/// What a reply means for the check.
pub ghost enum Judgement {
    /// Go on with the script.
    Continue,
    /// The check is passed.
    Pass,
    /// The check has failed, for this reason.
    Fail(Seq<char>),
}

/// A fault ends the check; without one the script goes on.
pub open spec fn unless_fault(f: Option<Seq<char>>) -> Judgement {
    match f {
        Some(m) => Judgement::Fail(m),
        None => Judgement::Continue,
    }
}

/// What the reply to step `at` of a check means.
pub open spec fn judge(c: Check, at: nat, r: Received) -> Judgement {
    match c {
        Check::Handshake => unless_fault(handshake_fault(r)),
        Check::VersionRejection => unless_fault(rejection_fault(r)),
        _ => if at <= 1 {
            unless_fault(opening_fault(r))
        } else {
            match c {
                Check::DecisionShape => unless_fault(decision_fault(r)),
                Check::CorrelationRouting => unless_fault(
                    echo_fault(
                        r,
                        if at <= 3 {
                            probe_id(Probe::First)
                        } else {
                            probe_id(Probe::Second)
                        },
                    ),
                ),
                Check::PingPong => unless_fault(pong_fault(r)),
                _ => if answers_after_garbage(r) {
                    Judgement::Pass
                } else if at <= 4 {
                    Judgement::Continue
                } else {
                    Judgement::Fail("agent stopped answering after a malformed payload"@)
                },
            }
        },
    }
}

enum Outcome {
    Continue,
    Pass,
    Fail(String),
}

spec fn outcome_view(o: Outcome) -> Judgement {
    match o {
        Outcome::Continue => Judgement::Continue,
        Outcome::Pass => Judgement::Pass,
        Outcome::Fail(m) => Judgement::Fail(m@),
    }
}

fn outcome_of(f: Option<String>) -> (o: Outcome)
    ensures
        outcome_view(o) == unless_fault(option_view(f)),
{
    match f {
        Some(m) => Outcome::Fail(m),
        None => Outcome::Continue,
    }
}

fn judged(c: Check, at: usize, r: &Received) -> (o: Outcome)
    ensures
        outcome_view(o) == judge(c, at as nat, *r),
{
    match c {
        Check::Handshake => outcome_of(judge_handshake(r)),
        Check::VersionRejection => outcome_of(judge_rejection(r)),
        _ => {
            if at <= 1 {
                return outcome_of(judge_opening(r));
            }
            match c {
                Check::DecisionShape => outcome_of(judge_decision(r)),
                Check::CorrelationRouting => {
                    let want = if at <= 3 {
                        Probe::First.correlation_id()
                    } else {
                        Probe::Second.correlation_id()
                    };
                    outcome_of(judge_echo(r, want))
                },
                Check::PingPong => outcome_of(judge_pong(r)),
                _ => {
                    let answered = match (&r.reply_type, &r.response) {
                        (ReplyType::AgentResponse, Ok(a)) => echoes(
                            &a.correlation_id,
                            Probe::AfterGarbage.correlation_id(),
                        ),
                        _ => false,
                    };
                    if answered {
                        Outcome::Pass
                    } else if at <= 4 {
                        Outcome::Continue
                    } else {
                        Outcome::Fail(
                            "agent stopped answering after a malformed payload".to_owned(),
                        )
                    }
                },
            }
        },
    }
}

/// What came of an action.
#[derive(Debug)]
pub enum Event {
    /// The connection stands.
    Connected,
    /// The frame is sent.
    Sent,
    /// A frame came.
    Frame(Received),
    /// The socket failed.
    Failed(SocketFault),
}

/// What to do next.
#[derive(Debug)]
pub enum Action {
    /// Send a frame.
    Send(Outgoing),
    /// Wait for a frame.
    Receive,
    /// The check is over.
    Finish(Result<(), String>),
}

/// An action as plain values.
pub ghost enum Todo {
    Send(Outgoing),
    Receive,
    Finish(Result<(), Seq<char>>),
}

impl View for Action {
    type V = Todo;

    open spec fn view(&self) -> Todo {
        match self {
            Action::Send(o) => Todo::Send(*o),
            Action::Receive => Todo::Receive,
            Action::Finish(Ok(_)) => Todo::Finish(Ok(())),
            Action::Finish(Err(e)) => Todo::Finish(Err(e@)),
        }
    }
}

/// The action for step `at` of a script; behind its end the check is passed.
pub open spec fn action_at(c: Check, at: nat) -> Todo {
    if at < script(c).len() {
        match script(c)[at as int] {
            Op::Send(o) => Todo::Send(o),
            Op::Receive => Todo::Receive,
        }
    } else {
        Todo::Finish(Ok(()))
    }
}

/// The step that a check is at after an event, and what to do next.
pub open spec fn after(c: Check, at: nat, e: Event) -> (nat, Todo) {
    match e {
        Event::Failed(f) => (at, Todo::Finish(Err(socket_text(f)))),
        Event::Connected => (at, action_at(c, at)),
        Event::Sent => (at + 1, action_at(c, at + 1)),
        Event::Frame(r) => match judge(c, at, r) {
            Judgement::Fail(m) => (at, Todo::Finish(Err(m))),
            Judgement::Pass => (at, Todo::Finish(Ok(()))),
            Judgement::Continue => (at + 1, action_at(c, at + 1)),
        },
    }
}

/// A check in progress, on a connection of its own.
#[derive(Debug)]
pub struct Session {
    check: Check,
    at: usize,
}

impl Session {
    /// The check.
    pub closed spec fn check(&self) -> Check {
        self.check
    }

    /// The step of its script that it is at.
    pub closed spec fn at(&self) -> nat {
        self.at as nat
    }

    /// A check whose connection is still to be made.
    pub fn new(check: Check) -> (r: Session)
        ensures
            r.check() == check,
            r.at() == 0,
    {
        Session { check, at: 0 }
    }

    fn action(&self) -> (r: Action)
        ensures
            r@ == action_at(self.check(), self.at()),
    {
        let ops = script_of(self.check);
        if self.at < ops.len() {
            match ops[self.at] {
                Op::Send(o) => Action::Send(o),
                Op::Receive => Action::Receive,
            }
        } else {
            Action::Finish(Ok(()))
        }
    }

    /// What to do after an event. A check takes no event after its end.
    pub fn next(&mut self, event: &Event) -> (r: Action)
        requires
            old(self).at() < script(old(self).check()).len(),
        ensures
            final(self).check() == old(self).check(),
            (final(self).at(), r@) == after(old(self).check(), old(self).at(), *event),
    {
        match event {
            Event::Failed(f) => Action::Finish(Err(socket_message(f))),
            Event::Connected => self.action(),
            Event::Sent => {
                self.at = self.at + 1;
                self.action()
            },
            Event::Frame(r) => {
                match judged(self.check, self.at, r) {
                    Outcome::Fail(m) => Action::Finish(Err(m)),
                    Outcome::Pass => Action::Finish(Ok(())),
                    Outcome::Continue => {
                        self.at = self.at + 1;
                        self.action()
                    },
                }
            },
        }
    }
}

/// How a check ends that is at step `at` and sees these events, if it ends.
pub open spec fn run(c: Check, at: nat, events: Seq<Event>) -> Option<Result<(), Seq<char>>>
    decreases events.len(),
{
    if events.len() == 0 {
        None
    } else {
        let (next, todo) = after(c, at, events[0]);
        match todo {
            Todo::Finish(v) => Some(v),
            _ => run(c, next, events.skip(1)),
        }
    }
}

/// An agent that cannot be reached fails every check, with the words for the
/// socket fault.
pub proof fn unreachable_agent_fails(c: Check, f: SocketFault)
    ensures
        run(c, 0, seq![Event::Failed(f)]) == Some(Result::<(), Seq<char>>::Err(socket_text(f))),
{
}

/// Every check ends: each frame sent or received brings it one step on, and the
/// script is finite.
pub proof fn every_check_ends(c: Check, at: nat, events: Seq<Event>)
    requires
        forall|i: int| 0 <= i < events.len() ==> !((#[trigger] events[i]) is Connected),
        events.len() > 0,
        at + events.len() >= script(c).len(),
    ensures
        run(c, at, events) is Some,
    decreases events.len(),
{
    assert(!(events[0] is Connected));
    let (next, todo) = after(c, at, events[0]);
    if !(todo is Finish) {
        assert(next == at + 1);
        let rest = events.skip(1);
        assert forall|i: int| 0 <= i < rest.len() implies !((#[trigger] rest[i]) is Connected) by {
            assert(rest[i] == events[i + 1]);
        }
        every_check_ends(c, next, rest);
    }
}

proof fn lemma_run_step(c: Check, at: nat, events: Seq<Event>, e: Event, rest: Seq<Event>)
    requires
        events == seq![e] + rest,
    ensures
        run(c, at, events) == (match after(c, at, e) {
            (_, Todo::Finish(v)) => Some(v),
            (next, _) => run(c, next, rest),
        }),
{
    assert(events[0] == e);
    assert(events.skip(1) =~= rest);
}

/// The handshake check passes on exactly the well-formed replies.
pub proof fn handshake_check_passes_iff(r: Received)
    ensures
        run(Check::Handshake, 0, seq![Event::Sent, Event::Frame(r)]) == Some(
            Result::<(), Seq<char>>::Ok(()),
        ) <==> r.reply_type is HandshakeResponse && (r.handshake matches Ok(h) && h.success
            && h.protocol_version == PROTOCOL_VERSION_2 && h.agent_id@.len() > 0 && h.name@.len()
            > 0 && h.version@.len() > 0 && h.supported_events@.contains(1)),
{
    let e = seq![Event::Sent, Event::Frame(r)];
    assert(e =~= seq![Event::Sent] + seq![Event::Frame(r)]);
    lemma_run_step(Check::Handshake, 0, e, Event::Sent, seq![Event::Frame(r)]);
    assert(seq![Event::Frame(r)] =~= seq![Event::Frame(r)] + Seq::empty());
    lemma_run_step(Check::Handshake, 1, seq![Event::Frame(r)], Event::Frame(r), Seq::empty());
}

/// The version check passes on exactly the refusals that give a reason.
pub proof fn version_check_passes_iff(r: Received)
    ensures
        run(Check::VersionRejection, 0, seq![Event::Sent, Event::Frame(r)]) == Some(
            Result::<(), Seq<char>>::Ok(()),
        ) <==> r.reply_type is HandshakeResponse && (r.handshake matches Ok(h) && !h.success
            && h.error is Some && h.error->0@.len() > 0),
{
    let e = seq![Event::Sent, Event::Frame(r)];
    assert(e =~= seq![Event::Sent] + seq![Event::Frame(r)]);
    lemma_run_step(Check::VersionRejection, 0, e, Event::Sent, seq![Event::Frame(r)]);
    assert(seq![Event::Frame(r)] =~= seq![Event::Frame(r)] + Seq::empty());
    lemma_run_step(Check::VersionRejection, 1, seq![Event::Frame(r)], Event::Frame(r), Seq::empty());
}

/// The correlation check passes on exactly the agents that accept the handshake and
/// echo both correlation ids.
pub proof fn correlation_check_passes_iff(h: Received, a: Received, b: Received)
    ensures
        run(
            Check::CorrelationRouting,
            0,
            seq![
                Event::Sent,
                Event::Frame(h),
                Event::Sent,
                Event::Frame(a),
                Event::Sent,
                Event::Frame(b),
            ],
        ) == Some(Result::<(), Seq<char>>::Ok(())) <==> opening_fault(h) is None && echo_fault(
            a,
            probe_id(Probe::First),
        ) is None && echo_fault(b, probe_id(Probe::Second)) is None,
{
    let c = Check::CorrelationRouting;
    let e6 = Seq::<Event>::empty();
    let e5 = seq![Event::Frame(b)];
    let e4 = seq![Event::Sent, Event::Frame(b)];
    let e3 = seq![Event::Frame(a), Event::Sent, Event::Frame(b)];
    let e2 = seq![Event::Sent, Event::Frame(a), Event::Sent, Event::Frame(b)];
    let e1 = seq![Event::Frame(h), Event::Sent, Event::Frame(a), Event::Sent, Event::Frame(b)];
    let e0 = seq![
        Event::Sent,
        Event::Frame(h),
        Event::Sent,
        Event::Frame(a),
        Event::Sent,
        Event::Frame(b),
    ];
    assert(e0 =~= seq![Event::Sent] + e1);
    assert(e1 =~= seq![Event::Frame(h)] + e2);
    assert(e2 =~= seq![Event::Sent] + e3);
    assert(e3 =~= seq![Event::Frame(a)] + e4);
    assert(e4 =~= seq![Event::Sent] + e5);
    assert(e5 =~= seq![Event::Frame(b)] + e6);
    lemma_run_step(c, 0, e0, Event::Sent, e1);
    lemma_run_step(c, 1, e1, Event::Frame(h), e2);
    lemma_run_step(c, 2, e2, Event::Sent, e3);
    lemma_run_step(c, 3, e3, Event::Frame(a), e4);
    lemma_run_step(c, 4, e4, Event::Sent, e5);
    lemma_run_step(c, 5, e5, Event::Frame(b), e6);
}

/// Behind a malformed payload, an agent passes that answers the next request in one
/// of its next two frames.
pub proof fn malformed_check_passes_iff(h: Received, a: Received, b: Received)
    ensures
        run(
            Check::MalformedPayload,
            0,
            seq![
                Event::Sent,
                Event::Frame(h),
                Event::Sent,
                Event::Sent,
                Event::Frame(a),
                Event::Frame(b),
            ],
        ) == Some(Result::<(), Seq<char>>::Ok(())) <==> opening_fault(h) is None && (
        answers_after_garbage(a) || answers_after_garbage(b)),
{
    let c = Check::MalformedPayload;
    let e6 = Seq::<Event>::empty();
    let e5 = seq![Event::Frame(b)];
    let e4 = seq![Event::Frame(a), Event::Frame(b)];
    let e3 = seq![Event::Sent, Event::Frame(a), Event::Frame(b)];
    let e2 = seq![Event::Sent, Event::Sent, Event::Frame(a), Event::Frame(b)];
    let e1 = seq![Event::Frame(h), Event::Sent, Event::Sent, Event::Frame(a), Event::Frame(b)];
    let e0 = seq![
        Event::Sent,
        Event::Frame(h),
        Event::Sent,
        Event::Sent,
        Event::Frame(a),
        Event::Frame(b),
    ];
    assert(e0 =~= seq![Event::Sent] + e1);
    assert(e1 =~= seq![Event::Frame(h)] + e2);
    assert(e2 =~= seq![Event::Sent] + e3);
    assert(e3 =~= seq![Event::Sent] + e4);
    assert(e4 =~= seq![Event::Frame(a)] + e5);
    assert(e5 =~= seq![Event::Frame(b)] + e6);
    lemma_run_step(c, 0, e0, Event::Sent, e1);
    lemma_run_step(c, 1, e1, Event::Frame(h), e2);
    lemma_run_step(c, 2, e2, Event::Sent, e3);
    lemma_run_step(c, 3, e3, Event::Sent, e4);
    lemma_run_step(c, 4, e4, Event::Frame(a), e5);
    lemma_run_step(c, 5, e5, Event::Frame(b), e6);
}

// ---------------------------------------------------------------------------
// The report
// ---------------------------------------------------------------------------

/// Outcome of a single check.
#[derive(Debug)]
pub struct CheckResult {
    /// Stable check identifier.
    pub name: &'static str,
    /// What the check verifies.
    pub description: &'static str,
    /// Whether the agent passed.
    pub passed: bool,
    /// Failure detail (empty when passed).
    pub detail: String,
}

/// A check result as plain values.
pub ghost struct Finding {
    pub name: Seq<char>,
    pub description: Seq<char>,
    pub passed: bool,
    pub detail: Seq<char>,
}

impl DeepView for CheckResult {
    type V = Finding;

    open spec fn deep_view(&self) -> Finding {
        Finding {
            name: self.name@,
            description: self.description@,
            passed: self.passed,
            detail: self.detail@,
        }
    }
}

/// The finding of a check that ended so.
pub open spec fn finding(c: Check, v: Result<(), Seq<char>>) -> Finding {
    Finding {
        name: check_name(c),
        description: check_description(c),
        passed: v is Ok,
        detail: match v {
            Ok(_) => Seq::empty(),
            Err(m) => m,
        },
    }
}

/// The view of how a check ended.
pub open spec fn ended(v: Result<(), String>) -> Result<(), Seq<char>> {
    match v {
        Ok(_) => Ok(()),
        Err(m) => Err(m@),
    }
}

/// The result of a check that ended so.
pub fn result(check: Check, outcome: Result<(), String>) -> (r: CheckResult)
    ensures
        r.deep_view() == finding(check, ended(outcome)),
{
    match outcome {
        Ok(_) => {
            let detail = String::new();
            assert(detail@ =~= Seq::empty());
            CheckResult {
                name: check.name(),
                description: check.description(),
                passed: true,
                detail,
            }
        },
        Err(detail) => CheckResult {
            name: check.name(),
            description: check.description(),
            passed: false,
            detail,
        },
    }
}

/// Full conformance report.
#[derive(Debug)]
pub struct ConformanceReport {
    /// Suite version (see [`CONFORMANCE_VERSION`]).
    pub conformance_version: u32,
    /// Socket the agent was probed on.
    pub socket: String,
    /// Individual check outcomes.
    pub checks: Vec<CheckResult>,
    /// True when every check passed.
    pub passed: bool,
}

/// The lines of the report for one check.
pub open spec fn finding_text(f: Finding) -> Seq<char> {
    let line = (if f.passed {
        "  [PASS] "@
    } else {
        "  [FAIL] "@
    }) + f.name + " — "@ + f.description + "\n"@;
    if f.passed {
        line
    } else {
        line + "         "@ + f.detail + "\n"@
    }
}

/// The lines of the report up to the result.
pub open spec fn findings_text(head: Seq<char>, list: Seq<Finding>) -> Seq<char>
    decreases list.len(),
{
    if list.len() == 0 {
        head
    } else {
        findings_text(head, list.drop_last()) + finding_text(list.last())
    }
}

/// The report in words.
pub open spec fn report_text(
    version: u32,
    socket: Seq<char>,
    list: Seq<Finding>,
    passed: bool,
) -> Seq<char> {
    let head = "Zentinel agent conformance v"@ + text::digits(version as nat) + " — "@ + socket
        + "\n"@;
    let body = findings_text(head, list);
    if passed {
        body + "Result: PASS — agent passes zentinel-conformance v"@ + text::digits(
            version as nat,
        ) + "\n"@
    } else {
        body + "Result: FAIL\n"@
    }
}

impl ConformanceReport {
    /// The report of a run, which passes when every check did.
    pub fn new(socket: &str, checks: Vec<CheckResult>) -> (r: ConformanceReport)
        ensures
            r.conformance_version == CONFORMANCE_VERSION,
            r.socket@ == socket@,
            r.checks == checks,
            r.passed == (forall|i: int| 0 <= i < checks@.len() ==> (#[trigger] checks@[i]).passed),
    {
        let mut passed = true;
        let mut i: usize = 0;
        while i < checks.len()
            invariant
                0 <= i <= checks.len(),
                passed == (forall|j: int| 0 <= j < i ==> (#[trigger] checks@[j]).passed),
            decreases checks.len() - i,
        {
            if !checks[i].passed {
                passed = false;
            }
            i += 1;
        }
        ConformanceReport {
            conformance_version: CONFORMANCE_VERSION,
            socket: socket.to_owned(),
            checks,
            passed,
        }
    }

    /// Renders a human-readable report.
    pub fn render_text(&self) -> (r: String)
        ensures
            r@ == report_text(
                self.conformance_version,
                self.socket@,
                self.checks.deep_view(),
                self.passed,
            ),
    {
        let mut out = "Zentinel agent conformance v".to_owned();
        text::push_decimal(&mut out, self.conformance_version as u64);
        out.append(" — ");
        out.append(self.socket.as_str());
        out.append("\n");
        let ghost head = out@;
        let ghost all = self.checks.deep_view();
        assert(all.take(0) =~= Seq::empty());
        let mut i: usize = 0;
        while i < self.checks.len()
            invariant
                0 <= i <= self.checks.len(),
                all == self.checks.deep_view(),
                out@ == findings_text(head, all.take(i as int)),
            decreases self.checks.len() - i,
        {
            assert(all.take(i + 1).drop_last() =~= all.take(i as int));
            assert(all.take(i + 1).last() == self.checks[i as int].deep_view());
            let shown = show_finding(&self.checks[i]);
            out.append(shown.as_str());
            i += 1;
        }
        assert(all.take(all.len() as int) =~= all);
        if self.passed {
            out.append("Result: PASS — agent passes zentinel-conformance v");
            text::push_decimal(&mut out, self.conformance_version as u64);
            out.append("\n");
        } else {
            out.append("Result: FAIL\n");
        }
        out
    }
}

fn show_finding(c: &CheckResult) -> (r: String)
    ensures
        r@ == finding_text(c.deep_view()),
{
    let mut out = if c.passed {
        "  [PASS] ".to_owned()
    } else {
        "  [FAIL] ".to_owned()
    };
    out.append(c.name);
    out.append(" — ");
    out.append(c.description);
    out.append("\n");
    if !c.passed {
        out.append("         ");
        out.append(c.detail.as_str());
        out.append("\n");
    }
    out
}

// ---------------------------------------------------------------------------
// Laws
// ---------------------------------------------------------------------------

/// The agent accepts the handshake.
pub open spec fn welcomes(h: Received) -> bool {
    h.reply_type is HandshakeResponse && h.handshake is Ok && h.handshake->Ok_0.success
}

/// The response carries the correlation id.
pub open spec fn carries_id(r: Received, id: Seq<char>) -> bool {
    r.response is Ok && r.response->Ok_0.correlation_id is Some
        && r.response->Ok_0.correlation_id->0@ == id
}

/// A run of a check that opens with a handshake and asks once.
spec fn asked_once(h: Received, a: Received) -> Seq<Event> {
    seq![Event::Sent, Event::Frame(h), Event::Sent, Event::Frame(a)]
}

proof fn lemma_asked_once(c: Check, h: Received, a: Received)
    requires
        script(c).len() == 4,
        script(c)[1] == Op::Receive,
        c is DecisionShape || c is PingPong,
    ensures
        run(c, 0, asked_once(h, a)) == Some(Result::<(), Seq<char>>::Ok(())) <==> judge(c, 1, h)
            is Continue && judge(c, 3, a) is Continue,
{
    let e4 = Seq::<Event>::empty();
    let e3 = seq![Event::Frame(a)];
    let e2 = seq![Event::Sent, Event::Frame(a)];
    let e1 = seq![Event::Frame(h), Event::Sent, Event::Frame(a)];
    let e0 = asked_once(h, a);
    assert(e0 =~= seq![Event::Sent] + e1);
    assert(e1 =~= seq![Event::Frame(h)] + e2);
    assert(e2 =~= seq![Event::Sent] + e3);
    assert(e3 =~= seq![Event::Frame(a)] + e4);
    lemma_run_step(c, 0, e0, Event::Sent, e1);
    lemma_run_step(c, 1, e1, Event::Frame(h), e2);
    lemma_run_step(c, 2, e2, Event::Sent, e3);
    lemma_run_step(c, 3, e3, Event::Frame(a), e4);
}

/// The decision check passes on exactly the agents that accept the handshake and answer
/// with a response of the current version.
pub proof fn decision_check_passes_iff(h: Received, a: Received)
    ensures
        run(
            Check::DecisionShape,
            0,
            seq![Event::Sent, Event::Frame(h), Event::Sent, Event::Frame(a)],
        ) == Some(Result::<(), Seq<char>>::Ok(())) <==> welcomes(h) && a.reply_type is AgentResponse
            && a.response is Ok && a.response->Ok_0.version == 2,
{
    lemma_asked_once(Check::DecisionShape, h, a);
}

/// The ping check passes on exactly the agents that accept the handshake and answer the
/// ping with a pong of the same bytes, `{"seq":42}`.
pub proof fn ping_check_passes_iff(h: Received, a: Received)
    ensures
        run(
            Check::PingPong,
            0,
            seq![Event::Sent, Event::Frame(h), Event::Sent, Event::Frame(a)],
        ) == Some(Result::<(), Seq<char>>::Ok(())) <==> welcomes(h) && a.reply_type is Pong
            && a.payload@ == seq![
            0x7Bu8,
            0x22u8,
            0x73u8,
            0x65u8,
            0x71u8,
            0x22u8,
            0x3Au8,
            0x34u8,
            0x32u8,
            0x7Du8,
        ],
{
    lemma_asked_once(Check::PingPong, h, a);
    assert(PING_PAYLOAD@ =~= seq![
        0x7Bu8,
        0x22u8,
        0x73u8,
        0x65u8,
        0x71u8,
        0x22u8,
        0x3Au8,
        0x34u8,
        0x32u8,
        0x7Du8,
    ]);
}

/// What the checks on two requests ask of the replies, in full: a handshake that is
/// accepted, and the correlation id of the request that was sent.
pub proof fn replies_are_told_apart_by_request(h: Received, a: Received)
    ensures
        opening_fault(h) is None <==> welcomes(h),
        echo_fault(a, probe_id(Probe::First)) is None <==> carries_id(a, "conform-cid-1"@),
        echo_fault(a, probe_id(Probe::Second)) is None <==> carries_id(a, "conform-cid-2"@),
        answers_after_garbage(a) <==> a.reply_type is AgentResponse && carries_id(
            a,
            "conform-after-garbage"@,
        ),
        "conform-cid-1"@ != "conform-cid-2"@,
{
    reveal_strlit("conform-cid-1");
    reveal_strlit("conform-cid-2");
    assert("conform-cid-1"@[12] == '1' && "conform-cid-2"@[12] == '2');
}

/// What each check sends, in order: the current version in the handshake, but an unknown
/// one to see it refused, and then what the check is about. Every check starts by sending
/// and ends by reading.
pub proof fn checks_send_what_they_are_about(c: Check)
    ensures
        action_at(Check::VersionRejection, 0) == Todo::Send(Outgoing::Handshake(99)),
        !(c is VersionRejection) ==> action_at(c, 0) == Todo::Send(Outgoing::Handshake(2)),
        action_at(c, 1) is Receive,
        action_at(Check::Handshake, 2) == Todo::Finish(Ok(())),
        action_at(Check::VersionRejection, 2) == Todo::Finish(Ok(())),
        action_at(Check::DecisionShape, 2) == Todo::Send(Outgoing::Event(Probe::Decision)),
        action_at(Check::PingPong, 2) == Todo::Send(Outgoing::Ping),
        action_at(Check::CorrelationRouting, 2) == Todo::Send(Outgoing::Event(Probe::First)),
        action_at(Check::CorrelationRouting, 4) == Todo::Send(Outgoing::Event(Probe::Second)),
        action_at(Check::MalformedPayload, 2) == Todo::Send(Outgoing::Garbage),
        action_at(Check::MalformedPayload, 3) == Todo::Send(
            Outgoing::Event(Probe::AfterGarbage),
        ),
        script(c).last() == Op::Receive,
{
}

/// A failure of the socket ends a check at any step, in words for that failure.
pub proof fn socket_failure_ends_a_check(c: Check, at: nat, e: String)
    ensures
        after(c, at, Event::Failed(SocketFault::ConnectTimedOut)).1 == Todo::Finish(
            Err("connect timed out"@),
        ),
        after(c, at, Event::Failed(SocketFault::ConnectFailed(e))).1 == Todo::Finish(
            Err("connect failed: "@ + e@),
        ),
        after(c, at, Event::Failed(SocketFault::WriteTimedOut)).1 == Todo::Finish(
            Err("write timed out"@),
        ),
        after(c, at, Event::Failed(SocketFault::WriteFailed(e))).1 == Todo::Finish(
            Err("write failed: "@ + e@),
        ),
        after(c, at, Event::Failed(SocketFault::NoReply)).1 == Todo::Finish(
            Err("no reply within 5s"@),
        ),
        after(c, at, Event::Failed(SocketFault::ReadFailed(e))).1 == Todo::Finish(
            Err("read failed: "@ + e@),
        ),
{
}

/// A check that passed says so and nothing more; one that failed says why. The report
/// starts with the socket, has a line for each check in order, and ends with the result.
pub proof fn findings_in_words(c: Check, m: Seq<char>, head: Seq<char>, list: Seq<Finding>, f: Finding)
    ensures
        finding(c, Ok(())).passed,
        finding(c, Ok(())).detail.len() == 0,
        !finding(c, Err(m)).passed,
        finding(c, Err(m)).detail == m,
        finding(c, Err(m)).name == finding(c, Ok(())).name,
        findings_text(head, Seq::empty()) == head,
        f.passed ==> findings_text(head, list.push(f)) == findings_text(head, list) + ("  [PASS] "@
            + f.name + " — "@ + f.description + "\n"@),
        !f.passed ==> findings_text(head, list.push(f)) == findings_text(head, list) + ("  [FAIL] "@
            + f.name + " — "@ + f.description + "\n"@ + "         "@ + f.detail + "\n"@),
{
    assert(list.push(f).drop_last() =~= list);
}

/// The report says that the agent passes exactly if it does.
pub proof fn report_ends_with_the_result(version: u32, socket: Seq<char>, list: Seq<Finding>)
    ensures
        ({
            let head = "Zentinel agent conformance v"@ + text::digits(version as nat) + " — "@
                + socket + "\n"@;
            &&& report_text(version, socket, list, true) == findings_text(head, list)
                + "Result: PASS — agent passes zentinel-conformance v"@ + text::digits(
                version as nat,
            ) + "\n"@
            &&& report_text(version, socket, list, false) == findings_text(head, list)
                + "Result: FAIL\n"@
        }),
{
}

/// The suite runs every check once, the handshake first; no two share a name.
pub proof fn suite_runs_every_check_once(c: Check, d: Check)
    ensures
        suite().contains(c),
        suite().no_duplicates(),
        suite()[0] is Handshake,
        check_name(c) == check_name(d) ==> c == d,
{
    let s = suite();
    assert(s[0] is Handshake && s[1] is VersionRejection && s[2] is DecisionShape
        && s[3] is CorrelationRouting && s[4] is PingPong && s[5] is MalformedPayload);
    reveal_strlit("handshake");
    reveal_strlit("version_rejection");
    reveal_strlit("decision_shape");
    reveal_strlit("correlation_routing");
    reveal_strlit("ping_pong");
    reveal_strlit("malformed_payload");
    if check_name(c) == check_name(d) {
        assert(check_name(c)[0] == check_name(d)[0]);
    }
}

/// What a check says of a reply that it does not accept names what is wrong with it: the
/// first thing that is.
pub proof fn faults_in_words(r: Received, h: HandshakeReply, a: AgentReply, e: String, want: Seq<char>)
    ensures
        !(r.reply_type is HandshakeResponse) ==> handshake_fault(r) == Some(
            "expected HandshakeResponse (0x02), got "@ + reply_name(r.reply_type),
        ) && rejection_fault(r) == Some(
            "expected HandshakeResponse, got "@ + reply_name(r.reply_type),
        ),
        r.reply_type is HandshakeResponse && r.handshake == Result::<HandshakeReply, String>::Err(e)
            ==> handshake_fault(r) == Some("response not valid JSON: "@ + e@) && opening_fault(r)
            == Some("handshake decode: "@ + e@),
        r.reply_type is HandshakeResponse && r.handshake == Result::<HandshakeReply, String>::Ok(h)
            ==> {
            &&& h.success ==> rejection_fault(r) == Some("accepted unknown protocol version 99"@)
            &&& !h.success && (h.error is None || h.error->0@.len() == 0) ==> rejection_fault(r)
                == Some("rejection must carry an error message"@)
            &&& h.success && h.protocol_version != 2 ==> handshake_fault(r) == Some(
                "protocol_version="@ + text::digits(h.protocol_version as nat) + ", want 2"@,
            )
            &&& h.success && h.protocol_version == 2 && (h.agent_id@.len() == 0 || h.name@.len()
                == 0 || h.version@.len() == 0) ==> handshake_fault(r) == Some(
                "capabilities agent_id/name/version must be non-empty"@,
            )
        },
        !(r.reply_type is AgentResponse) ==> decision_fault(r) == Some(
            "expected AgentResponse (0x20), got "@ + reply_name(r.reply_type),
        ),
        r.reply_type is AgentResponse && r.response == Result::<AgentReply, String>::Ok(a)
            && a.version != 2 ==> decision_fault(r) == Some(
            "version="@ + text::digits(a.version as nat) + ", want 2"@,
        ),
        !(r.reply_type is Pong) ==> pong_fault(r) == Some(
            "expected Pong (0x42), got "@ + reply_name(r.reply_type),
        ),
        r.reply_type is Pong && r.payload@ != PING_PAYLOAD@ ==> pong_fault(r) == Some(
            "pong must echo the ping payload"@,
        ),
{
}

} // verus!
