//! Binary protocol between the proxy and its agents.
//!
//! ```text
//! +----------------+---------------+-------------------+
//! | Length (4 BE)  | Type (1 byte) | Payload (N bytes) |
//! +----------------+---------------+-------------------+
//! ```
//!
//! The length counts the type byte and the payload.

use crate::text;
use crate::wire;
use bytes::Bytes;
use vstd::prelude::*;
use vstd::slice::*;
use vstd::string::*;

verus! {

/// Maximum binary message size (10 MiB).
pub const MAX_BINARY_MESSAGE_SIZE: usize = 10 * 1024 * 1024;

// ---------------------------------------------------------------------------
// Shared byte buffers
// ---------------------------------------------------------------------------

/// `bytes::Bytes`: a cheaply cloneable, immutable buffer.
#[verifier::external_type_specification]
#[verifier::external_body]
pub struct ExBytes(bytes::Bytes);

/// The bytes that a buffer holds.
pub uninterp spec fn content(b: bytes::Bytes) -> Seq<u8>;

/// `Bytes::from(Vec<u8>)`: a buffer that holds the bytes of the vector.
#[verifier::external_body]
pub(crate) fn bytes_from_vec(v: Vec<u8>) -> (r: Bytes)
    ensures
        content(r) == v@,
{
    Bytes::from(v)
}

/// `Bytes::as_ref`: the bytes of the buffer as a slice.
#[verifier::external_body]
pub(crate) fn bytes_as_slice(b: &Bytes) -> (r: &[u8])
    ensures
        r@ == content(*b),
{
    b.as_ref()
}

/// `Bytes::slice`: a buffer that holds `b[lo..hi]`, without copying. It panics
/// when the range is out of bounds, which the precondition rules out.
#[verifier::external_body]
pub(crate) fn bytes_slice(b: &Bytes, lo: usize, hi: usize) -> (r: Bytes)
    requires
        lo <= hi <= content(*b).len(),
    ensures
        content(r) == content(*b).subrange(lo as int, hi as int),
{
    b.slice(lo..hi)
}

// ---------------------------------------------------------------------------
// Errors
// ---------------------------------------------------------------------------

/// Errors of the agent protocol.
#[derive(Debug, PartialEq, Eq)]
pub enum AgentProtocolError {
    /// The bytes are not a message.
    InvalidMessage(String),
    /// The connection is gone.
    ConnectionFailed(String),
    /// The message exceeds the size limit.
    MessageTooLarge {
        /// The declared size.
        size: usize,
        /// The limit.
        max: usize,
    },
}

/// What an [`AgentProtocolError`] says.
pub ghost enum ProtocolFault {
    InvalidMessage(Seq<char>),
    ConnectionFailed(Seq<char>),
    MessageTooLarge { size: nat, max: nat },
}

impl View for AgentProtocolError {
    type V = ProtocolFault;

    open spec fn view(&self) -> ProtocolFault {
        match self {
            AgentProtocolError::InvalidMessage(m) => ProtocolFault::InvalidMessage(m@),
            AgentProtocolError::ConnectionFailed(m) => ProtocolFault::ConnectionFailed(m@),
            AgentProtocolError::MessageTooLarge { size, max } => ProtocolFault::MessageTooLarge {
                size: *size as nat,
                max: *max as nat,
            },
        }
    }
}

// ---------------------------------------------------------------------------
// Message types
// ---------------------------------------------------------------------------

/// Binary message types.
#[derive(Debug, Clone, Copy, PartialEq, Eq, Structural)]
pub enum MessageType {
    /// Handshake request (proxy to agent).
    HandshakeRequest,
    /// Handshake response (agent to proxy).
    HandshakeResponse,
    /// Request headers event.
    RequestHeaders,
    /// Request body chunk (raw bytes).
    RequestBodyChunk,
    /// Response headers event.
    ResponseHeaders,
    /// Response body chunk (raw bytes).
    ResponseBodyChunk,
    /// Request complete event.
    RequestComplete,
    /// WebSocket frame event.
    WebSocketFrame,
    /// Agent response.
    AgentResponse,
    /// Ping.
    Ping,
    /// Pong.
    Pong,
    /// Cancel request.
    Cancel,
    /// Error.
    Error,
}

/// The code of a message type on the wire.
pub open spec fn type_code(t: MessageType) -> u8 {
    match t {
        MessageType::HandshakeRequest => 0x01,
        MessageType::HandshakeResponse => 0x02,
        MessageType::RequestHeaders => 0x10,
        MessageType::RequestBodyChunk => 0x11,
        MessageType::ResponseHeaders => 0x12,
        MessageType::ResponseBodyChunk => 0x13,
        MessageType::RequestComplete => 0x14,
        MessageType::WebSocketFrame => 0x15,
        MessageType::AgentResponse => 0x20,
        MessageType::Ping => 0x30,
        MessageType::Pong => 0x31,
        MessageType::Cancel => 0x40,
        MessageType::Error => 0xFF,
    }
}

/// The message for a code that no type has.
pub open spec fn unknown_type_text(code: u8) -> Seq<char> {
    "Unknown message type: 0x"@ + seq![
        text::hex_char((code / 16) as nat),
        text::hex_char((code % 16) as nat),
    ]
}

impl MessageType {
    /// The code on the wire.
    pub fn code(&self) -> (r: u8)
        ensures
            r == type_code(*self),
    {
        match self {
            MessageType::HandshakeRequest => 0x01,
            MessageType::HandshakeResponse => 0x02,
            MessageType::RequestHeaders => 0x10,
            MessageType::RequestBodyChunk => 0x11,
            MessageType::ResponseHeaders => 0x12,
            MessageType::ResponseBodyChunk => 0x13,
            MessageType::RequestComplete => 0x14,
            MessageType::WebSocketFrame => 0x15,
            MessageType::AgentResponse => 0x20,
            MessageType::Ping => 0x30,
            MessageType::Pong => 0x31,
            MessageType::Cancel => 0x40,
            MessageType::Error => 0xFF,
        }
    }

    /// The type with the given code.
    pub fn try_from(value: u8) -> (r: Result<MessageType, AgentProtocolError>)
        ensures
            (match r {
                Ok(t) => type_code(t) == value,
                Err(e) => (forall|t: MessageType| #[trigger] type_code(t) != value) && e@
                    == ProtocolFault::InvalidMessage(unknown_type_text(value)),
            }),
    {
        if value == 0x01 {
            Ok(MessageType::HandshakeRequest)
        } else if value == 0x02 {
            Ok(MessageType::HandshakeResponse)
        } else if value == 0x10 {
            Ok(MessageType::RequestHeaders)
        } else if value == 0x11 {
            Ok(MessageType::RequestBodyChunk)
        } else if value == 0x12 {
            Ok(MessageType::ResponseHeaders)
        } else if value == 0x13 {
            Ok(MessageType::ResponseBodyChunk)
        } else if value == 0x14 {
            Ok(MessageType::RequestComplete)
        } else if value == 0x15 {
            Ok(MessageType::WebSocketFrame)
        } else if value == 0x20 {
            Ok(MessageType::AgentResponse)
        } else if value == 0x30 {
            Ok(MessageType::Ping)
        } else if value == 0x31 {
            Ok(MessageType::Pong)
        } else if value == 0x40 {
            Ok(MessageType::Cancel)
        } else if value == 0xFF {
            Ok(MessageType::Error)
        } else {
            let mut m = "Unknown message type: 0x".to_owned();
            m.push(text::hex_digit(value / 16));
            m.push(text::hex_digit(value % 16));
            assert(m@ =~= unknown_type_text(value));
            Err(AgentProtocolError::InvalidMessage(m))
        }
    }
}

/// The code of a type names that type.
pub proof fn message_type_round_trip(a: MessageType, b: MessageType)
    ensures
        type_code(a) == type_code(b) ==> a == b,
{
}

// ---------------------------------------------------------------------------
// Frames
// ---------------------------------------------------------------------------

/// Binary frame with type and payload.
#[derive(Debug)]
pub struct BinaryFrame {
    /// Message type.
    pub msg_type: MessageType,
    /// Payload.
    pub payload: Bytes,
}

/// A frame on the wire. The length field holds the low 32 bits of the length.
pub open spec fn frame_bytes(t: MessageType, payload: Seq<u8>) -> Seq<u8> {
    wire::be32(((1 + payload.len()) % 0x1_0000_0000) as u32) + seq![type_code(t)] + payload
}

/// What the length field of a frame announces.
pub open spec fn announced(total: nat) -> Result<nat, ProtocolFault> {
    if total == 0 {
        Err(ProtocolFault::InvalidMessage("Empty message"@))
    } else if total > MAX_BINARY_MESSAGE_SIZE {
        Err(
            ProtocolFault::MessageTooLarge { size: total, max: MAX_BINARY_MESSAGE_SIZE as nat },
        )
    } else {
        Ok(total)
    }
}

/// Where a frame reader stands.
#[derive(Debug, Clone, Copy, PartialEq, Eq, Structural)]
pub enum FrameState {
    /// The length field comes next.
    Length,
    /// The type byte comes next.
    Type {
        /// Announced length of type and payload.
        total: usize,
    },
    /// The payload comes next.
    Payload {
        /// Type of the frame.
        msg_type: MessageType,
        /// Length of the payload.
        len: usize,
    },
}

/// What a frame reader does next.
#[derive(Debug)]
pub enum FrameStep {
    /// Read on in this state.
    Read(FrameState),
    /// The frame is complete.
    Done(BinaryFrame),
}

/// The number of bytes to read in a state.
pub open spec fn wanted_bytes(s: FrameState) -> nat {
    match s {
        FrameState::Length => 4,
        FrameState::Type { .. } => 1,
        FrameState::Payload { len, .. } => len as nat,
    }
}

/// What the bytes read in a state lead to: another state, or the payload of a
/// complete frame.
pub open spec fn frame_advance(s: FrameState, b: Seq<u8>) -> Result<
    (FrameState, Option<Seq<u8>>),
    ProtocolFault,
> {
    match s {
        FrameState::Length => match announced(wire::u32_at(b, 0) as nat) {
            Ok(total) => Ok((FrameState::Type { total: total as usize }, None)),
            Err(e) => Err(e),
        },
        FrameState::Type { total } => if exists|t: MessageType| #[trigger] type_code(t) == b[0] {
            Ok(
                (
                    FrameState::Payload {
                        msg_type: choose|t: MessageType| #[trigger] type_code(t) == b[0],
                        len: (total - 1) as usize,
                    },
                    None,
                ),
            )
        } else {
            Err(ProtocolFault::InvalidMessage(unknown_type_text(b[0])))
        },
        FrameState::Payload { .. } => Ok((s, Some(b))),
    }
}

impl FrameState {
    /// The number of bytes to read next.
    pub fn wanted(&self) -> (r: usize)
        ensures
            r == wanted_bytes(*self),
    {
        match self {
            FrameState::Length => 4,
            FrameState::Type { .. } => 1,
            FrameState::Payload { len, .. } => *len,
        }
    }

    /// Takes the bytes that were asked for.
    pub fn advance(self, bytes: Vec<u8>) -> (r: Result<FrameStep, AgentProtocolError>)
        requires
            bytes@.len() == wanted_bytes(self),
            self matches FrameState::Type { total } ==> total > 0,
        ensures
            (match r {
                Ok(FrameStep::Read(next)) => frame_advance(self, bytes@) == Result::<
                    (FrameState, Option<Seq<u8>>),
                    ProtocolFault,
                >::Ok((next, None)) && (next matches FrameState::Type { total } ==> total > 0),
                Ok(FrameStep::Done(frame)) => self matches FrameState::Payload { msg_type, .. }
                    && frame.msg_type == msg_type && content(frame.payload) == bytes@,
                Err(e) => frame_advance(self, bytes@) == Result::<
                    (FrameState, Option<Seq<u8>>),
                    ProtocolFault,
                >::Err(e@),
            }),
    {
        match self {
            FrameState::Length => {
                let total: usize = wire::read_u32(bytes.as_slice(), 0) as usize;
                if total == 0 {
                    return Err(AgentProtocolError::InvalidMessage("Empty message".to_owned()));
                }
                if total > MAX_BINARY_MESSAGE_SIZE {
                    return Err(
                        AgentProtocolError::MessageTooLarge {
                            size: total,
                            max: MAX_BINARY_MESSAGE_SIZE,
                        },
                    );
                }
                Ok(FrameStep::Read(FrameState::Type { total }))
            },
            FrameState::Type { total } => match MessageType::try_from(bytes[0]) {
                Ok(msg_type) => {
                    proof {
                        let c = choose|t: MessageType| #[trigger] type_code(t) == bytes@[0];
                        message_type_round_trip(c, msg_type);
                    }
                    Ok(FrameStep::Read(FrameState::Payload { msg_type, len: total - 1 }))
                },
                Err(e) => Err(e),
            },
            FrameState::Payload { msg_type, .. } => Ok(
                FrameStep::Done(BinaryFrame { msg_type, payload: bytes_from_vec(bytes) }),
            ),
        }
    }

    /// The error for a stream that ends in this state. Between two frames the
    /// peer has closed the connection; inside a frame the read error stands
    /// as it is.
    pub fn end_of_stream(&self) -> (r: Option<AgentProtocolError>)
        ensures
            (match r {
                Some(e) => *self is Length && e@ == ProtocolFault::ConnectionFailed(
                    "Connection closed"@,
                ),
                None => !(*self is Length),
            }),
    {
        match self {
            FrameState::Length => Some(
                AgentProtocolError::ConnectionFailed("Connection closed".to_owned()),
            ),
            _ => None,
        }
    }
}

impl BinaryFrame {
    /// Create a new binary frame.
    pub fn new(msg_type: MessageType, payload: Bytes) -> (r: BinaryFrame)
        ensures
            r.msg_type == msg_type,
            r.payload == payload,
    {
        BinaryFrame { msg_type, payload }
    }

    /// Encode frame to bytes.
    pub fn encode(&self) -> (r: Bytes)
        ensures
            content(r) == frame_bytes(self.msg_type, content(self.payload)),
    {
        let payload = bytes_as_slice(&self.payload);
        let mut buf: Vec<u8> = Vec::new();
        wire::put_u32(&mut buf, ((1 + payload.len() as u128) % 0x1_0000_0000) as u32);
        buf.push(self.msg_type.code());
        wire::put_all(&mut buf, payload);
        assert(buf@ =~= frame_bytes(self.msg_type, payload@));
        bytes_from_vec(buf)
    }
}

/// A frame within the size limit is read back as it was written: its length
/// field announces type and payload, and the bytes behind it are the type code
/// and the payload.
pub proof fn frame_round_trip(t: MessageType, payload: Seq<u8>)
    requires
        1 + payload.len() <= MAX_BINARY_MESSAGE_SIZE,
    ensures
        ({
            let b = frame_bytes(t, payload);
            let total = (1 + payload.len()) as usize;
            let after_length = FrameState::Type { total };
            let after_type = FrameState::Payload { msg_type: t, len: payload.len() as usize };
            &&& b.len() == 5 + payload.len()
            &&& frame_advance(FrameState::Length, b.take(4)) == Result::<
                (FrameState, Option<Seq<u8>>),
                ProtocolFault,
            >::Ok((after_length, None))
            &&& frame_advance(after_length, b.subrange(4, 5)) == Result::<
                (FrameState, Option<Seq<u8>>),
                ProtocolFault,
            >::Ok((after_type, None))
            &&& wanted_bytes(after_type) == payload.len()
            &&& b.skip(5) == payload
        }),
{
    let b = frame_bytes(t, payload);
    let n = ((1 + payload.len()) % 0x1_0000_0000) as u32;
    wire::lemma_be32(n);
    assert(b.take(4) =~= wire::be32(n));
    assert(b.subrange(4, 5)[0] == type_code(t));
    let c = choose|u: MessageType| #[trigger] type_code(u) == type_code(t);
    assert(type_code(t) == type_code(t));
    message_type_round_trip(c, t);
    assert(b.skip(5) =~= payload);
}

/// A frame beyond the size limit is refused by the reader, as long as its
/// length fits the length field.
pub proof fn oversized_frame_is_refused(t: MessageType, payload: Seq<u8>)
    requires
        MAX_BINARY_MESSAGE_SIZE < 1 + payload.len() < 0x1_0000_0000,
    ensures
        frame_advance(FrameState::Length, frame_bytes(t, payload).take(4)) == Result::<
            (FrameState, Option<Seq<u8>>),
            ProtocolFault,
        >::Err(
            ProtocolFault::MessageTooLarge {
                size: 1 + payload.len(),
                max: MAX_BINARY_MESSAGE_SIZE as nat,
            },
        ),
{
    let n = ((1 + payload.len()) % 0x1_0000_0000) as u32;
    wire::lemma_be32(n);
    assert(frame_bytes(t, payload).take(4) =~= wire::be32(n));
}

/// Each type has its code, and no other byte is a code.
pub proof fn codes_on_the_wire(code: u8)
    ensures
        type_code(MessageType::HandshakeRequest) == 0x01,
        type_code(MessageType::HandshakeResponse) == 0x02,
        type_code(MessageType::RequestHeaders) == 0x10,
        type_code(MessageType::RequestBodyChunk) == 0x11,
        type_code(MessageType::ResponseHeaders) == 0x12,
        type_code(MessageType::ResponseBodyChunk) == 0x13,
        type_code(MessageType::RequestComplete) == 0x14,
        type_code(MessageType::WebSocketFrame) == 0x15,
        type_code(MessageType::AgentResponse) == 0x20,
        type_code(MessageType::Ping) == 0x30,
        type_code(MessageType::Pong) == 0x31,
        type_code(MessageType::Cancel) == 0x40,
        type_code(MessageType::Error) == 0xFF,
        (exists|t: MessageType| #[trigger] type_code(t) == code) ==> code == 0x01 || code == 0x02 || (
        0x10 <= code <= 0x15) || code == 0x20 || code == 0x30 || code == 0x31 || code == 0x40
            || code == 0xFF,
{
}

/// A frame opens with its length, most significant byte first, which counts the type and
/// the payload; the type follows, and then the payload.
pub proof fn frame_layout(t: MessageType, payload: Seq<u8>)
    requires
        1 + payload.len() < 0x1_0000_0000,
    ensures
        ({
            let b = frame_bytes(t, payload);
            &&& b.len() == 5 + payload.len()
            &&& b[0] * 0x100_0000 + b[1] * 0x1_0000 + b[2] * 0x100 + b[3] == 1 + payload.len()
            &&& b[4] == type_code(t)
            &&& b.skip(5) == payload
        }),
{
    let b = frame_bytes(t, payload);
    let n = ((1 + payload.len()) % 0x1_0000_0000) as u32;
    wire::lemma_be32(n);
    wire::first_octet_counts_most(b[0], b[1], b[2], b[3]);
    assert(b.take(4) =~= wire::be32(n));
    assert(b[0] == wire::be32(n)[0] && b[1] == wire::be32(n)[1] && b[2] == wire::be32(n)[2] && b[3]
        == wire::be32(n)[3]);
    assert(b.skip(5) =~= payload);
}

/// A frame is announced exactly if its length is not zero and at most ten mebibytes; then
/// the type is read, and of the announced bytes all but one are the payload.
pub proof fn frame_limits(b: Seq<u8>, total: usize, t: MessageType)
    requires
        b.len() >= 4,
    ensures
        ({
            let n = b[0] * 0x100_0000 + b[1] * 0x1_0000 + b[2] * 0x100 + b[3];
            &&& frame_advance(FrameState::Length, b) is Ok <==> 1 <= n <= 10485760
            &&& 1 <= n <= 10485760 ==> frame_advance(FrameState::Length, b) == Result::<
                (FrameState, Option<Seq<u8>>),
                ProtocolFault,
            >::Ok((FrameState::Type { total: n as usize }, None))
        }),
        b[0] == type_code(t) && total > 0 ==> frame_advance(FrameState::Type { total }, b)
            == Result::<(FrameState, Option<Seq<u8>>), ProtocolFault>::Ok(
            (FrameState::Payload { msg_type: t, len: (total - 1) as usize }, None),
        ),
        wanted_bytes(FrameState::Length) == 4,
        wanted_bytes(FrameState::Type { total }) == 1,
{
    wire::first_octet_counts_most(b[0], b[1], b[2], b[3]);
    if b[0] == type_code(t) {
        let c = choose|u: MessageType| #[trigger] type_code(u) == b[0];
        message_type_round_trip(c, t);
    }
}

} // verus!
