//! HAProxy PROXY protocol (v1 text, v2 binary) header codec.
//!
//! The PROXY protocol prepends a small header to a proxied connection so that
//! the receiver learns the real client endpoint. This module encodes and
//! decodes the header bytes; it performs no I/O.

use crate::addr;
use crate::addr::{IpAddr, SocketAddr};
use crate::text;
use crate::wire;
use vstd::prelude::*;
use vstd::slice::*;
use vstd::string::*;
use vstd::utf8::*;

verus! {

/// The 12-byte v2 signature block (`\r\n\r\n\0\r\nQUIT\n`).
pub const V2_SIGNATURE: [u8; 12] = [
    0x0D, 0x0A, 0x0D, 0x0A, 0x00, 0x0D, 0x0A, 0x51, 0x55, 0x49, 0x54, 0x0A,
];

/// Fixed v2 header size: signature (12), version and command (1), family and
/// transport (1), address-block length (2).
pub const V2_HEADER_LEN: usize = 16;

/// Maximum length of a v1 header line, with the trailing `\r\n`.
pub const V1_MAX_LEN: usize = 107;

/// The ASCII text `PROXY ` that starts every v1 header.
pub const V1_PREFIX: [u8; 6] = [0x50, 0x52, 0x4F, 0x58, 0x59, 0x20];

/// Bytes of an IPv4 address block: two addresses, two ports.
pub const INET4_LEN: usize = 12;

/// Bytes of an IPv6 address block: two addresses, two ports.
pub const INET6_LEN: usize = 36;

/// Transport protocol carried by a proxied connection.
#[derive(Debug, Clone, Copy, PartialEq, Eq, Structural, Hash)]
pub enum Transport {
    /// Connection-oriented (TCP).
    Stream,
    /// Datagram (UDP).
    Dgram,
}

/// A decoded PROXY protocol header.
#[derive(Debug, Clone, Copy, PartialEq, Eq, Structural, Hash)]
pub enum ProxyHeader {
    /// No client endpoint conveyed: use the real socket peer address.
    Local,
    /// Real source and destination endpoints of a proxied connection.
    Proxy {
        /// TCP (`Stream`) or UDP (`Dgram`).
        transport: Transport,
        /// Original client endpoint.
        source: SocketAddr,
        /// Endpoint the client originally connected to.
        destination: SocketAddr,
    },
}

/// Errors produced while decoding or encoding a PROXY protocol header.
#[derive(Debug, PartialEq, Eq)]
pub enum ProxyProtocolError {
    /// At least `needed` more bytes are required: with fewer the header does not
    /// decode. Never zero.
    Incomplete {
        /// Smallest number of additional bytes required.
        needed: usize,
    },
    /// The input begins with neither the v1 nor the v2 prefix.
    NotProxyProtocol,
    /// The bytes started like a v2 header but the signature did not match.
    InvalidSignature,
    /// The v2 version nibble was not `2`.
    UnsupportedVersion(u8),
    /// The v2 command nibble was neither `LOCAL` (0) nor `PROXY` (1).
    InvalidCommand(u8),
    /// The v2 address family is not one that this codec decodes.
    UnsupportedAddressFamily(u8),
    /// The v2 transport nibble was not `STREAM` (1) or `DGRAM` (2).
    UnsupportedTransport(u8),
    /// The declared address block is too short for the stated family.
    TruncatedAddressBlock {
        /// Bytes present in the declared block.
        have: usize,
        /// Bytes required by the family.
        need: usize,
    },
    /// A v1 line exceeded the maximum length without a terminating `\r\n`.
    V1LineTooLong,
    /// A v1 header was structurally malformed.
    MalformedV1(&'static str),
    /// v1 cannot express the header (v1 is TCP-only).
    V1Unrepresentable(&'static str),
    /// Source and destination are of different address families.
    MixedAddressFamily,
}

/// What a [`ProxyProtocolError`] says.
pub ghost enum Fault {
    Incomplete { needed: nat },
    NotProxyProtocol,
    InvalidSignature,
    UnsupportedVersion(u8),
    InvalidCommand(u8),
    UnsupportedAddressFamily(u8),
    UnsupportedTransport(u8),
    TruncatedAddressBlock { have: nat, need: nat },
    V1LineTooLong,
    MalformedV1(Seq<char>),
    V1Unrepresentable(Seq<char>),
    MixedAddressFamily,
}

impl View for ProxyProtocolError {
    type V = Fault;

    open spec fn view(&self) -> Fault {
        match self {
            ProxyProtocolError::Incomplete { needed } => Fault::Incomplete {
                needed: *needed as nat,
            },
            ProxyProtocolError::NotProxyProtocol => Fault::NotProxyProtocol,
            ProxyProtocolError::InvalidSignature => Fault::InvalidSignature,
            ProxyProtocolError::UnsupportedVersion(v) => Fault::UnsupportedVersion(*v),
            ProxyProtocolError::InvalidCommand(v) => Fault::InvalidCommand(*v),
            ProxyProtocolError::UnsupportedAddressFamily(v) => Fault::UnsupportedAddressFamily(*v),
            ProxyProtocolError::UnsupportedTransport(v) => Fault::UnsupportedTransport(*v),
            ProxyProtocolError::TruncatedAddressBlock { have, need } => {
                Fault::TruncatedAddressBlock { have: *have as nat, need: *need as nat }
            },
            ProxyProtocolError::V1LineTooLong => Fault::V1LineTooLong,
            ProxyProtocolError::MalformedV1(m) => Fault::MalformedV1(m@),
            ProxyProtocolError::V1Unrepresentable(m) => Fault::V1Unrepresentable(m@),
            ProxyProtocolError::MixedAddressFamily => Fault::MixedAddressFamily,
        }
    }
}

/// A decoding result: the header and the bytes it takes, or what is wrong.
pub type Decoded = Result<(ProxyHeader, int), Fault>;

// ---------------------------------------------------------------------------
// What a header means
// ---------------------------------------------------------------------------

/// Both endpoints are of one address family.
pub open spec fn same_family(a: SocketAddr, b: SocketAddr) -> bool {
    (a is V4) == (b is V4)
}

/// The header can be put on the wire.
pub open spec fn representable(h: ProxyHeader) -> bool {
    match h {
        ProxyHeader::Local => true,
        ProxyHeader::Proxy { source, destination, .. } => same_family(source, destination),
    }
}

/// The first position of a CRLF from `from` on that ends within `limit` bytes,
/// or `limit`.
pub open spec fn find_crlf(b: Seq<u8>, from: int, limit: int) -> int
    decreases limit - from,
{
    if from + 1 >= limit {
        limit
    } else if b[from] == 0x0D && b[from + 1] == 0x0A {
        from
    } else {
        find_crlf(b, from + 1, limit)
    }
}

/// A v1 endpoint: the port is read first.
pub open spec fn v1_endpoint(ip: Seq<char>, port: Seq<char>, is_v6: bool) -> Result<
    SocketAddr,
    Fault,
> {
    match text::parse_number(port, 0xffff) {
        None => Err(Fault::MalformedV1("invalid port"@)),
        Some(p) => if is_v6 {
            match addr::parse_v6(ip) {
                Some(x) => Ok(SocketAddr::V6 { ip: x, port: p as u16, flowinfo: 0, scope_id: 0 }),
                None => Err(Fault::MalformedV1("invalid IPv6 address"@)),
            }
        } else {
            match addr::parse_v4(ip) {
                Some(x) => Ok(SocketAddr::V4 { ip: x, port: p as u16 }),
                None => Err(Fault::MalformedV1("invalid IPv4 address"@)),
            }
        },
    }
}

/// The header that the fields of a v1 line stand for.
pub open spec fn v1_fields(f: Seq<Seq<char>>) -> Result<ProxyHeader, Fault> {
    if f[0] == "UNKNOWN"@ {
        Ok(ProxyHeader::Local)
    } else if f[0] == "TCP4"@ || f[0] == "TCP6"@ {
        let is_v6 = f[0] == "TCP6"@;
        if f.len() < 2 {
            Err(Fault::MalformedV1("missing source address"@))
        } else if f.len() < 3 {
            Err(Fault::MalformedV1("missing dest address"@))
        } else if f.len() < 4 {
            Err(Fault::MalformedV1("missing source port"@))
        } else if f.len() < 5 {
            Err(Fault::MalformedV1("missing dest port"@))
        } else if f.len() > 5 {
            Err(Fault::MalformedV1("trailing fields"@))
        } else {
            match v1_endpoint(f[1], f[3], is_v6) {
                Err(e) => Err(e),
                Ok(source) => match v1_endpoint(f[2], f[4], is_v6) {
                    Err(e) => Err(e),
                    Ok(destination) => Ok(
                        ProxyHeader::Proxy { transport: Transport::Stream, source, destination },
                    ),
                },
            }
        }
    } else {
        Err(Fault::MalformedV1("unknown protocol token"@))
    }
}

/// The smallest number of bytes that a v1 line without its CRLF lacks: what is
/// missing of the CRLF and of the shortest line, `PROXY UNKNOWN\r\n`, but no more
/// than a line may still hold.
pub open spec fn v1_missing(b: Seq<u8>) -> nat
    recommends
        0 < b.len() < 107,
{
    if b.len() <= 13 {
        (15 - b.len()) as nat
    } else if b.last() == 0x0D || b.len() == 106 {
        1
    } else {
        2
    }
}

/// A header in the v1 text format: `PROXY <fields>\r\n`.
pub open spec fn decode_v1(b: Seq<u8>) -> Decoded {
    let check = if b.len() < 6 {
        b.len() as int
    } else {
        6
    };
    let limit = if b.len() < 107 {
        b.len() as int
    } else {
        107
    };
    let cr = find_crlf(b, 0, limit);
    if b.take(check) != V1_PREFIX@.take(check) {
        Err(Fault::NotProxyProtocol)
    } else if cr >= limit {
        if b.len() >= 107 {
            Err(Fault::V1LineTooLong)
        } else {
            Err(Fault::Incomplete { needed: v1_missing(b) })
        }
    } else {
        let line = b.subrange(6, cr);
        if !valid_utf8(line) {
            Err(Fault::MalformedV1("non-ASCII"@))
        } else {
            match v1_fields(text::split(decode_utf8(line), ' ')) {
                Err(e) => Err(e),
                Ok(h) => Ok((h, cr + 2)),
            }
        }
    }
}

/// The IPv4 address at `i`.
pub open spec fn v4_at(b: Seq<u8>, i: int) -> u32 {
    addr::join_octets(b[i], b[i + 1], b[i + 2], b[i + 3])
}

/// The IPv6 address at `i`.
pub open spec fn v6_at(b: Seq<u8>, i: int) -> u128 {
    addr::join_segments(
        seq![
            wire::u16_at(b, i),
            wire::u16_at(b, i + 2),
            wire::u16_at(b, i + 4),
            wire::u16_at(b, i + 6),
            wire::u16_at(b, i + 8),
            wire::u16_at(b, i + 10),
            wire::u16_at(b, i + 12),
            wire::u16_at(b, i + 14),
        ],
    )
}

/// The endpoints in a v2 address block of family `family`.
pub open spec fn decode_block(block: Seq<u8>, family: u8) -> Result<
    (SocketAddr, SocketAddr),
    Fault,
> {
    if family == 1 {
        if block.len() < 12 {
            Err(Fault::TruncatedAddressBlock { have: block.len(), need: 12 })
        } else {
            Ok(
                (
                    SocketAddr::V4 { ip: v4_at(block, 0), port: wire::u16_at(block, 8) },
                    SocketAddr::V4 { ip: v4_at(block, 4), port: wire::u16_at(block, 10) },
                ),
            )
        }
    } else if family == 2 {
        if block.len() < 36 {
            Err(Fault::TruncatedAddressBlock { have: block.len(), need: 36 })
        } else {
            Ok(
                (
                    addr::socket(IpAddr::V6(v6_at(block, 0)), wire::u16_at(block, 32)),
                    addr::socket(IpAddr::V6(v6_at(block, 16)), wire::u16_at(block, 34)),
                ),
            )
        }
    } else {
        Err(Fault::UnsupportedAddressFamily(family))
    }
}

/// A header in the v2 binary format.
pub open spec fn decode_v2(b: Seq<u8>) -> Decoded {
    if b.len() < 16 {
        let seen = if b.len() < 12 {
            b.len() as int
        } else {
            12
        };
        if b.take(seen) != V2_SIGNATURE@.take(seen) {
            Err(Fault::InvalidSignature)
        } else {
            Err(Fault::Incomplete { needed: (16 - b.len()) as nat })
        }
    } else if b.take(12) != V2_SIGNATURE@ {
        Err(Fault::InvalidSignature)
    } else {
        let version = b[12] >> 4;
        let command = b[12] & 0x0F;
        let family = b[13] >> 4;
        let proto = b[13] & 0x0F;
        let total = 16 + wire::u16_at(b, 14);
        if version != 2 {
            Err(Fault::UnsupportedVersion(version))
        } else if b.len() < total {
            Err(Fault::Incomplete { needed: (total - b.len()) as nat })
        } else if command > 1 {
            Err(Fault::InvalidCommand(command))
        } else if command == 0 || family == 0 {
            Ok((ProxyHeader::Local, total))
        } else if proto != 1 && proto != 2 {
            Err(Fault::UnsupportedTransport(proto))
        } else {
            match decode_block(b.subrange(16, total), family) {
                Err(e) => Err(e),
                Ok((source, destination)) => Ok(
                    (
                        ProxyHeader::Proxy {
                            transport: if proto == 1 {
                                Transport::Stream
                            } else {
                                Transport::Dgram
                            },
                            source,
                            destination,
                        },
                        total,
                    ),
                ),
            }
        }
    }
}

/// The header at the front of `b`, in either format.
pub open spec fn decode(b: Seq<u8>) -> Decoded {
    if b.len() == 0 {
        Err(Fault::Incomplete { needed: 1 })
    } else if b[0] == 0x0D {
        decode_v2(b)
    } else if b[0] == 0x50 {
        decode_v1(b)
    } else {
        Err(Fault::NotProxyProtocol)
    }
}

/// The octets of an IPv6 address.
pub open spec fn v6_octets(x: u128) -> Seq<u8> {
    let s = addr::segments(x);
    wire::be16(s[0]) + wire::be16(s[1]) + wire::be16(s[2]) + wire::be16(s[3]) + wire::be16(s[4])
        + wire::be16(s[5]) + wire::be16(s[6]) + wire::be16(s[7])
}

/// A v2 frame: signature, command octet, family octet, length and address block.
pub open spec fn frame(command: u8, family: u8, block: Seq<u8>) -> Seq<u8> {
    V2_SIGNATURE@ + seq![command, family, 0u8, block.len() as u8] + block
}

/// The address block for two IPv4 endpoints.
pub open spec fn block4(s: u32, d: u32, sport: u16, dport: u16) -> Seq<u8> {
    addr::octets(s) + addr::octets(d) + wire::be16(sport) + wire::be16(dport)
}

/// The address block for two IPv6 endpoints.
pub open spec fn block6(s: u128, d: u128, sport: u16, dport: u16) -> Seq<u8> {
    v6_octets(s) + v6_octets(d) + wire::be16(sport) + wire::be16(dport)
}

/// The transport nibble.
pub open spec fn transport_code(t: Transport) -> u8 {
    if t is Stream {
        1
    } else {
        2
    }
}

/// A header in v2 form; mixed families cannot be expressed.
pub open spec fn encoded_v2(h: ProxyHeader) -> Result<Seq<u8>, Fault> {
    match h {
        ProxyHeader::Local => Ok(frame(0x20, 0x00, Seq::empty())),
        ProxyHeader::Proxy { transport, source, destination } => {
            let proto: u8 = transport_code(transport);
            match (source.ip(), destination.ip()) {
                (IpAddr::V4(s), IpAddr::V4(d)) => Ok(
                    frame(0x21, 0x10u8 | proto, block4(s, d, source.port(), destination.port())),
                ),
                (IpAddr::V6(s), IpAddr::V6(d)) => Ok(
                    frame(0x21, 0x20u8 | proto, block6(s, d, source.port(), destination.port())),
                ),
                _ => Err(Fault::MixedAddressFamily),
            }
        },
    }
}

/// The v1 line for a pair of endpoints.
pub open spec fn v1_line(
    proto: Seq<char>,
    source: Seq<char>,
    destination: Seq<char>,
    source_port: u16,
    destination_port: u16,
) -> Seq<char> {
    "PROXY "@ + proto + " "@ + source + " "@ + destination + " "@ + text::digits(
        source_port as nat,
    ) + " "@ + text::digits(destination_port as nat) + "\r\n"@
}

/// A header in v1 form; UDP and mixed families cannot be expressed.
pub open spec fn encoded_v1(h: ProxyHeader) -> Result<Seq<u8>, Fault> {
    match h {
        ProxyHeader::Local => Ok(encode_utf8("PROXY UNKNOWN\r\n"@)),
        ProxyHeader::Proxy { transport, source, destination } => if transport is Dgram {
            Err(Fault::V1Unrepresentable("Dgram"@))
        } else {
            match (source.ip(), destination.ip()) {
                (IpAddr::V4(s), IpAddr::V4(d)) => Ok(
                    encode_utf8(
                        v1_line(
                            "TCP4"@,
                            addr::format_v4(s),
                            addr::format_v4(d),
                            source.port(),
                            destination.port(),
                        ),
                    ),
                ),
                (IpAddr::V6(s), IpAddr::V6(d)) => Ok(
                    encode_utf8(
                        v1_line(
                            "TCP6"@,
                            addr::format_v6(s),
                            addr::format_v6(d),
                            source.port(),
                            destination.port(),
                        ),
                    ),
                ),
                _ => Err(Fault::MixedAddressFamily),
            }
        },
    }
}

// ---------------------------------------------------------------------------
// Decoding
// ---------------------------------------------------------------------------

/// `a[..n]` and `b[..n]` are equal.
fn same_front(a: &[u8], b: &[u8], n: usize) -> (r: bool)
    requires
        n <= a@.len(),
        n <= b@.len(),
    ensures
        r == (a@.take(n as int) == b@.take(n as int)),
{
    let mut i: usize = 0;
    while i < n
        invariant
            i <= n,
            n <= a@.len(),
            n <= b@.len(),
            forall|j: int| 0 <= j < i ==> a@[j] == b@[j],
        decreases n - i,
    {
        if a[i] != b[i] {
            assert(a@.take(n as int)[i as int] != b@.take(n as int)[i as int]);
            return false;
        }
        i = i + 1;
    }
    assert(a@.take(n as int) =~= b@.take(n as int));
    true
}

/// The result of a decoding step says what `d` says.
pub open spec fn agrees(r: Result<(ProxyHeader, usize), ProxyProtocolError>, d: Decoded) -> bool {
    match r {
        Ok((h, n)) => d == Decoded::Ok((h, n as int)),
        Err(e) => d == Decoded::Err(e@),
    }
}

/// Decode a PROXY protocol header from the front of `input`.
///
/// Detects v1 and v2 from the leading bytes. On success returns the header and
/// the number of bytes it takes; the payload begins behind them.
pub fn parse(input: &[u8]) -> (r: Result<(ProxyHeader, usize), ProxyProtocolError>)
    ensures
        agrees(r, decode(input@)),
{
    if input.len() == 0 {
        return Err(ProxyProtocolError::Incomplete { needed: 1 });
    }
    let first = input[0];
    if first == 0x0D {
        parse_v2(input)
    } else if first == 0x50 {
        parse_v1(input)
    } else {
        Err(ProxyProtocolError::NotProxyProtocol)
    }
}

proof fn lemma_find_crlf(b: Seq<u8>, from: int, limit: int)
    requires
        0 <= from <= limit <= b.len(),
    ensures
        from <= find_crlf(b, from, limit) <= limit,
        find_crlf(b, from, limit) < limit ==> find_crlf(b, from, limit) + 1 < limit && b[find_crlf(
            b,
            from,
            limit,
        )] == 0x0D && b[find_crlf(b, from, limit) + 1] == 0x0A,
        forall|j: int|
            from <= j < find_crlf(b, from, limit) && j + 1 < limit ==> !(#[trigger] b[j] == 0x0D
                && b[j + 1] == 0x0A),
    decreases limit - from,
{
    if from + 1 < limit && !(b[from] == 0x0D && b[from + 1] == 0x0A) {
        lemma_find_crlf(b, from + 1, limit);
    }
}

/// A line that starts as it should has its CRLF behind the prefix.
proof fn lemma_crlf_behind_prefix(b: Seq<u8>, limit: int)
    requires
        0 <= limit <= b.len(),
        ({
            let check = if b.len() < 6 {
                b.len() as int
            } else {
                6
            };
            b.take(check) == V1_PREFIX@.take(check)
        }),
        find_crlf(b, 0, limit) < limit,
    ensures
        find_crlf(b, 0, limit) >= 6,
{
    let check = if b.len() < 6 {
        b.len() as int
    } else {
        6
    };
    lemma_find_crlf(b, 0, limit);
    let k = find_crlf(b, 0, limit);
    if k < 6 {
        assert(k < check);
        assert(b.take(check)[k] == b[k]);
        assert(V1_PREFIX@.take(check)[k] == V1_PREFIX@[k]);
        assert(V1_PREFIX@[k] != 0x0D);
    }
}

fn parse_v1(input: &[u8]) -> (r: Result<(ProxyHeader, usize), ProxyProtocolError>)
    ensures
        agrees(r, decode_v1(input@)),
{
    let check: usize = if input.len() < 6 {
        input.len()
    } else {
        6
    };
    let prefix = V1_PREFIX;
    if !same_front(input, prefix.as_slice(), check) {
        return Err(ProxyProtocolError::NotProxyProtocol);
    }
    let search: usize = if input.len() < V1_MAX_LEN {
        input.len()
    } else {
        V1_MAX_LEN
    };
    let mut i: usize = 0;
    while i < search && i + 1 < search && !(input[i] == 0x0D && input[i + 1] == 0x0A)
        invariant
            i <= search <= input@.len(),
            find_crlf(input@, i as int, search as int) == find_crlf(input@, 0, search as int),
        decreases search - i,
    {
        i = i + 1;
    }
    if i + 1 >= search {
        if input.len() >= V1_MAX_LEN {
            return Err(ProxyProtocolError::V1LineTooLong);
        }
        let needed: usize = if input.len() <= 13 {
            15 - input.len()
        } else if input[input.len() - 1] == 0x0D || input.len() == 106 {
            1
        } else {
            2
        };
        return Err(ProxyProtocolError::Incomplete { needed });
    }
    let cr: usize = i;
    proof {
        lemma_crlf_behind_prefix(input@, search as int);
    }
    let line_bytes = slice_subrange(input, 6, cr);
    let line = match text::string_from_utf8(slice_to_vec(line_bytes)) {
        Ok(s) => s,
        Err(_) => {
            return Err(ProxyProtocolError::MalformedV1("non-ASCII"));
        },
    };
    let fields = text::split_on(line.as_str(), ' ');
    match header_of_fields(&fields) {
        Ok(h) => Ok((h, cr + 2)),
        Err(e) => Err(e),
    }
}

/// [`v1_fields`] on strings.
fn header_of_fields(f: &Vec<String>) -> (r: Result<ProxyHeader, ProxyProtocolError>)
    requires
        f@.len() >= 1,
    ensures
        (match r {
            Ok(h) => v1_fields(f.deep_view()) == Result::<ProxyHeader, Fault>::Ok(h),
            Err(e) => v1_fields(f.deep_view()) == Result::<ProxyHeader, Fault>::Err(e@),
        }),
{
    let ghost v = f.deep_view();
    assert(v.len() == f@.len());
    assert forall|i: int| 0 <= i < v.len() implies v[i] == f@[i]@ by {}
    let proto = f[0].as_str();
    if text::same(proto, "UNKNOWN") {
        return Ok(ProxyHeader::Local);
    }
    let is_v6 = text::same(proto, "TCP6");
    if !is_v6 && !text::same(proto, "TCP4") {
        return Err(ProxyProtocolError::MalformedV1("unknown protocol token"));
    }
    if f.len() < 2 {
        return Err(ProxyProtocolError::MalformedV1("missing source address"));
    }
    if f.len() < 3 {
        return Err(ProxyProtocolError::MalformedV1("missing dest address"));
    }
    if f.len() < 4 {
        return Err(ProxyProtocolError::MalformedV1("missing source port"));
    }
    if f.len() < 5 {
        return Err(ProxyProtocolError::MalformedV1("missing dest port"));
    }
    if f.len() > 5 {
        return Err(ProxyProtocolError::MalformedV1("trailing fields"));
    }
    let source = match parse_v1_endpoint(f[1].as_str(), f[3].as_str(), is_v6) {
        Ok(a) => a,
        Err(e) => {
            return Err(e);
        },
    };
    let destination = match parse_v1_endpoint(f[2].as_str(), f[4].as_str(), is_v6) {
        Ok(a) => a,
        Err(e) => {
            return Err(e);
        },
    };
    Ok(ProxyHeader::Proxy { transport: Transport::Stream, source, destination })
}

fn parse_v1_endpoint(ip: &str, port: &str, is_v6: bool) -> (r: Result<
    SocketAddr,
    ProxyProtocolError,
>)
    ensures
        (match r {
            Ok(a) => v1_endpoint(ip@, port@, is_v6) == Result::<SocketAddr, Fault>::Ok(a),
            Err(e) => v1_endpoint(ip@, port@, is_v6) == Result::<SocketAddr, Fault>::Err(e@),
        }),
{
    let port: u16 = match text::parse_unsigned(port, 0xffff) {
        Some(p) => p as u16,
        None => {
            return Err(ProxyProtocolError::MalformedV1("invalid port"));
        },
    };
    if is_v6 {
        match addr::ipv6_from_text(ip) {
            Some(x) => Ok(SocketAddr::V6 { ip: x, port, flowinfo: 0, scope_id: 0 }),
            None => Err(ProxyProtocolError::MalformedV1("invalid IPv6 address")),
        }
    } else {
        match addr::ipv4_from_text(ip) {
            Some(x) => Ok(SocketAddr::V4 { ip: x, port }),
            None => Err(ProxyProtocolError::MalformedV1("invalid IPv4 address")),
        }
    }
}

fn parse_v2(input: &[u8]) -> (r: Result<(ProxyHeader, usize), ProxyProtocolError>)
    ensures
        agrees(r, decode_v2(input@)),
{
    let signature = V2_SIGNATURE;
    if input.len() < V2_HEADER_LEN {
        // A stream that is not v2 fails at once instead of waiting for bytes
        // that will never satisfy it.
        let seen: usize = if input.len() < 12 {
            input.len()
        } else {
            12
        };
        if !same_front(input, signature.as_slice(), seen) {
            return Err(ProxyProtocolError::InvalidSignature);
        }
        return Err(ProxyProtocolError::Incomplete { needed: V2_HEADER_LEN - input.len() });
    }
    assert(signature@.take(12) =~= V2_SIGNATURE@);
    if !same_front(input, signature.as_slice(), 12) {
        return Err(ProxyProtocolError::InvalidSignature);
    }
    let version: u8 = input[12] >> 4;
    if version != 2 {
        return Err(ProxyProtocolError::UnsupportedVersion(version));
    }
    let command: u8 = input[12] & 0x0F;
    let family: u8 = input[13] >> 4;
    let proto: u8 = input[13] & 0x0F;
    let total: usize = V2_HEADER_LEN + wire::read_u16(input, 14) as usize;
    if input.len() < total {
        return Err(ProxyProtocolError::Incomplete { needed: total - input.len() });
    }
    let block = slice_subrange(input, V2_HEADER_LEN, total);
    // The LOCAL command tells the receiver to use the real socket peer,
    // whatever the address block holds. AF_UNSPEC conveys nothing either.
    if command > 1 {
        return Err(ProxyProtocolError::InvalidCommand(command));
    }
    if command == 0 || family == 0 {
        return Ok((ProxyHeader::Local, total));
    }
    let transport = if proto == 1 {
        Transport::Stream
    } else if proto == 2 {
        Transport::Dgram
    } else {
        return Err(ProxyProtocolError::UnsupportedTransport(proto));
    };
    let decoded = if family == 1 {
        decode_inet4(block)
    } else if family == 2 {
        decode_inet6(block)
    } else {
        return Err(ProxyProtocolError::UnsupportedAddressFamily(family));
    };
    match decoded {
        Ok((source, destination)) => Ok(
            (ProxyHeader::Proxy { transport, source, destination }, total),
        ),
        Err(e) => Err(e),
    }
}

fn read_v4(b: &[u8], i: usize) -> (r: u32)
    requires
        i + 3 < b@.len(),
    ensures
        r == v4_at(b@, i as int),
{
    addr::from_octets(b[i], b[i + 1], b[i + 2], b[i + 3])
}

fn read_v6(b: &[u8], i: usize) -> (r: u128)
    requires
        i + 15 < b@.len(),
    ensures
        r == v6_at(b@, i as int),
{
    assert(b.len() <= usize::MAX);
    let s: Vec<u16> = vec![
        wire::read_u16(b, i),
        wire::read_u16(b, i + 2),
        wire::read_u16(b, i + 4),
        wire::read_u16(b, i + 6),
        wire::read_u16(b, i + 8),
        wire::read_u16(b, i + 10),
        wire::read_u16(b, i + 12),
        wire::read_u16(b, i + 14),
    ];
    let x = addr::from_segments(&s);
    proof {
        let j = i as int;
        assert(s@ =~= seq![
            wire::u16_at(b@, j),
            wire::u16_at(b@, j + 2),
            wire::u16_at(b@, j + 4),
            wire::u16_at(b@, j + 6),
            wire::u16_at(b@, j + 8),
            wire::u16_at(b@, j + 10),
            wire::u16_at(b@, j + 12),
            wire::u16_at(b@, j + 14),
        ]);
    }
    x
}

fn decode_inet4(block: &[u8]) -> (r: Result<(SocketAddr, SocketAddr), ProxyProtocolError>)
    ensures
        (match r {
            Ok(p) => decode_block(block@, 1) == Result::<(SocketAddr, SocketAddr), Fault>::Ok(p),
            Err(e) => decode_block(block@, 1) == Result::<(SocketAddr, SocketAddr), Fault>::Err(
                e@,
            ),
        }),
{
    if block.len() < INET4_LEN {
        return Err(
            ProxyProtocolError::TruncatedAddressBlock { have: block.len(), need: INET4_LEN },
        );
    }
    Ok(
        (
            SocketAddr::V4 { ip: read_v4(block, 0), port: wire::read_u16(block, 8) },
            SocketAddr::V4 { ip: read_v4(block, 4), port: wire::read_u16(block, 10) },
        ),
    )
}

fn decode_inet6(block: &[u8]) -> (r: Result<(SocketAddr, SocketAddr), ProxyProtocolError>)
    ensures
        (match r {
            Ok(p) => decode_block(block@, 2) == Result::<(SocketAddr, SocketAddr), Fault>::Ok(p),
            Err(e) => decode_block(block@, 2) == Result::<(SocketAddr, SocketAddr), Fault>::Err(
                e@,
            ),
        }),
{
    if block.len() < INET6_LEN {
        return Err(
            ProxyProtocolError::TruncatedAddressBlock { have: block.len(), need: INET6_LEN },
        );
    }
    Ok(
        (
            SocketAddr::new(IpAddr::V6(read_v6(block, 0)), wire::read_u16(block, 32)),
            SocketAddr::new(IpAddr::V6(read_v6(block, 16)), wire::read_u16(block, 34)),
        ),
    )
}

// ---------------------------------------------------------------------------
// Encoding
// ---------------------------------------------------------------------------

fn put_v4(out: &mut Vec<u8>, x: u32)
    ensures
        final(out)@ == old(out)@ + addr::octets(x),
{
    let o = addr::octets_of(x);
    wire::put_all(out, o.as_slice());
}

fn put_v6(out: &mut Vec<u8>, x: u128)
    ensures
        final(out)@ == old(out)@ + v6_octets(x),
{
    let s = addr::segments_of(x);
    let ghost before = out@;
    wire::put_u16(out, s[0]);
    wire::put_u16(out, s[1]);
    wire::put_u16(out, s[2]);
    wire::put_u16(out, s[3]);
    wire::put_u16(out, s[4]);
    wire::put_u16(out, s[5]);
    wire::put_u16(out, s[6]);
    wire::put_u16(out, s[7]);
    assert(out@ =~= before + v6_octets(x));
}

/// The result of an encoding step says what `e` says.
pub open spec fn encodes(
    r: Result<Vec<u8>, ProxyProtocolError>,
    e: Result<Seq<u8>, Fault>,
) -> bool {
    match r {
        Ok(v) => e == Result::<Seq<u8>, Fault>::Ok(v@),
        Err(x) => e == Result::<Seq<u8>, Fault>::Err(x@),
    }
}

/// The v2 form of a header, with `LOCAL` for what cannot be expressed.
pub open spec fn v2_bytes(h: ProxyHeader) -> Seq<u8> {
    match encoded_v2(h) {
        Ok(b) => b,
        Err(_) => frame(0x20, 0x00, Seq::empty()),
    }
}

impl ProxyHeader {
    /// Encode this header in the v2 binary format.
    ///
    /// A mixed-family pair, which [`parse`] never yields, is sent as `LOCAL`.
    pub fn encode_v2(&self) -> (r: Vec<u8>)
        ensures
            r@ == v2_bytes(*self),
    {
        match self.try_encode_v2() {
            Ok(v) => v,
            Err(_) => encode_v2_local(),
        }
    }

    /// Encode this header in the v2 binary format, erroring on a mixed-family
    /// pair.
    pub fn try_encode_v2(&self) -> (r: Result<Vec<u8>, ProxyProtocolError>)
        ensures
            encodes(r, encoded_v2(*self)),
    {
        let (transport, source, destination) = match self {
            ProxyHeader::Local => {
                return Ok(encode_v2_local());
            },
            ProxyHeader::Proxy { transport, source, destination } => (
                *transport,
                *source,
                *destination,
            ),
        };
        let proto: u8 = match transport {
            Transport::Stream => 1,
            Transport::Dgram => 2,
        };
        let mut block: Vec<u8> = Vec::new();
        let family: u8 = match (source.ip(), destination.ip()) {
            (IpAddr::V4(s), IpAddr::V4(d)) => {
                put_v4(&mut block, s);
                put_v4(&mut block, d);
                wire::put_u16(&mut block, source.port());
                wire::put_u16(&mut block, destination.port());
                assert(block@ =~= block4(s, d, source.port(), destination.port()));
                0x10 | proto
            },
            (IpAddr::V6(s), IpAddr::V6(d)) => {
                put_v6(&mut block, s);
                put_v6(&mut block, d);
                wire::put_u16(&mut block, source.port());
                wire::put_u16(&mut block, destination.port());
                assert(block@ =~= block6(s, d, source.port(), destination.port()));
                0x20 | proto
            },
            _ => {
                return Err(ProxyProtocolError::MixedAddressFamily);
            },
        };
        Ok(put_frame(0x21, family, &block))
    }

    /// Encode this header in the v1 text format, which is TCP-only.
    pub fn encode_v1(&self) -> (r: Result<Vec<u8>, ProxyProtocolError>)
        ensures
            encodes(r, encoded_v1(*self)),
    {
        match self {
            ProxyHeader::Local => Ok(slice_to_vec("PROXY UNKNOWN\r\n".as_bytes())),
            ProxyHeader::Proxy { transport, source, destination } => {
                match transport {
                    Transport::Dgram => {
                        return Err(ProxyProtocolError::V1Unrepresentable("Dgram"));
                    },
                    Transport::Stream => {},
                }
                match (source.ip(), destination.ip()) {
                    (IpAddr::V4(s), IpAddr::V4(d)) => {
                        let s = addr::ipv4_text(s);
                        let d = addr::ipv4_text(d);
                        Ok(
                            encode_line(
                                "TCP4",
                                s.as_str(),
                                d.as_str(),
                                source.port(),
                                destination.port(),
                            ),
                        )
                    },
                    (IpAddr::V6(s), IpAddr::V6(d)) => {
                        let s = addr::ipv6_text(s);
                        let d = addr::ipv6_text(d);
                        Ok(
                            encode_line(
                                "TCP6",
                                s.as_str(),
                                d.as_str(),
                                source.port(),
                                destination.port(),
                            ),
                        )
                    },
                    _ => Err(ProxyProtocolError::MixedAddressFamily),
                }
            },
        }
    }
}

fn encode_line(proto: &str, source: &str, destination: &str, sport: u16, dport: u16) -> (r: Vec<u8>)
    ensures
        r@ == encode_utf8(v1_line(proto@, source@, destination@, sport, dport)),
{
    let mut line = "PROXY ".to_owned();
    line.append(proto);
    line.append(" ");
    line.append(source);
    line.append(" ");
    line.append(destination);
    line.append(" ");
    text::push_decimal(&mut line, sport as u64);
    line.append(" ");
    text::push_decimal(&mut line, dport as u64);
    line.append("\r\n");
    slice_to_vec(line.as_str().as_bytes())
}

fn put_frame(command: u8, family: u8, block: &Vec<u8>) -> (r: Vec<u8>)
    requires
        block@.len() <= 255,
    ensures
        r@ == frame(command, family, block@),
{
    let signature = V2_SIGNATURE;
    let mut out: Vec<u8> = Vec::new();
    wire::put_all(&mut out, signature.as_slice());
    out.push(command);
    out.push(family);
    out.push(0);
    out.push(block.len() as u8);
    wire::put_all(&mut out, block.as_slice());
    assert(out@ =~= frame(command, family, block@));
    out
}

/// The v2 `LOCAL` header: version 2, command `LOCAL`, no address family, empty
/// address block.
fn encode_v2_local() -> (r: Vec<u8>)
    ensures
        r@ == frame(0x20, 0x00, Seq::empty()),
{
    let block: Vec<u8> = Vec::new();
    put_frame(0x20, 0x00, &block)
}

impl ProxyProtocolError {
    /// The message for a log line.
    pub fn message(&self) -> (r: String)
        ensures
            r@ == fault_text(self@),
    {
        let mut out = String::new();
        match self {
            ProxyProtocolError::Incomplete { needed } => {
                out.append("incomplete PROXY header: need at least ");
                text::push_decimal(&mut out, *needed as u64);
                out.append(" more byte(s)");
            },
            ProxyProtocolError::NotProxyProtocol => {
                out.append("not a PROXY protocol header");
            },
            ProxyProtocolError::InvalidSignature => {
                out.append("invalid v2 signature");
            },
            ProxyProtocolError::UnsupportedVersion(v) => {
                out.append("unsupported PROXY version: ");
                text::push_decimal(&mut out, *v as u64);
            },
            ProxyProtocolError::InvalidCommand(v) => {
                out.append("invalid v2 command: 0x");
                text::push_hex(&mut out, *v as u16);
            },
            ProxyProtocolError::UnsupportedAddressFamily(v) => {
                out.append("unsupported address family: 0x");
                text::push_hex(&mut out, *v as u16);
            },
            ProxyProtocolError::UnsupportedTransport(v) => {
                out.append("unsupported transport protocol: 0x");
                text::push_hex(&mut out, *v as u16);
            },
            ProxyProtocolError::TruncatedAddressBlock { have, need } => {
                out.append("truncated address block: have ");
                text::push_decimal(&mut out, *have as u64);
                out.append(", need ");
                text::push_decimal(&mut out, *need as u64);
                out.append(" for this family");
            },
            ProxyProtocolError::V1LineTooLong => {
                out.append("v1 header line exceeds 107 bytes");
            },
            ProxyProtocolError::MalformedV1(m) => {
                out.append("malformed v1 header: ");
                out.append(m);
            },
            ProxyProtocolError::V1Unrepresentable(m) => {
                out.append("cannot encode ");
                out.append(m);
                out.append(" as PROXY v1 (v1 is TCP-only)");
            },
            ProxyProtocolError::MixedAddressFamily => {
                out.append("source and destination address families differ");
            },
        }
        assert(out@ =~= fault_text(self@));
        out
    }
}

/// The message of a fault.
pub open spec fn fault_text(f: Fault) -> Seq<char> {
    match f {
        Fault::Incomplete { needed } => "incomplete PROXY header: need at least "@ + text::digits(
            needed,
        ) + " more byte(s)"@,
        Fault::NotProxyProtocol => "not a PROXY protocol header"@,
        Fault::InvalidSignature => "invalid v2 signature"@,
        Fault::UnsupportedVersion(v) => "unsupported PROXY version: "@ + text::digits(v as nat),
        Fault::InvalidCommand(v) => "invalid v2 command: 0x"@ + text::hex_digits(v as nat),
        Fault::UnsupportedAddressFamily(v) => "unsupported address family: 0x"@ + text::hex_digits(
            v as nat,
        ),
        Fault::UnsupportedTransport(v) => "unsupported transport protocol: 0x"@ + text::hex_digits(
            v as nat,
        ),
        Fault::TruncatedAddressBlock { have, need } => "truncated address block: have "@
            + text::digits(have) + ", need "@ + text::digits(need) + " for this family"@,
        Fault::V1LineTooLong => "v1 header line exceeds 107 bytes"@,
        Fault::MalformedV1(m) => "malformed v1 header: "@ + m,
        Fault::V1Unrepresentable(m) => "cannot encode "@ + m + " as PROXY v1 (v1 is TCP-only)"@,
        Fault::MixedAddressFamily => "source and destination address families differ"@,
    }
}

// ---------------------------------------------------------------------------
// Laws
// ---------------------------------------------------------------------------

proof fn lemma_v6_octets(x: u128, b: Seq<u8>, at: int)
    requires
        0 <= at,
        at + 16 <= b.len(),
        b.subrange(at, at + 16) == v6_octets(x),
    ensures
        v6_at(b, at) == x,
{
    let s = addr::segments(x);
    let o = v6_octets(x);
    let sub = b.subrange(at, at + 16);
    assert forall|k: int| 0 <= k < 8 implies wire::u16_at(b, at + 2 * k) == #[trigger] s[k] by {
        wire::lemma_be16(s[k]);
        assert(o[2 * k] == wire::be16(s[k])[0] && o[2 * k + 1] == wire::be16(s[k])[1]);
        assert(sub[2 * k] == b[at + 2 * k] && sub[2 * k + 1] == b[at + 2 * k + 1]);
    }
    assert(s[0] == wire::u16_at(b, at) && s[1] == wire::u16_at(b, at + 2) && s[2] == wire::u16_at(b, at + 4) && s[3]
        == wire::u16_at(b, at + 6) && s[4] == wire::u16_at(b, at + 8) && s[5] == wire::u16_at(b, at + 10) && s[6]
        == wire::u16_at(b, at + 12) && s[7] == wire::u16_at(b, at + 14));
    assert(s =~= seq![
        wire::u16_at(b, at),
        wire::u16_at(b, at + 2),
        wire::u16_at(b, at + 4),
        wire::u16_at(b, at + 6),
        wire::u16_at(b, at + 8),
        wire::u16_at(b, at + 10),
        wire::u16_at(b, at + 12),
        wire::u16_at(b, at + 14),
    ]);
    addr::lemma_segments(x);
}

proof fn lemma_nibbles()
    ensures
        0x21u8 >> 4 == 2u8,
        0x21u8 & 0x0F == 1u8,
        0x20u8 >> 4 == 2u8,
        0x20u8 & 0x0F == 0u8,
        (0x10u8 | 1) >> 4 == 1u8,
        (0x10u8 | 2) >> 4 == 1u8,
        (0x10u8 | 1) & 0x0F == 1u8,
        (0x10u8 | 2) & 0x0F == 2u8,
        (0x20u8 | 1) >> 4 == 2u8,
        (0x20u8 | 2) >> 4 == 2u8,
        (0x20u8 | 1) & 0x0F == 1u8,
        (0x20u8 | 2) & 0x0F == 2u8,
        wire::join16(0, 0) == 0,
        wire::join16(0, 12) == 12,
        wire::join16(0, 36) == 36,
{
    assert(0x21u8 >> 4 == 2u8 && 0x21u8 & 0x0F == 1u8 && 0x20u8 >> 4 == 2u8 && 0x20u8 & 0x0F == 0u8
        && (0x10u8 | 1) >> 4 == 1u8 && (0x10u8 | 2) >> 4 == 1u8 && (0x10u8 | 1) & 0x0F == 1u8 && (
    0x10u8 | 2) & 0x0F == 2u8 && (0x20u8 | 1) >> 4 == 2u8 && (0x20u8 | 2) >> 4 == 2u8 && (0x20u8
        | 1) & 0x0F == 1u8 && (0x20u8 | 2) & 0x0F == 2u8) by (bit_vector);
    assert(((0u8 as u16) << 8) | (0u8 as u16) == 0 && ((0u8 as u16) << 8) | (12u8 as u16) == 12 && (
    (0u8 as u16) << 8) | (36u8 as u16) == 36) by (bit_vector);
}

proof fn lemma_frame(command: u8, family: u8, block: Seq<u8>, payload: Seq<u8>)
    requires
        block.len() <= 255,
    ensures
        ({
            let b = frame(command, family, block) + payload;
            &&& b.len() == 16 + block.len() + payload.len()
            &&& b[0] == 0x0D
            &&& b.take(12) == V2_SIGNATURE@
            &&& b[12] == command
            &&& b[13] == family
            &&& b[14] == 0
            &&& b[15] == block.len()
            &&& b.subrange(16, 16 + block.len() as int) == block
        }),
{
    let b = frame(command, family, block) + payload;
    assert(V2_SIGNATURE@[0] == 0x0D);
    assert(b.take(12) =~= V2_SIGNATURE@);
    assert(b[0] == b.take(12)[0]);
    assert(b.subrange(16, 16 + block.len() as int) =~= block);
}

proof fn lemma_block4(s: u32, d: u32, sport: u16, dport: u16)
    ensures
        block4(s, d, sport, dport).len() == 12,
        decode_block(block4(s, d, sport, dport), 1) == Result::<(SocketAddr, SocketAddr), Fault>::Ok(
            (
                SocketAddr::V4 { ip: s, port: sport },
                SocketAddr::V4 { ip: d, port: dport },
            ),
        ),
{
    let b = block4(s, d, sport, dport);
    let os = addr::octets(s);
    let od = addr::octets(d);
    assert(b[0] == os[0] && b[1] == os[1] && b[2] == os[2] && b[3] == os[3]);
    assert(b[4] == od[0] && b[5] == od[1] && b[6] == od[2] && b[7] == od[3]);
    assert(b[8] == wire::be16(sport)[0] && b[9] == wire::be16(sport)[1]);
    assert(b[10] == wire::be16(dport)[0] && b[11] == wire::be16(dport)[1]);
    addr::lemma_octets(s);
    addr::lemma_octets(d);
    wire::lemma_be16(sport);
    wire::lemma_be16(dport);
}

proof fn lemma_block6(s: u128, d: u128, sport: u16, dport: u16)
    ensures
        block6(s, d, sport, dport).len() == 36,
        decode_block(block6(s, d, sport, dport), 2) == Result::<(SocketAddr, SocketAddr), Fault>::Ok(
            (addr::socket(IpAddr::V6(s), sport), addr::socket(IpAddr::V6(d), dport)),
        ),
{
    lemma_block6_fields(s, d, sport, dport);
}

proof fn lemma_block6_fields(s: u128, d: u128, sport: u16, dport: u16)
    ensures
        block6(s, d, sport, dport).len() == 36,
        v6_at(block6(s, d, sport, dport), 0) == s,
        v6_at(block6(s, d, sport, dport), 16) == d,
        wire::u16_at(block6(s, d, sport, dport), 32) == sport,
        wire::u16_at(block6(s, d, sport, dport), 34) == dport,
{
    let b = block6(s, d, sport, dport);
    let os = v6_octets(s);
    let od = v6_octets(d);
    assert(os.len() == 16 && od.len() == 16);
    assert(b.subrange(0, 16) =~= os);
    assert(b.subrange(16, 32) =~= od);
    lemma_v6_octets(s, b, 0);
    lemma_v6_octets(d, b, 16);
    assert(b[32] == wire::be16(sport)[0] && b[33] == wire::be16(sport)[1]);
    assert(b[34] == wire::be16(dport)[0] && b[35] == wire::be16(dport)[1]);
    wire::lemma_be16(sport);
    wire::lemma_be16(dport);
}

/// What a receiver learns of a header: neither format has room for the flow
/// information and the scope of an IPv6 address.
pub open spec fn conveyed(h: ProxyHeader) -> ProxyHeader {
    match h {
        ProxyHeader::Local => ProxyHeader::Local,
        ProxyHeader::Proxy { transport, source, destination } => ProxyHeader::Proxy {
            transport,
            source: addr::socket(source.ip(), source.port()),
            destination: addr::socket(destination.ip(), destination.port()),
        },
    }
}

/// A header that can be expressed survives v2 encoding and decoding, whatever
/// payload follows it, and takes exactly its own bytes.
pub proof fn v2_round_trip(h: ProxyHeader, payload: Seq<u8>)
    requires
        representable(h),
    ensures
        encoded_v2(h) == Result::<Seq<u8>, Fault>::Ok(v2_bytes(h)),
        decode(v2_bytes(h) + payload) == Decoded::Ok((conveyed(h), v2_bytes(h).len() as int)),
{
    lemma_nibbles();
    match h {
        ProxyHeader::Local => {
            lemma_frame(0x20, 0x00, Seq::empty(), payload);
        },
        ProxyHeader::Proxy { transport, source, destination } => {
            let proto = transport_code(transport);
            match (source.ip(), destination.ip()) {
                (IpAddr::V4(s), IpAddr::V4(d)) => {
                    let block = block4(s, d, source.port(), destination.port());
                    lemma_block4(s, d, source.port(), destination.port());
                    lemma_frame(0x21, 0x10u8 | proto, block, payload);
                },
                (IpAddr::V6(s), IpAddr::V6(d)) => {
                    let block = block6(s, d, source.port(), destination.port());
                    lemma_block6(s, d, source.port(), destination.port());
                    lemma_frame(0x21, 0x20u8 | proto, block, payload);
                },
                _ => {},
            }
        },
    }
}

/// A mixed-family pair is sent as `LOCAL`, never with a made-up address.
pub proof fn v2_mixed_family_is_local(h: ProxyHeader, payload: Seq<u8>)
    requires
        !representable(h),
    ensures
        encoded_v2(h) == Result::<Seq<u8>, Fault>::Err(Fault::MixedAddressFamily),
        decode(v2_bytes(h) + payload) == Decoded::Ok((ProxyHeader::Local, v2_bytes(h).len() as int)),
{
    v2_round_trip(ProxyHeader::Local, payload);
}

/// What decoding yields shares one address family, holds no more than a header
/// conveys and takes no more bytes than there are.
pub proof fn decoded_is_sound(b: Seq<u8>)
    ensures
        decode(b) matches Ok((h, n)) ==> representable(h) && conveyed(h) == h && 0 < n <= b.len(),
{
    let limit = if b.len() < 107 {
        b.len() as int
    } else {
        107
    };
    lemma_find_crlf(b, 0, limit);
}

/// Every decoded header can be encoded again, and decodes to itself.
pub proof fn decoded_reencodes(b: Seq<u8>, payload: Seq<u8>)
    ensures
        decode(b) matches Ok((h, n)) ==> decode(v2_bytes(h) + payload) == Decoded::Ok(
            (h, v2_bytes(h).len() as int),
        ),
{
    decoded_is_sound(b);
    match decode(b) {
        Ok((h, n)) => {
            v2_round_trip(h, payload);
        },
        Err(_) => {},
    }
}

/// A v1 header that decodes is no shorter than `PROXY UNKNOWN\r\n`.
proof fn lemma_v1_shortest(b: Seq<u8>)
    ensures
        decode_v1(b) matches Ok((_, n)) ==> n >= 15,
{
    if decode_v1(b) is Ok {
        let limit = if b.len() < 107 {
            b.len() as int
        } else {
            107
        };
        let cr = find_crlf(b, 0, limit);
        lemma_find_crlf(b, 0, limit);
        lemma_crlf_behind_prefix(b, limit);
        let line = b.subrange(6, cr);
        let chars = decode_utf8(line);
        decode_utf8_encode_utf8(line);
        text::lemma_bytes_at_least_chars(chars);
        text::lemma_split_length(chars, ' ', 0);
        reveal_strlit("UNKNOWN");
        reveal_strlit("TCP4");
        reveal_strlit("TCP6");
    }
}

/// The count in an `Incomplete` is never zero, and a lower bound: with fewer bytes
/// than that behind it the input does not decode.
pub proof fn incomplete_needs_bytes(b: Seq<u8>, more: Seq<u8>)
    ensures
        decode(b) matches Err(Fault::Incomplete { needed }) ==> needed > 0 && (more.len() < needed
            ==> !(decode(b + more) is Ok)),
{
    let c = b + more;
    if let Err(Fault::Incomplete { needed }) = decode(b) {
        if more.len() < needed {
            assert(b + more =~= c);
            if b.len() == 0 {
                assert(c.len() == 0);
            } else if b[0] == 0x50 {
                assert(c[0] == 0x50);
                if decode(c) is Ok {
                    lemma_v1_shortest(c);
                    lemma_find_crlf(b, 0, b.len() as int);
                    let limit = if c.len() < 107 {
                        c.len() as int
                    } else {
                        107
                    };
                    lemma_find_crlf(c, 0, limit);
                    let k = find_crlf(c, 0, limit);
                    assert(k < limit);
                    if k + 1 < b.len() {
                        assert(b[k] == c[k] && b[k + 1] == c[k + 1]);
                    } else if k + 1 == b.len() {
                        assert(b[k] == c[k]);
                    }
                }
            } else {
                assert(c[0] == b[0]);
                if b.len() >= 16 {
                    assert(c[14] == b[14] && c[15] == b[15]);
                }
            }
        }
    }
}

/// A reader that asks for what it is told to read never reads past the header:
/// one byte at a time for a v1 line, `needed` bytes otherwise.
pub proof fn reads_are_exact(b: Seq<u8>, more: Seq<u8>)
    requires
        decode(b) matches Err(Fault::Incomplete { needed }) && more.len() == (if b.len() > 0 && b[0]
            == 0x50 {
            1
        } else {
            needed
        }),
    ensures
        decode(b + more) matches Ok((h, n)) ==> n == b.len() + more.len(),
{
    let c = b + more;
    if b.len() == 0 {
    } else if b[0] == 0x50 {
        assert(c[0] == 0x50);
        lemma_find_crlf(b, 0, b.len() as int);
        let limit = if c.len() < 107 {
            c.len() as int
        } else {
            107
        };
        lemma_find_crlf(c, 0, limit);
        let k = find_crlf(c, 0, limit);
        if k < limit && k + 2 < c.len() {
            assert(b[k] == c[k] && b[k + 1] == c[k + 1]);
        }
    } else {
        assert(c[0] == b[0]);
        if b.len() >= 16 {
            assert(c[14] == b[14] && c[15] == b[15]);
        }
    }
}

/// How many more bytes a reader of a v2 header of `total` bytes is told to read
/// when it holds `cut` of them: one to tell the format, then the fixed part, then
/// the address block.
pub open spec fn v2_missing(total: nat, cut: int) -> nat {
    if cut == 0 {
        1
    } else if cut < 16 {
        (16 - cut) as nat
    } else {
        (total - cut) as nat
    }
}

/// A header decodes from its own bytes alone, and from none of the shorter prefixes:
/// each asks for more bytes, and a v2 header for no byte behind its end.
pub proof fn header_stands_alone(s: Seq<u8>, cut: int)
    requires
        decode(s) matches Ok((_, n)) && 0 <= cut <= n,
    ensures
        decode(s) matches Ok((h, n)) && (if cut == n {
            decode(s.take(cut)) == Decoded::Ok((h, n))
        } else {
            decode(s.take(cut)) matches Err(Fault::Incomplete { needed }) && needed > 0 && (cut == 0
                || s[0] != 0x50 ==> needed == v2_missing(n as nat, cut) && needed <= n - cut)
        }),
{
    decoded_is_sound(s);
    if cut > 0 {
        assert(s.take(cut)[0] == s[0]);
        if s[0] == 0x50 {
            lemma_v1_alone(s, cut);
        } else {
            lemma_v2_alone(s, cut);
        }
    }
}

proof fn lemma_v1_alone(s: Seq<u8>, cut: int)
    requires
        decode_v1(s) matches Ok((_, n)) && 0 < cut <= n,
    ensures
        decode_v1(s) matches Ok((h, n)) && (if cut == n {
            decode_v1(s.take(cut)) == Decoded::Ok((h, n))
        } else {
            decode_v1(s.take(cut)) matches Err(Fault::Incomplete { needed }) && needed > 0
        }),
{
    let b = s.take(cut);
    let limit = if s.len() < 107 {
        s.len() as int
    } else {
        107
    };
    let cr = find_crlf(s, 0, limit);
    lemma_find_crlf(s, 0, limit);
    lemma_crlf_behind_prefix(s, limit);
    lemma_find_crlf(b, 0, cut);
    let k = find_crlf(b, 0, cut);
    let check = if cut < 6 {
        cut
    } else {
        6
    };
    assert(s.take(6) == V1_PREFIX@.take(6));
    assert(b.take(check) =~= s.take(6).take(check));
    assert(V1_PREFIX@.take(check) =~= V1_PREFIX@.take(6).take(check));
    if k < cut {
        assert(b[k] == s[k] && b[k + 1] == s[k + 1]);
    }
    if cut == cr + 2 {
        assert(b[cr] == s[cr] && b[cr + 1] == s[cr + 1]);
        assert(b.subrange(6, cr) =~= s.subrange(6, cr));
    }
}

proof fn lemma_v2_alone(s: Seq<u8>, cut: int)
    requires
        decode_v2(s) matches Ok((_, n)) && 0 < cut <= n,
    ensures
        decode_v2(s) matches Ok((h, n)) && (if cut == n {
            decode_v2(s.take(cut)) == Decoded::Ok((h, n))
        } else {
            decode_v2(s.take(cut)) matches Err(Fault::Incomplete { needed }) && 0 < needed <= n - cut
                && needed == v2_missing(n as nat, cut)
        }),
{
    let b = s.take(cut);
    if cut < 16 {
        let seen = if cut < 12 {
            cut
        } else {
            12
        };
        assert(b.take(seen) =~= s.take(12).take(seen));
    } else {
        assert(b.take(12) =~= s.take(12));
        assert(b[12] == s[12] && b[13] == s[13] && b[14] == s[14] && b[15] == s[15]);
        let total = 16 + wire::u16_at(s, 14);
        if cut == total {
            assert(b.subrange(16, total) =~= s.subrange(16, total));
        }
    }
}

/// Every proper prefix of a v2 header is incomplete, and asks for no byte that
/// the header does not have.
pub proof fn v2_prefix_is_incomplete(h: ProxyHeader, cut: int)
    requires
        representable(h),
        0 <= cut < v2_bytes(h).len(),
    ensures
        decode(v2_bytes(h).take(cut)) == Decoded::Err(
            Fault::Incomplete { needed: v2_missing(v2_bytes(h).len(), cut) },
        ),
        0 < v2_missing(v2_bytes(h).len(), cut) <= v2_bytes(h).len() - cut,
{
    let e = v2_bytes(h);
    v2_round_trip(h, Seq::empty());
    assert(e + Seq::<u8>::empty() =~= e);
    lemma_v2_first_byte(h);
    header_stands_alone(e, cut);
}

proof fn lemma_v2_first_byte(h: ProxyHeader)
    ensures
        v2_bytes(h).len() > 0,
        v2_bytes(h)[0] == 0x0D,
{
}

/// Printable ASCII without a space.
spec fn plain(s: Seq<char>) -> bool {
    forall|i: int| 0 <= i < s.len() ==> '!' <= #[trigger] s[i] <= '~'
}

/// A v1 line with the given fields.
spec fn line_of(parts: Seq<Seq<char>>) -> Seq<char> {
    "PROXY "@ + text::join(parts, seq![' ']) + "\r\n"@
}

proof fn lemma_join_plain(parts: Seq<Seq<char>>)
    requires
        forall|i: int| 0 <= i < parts.len() ==> plain(#[trigger] parts[i]),
    ensures
        forall|j: int|
            0 <= j < text::join(parts, seq![' ']).len() ==> ' ' <= #[trigger] text::join(
                parts,
                seq![' '],
            )[j] <= '~',
    decreases parts.len(),
{
    if parts.len() == 1 {
        assert(plain(parts[0]));
    } else if parts.len() > 1 {
        let init = parts.drop_last();
        assert forall|i: int| 0 <= i < init.len() implies plain(#[trigger] init[i]) by {
            assert(init[i] == parts[i]);
        }
        lemma_join_plain(init);
        let a = text::join(init, seq![' ']);
        let t = text::join(parts, seq![' ']);
        let last = parts.last();
        assert(plain(parts[parts.len() - 1]));
        assert(t == a + seq![' '] + last);
        assert forall|j: int| 0 <= j < t.len() implies ' ' <= #[trigger] t[j] <= '~' by {
            if j < a.len() {
                assert(t[j] == a[j]);
            } else if j > a.len() {
                assert(t[j] == last[j - a.len() - 1]);
            }
        }
    }
}

/// The bytes of a line of plain fields, and where its CRLF stands.
proof fn lemma_line_bytes(parts: Seq<Seq<char>>)
    requires
        parts.len() >= 1,
        forall|i: int| 0 <= i < parts.len() ==> plain(#[trigger] parts[i]),
    ensures
        ({
            let l = line_of(parts);
            let body = text::join(parts, seq![' ']);
            let e = encode_utf8(l);
            &&& l.len() == body.len() + 8
            &&& e.len() == l.len()
            &&& e.take(6) == V1_PREFIX@
            &&& forall|j: int| 0 <= j < e.len() - 2 ==> #[trigger] e[j] != 0x0D
            &&& e[e.len() - 2] == 0x0D
            &&& e[e.len() - 1] == 0x0A
            &&& e.subrange(6, e.len() - 2) == encode_utf8(body)
        }),
{
    let l = line_of(parts);
    let body = text::join(parts, seq![' ']);
    let e = encode_utf8(l);
    reveal_strlit("PROXY ");
    reveal_strlit("\r\n");
    lemma_join_plain(parts);
    assert forall|i: int| 0 <= i < l.len() implies '\0' <= #[trigger] l[i] <= '\u{7f}' by {
        if 6 <= i < 6 + body.len() {
            assert(l[i] == body[i - 6]);
        }
    }
    assert(is_ascii_chars(l));
    assert(is_ascii_chars(body)) by {
        assert forall|i: int| 0 <= i < body.len() implies '\0' <= #[trigger] body[i]
            <= '\u{7f}' by {}
    }
    is_ascii_chars_encode_utf8(l);
    is_ascii_chars_encode_utf8(body);
    assert(l[0] == 'P' && l[1] == 'R' && l[2] == 'O' && l[3] == 'X' && l[4] == 'Y' && l[5] == ' ');
    assert(e.take(6) =~= V1_PREFIX@);
    assert forall|j: int| 0 <= j < e.len() - 2 implies #[trigger] e[j] != 0x0D by {
        if j >= 6 {
            assert(l[j] == body[j - 6]);
        }
        assert(l[j] as u8 == e[j]);
    }
    assert(l[l.len() - 2] == '\r' && l[l.len() - 1] == '\n');
    assert forall|j: int| 0 <= j < body.len() implies e.subrange(6, e.len() - 2)[j] == encode_utf8(
        body,
    )[j] by {
        assert(l[j + 6] == body[j]);
        assert(l[j + 6] as u8 == e[j + 6]);
        assert(body[j] as u8 == encode_utf8(body)[j]);
    }
    assert(e.subrange(6, e.len() - 2) =~= encode_utf8(body));
}

proof fn lemma_line_decodes(parts: Seq<Seq<char>>, h: ProxyHeader, payload: Seq<u8>)
    requires
        parts.len() >= 1,
        forall|i: int| 0 <= i < parts.len() ==> plain(#[trigger] parts[i]),
        line_of(parts).len() <= 107,
        v1_fields(parts) == Result::<ProxyHeader, Fault>::Ok(h),
    ensures
        decode(encode_utf8(line_of(parts)) + payload) == Decoded::Ok(
            (h, encode_utf8(line_of(parts)).len() as int),
        ),
{
    let e = encode_utf8(line_of(parts));
    let body = text::join(parts, seq![' ']);
    let b = e + payload;
    lemma_line_bytes(parts);
    assert(b.take(6) =~= e.take(6));
    assert(V1_PREFIX@.take(6) =~= V1_PREFIX@);
    assert(b[0] == e.take(6)[0]);
    assert(V1_PREFIX@[0] == 0x50);
    let limit = if b.len() < 107 {
        b.len() as int
    } else {
        107
    };
    lemma_find_crlf(b, 0, limit);
    let cr = e.len() - 2;
    assert(b[cr] == e[cr] && b[cr + 1] == e[cr + 1]);
    assert(find_crlf(b, 0, limit) == cr) by {
        let k = find_crlf(b, 0, limit);
        if k < cr {
            assert(b[k] == e[k]);
        }
    }
    assert(b.subrange(6, cr) =~= e.subrange(6, cr));
    encode_utf8_valid_utf8(body);
    encode_utf8_decode_utf8(body);
    assert forall|i: int| 0 <= i < parts.len() implies !(#[trigger] parts[i]).contains(' ') by {
        assert(plain(parts[i]));
    }
    text::lemma_split_join(parts, ' ');
}

/// The fields of the v1 line for a header that v1 can express.
spec fn v1_parts(h: ProxyHeader) -> Seq<Seq<char>> {
    match h {
        ProxyHeader::Local => seq!["UNKNOWN"@],
        ProxyHeader::Proxy { transport, source, destination } => seq![
            if source.ip() is V4 {
                "TCP4"@
            } else {
                "TCP6"@
            },
            addr::format_ip(source.ip()),
            addr::format_ip(destination.ip()),
            text::digits(source.port() as nat),
            text::digits(destination.port() as nat),
        ],
    }
}

proof fn lemma_port_text(p: u16)
    ensures
        plain(text::digits(p as nat)),
        1 <= text::digits(p as nat).len() <= 5,
{
    let n = p as nat;
    text::lemma_digits(n);
    let t = text::digits(n);
    assert forall|i: int| 0 <= i < t.len() implies '!' <= #[trigger] t[i] <= '~' by {
        assert(text::is_digit(t[i]));
    }
    reveal_with_fuel(text::digits, 5);
    assert(n >= 10000 ==> (((n / 10) / 10) / 10) / 10 < 10);
}

proof fn lemma_ip_plain(ip: IpAddr)
    ensures
        plain(addr::format_ip(ip)),
        addr::format_ip(ip).len() <= 39,
{
    let t = addr::format_ip(ip);
    match ip {
        IpAddr::V4(x) => {
            addr::lemma_v4_text(x);
            assert forall|i: int| 0 <= i < t.len() implies '!' <= #[trigger] t[i] <= '~' by {
                assert(text::is_digit(t[i]) || t[i] == '.');
            }
        },
        IpAddr::V6(x) => {
            addr::lemma_v6_text(x);
            assert forall|i: int| 0 <= i < t.len() implies '!' <= #[trigger] t[i] <= '~' by {
                assert(addr::is_hex(t[i]) || t[i] == ':' || t[i] == '.');
            }
        },
    }
}

/// v1 can express the header: a same-family TCP pair, or no endpoints at all.
pub open spec fn v1_representable(h: ProxyHeader) -> bool {
    representable(h) && (h matches ProxyHeader::Proxy { transport, .. } ==> transport is Stream)
}

proof fn lemma_unknown_line()
    ensures
        plain("UNKNOWN"@),
        line_of(seq!["UNKNOWN"@]) == "PROXY UNKNOWN\r\n"@,
        line_of(seq!["UNKNOWN"@]).len() <= 107,
{
    reveal_strlit("PROXY ");
    reveal_strlit("\r\n");
    reveal_strlit("UNKNOWN");
    reveal_strlit("PROXY UNKNOWN\r\n");
    assert(text::join(seq!["UNKNOWN"@], seq![' ']) =~= "UNKNOWN"@);
    assert(line_of(seq!["UNKNOWN"@]) =~= "PROXY UNKNOWN\r\n"@);
}

proof fn lemma_pair_line(proto: Seq<char>, s: Seq<char>, d: Seq<char>, sp: u16, dp: u16)
    requires
        proto.len() == 4,
        s.len() <= 39,
        d.len() <= 39,
    ensures
        ({
            let parts = seq![proto, s, d, text::digits(sp as nat), text::digits(dp as nat)];
            &&& line_of(parts) == v1_line(proto, s, d, sp, dp)
            &&& line_of(parts).len() <= 107
        }),
{
    let (p, q) = (text::digits(sp as nat), text::digits(dp as nat));
    let parts = seq![proto, s, d, p, q];
    reveal_strlit("PROXY ");
    reveal_strlit("\r\n");
    reveal_strlit(" ");
    lemma_port_text(sp);
    lemma_port_text(dp);
    lemma_join5(proto, s, d, p, q);
    assert(" "@ =~= seq![' ']);
    assert(line_of(parts) =~= v1_line(proto, s, d, sp, dp));
}

proof fn lemma_protocol_names()
    ensures
        "TCP4"@.len() == 4,
        "TCP6"@.len() == 4,
        plain("TCP4"@),
        plain("TCP6"@),
        "TCP4"@ != "TCP6"@,
        "TCP4"@ != "UNKNOWN"@,
        "TCP6"@ != "UNKNOWN"@,
{
    reveal_strlit("UNKNOWN");
    reveal_strlit("TCP4");
    reveal_strlit("TCP6");
    assert("TCP4"@[3] != "TCP6"@[3]);
}

proof fn lemma_endpoint(a: SocketAddr)
    ensures
        v1_endpoint(addr::format_ip(a.ip()), text::digits(a.port() as nat), a.ip() is V6) == Result::<
            SocketAddr,
            Fault,
        >::Ok(addr::socket(a.ip(), a.port())),
{
    text::decimal_round_trip(a.port() as nat, 0xffff);
    match a.ip() {
        IpAddr::V4(x) => {
            addr::ipv4_round_trip(x);
        },
        IpAddr::V6(x) => {
            addr::ipv6_round_trip(x);
        },
    }
}

proof fn lemma_v1_plain(h: ProxyHeader)
    ensures
        v1_parts(h).len() >= 1,
        forall|i: int| 0 <= i < v1_parts(h).len() ==> plain(#[trigger] v1_parts(h)[i]),
{
    let parts = v1_parts(h);
    lemma_unknown_line();
    lemma_protocol_names();
    if let ProxyHeader::Proxy { transport, source, destination } = h {
        lemma_ip_plain(source.ip());
        lemma_ip_plain(destination.ip());
        lemma_port_text(source.port());
        lemma_port_text(destination.port());
        assert(plain(parts[0]) && plain(parts[1]) && plain(parts[2]) && plain(parts[3]) && plain(
            parts[4],
        ));
    }
}

proof fn lemma_v1_fields(h: ProxyHeader)
    requires
        v1_representable(h),
    ensures
        v1_fields(v1_parts(h)) == Result::<ProxyHeader, Fault>::Ok(conveyed(h)),
{
    lemma_protocol_names();
    if let ProxyHeader::Proxy { transport, source, destination } = h {
        lemma_endpoint(source);
        lemma_endpoint(destination);
    }
}

proof fn lemma_v1_encoded(h: ProxyHeader)
    requires
        v1_representable(h),
    ensures
        line_of(v1_parts(h)).len() <= 107,
        encoded_v1(h) == Result::<Seq<u8>, Fault>::Ok(encode_utf8(line_of(v1_parts(h)))),
{
    lemma_unknown_line();
    lemma_protocol_names();
    if let ProxyHeader::Proxy { transport, source, destination } = h {
        lemma_ip_plain(source.ip());
        lemma_ip_plain(destination.ip());
        lemma_pair_line(
            v1_parts(h)[0],
            addr::format_ip(source.ip()),
            addr::format_ip(destination.ip()),
            source.port(),
            destination.port(),
        );
    }
}

proof fn lemma_join5(a: Seq<char>, b: Seq<char>, c: Seq<char>, d: Seq<char>, e: Seq<char>)
    ensures
        text::join(seq![a, b, c, d, e], seq![' ']) == a + seq![' '] + b + seq![' '] + c + seq![' ']
            + d + seq![' '] + e,
{
    reveal_with_fuel(text::join, 5);
    assert(seq![a, b, c, d, e].drop_last() =~= seq![a, b, c, d]);
    assert(seq![a, b, c, d].drop_last() =~= seq![a, b, c]);
    assert(seq![a, b, c].drop_last() =~= seq![a, b]);
    assert(seq![a, b].drop_last() =~= seq![a]);
}

/// A header that v1 can express survives v1 encoding and decoding, whatever
/// payload follows it, takes exactly its own bytes, and starts with a `P`.
pub proof fn v1_round_trip(h: ProxyHeader, payload: Seq<u8>)
    requires
        v1_representable(h),
    ensures
        encoded_v1(h) matches Ok(e) && decode(e + payload) == Decoded::Ok((conveyed(h), e.len() as int))
            && e.len() > 0 && e[0] == 0x50,
{
    lemma_v1_plain(h);
    lemma_v1_fields(h);
    lemma_v1_encoded(h);
    lemma_line_decodes(v1_parts(h), conveyed(h), payload);
    lemma_line_bytes(v1_parts(h));
    let e = encode_utf8(line_of(v1_parts(h)));
    assert(e.take(6)[0] == V1_PREFIX@[0]);
}

/// Every proper prefix of a v1 header is incomplete.
pub proof fn v1_prefix_is_incomplete(h: ProxyHeader, cut: int)
    requires
        v1_representable(h),
        encoded_v1(h) matches Ok(e) && 0 <= cut < e.len(),
    ensures
        encoded_v1(h) matches Ok(e) && (decode(e.take(cut)) matches Err(Fault::Incomplete { needed })
            && needed > 0),
{
    v1_round_trip(h, Seq::empty());
    if let Ok(e) = encoded_v1(h) {
        assert(e + Seq::<u8>::empty() =~= e);
        header_stands_alone(e, cut);
    }
}

/// The layout of a v2 header that names a client: the signature, version and command,
/// family and transport, the length of the rest, then the source address, the
/// destination address, the source port and the destination port, each with its first
/// octet counting most.
pub proof fn v2_layout(b: Seq<u8>, t: Transport, source: SocketAddr, destination: SocketAddr, n: int)
    requires
        b.len() > 0,
        b[0] == 0x0D,
        decode(b) == Decoded::Ok((ProxyHeader::Proxy { transport: t, source, destination }, n)),
    ensures
        b.len() >= n,
        b.take(12) == seq![
            0x0Du8,
            0x0A,
            0x0D,
            0x0A,
            0x00,
            0x0D,
            0x0A,
            0x51,
            0x55,
            0x49,
            0x54,
            0x0A,
        ],
        b[12] == 0x21,
        n == 16 + b[14] * 0x100 + b[15],
        b[13] == (if source is V4 {
            0x10int
        } else {
            0x20int
        }) + (if t is Stream {
            1int
        } else {
            2int
        }),
        source is V4 <==> destination is V4,
        source matches SocketAddr::V4 { ip, port } ==> n >= 28 && ip == b[16] * 0x100_0000 + b[17]
            * 0x1_0000 + b[18] * 0x100 + b[19] && port == b[24] * 0x100 + b[25],
        destination matches SocketAddr::V4 { ip, port } ==> n >= 28 && ip == b[20] * 0x100_0000
            + b[21] * 0x1_0000 + b[22] * 0x100 + b[23] && port == b[26] * 0x100 + b[27],
        source matches SocketAddr::V6 { ip, port, .. } ==> n >= 52 && addr::segments(ip)[0] == b[16]
            * 0x100 + b[17] && addr::segments(ip)[7] == b[30] * 0x100 + b[31] && port == b[48] * 0x100
            + b[49],
        destination matches SocketAddr::V6 { ip, port, .. } ==> n >= 52 && addr::segments(ip)[0]
            == b[32] * 0x100 + b[33] && addr::segments(ip)[7] == b[46] * 0x100 + b[47] && port == b[50]
            * 0x100 + b[51],
{
    let x = b[12];
    let y = b[13];
    wire::first_octet_counts_most(b[14], b[15], 0, 0);
    assert(b.take(12) == V2_SIGNATURE@);
    assert(x == 0x21) by (bit_vector)
        requires
            x >> 4 == 2,
            x & 0x0F == 1,
    ;
    let total = 16 + wire::u16_at(b, 14);
    let block = b.subrange(16, total);
    let f = y >> 4;
    let p = y & 0x0F;
    assert(y == f * 16 + p) by (bit_vector)
        requires
            f == y >> 4,
            p == y & 0x0F,
    ;
    if f == 1 {
        assert(block[0] == b[16] && block[1] == b[17] && block[2] == b[18] && block[3] == b[19]);
        assert(block[4] == b[20] && block[5] == b[21] && block[6] == b[22] && block[7] == b[23]);
        assert(block[8] == b[24] && block[9] == b[25] && block[10] == b[26] && block[11] == b[27]);
        addr::first_octet_counts_most(b[16], b[17], b[18], b[19]);
        addr::first_octet_counts_most(b[20], b[21], b[22], b[23]);
        wire::first_octet_counts_most(b[24], b[25], 0, 0);
        wire::first_octet_counts_most(b[26], b[27], 0, 0);
    } else {
        lemma_v6_ends(b, 16, block, 0);
        lemma_v6_ends(b, 32, block, 16);
        assert(block[32] == b[48] && block[33] == b[49] && block[34] == b[50] && block[35] == b[51]);
        wire::first_octet_counts_most(b[48], b[49], 0, 0);
        wire::first_octet_counts_most(b[50], b[51], 0, 0);
    }
}

proof fn lemma_v6_ends(b: Seq<u8>, at: int, block: Seq<u8>, i: int)
    requires
        0 <= i <= block.len() - 16,
        0 <= at <= b.len() - 16,
        forall|j: int| 0 <= j < 16 ==> b[at + j] == #[trigger] block[i + j],
    ensures
        addr::segments(v6_at(block, i))[0] == b[at] * 0x100 + b[at + 1],
        addr::segments(v6_at(block, i))[7] == b[at + 14] * 0x100 + b[at + 15],
{
    let s = seq![
        wire::u16_at(block, i),
        wire::u16_at(block, i + 2),
        wire::u16_at(block, i + 4),
        wire::u16_at(block, i + 6),
        wire::u16_at(block, i + 8),
        wire::u16_at(block, i + 10),
        wire::u16_at(block, i + 12),
        wire::u16_at(block, i + 14),
    ];
    assert(block[i + 0] == b[at + 0] && block[i + 1] == b[at + 1]);
    assert(block[i + 14] == b[at + 14] && block[i + 15] == b[at + 15]);
    wire::first_octet_counts_most(b[at], b[at + 1], 0, 0);
    wire::first_octet_counts_most(b[at + 14], b[at + 15], 0, 0);
    let (c0, c1, c2, c3, c4, c5, c6, c7) = (s[0], s[1], s[2], s[3], s[4], s[5], s[6], s[7]);
    assert({
        let x: u128 = ((c0 as u128) << 112) | ((c1 as u128) << 96) | ((c2 as u128) << 80) | ((
        c3 as u128) << 64) | ((c4 as u128) << 48) | ((c5 as u128) << 32) | ((c6 as u128) << 16) | (
        c7 as u128);
        (x >> 112) as u16 == c0 && (x & 0xffff) as u16 == c7
    }) by (bit_vector);
}

/// What a v1 line says: `UNKNOWN` names nobody. Behind `TCP4` or `TCP6` stand the
/// source and the destination address, then the source and the destination port, and
/// nothing else.
pub proof fn v1_fields_in_order(f: Seq<Seq<char>>, s: Seq<char>, d: Seq<char>, sp: Seq<char>, dp: Seq<char>)
    requires
        f.len() > 0,
    ensures
        f[0] == "UNKNOWN"@ ==> v1_fields(f) == Result::<ProxyHeader, Fault>::Ok(ProxyHeader::Local),
        f == seq!["TCP4"@, s, d, sp, dp] ==> (v1_fields(f) matches Ok(h) ==> (match h {
            ProxyHeader::Proxy { transport, source, destination } => transport is Stream
                && addr::parse_v4(s) is Some && addr::parse_v4(d) is Some && text::parse_number(
                sp,
                0xffff,
            ) is Some && text::parse_number(dp, 0xffff) is Some && source == (SocketAddr::V4 {
                ip: addr::parse_v4(s)->0,
                port: text::parse_number(sp, 0xffff)->0 as u16,
            }) && destination == (SocketAddr::V4 {
                ip: addr::parse_v4(d)->0,
                port: text::parse_number(dp, 0xffff)->0 as u16,
            }),
            ProxyHeader::Local => false,
        })),
        f == seq!["TCP4"@, s, d, sp, dp] && addr::parse_v4(s) is Some && addr::parse_v4(d) is Some
            && text::parse_number(sp, 0xffff) is Some && text::parse_number(dp, 0xffff) is Some
            ==> v1_fields(f) is Ok,
        f == seq!["TCP6"@, s, d, sp, dp] ==> (v1_fields(f) matches Ok(h) ==> (match h {
            ProxyHeader::Proxy { transport, source, destination } => transport is Stream
                && addr::parse_v6(s) is Some && addr::parse_v6(d) is Some && source == (
            SocketAddr::V6 {
                ip: addr::parse_v6(s)->0,
                port: text::parse_number(sp, 0xffff)->0 as u16,
                flowinfo: 0,
                scope_id: 0,
            }) && destination == (SocketAddr::V6 {
                ip: addr::parse_v6(d)->0,
                port: text::parse_number(dp, 0xffff)->0 as u16,
                flowinfo: 0,
                scope_id: 0,
            }),
            ProxyHeader::Local => false,
        })),
        f == seq!["TCP6"@, s, d, sp, dp] && addr::parse_v6(s) is Some && addr::parse_v6(d) is Some
            && text::parse_number(sp, 0xffff) is Some && text::parse_number(dp, 0xffff) is Some
            ==> v1_fields(f) is Ok,
        f[0] != "UNKNOWN"@ && f.len() != 5 ==> v1_fields(f) is Err,
        f[0] == "TCP4"@ || f[0] == "TCP6"@ ==> {
            &&& f.len() == 1 ==> v1_fields(f) == Result::<ProxyHeader, Fault>::Err(
                Fault::MalformedV1("missing source address"@),
            )
            &&& f.len() == 2 ==> v1_fields(f) == Result::<ProxyHeader, Fault>::Err(
                Fault::MalformedV1("missing dest address"@),
            )
            &&& f.len() == 3 ==> v1_fields(f) == Result::<ProxyHeader, Fault>::Err(
                Fault::MalformedV1("missing source port"@),
            )
            &&& f.len() == 4 ==> v1_fields(f) == Result::<ProxyHeader, Fault>::Err(
                Fault::MalformedV1("missing dest port"@),
            )
            &&& f.len() > 5 ==> v1_fields(f) == Result::<ProxyHeader, Fault>::Err(
                Fault::MalformedV1("trailing fields"@),
            )
        },
        f[0] != "UNKNOWN"@ && f[0] != "TCP4"@ && f[0] != "TCP6"@ ==> v1_fields(f) is Err,
{
    lemma_protocol_names();
    if f == seq!["TCP4"@, s, d, sp, dp] {
        assert(f[0] == "TCP4"@ && f[1] == s && f[2] == d && f[3] == sp && f[4] == dp);
    }
    if f == seq!["TCP6"@, s, d, sp, dp] {
        assert(f[0] == "TCP6"@ && f[1] == s && f[2] == d && f[3] == sp && f[4] == dp);
    }
}

/// The first byte picks the format, and what is neither is no header. A v2 header with
/// another version, command or transport than there are is refused as such, and a v2
/// header without a client or of no family names nobody.
pub proof fn formats_are_told_apart(b: Seq<u8>)
    requires
        b.len() > 0,
    ensures
        b[0] != 0x0D && b[0] != 0x50 ==> decode(b) == Decoded::Err(Fault::NotProxyProtocol),
        b.len() >= 107 && b[0] == 0x50 && b.take(6) == seq![0x50u8, 0x52, 0x4F, 0x58, 0x59, 0x20] && (
        forall|i: int| 0 <= i < 106 ==> !(b[i] == 0x0D && #[trigger] b[i + 1] == 0x0A)) ==> decode(b)
            == Decoded::Err(Fault::V1LineTooLong),
        b[0] == 0x0D && b.len() >= 16 && b.take(12) == V2_SIGNATURE@ ==> ({
            let version = b[12] / 16;
            let command = b[12] % 16;
            let total = 16 + b[14] * 0x100 + b[15];
            &&& version != 2 ==> decode(b) == Decoded::Err(Fault::UnsupportedVersion(version))
            &&& version == 2 && b.len() >= total && command > 1 ==> decode(b) == Decoded::Err(
                Fault::InvalidCommand(command),
            )
            &&& version == 2 && b.len() >= total && command == 0 ==> decode(b) == Decoded::Ok(
                (ProxyHeader::Local, total),
            )
            &&& version == 2 && b.len() >= total && command == 1 && b[13] / 16 == 0 ==> decode(b)
                == Decoded::Ok((ProxyHeader::Local, total))
            &&& version == 2 && b.len() >= total && command == 1 && b[13] / 16 != 0 && b[13] % 16
                != 1 && b[13] % 16 != 2 ==> decode(b) == Decoded::Err(
                Fault::UnsupportedTransport((b[13] % 16) as u8),
            )
            &&& version == 2 && b.len() >= total && command == 1 && b[13] / 16 > 2 && (b[13] % 16 == 1
                || b[13] % 16 == 2) ==> decode(b) == Decoded::Err(
                Fault::UnsupportedAddressFamily((b[13] / 16) as u8),
            )
        }),
{
    if b[0] == 0x50 && b.len() >= 107 {
        lemma_find_crlf(b, 0, 107);
        assert(V1_PREFIX@ =~= seq![0x50u8, 0x52, 0x4F, 0x58, 0x59, 0x20]);
        assert(V1_PREFIX@.take(6) =~= V1_PREFIX@);
        let k = find_crlf(b, 0, 107);
        if k < 107 {
            assert(b[k + 1] == 0x0A);
        }
    }
    if b[0] == 0x0D && b.len() >= 16 {
        let x = b[12];
        let y = b[13];
        assert(x >> 4 == x / 16 && x & 0x0F == x % 16) by (bit_vector);
        assert(y >> 4 == y / 16 && y & 0x0F == y % 16) by (bit_vector);
        wire::first_octet_counts_most(b[14], b[15], 0, 0);
    }
}

/// A v1 header opens with `P` and a v2 header with a carriage return.
pub proof fn formats_open_differently(h: ProxyHeader)
    ensures
        v2_bytes(h).len() >= 16,
        v2_bytes(h)[0] == 0x0D,
        v1_representable(h) ==> encoded_v1(h) is Ok && encoded_v1(h)->Ok_0.len() > 0 && encoded_v1(
            h,
        )->Ok_0[0] == 0x50,
{
    if v1_representable(h) {
        v1_round_trip(h, Seq::empty());
    }
}

} // verus!
