//! Acceptance of inbound PROXY headers, and the header for upstream connections.
//!
//! A listener with a `proxy-protocol` block sits behind a load balancer that
//! prepends a PROXY header with the address of the original client. The header is
//! honored only when the socket peer is in the listener's trusted list. Everything
//! else fails closed: an untrusted peer, a malformed header and a header that does
//! not arrive in time all drop the connection.
//!
//! Sockets and clocks are the caller's. It asks [`ProxyProtocolAcceptor::preprocess`]
//! what to do with a connection, reads the bytes that [`read_step`] asks for, and
//! hands the outcome to [`PendingHeader::conclude`].

use crate::addr;
use crate::addr::{IpAddr, SocketAddr};
use crate::binary;
use crate::config::ProxyProtocolVersion;
use crate::net;
use crate::net::{Block, Cidr};
use crate::nodes::ConfigError;
use crate::proxy_protocol;
use crate::proxy_protocol::{Decoded, Fault, ProxyHeader, ProxyProtocolError, Transport};
use crate::server::ListenerConfig;
use crate::text;
use bytes::Bytes;
use vstd::prelude::*;
use vstd::string::*;

verus! {

// ---------------------------------------------------------------------------
// Rules
// ---------------------------------------------------------------------------

/// The acceptance rule of one listener.
#[derive(Debug)]
pub struct Rule {
    /// Listener id, for messages.
    pub listener_id: String,
    /// Port that the listener binds.
    pub port: u16,
    /// The bind address; `None` for a wildcard bind (`0.0.0.0` or `::`), which
    /// takes any local address on the port.
    pub bind_ip: Option<IpAddr>,
    /// Socket peers allowed to send a header.
    pub trusted: Vec<Cidr>,
    /// Deadline for the complete header, in milliseconds.
    pub header_timeout_ms: u64,
}

/// A rule as plain values.
pub ghost struct RuleModel {
    pub listener: Seq<char>,
    pub port: u16,
    pub bind_ip: Option<IpAddr>,
    pub trusted: Seq<Block>,
    pub timeout_ms: u64,
}

/// The blocks of a list.
pub open spec fn blocks(list: Seq<Cidr>) -> Seq<Block> {
    list.map_values(|c: Cidr| c@)
}

impl DeepView for Rule {
    type V = RuleModel;

    open spec fn deep_view(&self) -> RuleModel {
        RuleModel {
            listener: self.listener_id@,
            port: self.port,
            bind_ip: self.bind_ip,
            trusted: blocks(self.trusted@),
            timeout_ms: self.header_timeout_ms,
        }
    }
}

/// Some block of the list holds the address.
pub open spec fn is_trusted(list: Seq<Block>, ip: IpAddr) -> bool {
    exists|i: int| 0 <= i < list.len() && (#[trigger] list[i]).matches(ip)
}

/// The blocks of a trusted list, or the message for its first malformed entry.
pub open spec fn trusted_of(id: Seq<char>, list: Seq<Seq<char>>) -> Result<Seq<Block>, Seq<char>>
    decreases list.len(),
{
    if list.len() == 0 {
        Ok(Seq::empty())
    } else {
        match trusted_of(id, list.drop_last()) {
            Err(e) => Err(e),
            Ok(so_far) => match net::parse_block(list.last()) {
                Err(f) => Err(
                    "listener '"@ + id + "': invalid trusted CIDR '"@ + list.last() + "': "@
                        + net::cidr_fault_text(f),
                ),
                Ok(b) => Ok(so_far.push(b)),
            },
        }
    }
}

/// The rule of a listener, if it accepts PROXY headers, or what is wrong with it.
pub open spec fn rule_of(l: ListenerConfig) -> Option<Result<RuleModel, Seq<char>>> {
    match l.proxy_protocol {
        None => None,
        Some(pp) => Some(
            match addr::parse_socket(l.address@) {
                None => Err(
                    "listener '"@ + l.id@
                        + "': proxy-protocol requires a numeric bind address, got '"@ + l.address@
                        + "': invalid socket address syntax"@,
                ),
                Some(a) => match trusted_of(l.id@, pp.trusted.deep_view()) {
                    Err(e) => Err(e),
                    Ok(trusted) => Ok(
                        RuleModel {
                            listener: l.id@,
                            port: a.port(),
                            bind_ip: if a.ip() == IpAddr::V4(0) || a.ip() == IpAddr::V6(0) {
                                None
                            } else {
                                Some(a.ip())
                            },
                            trusted,
                            timeout_ms: pp.header_timeout_ms,
                        },
                    ),
                },
            },
        ),
    }
}

/// The rules of all listeners in order, or what is wrong with the first bad one.
pub open spec fn rules_of(listeners: Seq<ListenerConfig>) -> Result<Seq<RuleModel>, Seq<char>>
    decreases listeners.len(),
{
    if listeners.len() == 0 {
        Ok(Seq::empty())
    } else {
        match rules_of(listeners.drop_last()) {
            Err(e) => Err(e),
            Ok(so_far) => match rule_of(listeners.last()) {
                None => Ok(so_far),
                Some(Err(e)) => Err(e),
                Some(Ok(r)) => Ok(so_far.push(r)),
            },
        }
    }
}

/// The first rule for a port with the given bind address.
pub open spec fn first_bound(rules: Seq<RuleModel>, port: u16, bind_ip: Option<IpAddr>) -> Option<
    RuleModel,
>
    decreases rules.len(),
{
    if rules.len() == 0 {
        None
    } else {
        match first_bound(rules.drop_last(), port, bind_ip) {
            Some(r) => Some(r),
            None => if rules.last().port == port && rules.last().bind_ip == bind_ip {
                Some(rules.last())
            } else {
                None
            },
        }
    }
}

/// The rule for a local address: one bound to that address before a wildcard one.
pub open spec fn selected(rules: Seq<RuleModel>, local: SocketAddr) -> Option<RuleModel> {
    match first_bound(rules, local.port(), Some(local.ip())) {
        Some(r) => Some(r),
        None => first_bound(rules, local.port(), None),
    }
}

fn cat5(a: &str, b: &str, c: &str, d: &str, e: &str) -> (r: String)
    ensures
        r@ == a@ + b@ + c@ + d@ + e@,
{
    let mut out = a.to_owned();
    out.append(b);
    out.append(c);
    out.append(d);
    out.append(e);
    out
}

fn trusted_list(id: &str, list: &Vec<String>) -> (r: Result<Vec<Cidr>, ConfigError>)
    ensures
        (match r {
            Ok(v) => trusted_of(id@, list.deep_view()) == Result::<Seq<Block>, Seq<char>>::Ok(
                blocks(v@),
            ),
            Err(e) => trusted_of(id@, list.deep_view()) == Result::<Seq<Block>, Seq<char>>::Err(e@),
        }),
{
    let ghost all = list.deep_view();
    let mut out: Vec<Cidr> = Vec::new();
    assert(all.take(0) =~= Seq::empty());
    assert(blocks(out@) =~= Seq::empty());
    let mut i: usize = 0;
    while i < list.len()
        invariant
            0 <= i <= list.len(),
            all == list.deep_view(),
            trusted_of(id@, all.take(i as int)) == Result::<Seq<Block>, Seq<char>>::Ok(
                blocks(out@),
            ),
        decreases list.len() - i,
    {
        assert(all.take(i + 1).drop_last() =~= all.take(i as int));
        assert(all.take(i + 1).last() == list[i as int]@);
        match Cidr::parse(list[i].as_str()) {
            Err(e) => {
                let mut m = cat5(
                    "listener '",
                    id,
                    "': invalid trusted CIDR '",
                    list[i].as_str(),
                    "': ",
                );
                m.append(e.message().as_str());
                proof {
                    lemma_bad_trusted_stays(id@, all, i + 1);
                }
                return Err(ConfigError { message: m });
            },
            Ok(c) => {
                let ghost before = out@;
                out.push(c);
                assert(blocks(out@) =~= blocks(before).push(c@));
            },
        }
        i += 1;
    }
    assert(all.take(all.len() as int) =~= all);
    Ok(out)
}

/// An error in a prefix of a trusted list is the error of the list.
proof fn lemma_bad_trusted_stays(id: Seq<char>, list: Seq<Seq<char>>, n: int)
    requires
        0 <= n <= list.len(),
        trusted_of(id, list.take(n)) is Err,
    ensures
        trusted_of(id, list) == trusted_of(id, list.take(n)),
    decreases list.len(),
{
    if n == list.len() {
        assert(list.take(n) =~= list);
    } else {
        let init = list.drop_last();
        assert(init.take(n) =~= list.take(n));
        lemma_bad_trusted_stays(id, init, n);
    }
}

/// An error in a prefix of the listeners is the error of all.
proof fn lemma_bad_rule_stays(listeners: Seq<ListenerConfig>, n: int)
    requires
        0 <= n <= listeners.len(),
        rules_of(listeners.take(n)) is Err,
    ensures
        rules_of(listeners) == rules_of(listeners.take(n)),
    decreases listeners.len(),
{
    if n == listeners.len() {
        assert(listeners.take(n) =~= listeners);
    } else {
        let init = listeners.drop_last();
        assert(init.take(n) =~= listeners.take(n));
        lemma_bad_rule_stays(init, n);
    }
}

fn rule_from(l: &ListenerConfig) -> (r: Option<Result<Rule, ConfigError>>)
    ensures
        (match r {
            None => rule_of(*l) is None,
            Some(Ok(rule)) => rule_of(*l) == Some(
                Result::<RuleModel, Seq<char>>::Ok(rule.deep_view()),
            ),
            Some(Err(e)) => rule_of(*l) == Some(Result::<RuleModel, Seq<char>>::Err(e@)),
        }),
{
    match &l.proxy_protocol {
        None => None,
        Some(pp) => match SocketAddr::parse(l.address.as_str()) {
            None => {
                let m = cat5(
                    "listener '",
                    l.id.as_str(),
                    "': proxy-protocol requires a numeric bind address, got '",
                    l.address.as_str(),
                    "': invalid socket address syntax",
                );
                Some(Err(ConfigError { message: m }))
            },
            Some(a) => match trusted_list(l.id.as_str(), &pp.trusted) {
                Err(e) => Some(Err(e)),
                Ok(trusted) => {
                    let bind_ip = if a.ip().is_unspecified() {
                        None
                    } else {
                        Some(a.ip())
                    };
                    Some(
                        Ok(
                            Rule {
                                listener_id: l.id.clone(),
                                port: a.port(),
                                bind_ip,
                                trusted,
                                header_timeout_ms: pp.header_timeout_ms,
                            },
                        ),
                    )
                },
            },
        },
    }
}

/// Accept-time decoder for all listeners that take PROXY headers.
///
/// Built once at startup from the listener configurations.
#[derive(Debug)]
pub struct ProxyProtocolAcceptor {
    rules: Vec<Rule>,
}

impl View for ProxyProtocolAcceptor {
    type V = Seq<RuleModel>;

    closed spec fn view(&self) -> Seq<RuleModel> {
        self.rules.deep_view()
    }
}

impl ProxyProtocolAcceptor {
    /// Builds an acceptor from all listeners that enable `proxy-protocol`.
    ///
    /// `Ok(None)` when none does. An error when the address or a trusted block of
    /// such a listener cannot be read.
    pub fn from_listeners(listeners: &Vec<ListenerConfig>) -> (r: Result<
        Option<ProxyProtocolAcceptor>,
        ConfigError,
    >)
        ensures
            (match r {
                Err(e) => rules_of(listeners@) == Result::<Seq<RuleModel>, Seq<char>>::Err(e@),
                Ok(None) => rules_of(listeners@) == Result::<Seq<RuleModel>, Seq<char>>::Ok(
                    Seq::empty(),
                ),
                Ok(Some(a)) => a@.len() > 0 && rules_of(listeners@) == Result::<
                    Seq<RuleModel>,
                    Seq<char>,
                >::Ok(a@),
            }),
    {
        let ghost all = listeners@;
        let mut rules: Vec<Rule> = Vec::new();
        assert(all.take(0) =~= Seq::empty());
        assert(rules.deep_view() =~= Seq::empty());
        let mut i: usize = 0;
        while i < listeners.len()
            invariant
                0 <= i <= listeners.len(),
                all == listeners@,
                rules_of(all.take(i as int)) == Result::<Seq<RuleModel>, Seq<char>>::Ok(
                    rules.deep_view(),
                ),
            decreases listeners.len() - i,
        {
            assert(all.take(i + 1).drop_last() =~= all.take(i as int));
            assert(all.take(i + 1).last() == all[i as int]);
            match rule_from(&listeners[i]) {
                None => {},
                Some(Err(e)) => {
                    proof {
                        lemma_bad_rule_stays(all, i + 1);
                    }
                    return Err(e);
                },
                Some(Ok(rule)) => {
                    let ghost before = rules.deep_view();
                    let ghost model = rule.deep_view();
                    rules.push(rule);
                    assert(rules.deep_view() =~= before.push(model));
                },
            }
            i += 1;
        }
        assert(all.take(all.len() as int) =~= all);
        if rules.len() == 0 {
            assert(rules.deep_view() =~= Seq::empty());
            Ok(None)
        } else {
            Ok(Some(ProxyProtocolAcceptor { rules }))
        }
    }

    fn first_rule(&self, port: u16, bind_ip: Option<IpAddr>) -> (r: Option<&Rule>)
        ensures
            (match r {
                Some(rule) => first_bound(self@, port, bind_ip) == Some(rule.deep_view()),
                None => first_bound(self@, port, bind_ip) is None,
            }),
    {
        let ghost all = self@;
        assert(all.take(0) =~= Seq::empty());
        let mut i: usize = 0;
        while i < self.rules.len()
            invariant
                0 <= i <= self.rules.len(),
                all == self@,
                first_bound(all.take(i as int), port, bind_ip) is None,
            decreases self.rules.len() - i,
        {
            assert(all.take(i + 1).drop_last() =~= all.take(i as int));
            assert(all.take(i + 1).last() == self.rules[i as int].deep_view());
            let rule = &self.rules[i];
            if rule.port == port && same_bind(&rule.bind_ip, &bind_ip) {
                proof {
                    lemma_first_bound_stays(all, port, bind_ip, i + 1);
                }
                return Some(rule);
            }
            i += 1;
        }
        assert(all.take(all.len() as int) =~= all);
        None
    }

    /// The rule for the local (accept-side) address of a connection.
    ///
    /// A rule bound to exactly that address wins over a wildcard rule of the port.
    pub fn rule_for(&self, local: &SocketAddr) -> (r: Option<&Rule>)
        ensures
            (match r {
                Some(rule) => selected(self@, *local) == Some(rule.deep_view()),
                None => selected(self@, *local) is None,
            }),
    {
        match self.first_rule(local.port(), Some(local.ip())) {
            Some(rule) => Some(rule),
            None => self.first_rule(local.port(), None),
        }
    }
}

fn same_bind(a: &Option<IpAddr>, b: &Option<IpAddr>) -> (r: bool)
    ensures
        r == (*a == *b),
{
    match (a, b) {
        (Some(x), Some(y)) => *x == *y,
        (None, None) => true,
        _ => false,
    }
}

/// The first rule of a prefix is the first of all.
proof fn lemma_first_bound_stays(rules: Seq<RuleModel>, port: u16, ip: Option<IpAddr>, n: int)
    requires
        0 <= n <= rules.len(),
        first_bound(rules.take(n), port, ip) is Some,
    ensures
        first_bound(rules, port, ip) == first_bound(rules.take(n), port, ip),
    decreases rules.len(),
{
    if n == rules.len() {
        assert(rules.take(n) =~= rules);
    } else {
        let init = rules.drop_last();
        assert(init.take(n) =~= rules.take(n));
        lemma_first_bound_stays(init, port, ip, n);
    }
}

proof fn lemma_first_bound(rules: Seq<RuleModel>, port: u16, ip: Option<IpAddr>)
    ensures
        (match first_bound(rules, port, ip) {
            Some(r) => r.port == port && r.bind_ip == ip && rules.contains(r),
            None => forall|i: int|
                0 <= i < rules.len() ==> !((#[trigger] rules[i]).port == port && rules[i].bind_ip
                    == ip),
        }),
    decreases rules.len(),
{
    if rules.len() > 0 {
        let init = rules.drop_last();
        lemma_first_bound(init, port, ip);
        match first_bound(init, port, ip) {
            Some(r) => {
                let i = choose|i: int| 0 <= i < init.len() && init[i] == r;
                assert(rules[i] == r);
            },
            None => {
                assert forall|i: int| 0 <= i < rules.len() && i != rules.len() - 1 implies !((
                #[trigger] rules[i]).port == port && rules[i].bind_ip == ip) by {
                    assert(init[i] == rules[i]);
                }
                assert(rules[rules.len() - 1] == rules.last());
            },
        }
    }
}

/// A listener that binds exactly the local address governs the connection, also
/// where a wildcard listener on the same port stands before it.
pub proof fn exact_bind_wins(rules: Seq<RuleModel>, local: SocketAddr, i: int)
    requires
        0 <= i < rules.len(),
        rules[i].port == local.port(),
        rules[i].bind_ip == Some(local.ip()),
    ensures
        selected(rules, local) matches Some(r) && r.bind_ip == Some(local.ip()),
{
    lemma_first_bound(rules, local.port(), Some(local.ip()));
}

/// The rule of a connection is one of its own port.
pub proof fn rules_govern_their_port(rules: Seq<RuleModel>, local: SocketAddr)
    ensures
        selected(rules, local) matches Some(r) ==> r.port == local.port() && rules.contains(r) && (
        r.bind_ip == Some(local.ip()) || r.bind_ip is None),
{
    lemma_first_bound(rules, local.port(), Some(local.ip()));
    lemma_first_bound(rules, local.port(), None);
}

// ---------------------------------------------------------------------------
// Reading a header
// ---------------------------------------------------------------------------

/// What a reader of a header does next.
#[derive(Debug)]
pub enum ReadStep {
    /// The header is complete; not a byte behind it was read.
    Done(ProxyHeader),
    /// Read exactly this many more bytes.
    Read(usize),
    /// The bytes are no PROXY header, for this reason.
    Invalid(String),
}

/// A step as plain values.
pub ghost enum Step {
    Done(ProxyHeader),
    Read(nat),
    Invalid(Seq<char>),
}

impl View for ReadStep {
    type V = Step;

    open spec fn view(&self) -> Step {
        match self {
            ReadStep::Done(h) => Step::Done(*h),
            ReadStep::Read(n) => Step::Read(*n as nat),
            ReadStep::Invalid(m) => Step::Invalid(m@),
        }
    }
}

/// What to do after having read `b`.
///
/// The count of an incomplete v2 header is exact. Where a v1 line ends only its CRLF
/// tells, so such a line is read byte by byte.
#[verifier::opaque]
pub open spec fn step_after(b: Seq<u8>) -> Step {
    match proxy_protocol::decode(b) {
        Ok((h, _)) => Step::Done(h),
        Err(Fault::Incomplete { needed }) => Step::Read(
            if b.len() > 0 && b[0] == 0x50 {
                1
            } else {
                needed
            },
        ),
        Err(f) => Step::Invalid(proxy_protocol::fault_text(f)),
    }
}

/// What a reader that holds `buf` does next.
pub fn read_step(buf: &[u8]) -> (r: ReadStep)
    ensures
        r@ == step_after(buf@),
{
    proof {
        reveal(step_after);
    }
    match proxy_protocol::parse(buf) {
        Ok((header, _)) => ReadStep::Done(header),
        Err(ProxyProtocolError::Incomplete { needed }) => {
            if buf.len() > 0 && buf[0] == 0x50 {
                ReadStep::Read(1)
            } else {
                ReadStep::Read(needed)
            }
        },
        Err(e) => ReadStep::Invalid(e.message()),
    }
}

/// How reading a header from a stream of bytes ends.
pub ghost enum Reading {
    /// A header, and how many bytes were taken from the stream.
    Header(ProxyHeader, int),
    /// The bytes are no header.
    Invalid(Seq<char>),
    /// The stream ends before the header does.
    Starved,
}

/// Reading a header from `s`, of which the first `at` bytes are read.
pub open spec fn read_from(s: Seq<u8>, at: int) -> Reading
    decreases s.len() - at,
{
    match step_after(s.take(at)) {
        Step::Done(h) => Reading::Header(h, at),
        Step::Invalid(m) => Reading::Invalid(m),
        Step::Read(n) => if n == 0 || at < 0 || at + n > s.len() {
            Reading::Starved
        } else {
            read_from(s, at + n)
        },
    }
}

/// Where a header ends in `b`, it ends with it.
#[verifier::opaque]
spec fn is_exact(b: Seq<u8>) -> bool {
    proxy_protocol::decode(b) matches Ok((_, n)) ==> n == b.len()
}

/// `b` is one whole header.
#[verifier::opaque]
spec fn is_whole(b: Seq<u8>, h: ProxyHeader) -> bool {
    b.len() > 0 && proxy_protocol::decode(b) == Decoded::Ok((h, b.len() as int))
}

proof fn lemma_step_done(b: Seq<u8>, h: ProxyHeader)
    requires
        step_after(b) == Step::Done(h),
        is_exact(b),
    ensures
        is_whole(b, h),
{
    reveal(step_after);
    reveal(is_exact);
    reveal(is_whole);
    proxy_protocol::decoded_is_sound(b);
}

proof fn lemma_step_read(b: Seq<u8>, more: Seq<u8>)
    requires
        step_after(b) == Step::Read(more.len()),
    ensures
        is_exact(b + more),
{
    reveal(step_after);
    reveal(is_exact);
    proxy_protocol::reads_are_exact(b, more);
}

/// Every byte that is read belongs to the header: the bytes behind it stay in the
/// stream.
pub proof fn reading_stops_at_the_header(s: Seq<u8>)
    ensures
        read_from(s, 0) matches Reading::Header(h, k) ==> 0 < k <= s.len()
            && proxy_protocol::decode(s.take(k)) == Decoded::Ok((h, k)),
{
    assert(is_exact(s.take(0))) by {
        reveal(is_exact);
    }
    lemma_read_from(s, 0);
    reveal(is_whole);
}

proof fn lemma_read_from(s: Seq<u8>, at: int)
    requires
        0 <= at <= s.len(),
        is_exact(s.take(at)),
    ensures
        read_from(s, at) matches Reading::Header(h, k) ==> 0 <= k <= s.len() && is_whole(
            s.take(k),
            h,
        ),
    decreases s.len() - at,
{
    let step = step_after(s.take(at));
    if let Step::Read(n) = step {
        if n > 0 && at + n <= s.len() {
            assert(s.take(at + n) =~= s.take(at) + s.subrange(at, at + n));
            lemma_step_read(s.take(at), s.subrange(at, at + n));
            lemma_read_from(s, at + n);
        }
    } else if let Step::Done(h) = step {
        lemma_step_done(s.take(at), h);
    }
}

/// Every header at the front of a stream is read, whatever follows it: reading takes
/// exactly its bytes.
pub proof fn header_is_read(s: Seq<u8>)
    ensures
        proxy_protocol::decode(s) matches Ok((h, n)) ==> read_from(s, 0) == Reading::Header(h, n),
{
    if let Ok((h, n)) = proxy_protocol::decode(s) {
        proxy_protocol::decoded_is_sound(s);
        reveal(opens);
        lemma_read_on(s, h, n, 0);
    }
}

/// The first `n` bytes of `s` are the header `h`.
#[verifier::opaque]
spec fn opens(s: Seq<u8>, h: ProxyHeader, n: int) -> bool {
    proxy_protocol::decode(s) == Decoded::Ok((h, n))
}

/// A reader inside a header is told to read on, but not past its end.
proof fn lemma_step_inside(s: Seq<u8>, h: ProxyHeader, n: int, at: int)
    requires
        opens(s, h, n),
        0 <= at <= n,
    ensures
        n <= s.len(),
        at == n ==> step_after(s.take(at)) == Step::Done(h),
        at < n ==> (step_after(s.take(at)) matches Step::Read(k) && 0 < k <= n - at),
{
    reveal(opens);
    reveal(step_after);
    proxy_protocol::decoded_is_sound(s);
    proxy_protocol::header_stands_alone(s, at);
    if at > 0 {
        assert(s.take(at)[0] == s[0]);
    }
}

proof fn lemma_read_on(s: Seq<u8>, h: ProxyHeader, n: int, at: int)
    requires
        opens(s, h, n),
        0 <= at <= n,
    ensures
        read_from(s, at) == Reading::Header(h, n),
    decreases n - at,
{
    lemma_step_inside(s, h, n, at);
    if let Step::Read(k) = step_after(s.take(at)) {
        lemma_read_on(s, h, n, at + k);
    }
}

/// A v2 header is read back, whatever follows it in the stream.
pub proof fn v2_header_is_read(h: ProxyHeader, payload: Seq<u8>)
    requires
        proxy_protocol::representable(h),
    ensures
        read_from(proxy_protocol::v2_bytes(h) + payload, 0) == Reading::Header(
            proxy_protocol::conveyed(h),
            proxy_protocol::v2_bytes(h).len() as int,
        ),
{
    proxy_protocol::v2_round_trip(h, payload);
    header_is_read(proxy_protocol::v2_bytes(h) + payload);
}

/// A v1 line is read back, whatever follows it in the stream.
pub proof fn v1_header_is_read(h: ProxyHeader, payload: Seq<u8>)
    requires
        proxy_protocol::v1_representable(h),
    ensures
        proxy_protocol::encoded_v1(h) matches Ok(e) && read_from(e + payload, 0)
            == Reading::Header(proxy_protocol::conveyed(h), e.len() as int),
{
    proxy_protocol::v1_round_trip(h, payload);
    if let Ok(e) = proxy_protocol::encoded_v1(h) {
        header_is_read(e + payload);
    }
}

// ---------------------------------------------------------------------------
// Decisions
// ---------------------------------------------------------------------------

/// Why a connection is dropped.
#[derive(Debug, Clone, Copy, PartialEq, Eq, Structural)]
pub enum RefusalReason {
    /// The socket has no peer address to hold against the trusted list.
    NoPeer,
    /// The peer is in no trusted block.
    Untrusted,
    /// The header was not complete in time.
    Timeout,
    /// The bytes are no PROXY header, or the connection ended inside one.
    Invalid,
}

/// The code of a reason.
pub open spec fn reason_code(r: RefusalReason) -> Seq<char> {
    match r {
        RefusalReason::NoPeer => "proxy_protocol_no_peer"@,
        RefusalReason::Untrusted => "proxy_protocol_untrusted"@,
        RefusalReason::Timeout => "proxy_protocol_timeout"@,
        RefusalReason::Invalid => "proxy_protocol_invalid"@,
    }
}

impl RefusalReason {
    /// The code under which the drop is reported.
    pub fn code(&self) -> (r: &'static str)
        ensures
            r@ == reason_code(*self),
    {
        match self {
            RefusalReason::NoPeer => "proxy_protocol_no_peer",
            RefusalReason::Untrusted => "proxy_protocol_untrusted",
            RefusalReason::Timeout => "proxy_protocol_timeout",
            RefusalReason::Invalid => "proxy_protocol_invalid",
        }
    }
}

/// A connection that is dropped, with the words for the log.
#[derive(Debug)]
pub struct Refusal {
    /// Why.
    pub reason: RefusalReason,
    /// The context, in words.
    pub context: String,
}

/// A refusal as plain values.
pub ghost struct RefusalModel {
    pub reason: RefusalReason,
    pub context: Seq<char>,
}

impl View for Refusal {
    type V = RefusalModel;

    open spec fn view(&self) -> RefusalModel {
        RefusalModel { reason: self.reason, context: self.context@ }
    }
}

/// A connection whose header is still to be read.
#[derive(Debug)]
pub struct PendingHeader {
    /// Listener id, for messages.
    pub listener_id: String,
    /// The socket peer, which is trusted.
    pub peer: SocketAddr,
    /// Deadline for the complete header, in milliseconds.
    pub timeout_ms: u64,
}

/// A pending header as plain values.
pub ghost struct Pending {
    pub listener: Seq<char>,
    pub peer: SocketAddr,
    pub timeout_ms: u64,
}

impl View for PendingHeader {
    type V = Pending;

    open spec fn view(&self) -> Pending {
        Pending { listener: self.listener_id@, peer: self.peer, timeout_ms: self.timeout_ms }
    }
}

/// What happens to a new connection.
#[derive(Debug)]
pub enum Admission {
    /// No rule governs it: nothing is read and nothing is rewritten.
    PassThrough,
    /// It is dropped before a byte is read.
    Refuse(Refusal),
    /// A header has to come first.
    ReadHeader(PendingHeader),
}

/// An admission as plain values.
pub ghost enum Verdict {
    PassThrough,
    Refuse(RefusalModel),
    ReadHeader(Pending),
}

impl View for Admission {
    type V = Verdict;

    open spec fn view(&self) -> Verdict {
        match self {
            Admission::PassThrough => Verdict::PassThrough,
            Admission::Refuse(r) => Verdict::Refuse(r@),
            Admission::ReadHeader(p) => Verdict::ReadHeader(p@),
        }
    }
}

/// What happens to a connection with these socket addresses.
pub open spec fn verdict(
    rules: Seq<RuleModel>,
    local: Option<SocketAddr>,
    peer: Option<SocketAddr>,
) -> Verdict {
    match local {
        None => Verdict::PassThrough,
        Some(l) => match selected(rules, l) {
            None => Verdict::PassThrough,
            Some(rule) => match peer {
                None => Verdict::Refuse(
                    RefusalModel {
                        reason: RefusalReason::NoPeer,
                        context: "listener '"@ + rule.listener
                            + "': cannot verify PROXY trust without a peer address"@,
                    },
                ),
                Some(p) => if is_trusted(rule.trusted, p.ip()) {
                    Verdict::ReadHeader(
                        Pending {
                            listener: rule.listener,
                            peer: p,
                            timeout_ms: rule.timeout_ms,
                        },
                    )
                } else {
                    Verdict::Refuse(
                        RefusalModel {
                            reason: RefusalReason::Untrusted,
                            context: "listener '"@ + rule.listener + "': peer "@
                                + addr::format_socket(p) + " not in trusted CIDRs"@,
                        },
                    )
                },
            },
        },
    }
}

impl Rule {
    /// The peer may send a header.
    fn trusts(&self, ip: IpAddr) -> (r: bool)
        ensures
            r == is_trusted(self.deep_view().trusted, ip),
    {
        let ghost list = blocks(self.trusted@);
        let mut i: usize = 0;
        while i < self.trusted.len()
            invariant
                0 <= i <= self.trusted.len(),
                list == blocks(self.trusted@),
                forall|j: int| 0 <= j < i ==> !(#[trigger] list[j]).matches(ip),
            decreases self.trusted.len() - i,
        {
            assert(list[i as int] == self.trusted[i as int]@);
            if self.trusted[i].contains(ip) {
                return true;
            }
            i += 1;
        }
        false
    }
}

impl ProxyProtocolAcceptor {
    /// What happens to a connection with these socket addresses. `local` is `None`
    /// for a socket without an internet address.
    pub fn preprocess(&self, local: Option<SocketAddr>, peer: Option<SocketAddr>) -> (r: Admission)
        ensures
            r@ == verdict(self@, local, peer),
    {
        let local = match local {
            None => {
                return Admission::PassThrough;
            },
            Some(l) => l,
        };
        let rule = match self.rule_for(&local) {
            None => {
                return Admission::PassThrough;
            },
            Some(rule) => rule,
        };
        match peer {
            None => {
                let mut m = "listener '".to_owned();
                m.append(rule.listener_id.as_str());
                m.append("': cannot verify PROXY trust without a peer address");
                Admission::Refuse(Refusal { reason: RefusalReason::NoPeer, context: m })
            },
            Some(p) => {
                if rule.trusts(p.ip()) {
                    Admission::ReadHeader(
                        PendingHeader {
                            listener_id: rule.listener_id.clone(),
                            peer: p,
                            timeout_ms: rule.header_timeout_ms,
                        },
                    )
                } else {
                    let shown = p.text();
                    let m = cat5(
                        "listener '",
                        rule.listener_id.as_str(),
                        "': peer ",
                        shown.as_str(),
                        " not in trusted CIDRs",
                    );
                    Admission::Refuse(Refusal { reason: RefusalReason::Untrusted, context: m })
                }
            },
        }
    }
}

/// How reading a header went.
#[derive(Debug)]
pub enum HeaderOutcome {
    /// A complete header came.
    Header(ProxyHeader),
    /// The bytes are no header, for this reason.
    Invalid(String),
    /// The connection ended inside the header, with this error.
    Closed(String),
    /// The deadline passed.
    TimedOut,
}

/// The digits of thousandths behind the point, without trailing zeros.
pub open spec fn thousandths(n: nat) -> Seq<char> {
    if n % 1000 == 0 {
        Seq::empty()
    } else if n % 100 == 0 {
        seq!['.', text::digit_char(n / 100)]
    } else if n % 10 == 0 {
        seq!['.', text::digit_char(n / 100), text::digit_char(n / 10 % 10)]
    } else {
        seq!['.', text::digit_char(n / 100), text::digit_char(n / 10 % 10), text::digit_char(n % 10)]
    }
}

/// A span of milliseconds in words: seconds with up to three decimals from one
/// second on, milliseconds below it.
pub open spec fn span_text(ms: nat) -> Seq<char> {
    if ms >= 1000 {
        text::digits(ms / 1000) + thousandths(ms % 1000) + "s"@
    } else if ms > 0 {
        text::digits(ms) + "ms"@
    } else {
        "0ns"@
    }
}

fn push_digit(out: &mut String, d: u64)
    requires
        d < 10,
    ensures
        final(out)@ == old(out)@.push(text::digit_char(d as nat)),
{
    let c = ((d as u8) + 48) as char;
    assert(c == text::digit_char(d as nat));
    out.push(c);
}

fn span(ms: u64) -> (r: String)
    ensures
        r@ == span_text(ms as nat),
{
    if ms >= 1000 {
        let mut out = text::decimal(ms / 1000);
        let ghost whole = out@;
        let frac: u64 = ms % 1000;
        if frac != 0 {
            out.push('.');
            push_digit(&mut out, frac / 100);
            if frac % 100 != 0 {
                push_digit(&mut out, frac / 10 % 10);
                if frac % 10 != 0 {
                    push_digit(&mut out, frac % 10);
                }
            }
        }
        assert(out@ =~= whole + thousandths(frac as nat));
        out.append("s");
        out
    } else if ms > 0 {
        let mut out = text::decimal(ms);
        out.append("ms");
        out
    } else {
        "0ns".to_owned()
    }
}

/// The words for a header that is none.
pub open spec fn invalid_text(p: Pending, error: Seq<char>) -> Seq<char> {
    "listener '"@ + p.listener + "': invalid PROXY header from "@ + addr::format_socket(p.peer)
        + ": "@ + error
}

/// The peer address to report for a connection once its header is read, or why
/// the connection is dropped.
pub open spec fn conclusion(p: Pending, outcome: HeaderOutcome) -> Result<SocketAddr, RefusalModel> {
    match outcome {
        HeaderOutcome::Header(ProxyHeader::Local) => Ok(p.peer),
        HeaderOutcome::Header(ProxyHeader::Proxy { source, .. }) => Ok(source),
        HeaderOutcome::Invalid(e) => Err(
            RefusalModel { reason: RefusalReason::Invalid, context: invalid_text(p, e@) },
        ),
        HeaderOutcome::Closed(e) => Err(
            RefusalModel {
                reason: RefusalReason::Invalid,
                context: invalid_text(p, "connection closed mid-header: "@ + e@),
            },
        ),
        HeaderOutcome::TimedOut => Err(
            RefusalModel {
                reason: RefusalReason::Timeout,
                context: "listener '"@ + p.listener + "': PROXY header from "@
                    + addr::format_socket(p.peer) + " incomplete after "@ + span_text(
                    p.timeout_ms as nat,
                ),
            },
        ),
    }
}

impl PendingHeader {
    fn invalid(&self, error: &str) -> (r: Refusal)
        ensures
            r@ == (RefusalModel {
                reason: RefusalReason::Invalid,
                context: invalid_text(self@, error@),
            }),
    {
        let shown = self.peer.text();
        let mut m = cat5(
            "listener '",
            self.listener_id.as_str(),
            "': invalid PROXY header from ",
            shown.as_str(),
            ": ",
        );
        m.append(error);
        Refusal { reason: RefusalReason::Invalid, context: m }
    }

    /// The peer address to report, or why the connection is dropped. `LOCAL`
    /// (health checks and the like) keeps the socket peer.
    pub fn conclude(&self, outcome: HeaderOutcome) -> (r: Result<SocketAddr, Refusal>)
        ensures
            (match r {
                Ok(a) => conclusion(self@, outcome) == Result::<SocketAddr, RefusalModel>::Ok(a),
                Err(e) => conclusion(self@, outcome) == Result::<SocketAddr, RefusalModel>::Err(e@),
            }),
    {
        match outcome {
            HeaderOutcome::Header(ProxyHeader::Local) => Ok(self.peer),
            HeaderOutcome::Header(ProxyHeader::Proxy { source, .. }) => Ok(source),
            HeaderOutcome::Invalid(e) => Err(self.invalid(e.as_str())),
            HeaderOutcome::Closed(e) => {
                let mut m = "connection closed mid-header: ".to_owned();
                m.append(e.as_str());
                Err(self.invalid(m.as_str()))
            },
            HeaderOutcome::TimedOut => {
                let shown = self.peer.text();
                let mut m = cat5(
                    "listener '",
                    self.listener_id.as_str(),
                    "': PROXY header from ",
                    shown.as_str(),
                    " incomplete after ",
                );
                m.append(span(self.timeout_ms).as_str());
                Err(Refusal { reason: RefusalReason::Timeout, context: m })
            },
        }
    }
}

/// A header is only ever read from a trusted peer of a listener with a rule; any
/// other peer of such a listener is dropped.
pub proof fn only_trusted_peers_are_heard(
    rules: Seq<RuleModel>,
    local: SocketAddr,
    peer: Option<SocketAddr>,
)
    requires
        selected(rules, local) is Some,
    ensures
        verdict(rules, Some(local), peer) !is PassThrough,
        verdict(rules, Some(local), peer) is ReadHeader <==> peer is Some && is_trusted(
            selected(rules, local)->0.trusted,
            peer->0.ip(),
        ),
{
}

/// A connection to a listener without a rule is left alone.
pub proof fn other_listeners_are_untouched(
    rules: Seq<RuleModel>,
    local: SocketAddr,
    peer: Option<SocketAddr>,
)
    requires
        forall|i: int| 0 <= i < rules.len() ==> (#[trigger] rules[i]).port != local.port(),
    ensures
        verdict(rules, Some(local), peer) is PassThrough,
{
    lemma_first_bound(rules, local.port(), Some(local.ip()));
    lemma_first_bound(rules, local.port(), None);
}

/// Acceptance fails closed: a connection goes on only behind a complete header,
/// and reports the client of that header, or the socket peer for `LOCAL`.
pub proof fn acceptance_fails_closed(p: Pending, outcome: HeaderOutcome)
    ensures
        conclusion(p, outcome) is Ok <==> outcome is Header,
        conclusion(p, outcome) matches Ok(a) ==> (outcome == HeaderOutcome::Header(
            ProxyHeader::Local,
        ) && a == p.peer) || (outcome matches HeaderOutcome::Header(
            ProxyHeader::Proxy { source, .. },
        ) && a == source),
{
}

// ---------------------------------------------------------------------------
// The header for upstream connections
// ---------------------------------------------------------------------------

/// An address with its IP in canonical form.
pub open spec fn canonical_addr(a: SocketAddr) -> SocketAddr {
    addr::socket(addr::canonical(a.ip()), a.port())
}

/// The header that tells an upstream who the client is: the canonical pair of
/// addresses, or `LOCAL` where one is missing or the families differ.
pub open spec fn upstream_header(
    client: Option<SocketAddr>,
    server: Option<SocketAddr>,
) -> ProxyHeader {
    match (client, server) {
        (Some(c), Some(s)) => if proxy_protocol::same_family(canonical_addr(c), canonical_addr(s)) {
            ProxyHeader::Proxy {
                transport: Transport::Stream,
                source: canonical_addr(c),
                destination: canonical_addr(s),
            }
        } else {
            ProxyHeader::Local
        },
        _ => ProxyHeader::Local,
    }
}

/// The bytes that open an upstream connection.
pub open spec fn upstream_bytes(
    version: ProxyProtocolVersion,
    client: Option<SocketAddr>,
    server: Option<SocketAddr>,
) -> Seq<u8> {
    match version {
        ProxyProtocolVersion::V1 => proxy_protocol::encoded_v1(upstream_header(client, server))->Ok_0,
        ProxyProtocolVersion::V2 => proxy_protocol::v2_bytes(upstream_header(client, server)),
    }
}

fn canonical_of(a: SocketAddr) -> (r: SocketAddr)
    ensures
        r == canonical_addr(a),
{
    SocketAddr::new(a.ip().to_canonical(), a.port())
}

/// Encodes the PROXY header that opens a new upstream connection.
///
/// `client` and `server` are the peer address of the downstream connection, after
/// inbound acceptance, and its local address. IPv4-mapped IPv6 addresses count as
/// IPv4. Where an endpoint is missing or the families differ, the upstream gets a
/// `LOCAL`/`UNKNOWN` header and never a made-up client.
pub fn encode_upstream_prefix(
    version: ProxyProtocolVersion,
    client: Option<SocketAddr>,
    server: Option<SocketAddr>,
) -> (r: Bytes)
    ensures
        binary::content(r) == upstream_bytes(version, client, server),
{
    let header = match (client, server) {
        (Some(c), Some(s)) => {
            let source = canonical_of(c);
            let destination = canonical_of(s);
            if source.is_ipv4() == destination.is_ipv4() {
                ProxyHeader::Proxy { transport: Transport::Stream, source, destination }
            } else {
                ProxyHeader::Local
            }
        },
        _ => ProxyHeader::Local,
    };
    assert(header == upstream_header(client, server));
    let encoded = match version {
        ProxyProtocolVersion::V1 => {
            proof {
                proxy_protocol::v1_round_trip(header, Seq::empty());
            }
            match header.encode_v1() {
                Ok(b) => b,
                Err(_) => Vec::new(),
            }
        },
        ProxyProtocolVersion::V2 => header.encode_v2(),
    };
    binary::bytes_from_vec(encoded)
}

/// The upstream reads back exactly the header that was meant for it, in either
/// version and whatever application bytes follow.
pub proof fn upstream_reads_the_header(
    version: ProxyProtocolVersion,
    client: Option<SocketAddr>,
    server: Option<SocketAddr>,
    payload: Seq<u8>,
)
    ensures
        proxy_protocol::decode(upstream_bytes(version, client, server) + payload) == Decoded::Ok(
            (
                upstream_header(client, server),
                upstream_bytes(version, client, server).len() as int,
            ),
        ),
{
    let h = upstream_header(client, server);
    match version {
        ProxyProtocolVersion::V1 => {
            proxy_protocol::v1_round_trip(h, payload);
        },
        ProxyProtocolVersion::V2 => {
            proxy_protocol::v2_round_trip(h, payload);
        },
    }
}

/// The client that a trusted load balancer names is the client that the upstream
/// reads, in canonical form, when the families allow it.
pub proof fn client_address_propagates(
    p: Pending,
    inbound: ProxyHeader,
    version: ProxyProtocolVersion,
    server: SocketAddr,
    payload: Seq<u8>,
)
    requires
        inbound matches ProxyHeader::Proxy { source, .. } && proxy_protocol::same_family(
            canonical_addr(source),
            canonical_addr(server),
        ),
    ensures
        inbound matches ProxyHeader::Proxy { source, .. } && conclusion(
            p,
            HeaderOutcome::Header(inbound),
        ) == Result::<SocketAddr, RefusalModel>::Ok(source) && (proxy_protocol::decode(
            upstream_bytes(version, Some(source), Some(server)) + payload,
        ) matches Ok((ProxyHeader::Proxy { source: seen, .. }, _)) && seen == canonical_addr(
            source,
        )),
{
    if let ProxyHeader::Proxy { source, .. } = inbound {
        upstream_reads_the_header(version, Some(source), Some(server), payload);
    }
}

// ---------------------------------------------------------------------------
// Laws on rules and verdicts
// ---------------------------------------------------------------------------

/// A listener without a `proxy-protocol` block has no rule. One with it has the rule
/// that its address, its list of blocks and its timeout say: the port and the address
/// that it binds, where an unspecified address binds them all.
pub proof fn rule_says_what_the_listener_says(l: ListenerConfig)
    ensures
        l.proxy_protocol is None ==> rule_of(l) is None,
        l.proxy_protocol is Some && addr::parse_socket(l.address@) is None ==> (rule_of(l) matches Some(
            Err(_),
        )),
        l.proxy_protocol matches Some(pp) ==> addr::parse_socket(l.address@) matches Some(a) ==> (
        match rule_of(l) {
            Some(Ok(r)) => {
                &&& r.listener == l.id@
                &&& r.port == a.port()
                &&& r.timeout_ms == pp.header_timeout_ms
                &&& r.bind_ip == (if a.ip() == IpAddr::V4(0) || a.ip() == IpAddr::V6(0) {
                    None
                } else {
                    Some(a.ip())
                })
                &&& r.trusted.len() == pp.trusted@.len()
                &&& forall|i: int|
                    0 <= i < r.trusted.len() ==> net::parse_block(pp.trusted@[i]@) == Result::<
                        Block,
                        net::CidrFault,
                    >::Ok(#[trigger] r.trusted[i])
            },
            Some(Err(_)) => exists|i: int|
                0 <= i < pp.trusted@.len() && net::parse_block((#[trigger] pp.trusted@[i])@) is Err,
            None => false,
        }),
{
    if let Some(pp) = l.proxy_protocol {
        let list = pp.trusted.deep_view();
        lemma_trusted_of(l.id@, list);
        assert forall|i: int| 0 <= i < list.len() implies list[i] == #[trigger] pp.trusted@[i]@ by {}
        if trusted_of(l.id@, list) is Err {
            let i = choose|i: int|
                0 <= i < list.len() && net::parse_block(#[trigger] list[i]) is Err;
            assert(net::parse_block(pp.trusted@[i]@) is Err);
        }
    }
}

proof fn lemma_trusted_of(id: Seq<char>, list: Seq<Seq<char>>)
    ensures
        (match trusted_of(id, list) {
            Ok(bs) => bs.len() == list.len() && forall|i: int|
                0 <= i < list.len() ==> net::parse_block(#[trigger] list[i]) == Result::<
                    Block,
                    net::CidrFault,
                >::Ok(bs[i]),
            Err(_) => exists|i: int|
                0 <= i < list.len() && net::parse_block(#[trigger] list[i]) is Err,
        }),
    decreases list.len(),
{
    if list.len() > 0 {
        let init = list.drop_last();
        lemma_trusted_of(id, init);
        assert(list[list.len() - 1] == list.last());
        assert forall|i: int| 0 <= i < init.len() implies init[i] == #[trigger] list[i] by {}
        match trusted_of(id, init) {
            Err(_) => {
                let i = choose|i: int|
                    0 <= i < init.len() && net::parse_block(#[trigger] init[i]) is Err;
                assert(net::parse_block(list[i]) is Err);
            },
            Ok(bs) => {
                assert forall|i: int| 0 <= i < init.len() implies net::parse_block(#[trigger] list[i])
                    == Result::<Block, net::CidrFault>::Ok(bs[i]) by {
                    assert(net::parse_block(init[i]) == Result::<Block, net::CidrFault>::Ok(bs[i]));
                }
                if net::parse_block(list.last()) is Err {
                    assert(net::parse_block(list[list.len() - 1]) is Err);
                }
            },
        }
    }
}

/// The rules are those of the listeners that have one, in the order of the listeners;
/// a single listener whose rule is wrong makes the whole list wrong.
pub proof fn rules_are_those_of_the_listeners(ls: Seq<ListenerConfig>, l: ListenerConfig)
    ensures
        rules_of(Seq::<ListenerConfig>::empty()) == Result::<Seq<RuleModel>, Seq<char>>::Ok(
            Seq::empty(),
        ),
        rules_of(ls) is Err ==> rules_of(ls.push(l)) == rules_of(ls),
        rules_of(ls) matches Ok(rs) ==> (match rule_of(l) {
            None => rules_of(ls.push(l)) == rules_of(ls),
            Some(Ok(r)) => rules_of(ls.push(l)) == Result::<Seq<RuleModel>, Seq<char>>::Ok(
                rs.push(r),
            ),
            Some(Err(e)) => rules_of(ls.push(l)) == Result::<Seq<RuleModel>, Seq<char>>::Err(e),
        }),
{
    assert(ls.push(l).drop_last() =~= ls);
    assert(ls.push(l).last() == l);
}

/// The rule for a connection: the first that binds its very local address and port,
/// and only if there is none the first on its port that binds every address.
pub proof fn first_fitting_rule_governs(rules: Seq<RuleModel>, local: SocketAddr, i: int)
    requires
        0 <= i < rules.len(),
        rules[i].port == local.port(),
    ensures
        rules[i].bind_ip == Some(local.ip()) && (forall|j: int|
            0 <= j < i ==> !((#[trigger] rules[j]).port == local.port() && rules[j].bind_ip == Some(
                local.ip(),
            ))) ==> selected(rules, local) == Some(rules[i]),
        rules[i].bind_ip is None && (forall|j: int|
            0 <= j < i ==> !((#[trigger] rules[j]).port == local.port() && rules[j].bind_ip is None))
            && (forall|j: int|
            0 <= j < rules.len() ==> !((#[trigger] rules[j]).port == local.port()
                && rules[j].bind_ip == Some(local.ip()))) ==> selected(rules, local) == Some(
            rules[i],
        ),
{
    if rules[i].bind_ip == Some(local.ip()) && (forall|j: int|
        0 <= j < i ==> !((#[trigger] rules[j]).port == local.port() && rules[j].bind_ip == Some(
            local.ip(),
        ))) {
        lemma_first_bound_at(rules, local.port(), Some(local.ip()), i);
    }
    if rules[i].bind_ip is None && (forall|j: int|
        0 <= j < i ==> !((#[trigger] rules[j]).port == local.port() && rules[j].bind_ip is None)) {
        lemma_first_bound_at(rules, local.port(), None, i);
    }
    lemma_first_bound(rules, local.port(), Some(local.ip()));
}

proof fn lemma_first_bound_at(rules: Seq<RuleModel>, port: u16, ip: Option<IpAddr>, i: int)
    requires
        0 <= i < rules.len(),
        rules[i].port == port,
        rules[i].bind_ip == ip,
        forall|j: int| 0 <= j < i ==> !((#[trigger] rules[j]).port == port && rules[j].bind_ip == ip),
    ensures
        first_bound(rules, port, ip) == Some(rules[i]),
    decreases rules.len(),
{
    let init = rules.drop_last();
    if i < init.len() {
        assert forall|j: int| 0 <= j < i implies !((#[trigger] init[j]).port == port
            && init[j].bind_ip == ip) by {
            assert(init[j] == rules[j]);
        }
        lemma_first_bound_at(init, port, ip, i);
    } else {
        lemma_first_bound(init, port, ip);
        if let Some(r) = first_bound(init, port, ip) {
            let j = choose|j: int| 0 <= j < init.len() && init[j] == r;
            assert(rules[j] == r);
        }
    }
}

/// Behind a rule, a peer is heard exactly when one of the blocks that the rule trusts
/// holds its address; its header then has the time that the rule gives. Any other peer,
/// and a socket without a peer address, is refused under its own code.
pub proof fn peers_are_heard_from_trusted_blocks(
    rules: Seq<RuleModel>,
    local: SocketAddr,
    peer: SocketAddr,
    rule: RuleModel,
)
    requires
        selected(rules, local) == Some(rule),
    ensures
        (exists|i: int| 0 <= i < rule.trusted.len() && (#[trigger] rule.trusted[i]).matches(peer.ip()))
            <==> verdict(rules, Some(local), Some(peer)) == Verdict::ReadHeader(
            Pending { listener: rule.listener, peer, timeout_ms: rule.timeout_ms },
        ),
        !(verdict(rules, Some(local), Some(peer)) is ReadHeader) ==> verdict(
            rules,
            Some(local),
            Some(peer),
        ) == Verdict::Refuse(
            RefusalModel {
                reason: RefusalReason::Untrusted,
                context: "listener '"@ + rule.listener + "': peer "@ + addr::format_socket(peer)
                    + " not in trusted CIDRs"@,
            },
        ),
        verdict(rules, Some(local), None) matches Verdict::Refuse(r) && r.reason is NoPeer,
        verdict(rules, None, Some(peer)) is PassThrough,
{
}

/// Every way in which reading a header fails drops the connection, under the code of a
/// timeout where the time ran out and of an invalid header otherwise; a message names
/// the listener and the peer.
pub proof fn failed_headers_have_their_codes(p: Pending, e: String)
    ensures
        conclusion(p, HeaderOutcome::TimedOut) == Result::<SocketAddr, RefusalModel>::Err(
            RefusalModel {
                reason: RefusalReason::Timeout,
                context: "listener '"@ + p.listener + "': PROXY header from "@
                    + addr::format_socket(p.peer) + " incomplete after "@ + span_text(
                    p.timeout_ms as nat,
                ),
            },
        ),
        conclusion(p, HeaderOutcome::Invalid(e)) == Result::<SocketAddr, RefusalModel>::Err(
            RefusalModel {
                reason: RefusalReason::Invalid,
                context: "listener '"@ + p.listener + "': invalid PROXY header from "@
                    + addr::format_socket(p.peer) + ": "@ + e@,
            },
        ),
        conclusion(p, HeaderOutcome::Closed(e)) matches Err(r) && r.reason is Invalid,
        reason_code(RefusalReason::NoPeer) == "proxy_protocol_no_peer"@,
        reason_code(RefusalReason::Untrusted) == "proxy_protocol_untrusted"@,
        reason_code(RefusalReason::Timeout) == "proxy_protocol_timeout"@,
        reason_code(RefusalReason::Invalid) == "proxy_protocol_invalid"@,
{
}

/// A span of time in words: nothing is no nanoseconds, less than a second is in
/// milliseconds, and from there on it is in seconds, with the thousandths behind a point,
/// without zeros at their end.
pub proof fn spans_in_words(n: nat, x: nat, y: nat, z: nat)
    requires
        x < 10 && y < 10 && z < 10,
    ensures
        span_text(0) == seq!['0', 'n', 's'],
        0 < n < 1000 ==> span_text(n) == text::digits(n) + seq!['m', 's'],
        n > 0 ==> span_text(1000 * n) == text::digits(n) + seq!['s'],
        n > 0 && x > 0 ==> span_text(1000 * n + 100 * x) == text::digits(n) + seq!['.']
            + text::digits(x) + seq!['s'],
        n > 0 && y > 0 ==> span_text(1000 * n + 100 * x + 10 * y) == text::digits(n) + seq!['.']
            + text::digits(x) + text::digits(y) + seq!['s'],
        n > 0 && z > 0 ==> span_text(1000 * n + 100 * x + 10 * y + z) == text::digits(n) + seq!['.']
            + text::digits(x) + text::digits(y) + text::digits(z) + seq!['s'],
{
    reveal_strlit("0ns");
    reveal_strlit("ms");
    reveal_strlit("s");
    assert("0ns"@ =~= seq!['0', 'n', 's']);
    assert("ms"@ =~= seq!['m', 's']);
    assert("s"@ =~= seq!['s']);
    assert((1000 * n) / 1000 == n && (1000 * n) % 1000 == 0);
    assert(thousandths(0) =~= Seq::empty());
    assert(text::digits(n) + Seq::<char>::empty() =~= text::digits(n));
    lemma_fraction(n, x, y, z);
    lemma_fraction(n, x, y, 0);
    lemma_fraction(n, x, 0, 0);
    if n > 0 && x > 0 {
        assert(span_text(1000 * n + 100 * x) =~= text::digits(n) + seq!['.'] + text::digits(x)
            + seq!['s']);
    }
    if n > 0 && y > 0 {
        assert(span_text(1000 * n + 100 * x + 10 * y) =~= text::digits(n) + seq!['.']
            + text::digits(x) + text::digits(y) + seq!['s']);
    }
    if n > 0 && z > 0 {
        assert(span_text(1000 * n + 100 * x + 10 * y + z) =~= text::digits(n) + seq!['.']
            + text::digits(x) + text::digits(y) + text::digits(z) + seq!['s']);
    }
}

proof fn lemma_fraction(n: nat, x: nat, y: nat, z: nat)
    requires
        x < 10 && y < 10 && z < 10,
    ensures
        (1000 * n + 100 * x + 10 * y + z) / 1000 == n,
        (1000 * n + 100 * x + 10 * y + z) % 1000 == 100 * x + 10 * y + z,
        (100 * x + 10 * y + z) / 100 == x,
        (100 * x + 10 * y + z) % 100 == 10 * y + z,
        (100 * x + 10 * y + z) / 10 % 10 == y,
        (100 * x + 10 * y + z) % 10 == z,
        text::digits(x) == seq![text::digit_char(x)],
        text::digits(y) == seq![text::digit_char(y)],
        text::digits(z) == seq![text::digit_char(z)],
{
    assert((100 * x + 10 * y + z) / 10 == 10 * x + y);
}

/// The header for an upstream: the two addresses of the connection as they are, where
/// both are IPv4; with an IPv4-mapped client as the IPv4 address that it holds; and
/// `LOCAL` where an address is missing or only one of them is IPv4.
pub proof fn upstream_header_names_the_connection(
    client: SocketAddr,
    server: SocketAddr,
    any: Option<SocketAddr>,
)
    ensures
        upstream_header(None, any) == ProxyHeader::Local,
        upstream_header(any, None) == ProxyHeader::Local,
        client is V4 && server is V4 ==> upstream_header(Some(client), Some(server)) == (
        ProxyHeader::Proxy { transport: Transport::Stream, source: client, destination: server }),
        client matches SocketAddr::V6 { ip, port, .. } ==> server is V4 ==> upstream_header(
            Some(client),
            Some(server),
        ) == (if ip as int / 0x1_0000_0000 == 0xffff {
            ProxyHeader::Proxy {
                transport: Transport::Stream,
                source: SocketAddr::V4 { ip: (ip as int % 0x1_0000_0000) as u32, port },
                destination: server,
            }
        } else {
            ProxyHeader::Local
        }),
        client matches SocketAddr::V6 { ip: c, port: cp, .. } ==> server matches SocketAddr::V6 {
            ip: s,
            port: sp,
            ..
        } ==> c as int / 0x1_0000_0000 != 0xffff ==> s as int / 0x1_0000_0000 != 0xffff
            ==> upstream_header(Some(client), Some(server)) == (ProxyHeader::Proxy {
            transport: Transport::Stream,
            source: SocketAddr::V6 { ip: c, port: cp, flowinfo: 0, scope_id: 0 },
            destination: SocketAddr::V6 { ip: s, port: sp, flowinfo: 0, scope_id: 0 },
        }),
{
    addr::only_mapped_addresses_change(client.ip());
    addr::only_mapped_addresses_change(server.ip());
}

/// The version picks the format: a v1 header opens with `P`, a v2 header with a
/// carriage return.
pub proof fn version_picks_the_format(client: Option<SocketAddr>, server: Option<SocketAddr>)
    ensures
        upstream_bytes(ProxyProtocolVersion::V1, client, server).len() > 0,
        upstream_bytes(ProxyProtocolVersion::V1, client, server)[0] == 0x50,
        upstream_bytes(ProxyProtocolVersion::V2, client, server).len() >= 16,
        upstream_bytes(ProxyProtocolVersion::V2, client, server)[0] == 0x0D,
{
    proxy_protocol::formats_open_differently(upstream_header(client, server));
    lemma_upstream_is_stream(client, server);
}

proof fn lemma_upstream_is_stream(client: Option<SocketAddr>, server: Option<SocketAddr>)
    ensures
        proxy_protocol::v1_representable(upstream_header(client, server)),
{
}

} // verus!
