//! Payloads of the agent protocol: request headers, body chunks and agent
//! responses.
//!
//! A string on the wire is a 16-bit byte count followed by UTF-8. Maps are
//! written in key order, so the encoding of a value is unique.

use crate::binary;
use crate::binary::AgentProtocolError;
use crate::strmap;
use crate::strmap::StringMap;
use crate::text;
use crate::wire;
use bytes::Bytes;
use vstd::prelude::*;
use vstd::slice::*;
use vstd::string::*;
use vstd::utf8::*;

verus! {

/// A value and the bytes behind it, or the message of the fault.
pub type Parsed<T> = Result<(T, Seq<u8>), Seq<char>>;

/// The error carries the message `m`.
pub open spec fn says(e: AgentProtocolError, m: Seq<char>) -> bool {
    e@ == binary::ProtocolFault::InvalidMessage(m)
}

fn invalid(m: &str) -> (r: AgentProtocolError)
    ensures
        says(r, m@),
{
    AgentProtocolError::InvalidMessage(m.to_owned())
}

// ---------------------------------------------------------------------------
// Strings
// ---------------------------------------------------------------------------

/// The byte count fits the length field.
pub open spec fn short(s: Seq<char>) -> bool {
    encode_utf8(s).len() <= 0xffff
}

/// A string on the wire. The length field holds the low 16 bits of the length.
pub open spec fn string_bytes(s: Seq<char>) -> Seq<u8> {
    wire::be16((encode_utf8(s).len() % 0x1_0000) as u16) + encode_utf8(s)
}

/// The string at the front of `b`.
#[verifier::opaque]
pub open spec fn take_string(b: Seq<u8>) -> Parsed<Seq<char>> {
    if b.len() < 2 {
        Err("Missing string length"@)
    } else {
        let n = wire::u16_at(b, 0) as int;
        if b.len() - 2 < n {
            Err("String data truncated"@)
        } else {
            let s = b.subrange(2, 2 + n);
            if valid_utf8(s) {
                Ok((decode_utf8(s), b.skip(2 + n)))
            } else {
                Err("Invalid UTF-8: "@ + text::utf8_error_text(s))
            }
        }
    }
}

fn put_string(buf: &mut Vec<u8>, s: &str)
    ensures
        final(buf)@ == old(buf)@ + string_bytes(s@),
{
    let ghost before = buf@;
    let b = s.as_bytes();
    wire::put_u16(buf, (b.len() % 0x1_0000) as u16);
    wire::put_all(buf, b);
    assert(buf@ =~= before + string_bytes(s@));
}

fn get_string(data: &[u8], pos: usize) -> (r: Result<(String, usize), AgentProtocolError>)
    requires
        pos <= data@.len(),
    ensures
        (match r {
            Ok((s, p)) => pos <= p <= data@.len() && take_string(data@.skip(pos as int)) == Parsed::<
                Seq<char>,
            >::Ok((s@, data@.skip(p as int))),
            Err(e) => take_string(data@.skip(pos as int)) matches Err(m) && says(e, m),
        }),
{
    reveal(take_string);
    let ghost b = data@.skip(pos as int);
    if data.len() - pos < 2 {
        return Err(invalid("Missing string length"));
    }
    let n: usize = wire::read_u16(data, pos) as usize;
    assert(b[0] == data@[pos as int] && b[1] == data@[pos + 1]);
    if data.len() - pos - 2 < n {
        return Err(invalid("String data truncated"));
    }
    let raw = slice_to_vec(slice_subrange(data, pos + 2, pos + 2 + n));
    assert(raw@ =~= b.subrange(2, 2 + n));
    match text::string_from_utf8(raw) {
        Ok(s) => {
            assert(b.skip(2 + n) =~= data@.skip(pos + 2 + n));
            Ok((s, pos + 2 + n))
        },
        Err(t) => {
            let mut m = "Invalid UTF-8: ".to_owned();
            m.append(t.as_str());
            Err(AgentProtocolError::InvalidMessage(m))
        },
    }
}

proof fn lemma_string(s: Seq<char>, rest: Seq<u8>)
    requires
        short(s),
    ensures
        take_string(string_bytes(s) + rest) == Parsed::<Seq<char>>::Ok((s, rest)),
{
    reveal(take_string);
    let e = encode_utf8(s);
    let b = string_bytes(s) + rest;
    let n = (e.len() % 0x1_0000) as u16;
    wire::lemma_be16(n);
    assert(b[0] == wire::be16(n)[0] && b[1] == wire::be16(n)[1]);
    assert(b.subrange(2, 2 + e.len() as int) =~= e);
    assert(b.skip(2 + e.len() as int) =~= rest);
    encode_utf8_valid_utf8(s);
    encode_utf8_decode_utf8(s);
}

proof fn lemma_string_short(b: Seq<u8>)
    ensures
        take_string(b) matches Ok((s, rest)) ==> short(s),
{
    reveal(take_string);
    if take_string(b) is Ok {
        let n = wire::u16_at(b, 0) as int;
        decode_utf8_encode_utf8(b.subrange(2, 2 + n));
    }
}

/// An optional string on the wire: a presence byte, then the string.
pub open spec fn opt_string_bytes(s: Option<Seq<char>>) -> Seq<u8> {
    match s {
        Some(s) => seq![1u8] + string_bytes(s),
        None => seq![0u8],
    }
}

/// The optional string at the front of `b`.
pub open spec fn take_opt_string(b: Seq<u8>) -> Parsed<Option<Seq<char>>> {
    if b.len() < 1 {
        Err("Missing optional string flag"@)
    } else if b[0] != 0 {
        match take_string(b.skip(1)) {
            Ok((s, rest)) => Ok((Some(s), rest)),
            Err(m) => Err(m),
        }
    } else {
        Ok((None, b.skip(1)))
    }
}

fn put_optional_string(buf: &mut Vec<u8>, s: &Option<String>)
    ensures
        final(buf)@ == old(buf)@ + opt_string_bytes(s.deep_view()),
{
    let ghost before = buf@;
    match s {
        Some(s) => {
            buf.push(1);
            put_string(buf, s.as_str());
            assert(buf@ =~= before + (seq![1u8] + string_bytes(s@)));
        },
        None => {
            buf.push(0);
            assert(buf@ =~= before + seq![0u8]);
        },
    }
}

fn get_optional_string(data: &[u8], pos: usize) -> (r: Result<
    (Option<String>, usize),
    AgentProtocolError,
>)
    requires
        pos <= data@.len(),
    ensures
        (match r {
            Ok((s, p)) => pos <= p <= data@.len() && take_opt_string(data@.skip(pos as int))
                == Parsed::<Option<Seq<char>>>::Ok((s.deep_view(), data@.skip(p as int))),
            Err(e) => take_opt_string(data@.skip(pos as int)) matches Err(m) && says(e, m),
        }),
{
    if data.len() - pos < 1 {
        return Err(invalid("Missing optional string flag"));
    }
    assert(data@.skip(pos as int)[0] == data@[pos as int]);
    assert(data@.skip(pos as int).skip(1) =~= data@.skip(pos + 1));
    if data[pos] != 0 {
        match get_string(data, pos + 1) {
            Ok((s, p)) => Ok((Some(s), p)),
            Err(e) => Err(e),
        }
    } else {
        Ok((None, pos + 1))
    }
}

// ---------------------------------------------------------------------------
// Lists of pairs
// ---------------------------------------------------------------------------

/// A name with a value.
pub type Pair = (Seq<char>, Seq<char>);

/// Pairs on the wire.
pub open spec fn pairs_bytes(ps: Seq<Pair>) -> Seq<u8>
    decreases ps.len(),
{
    if ps.len() == 0 {
        Seq::empty()
    } else {
        string_bytes(ps[0].0) + string_bytes(ps[0].1) + pairs_bytes(ps.skip(1))
    }
}

/// The `n` pairs at the front of `b`.
pub open spec fn take_pairs(b: Seq<u8>, n: nat) -> Parsed<Seq<Pair>>
    decreases n,
{
    if n == 0 {
        Ok((Seq::empty(), b))
    } else {
        match take_string(b) {
            Err(m) => Err(m),
            Ok((k, b1)) => match take_string(b1) {
                Err(m) => Err(m),
                Ok((v, b2)) => match take_pairs(b2, (n - 1) as nat) {
                    Err(m) => Err(m),
                    Ok((ps, rest)) => Ok((seq![(k, v)] + ps, rest)),
                },
            },
        }
    }
}

/// Every name and value fits its length field.
pub open spec fn short_pairs(ps: Seq<Pair>) -> bool {
    forall|i: int| 0 <= i < ps.len() ==> short((#[trigger] ps[i]).0) && short(ps[i].1)
}

fn get_pairs(data: &[u8], pos: usize, n: usize) -> (r: Result<
    (Vec<(String, String)>, usize),
    AgentProtocolError,
>)
    requires
        pos <= data@.len(),
    ensures
        (match r {
            Ok((v, p)) => pos <= p <= data@.len() && take_pairs(data@.skip(pos as int), n as nat)
                == Parsed::<Seq<Pair>>::Ok((v.deep_view(), data@.skip(p as int))),
            Err(e) => take_pairs(data@.skip(pos as int), n as nat) matches Err(m) && says(e, m),
        }),
{
    let mut out: Vec<(String, String)> = Vec::new();
    let mut p: usize = pos;
    let mut i: usize = 0;
    let ghost all = take_pairs(data@.skip(pos as int), n as nat);
    assert(match take_pairs(data@.skip(p as int), n as nat) {
        Ok((ps, rest)) => all == Parsed::<Seq<Pair>>::Ok((out.deep_view() + ps, rest)),
        Err(m) => all == Parsed::<Seq<Pair>>::Err(m),
    }) by {
        assert(out.deep_view() =~= Seq::<Pair>::empty());
        match all {
            Ok((ps, rest)) => {
                assert(out.deep_view() + ps =~= ps);
            },
            Err(_) => {},
        }
    }
    while i < n
        invariant
            i <= n,
            pos <= p <= data@.len(),
            all == take_pairs(data@.skip(pos as int), n as nat),
            (match take_pairs(data@.skip(p as int), (n - i) as nat) {
                Ok((ps, rest)) => all == Parsed::<Seq<Pair>>::Ok((out.deep_view() + ps, rest)),
                Err(m) => all == Parsed::<Seq<Pair>>::Err(m),
            }),
        decreases n - i,
    {
        let (k, p1) = match get_string(data, p) {
            Ok(x) => x,
            Err(e) => {
                return Err(e);
            },
        };
        let (v, p2) = match get_string(data, p1) {
            Ok(x) => x,
            Err(e) => {
                return Err(e);
            },
        };
        let ghost before = out.deep_view();
        let ghost kv = (k@, v@);
        out.push((k, v));
        proof {
            assert(out.deep_view() =~= before.push(kv));
            match take_pairs(data@.skip(p2 as int), (n - i - 1) as nat) {
                Ok((ps, rest)) => {
                    assert(before + (seq![kv] + ps) =~= out.deep_view() + ps);
                },
                Err(_) => {},
            }
        }
        p = p2;
        i = i + 1;
    }
    proof {
        assert(out.deep_view() + Seq::<Pair>::empty() =~= out.deep_view());
    }
    Ok((out, p))
}

proof fn lemma_pairs(ps: Seq<Pair>, rest: Seq<u8>)
    requires
        short_pairs(ps),
    ensures
        take_pairs(pairs_bytes(ps) + rest, ps.len()) == Parsed::<Seq<Pair>>::Ok((ps, rest)),
    decreases ps.len(),
{
    if ps.len() == 0 {
        assert(pairs_bytes(ps) + rest =~= rest);
        assert(ps =~= Seq::empty());
    } else {
        let tail = ps.skip(1);
        let (k, v) = ps[0];
        let b = pairs_bytes(ps) + rest;
        let b2 = pairs_bytes(tail) + rest;
        let b1 = string_bytes(v) + b2;
        assert(b =~= string_bytes(k) + b1);
        lemma_string(k, b1);
        lemma_string(v, b2);
        assert forall|i: int| 0 <= i < tail.len() implies short((#[trigger] tail[i]).0) && short(
            tail[i].1,
        ) by {
            assert(tail[i] == ps[i + 1]);
        }
        lemma_pairs(tail, rest);
        assert(seq![(k, v)] + tail =~= ps);
    }
}

proof fn lemma_pairs_short(b: Seq<u8>, n: nat)
    ensures
        take_pairs(b, n) matches Ok((ps, rest)) ==> short_pairs(ps) && ps.len() == n,
    decreases n,
{
    if n > 0 && take_pairs(b, n) is Ok {
        lemma_string_short(b);
        let b1 = take_string(b)->Ok_0.1;
        lemma_string_short(b1);
        let b2 = take_string(b1)->Ok_0.1;
        lemma_pairs_short(b2, (n - 1) as nat);
        let ps = take_pairs(b2, (n - 1) as nat)->Ok_0.0;
        let all = take_pairs(b, n)->Ok_0.0;
        assert forall|i: int| 0 <= i < all.len() implies short((#[trigger] all[i]).0) && short(
            all[i].1,
        ) by {
            if i > 0 {
                assert(all[i] == ps[i - 1]);
            }
        }
    }
}

/// Pairs behind their 16-bit count, of which the low 16 bits are written.
pub open spec fn counted_bytes(ps: Seq<Pair>) -> Seq<u8> {
    wire::be16((ps.len() % 0x1_0000) as u16) + pairs_bytes(ps)
}

/// The counted pairs at the front of `b`; `missing` is the fault without a count.
pub open spec fn take_counted(b: Seq<u8>, missing: Seq<char>) -> Parsed<Seq<Pair>> {
    if b.len() < 2 {
        Err(missing)
    } else {
        take_pairs(b.skip(2), wire::u16_at(b, 0) as nat)
    }
}

fn get_counted(data: &[u8], pos: usize, missing: &str) -> (r: Result<
    (Vec<(String, String)>, usize),
    AgentProtocolError,
>)
    requires
        pos <= data@.len(),
    ensures
        (match r {
            Ok((v, p)) => pos <= p <= data@.len() && take_counted(data@.skip(pos as int), missing@)
                == Parsed::<Seq<Pair>>::Ok((v.deep_view(), data@.skip(p as int))),
            Err(e) => take_counted(data@.skip(pos as int), missing@) matches Err(m) && says(e, m),
        }),
{
    if data.len() - pos < 2 {
        return Err(invalid(missing));
    }
    let n: usize = wire::read_u16(data, pos) as usize;
    proof {
        let b = data@.skip(pos as int);
        assert(b[0] == data@[pos as int] && b[1] == data@[pos + 1]);
        assert(b.skip(2) =~= data@.skip(pos + 2));
    }
    get_pairs(data, pos + 2, n)
}

proof fn lemma_counted(ps: Seq<Pair>, rest: Seq<u8>, missing: Seq<char>)
    requires
        short_pairs(ps),
        ps.len() <= 0xffff,
    ensures
        take_counted(counted_bytes(ps) + rest, missing) == Parsed::<Seq<Pair>>::Ok((ps, rest)),
{
    let n = (ps.len() % 0x1_0000) as u16;
    let b = counted_bytes(ps) + rest;
    wire::lemma_be16(n);
    assert(b[0] == wire::be16(n)[0] && b[1] == wire::be16(n)[1]);
    assert(b.skip(2) =~= pairs_bytes(ps) + rest);
    lemma_pairs(ps, rest);
}

proof fn lemma_counted_short(b: Seq<u8>, missing: Seq<char>)
    ensures
        take_counted(b, missing) matches Ok((ps, rest)) ==> short_pairs(ps) && ps.len() <= 0xffff,
{
    if b.len() >= 2 {
        lemma_pairs_short(b.skip(2), wire::u16_at(b, 0) as nat);
    }
}

// ---------------------------------------------------------------------------
// Maps of single values
// ---------------------------------------------------------------------------

/// The map that binding the pairs in turn yields.
pub open spec fn map_of(ps: Seq<Pair>) -> Seq<Pair>
    decreases ps.len(),
{
    if ps.len() == 0 {
        Seq::empty()
    } else {
        strmap::insert(map_of(ps.drop_last()), ps.last().0, ps.last().1)
    }
}

fn put_map(buf: &mut Vec<u8>, m: &StringMap<String>)
    ensures
        final(buf)@ == old(buf)@ + pairs_bytes(m.deep_view()),
{
    let ghost before = buf@;
    let ghost all = m.deep_view();
    let n = m.len();
    let mut i: usize = 0;
    assert(all.skip(0) =~= all);
    assert(buf@ + pairs_bytes(all) =~= before + pairs_bytes(all));
    while i < n
        invariant
            i <= n == all.len(),
            all == m.deep_view(),
            buf@ + pairs_bytes(all.skip(i as int)) == before + pairs_bytes(all),
        decreases n - i,
    {
        let ghost b0 = buf@;
        put_string(buf, m.key_at(i).as_str());
        put_string(buf, m.value_at(i).as_str());
        proof {
            let p = all[i as int];
            assert(all.skip(i as int)[0] == p);
            assert(all.skip(i as int).skip(1) =~= all.skip(i + 1));
            assert(b0 + (string_bytes(p.0) + string_bytes(p.1) + pairs_bytes(all.skip(i + 1)))
                =~= buf@ + pairs_bytes(all.skip(i + 1)));
        }
        i = i + 1;
    }
    assert(buf@ + pairs_bytes(all.skip(n as int)) =~= buf@);
}

fn build_map(ps: Vec<(String, String)>) -> (r: StringMap<String>)
    ensures
        r.deep_view() == map_of(ps.deep_view()),
{
    let ghost all = ps.deep_view();
    let mut m: StringMap<String> = StringMap::new();
    let mut i: usize = 0;
    while i < ps.len()
        invariant
            i <= ps@.len(),
            all == ps.deep_view(),
            m.deep_view() == map_of(all.take(i as int)),
        decreases ps@.len() - i,
    {
        proof {
            assert(all.take(i + 1).drop_last() =~= all.take(i as int));
            assert(all.take(i + 1).last() == (ps@[i as int].0@, ps@[i as int].1@));
        }
        m.insert(ps[i].0.clone(), ps[i].1.clone());
        i = i + 1;
    }
    assert(all.take(all.len() as int) =~= all);
    m
}

/// Binding the entries of a map in key order yields the map.
proof fn lemma_map_of_sorted(m: Seq<Pair>)
    requires
        strmap::sorted(m),
    ensures
        map_of(m) == m,
    decreases m.len(),
{
    if m.len() > 0 {
        let init = m.drop_last();
        assert forall|i: int, j: int| 0 <= i < j < init.len() implies text::text_lt(
            #[trigger] init[i].0,
            #[trigger] init[j].0,
        ) by {
            assert(init[i] == m[i] && init[j] == m[j]);
        }
        lemma_map_of_sorted(init);
        let k = m.last().0;
        assert forall|j: int| 0 <= j < init.len() implies text::text_lt(#[trigger] init[j].0, k) by {
            assert(init[j] == m[j]);
        }
        strmap::lemma_rank_unique(init, k, init.len() as int);
        assert(strmap::insert(init, k, m.last().1) =~= m);
    } else {
        assert(m =~= Seq::empty());
    }
}

proof fn lemma_insert_short(m: Seq<Pair>, k: Seq<char>, v: Seq<char>)
    requires
        short_pairs(m),
        short(k),
        short(v),
    ensures
        short_pairs(strmap::insert(m, k, v)),
{
    strmap::lemma_rank(m, k);
    let n = strmap::insert(m, k, v);
    let r = strmap::rank(m, k);
    assert forall|i: int| 0 <= i < n.len() implies short((#[trigger] n[i]).0) && short(n[i].1) by {
        if i == r {
            assert(n[i] == (k, v));
        } else if i < r || (r < m.len() && m[r].0 == k) {
            assert(n[i] == m[i]);
        } else {
            assert(n[i] == m[i - 1]);
        }
    }
}

#[verifier::rlimit(40)]
proof fn lemma_map_of(ps: Seq<Pair>)
    requires
        short_pairs(ps),
    ensures
        strmap::sorted(map_of(ps)),
        map_of(ps).len() <= ps.len(),
        ps.len() > 0 ==> map_of(ps).len() > 0,
        short_pairs(map_of(ps)),
    decreases ps.len(),
{
    if ps.len() > 0 {
        let init = ps.drop_last();
        assert forall|i: int| 0 <= i < init.len() implies short((#[trigger] init[i]).0) && short(
            init[i].1,
        ) by {
            assert(init[i] == ps[i]);
        }
        lemma_map_of(init);
        let m = map_of(init);
        let (k, v) = ps.last();
        assert(ps.last() == ps[ps.len() - 1]);
        strmap::lemma_insert_sorted(m, k, v);
        strmap::lemma_rank(m, k);
        lemma_insert_short(m, k, v);
    }
}

// ---------------------------------------------------------------------------
// Request headers
// ---------------------------------------------------------------------------

/// Header names with their values.
pub type HeaderMap = Seq<(Seq<char>, Seq<Seq<char>>)>;

/// The headers with one more value.
pub open spec fn add_value(m: HeaderMap, p: Pair) -> HeaderMap {
    let old_values = match strmap::get(m, p.0) {
        Some(vs) => vs,
        None => Seq::empty(),
    };
    strmap::insert(m, p.0, old_values.push(p.1))
}

/// The headers that a list of name-value pairs stands for: each name with its
/// values in the order of the list.
pub open spec fn headers_of(ps: Seq<Pair>) -> HeaderMap
    decreases ps.len(),
{
    if ps.len() == 0 {
        Seq::empty()
    } else {
        add_value(headers_of(ps.drop_last()), ps.last())
    }
}

/// The values of one name as pairs.
pub open spec fn pairs_of_entry(e: (Seq<char>, Seq<Seq<char>>)) -> Seq<Pair> {
    e.1.map_values(|v: Seq<char>| (e.0, v))
}

/// The headers as name-value pairs, in the order of the names.
pub open spec fn flatten(m: HeaderMap) -> Seq<Pair>
    decreases m.len(),
{
    if m.len() == 0 {
        Seq::empty()
    } else {
        flatten(m.drop_last()) + pairs_of_entry(m.last())
    }
}

/// Binary request headers event.
#[derive(Debug)]
pub struct BinaryRequestHeaders {
    /// Correlation identifier.
    pub correlation_id: String,
    /// HTTP method.
    pub method: String,
    /// Request URI.
    pub uri: String,
    /// Header names with their values.
    pub headers: StringMap<Vec<String>>,
    /// Client address.
    pub client_ip: String,
    /// Client port.
    pub client_port: u16,
}

/// A request headers event as plain values.
#[verifier::ext_equal]
pub ghost struct RequestHeaders {
    pub correlation_id: Seq<char>,
    pub method: Seq<char>,
    pub uri: Seq<char>,
    pub headers: HeaderMap,
    pub client_ip: Seq<char>,
    pub client_port: u16,
}

impl View for BinaryRequestHeaders {
    type V = RequestHeaders;

    open spec fn view(&self) -> RequestHeaders {
        RequestHeaders {
            correlation_id: self.correlation_id@,
            method: self.method@,
            uri: self.uri@,
            headers: self.headers.deep_view(),
            client_ip: self.client_ip@,
            client_port: self.client_port,
        }
    }
}

impl RequestHeaders {
    /// The event on the wire.
    pub open spec fn bytes(self) -> Seq<u8> {
        line_bytes(self.correlation_id, self.method, self.uri) + (counted_bytes(
            flatten(self.headers),
        ) + (string_bytes(self.client_ip) + wire::be16(self.client_port)))
    }

    /// The event survives the wire: every field fits its length field, and
    /// every name has a value.
    pub open spec fn wire_valid(self) -> bool {
        &&& short(self.correlation_id)
        &&& short(self.method)
        &&& short(self.uri)
        &&& short(self.client_ip)
        &&& strmap::sorted(self.headers)
        &&& flatten(self.headers).len() <= 0xffff
        &&& short_pairs(flatten(self.headers))
        &&& forall|i: int| 0 <= i < self.headers.len() ==> (#[trigger] self.headers[i]).1.len() > 0
    }
}

/// Correlation identifier, method and URI on the wire.
pub open spec fn line_bytes(id: Seq<char>, method: Seq<char>, uri: Seq<char>) -> Seq<u8> {
    string_bytes(id) + (string_bytes(method) + string_bytes(uri))
}

/// The three strings at the front of `b`.
pub open spec fn take_line(b: Seq<u8>) -> Parsed<(Seq<char>, Seq<char>, Seq<char>)> {
    match take_string(b) {
        Err(m) => Err(m),
        Ok((id, b)) => match take_string(b) {
            Err(m) => Err(m),
            Ok((method, b)) => match take_string(b) {
                Err(m) => Err(m),
                Ok((uri, b)) => Ok(((id, method, uri), b)),
            },
        },
    }
}

/// The event that the bytes encode.
pub open spec fn decode_request_headers(b: Seq<u8>) -> Result<RequestHeaders, Seq<char>> {
    match take_line(b) {
        Err(m) => Err(m),
        Ok(((correlation_id, method, uri), b)) => match take_counted(b, "Missing header count"@) {
            Err(m) => Err(m),
            Ok((ps, b)) => match take_string(b) {
                Err(m) => Err(m),
                Ok((client_ip, b)) => if b.len() < 2 {
                    Err("Missing client port"@)
                } else {
                    Ok(
                        RequestHeaders {
                            correlation_id,
                            method,
                            uri,
                            headers: headers_of(ps),
                            client_ip,
                            client_port: wire::u16_at(b, 0),
                        },
                    )
                },
            },
        },
    }
}

fn get_line(data: &[u8]) -> (r: Result<(String, String, String, usize), AgentProtocolError>)
    ensures
        (match r {
            Ok((id, method, uri, p)) => p <= data@.len() && take_line(data@) == Parsed::<
                (Seq<char>, Seq<char>, Seq<char>),
            >::Ok(((id@, method@, uri@), data@.skip(p as int))),
            Err(e) => take_line(data@) matches Err(m) && says(e, m),
        }),
{
    assert(data@.skip(0) =~= data@);
    let (id, p) = match get_string(data, 0) {
        Ok(x) => x,
        Err(e) => {
            return Err(e);
        },
    };
    let (method, p) = match get_string(data, p) {
        Ok(x) => x,
        Err(e) => {
            return Err(e);
        },
    };
    let (uri, p) = match get_string(data, p) {
        Ok(x) => x,
        Err(e) => {
            return Err(e);
        },
    };
    Ok((id, method, uri, p))
}

fn build_headers(ps: Vec<(String, String)>) -> (r: StringMap<Vec<String>>)
    ensures
        r.deep_view() == headers_of(ps.deep_view()),
{
    let ghost all = ps.deep_view();
    let mut m: StringMap<Vec<String>> = StringMap::new();
    let mut i: usize = 0;
    while i < ps.len()
        invariant
            i <= ps@.len(),
            all == ps.deep_view(),
            m.deep_view() == headers_of(all.take(i as int)),
        decreases ps@.len() - i,
    {
        let ghost m0 = m.deep_view();
        let ghost p = (ps@[i as int].0@, ps@[i as int].1@);
        proof {
            assert(all.take(i + 1).drop_last() =~= all.take(i as int));
            assert(all.take(i + 1).last() == p);
        }
        let n = m.len();
        let mut values = match m.take(ps[i].0.as_str()) {
            Some(vs) => vs,
            None => Vec::new(),
        };
        let ghost v0 = values.deep_view();
        values.push(ps[i].1.clone());
        proof {
            assert(values.deep_view() =~= v0.push(p.1));
            assert(v0 =~= (match strmap::get(m0, p.0) {
                Some(vs) => vs,
                None => Seq::empty(),
            }));
            if strmap::get(m0, p.0) is Some {
                lemma_replace(m0, p.0, v0.push(p.1));
            }
        }
        m.insert(ps[i].0.clone(), values);
        i = i + 1;
    }
    assert(all.take(all.len() as int) =~= all);
    m
}

/// Taking an entry out and binding its key again replaces its value.
proof fn lemma_replace<W>(m: Seq<(Seq<char>, W)>, k: Seq<char>, v: W)
    requires
        strmap::sorted(m),
        strmap::get(m, k) is Some,
    ensures
        strmap::insert(m.remove(strmap::rank(m, k)), k, v) == strmap::insert(m, k, v),
{
    strmap::lemma_rank(m, k);
    let i = strmap::rank(m, k);
    let n = m.remove(i);
    assert forall|j: int| 0 <= j < i implies text::text_lt(#[trigger] n[j].0, k) by {
        assert(n[j] == m[j]);
    }
    if i < n.len() {
        assert(n[i] == m[i + 1]);
        assert(text::text_lt(m[i].0, m[i + 1].0));
        text::lemma_text_lt_irreflexive(k);
        if text::text_lt(n[i].0, k) {
            text::lemma_text_lt_transitive(k, n[i].0, k);
        }
    }
    strmap::lemma_rank_unique(n, k, i);
    assert(strmap::insert(n, k, v) =~= strmap::insert(m, k, v));
}

fn header_count(m: &StringMap<Vec<String>>) -> (r: u16)
    ensures
        r == flatten(m.deep_view()).len() % 0x1_0000,
{
    let ghost all = m.deep_view();
    let n = m.len();
    let mut i: usize = 0;
    let mut count: u64 = 0;
    while i < n
        invariant
            i <= n == all.len(),
            all == m.deep_view(),
            count < 0x1_0000,
            count == flatten(all.take(i as int)).len() % 0x1_0000,
        decreases n - i,
    {
        proof {
            assert(all.take(i + 1).drop_last() =~= all.take(i as int));
            assert(all.take(i + 1).last() == all[i as int]);
        }
        let values = m.value_at(i);
        assert(values.deep_view().len() == values@.len());
        let k: u64 = (values.len() % 0x1_0000) as u64;
        count = (count + k) % 0x1_0000;
        i = i + 1;
    }
    assert(all.take(all.len() as int) =~= all);
    count as u16
}

fn put_headers(buf: &mut Vec<u8>, m: &StringMap<Vec<String>>)
    ensures
        final(buf)@ == old(buf)@ + pairs_bytes(flatten(m.deep_view())),
{
    let ghost before = buf@;
    let ghost all = m.deep_view();
    let n = m.len();
    let mut i: usize = 0;
    assert(buf@ =~= before + pairs_bytes(flatten(all.take(0))));
    while i < n
        invariant
            i <= n == all.len(),
            all == m.deep_view(),
            buf@ == before + pairs_bytes(flatten(all.take(i as int))),
        decreases n - i,
    {
        let name = m.key_at(i);
        let values = m.value_at(i);
        let ghost e = all[i as int];
        let ghost done = flatten(all.take(i as int));
        let mut j: usize = 0;
        proof {
            assert(all.take(i + 1).drop_last() =~= all.take(i as int));
            assert(all.take(i + 1).last() == e);
            assert(done + pairs_of_entry(e).take(0) =~= done);
        }
        while j < values.len()
            invariant
                j <= values@.len(),
                name@ == e.0,
                values.deep_view() == e.1,
                buf@ == before + pairs_bytes(done + pairs_of_entry(e).take(j as int)),
            decreases values@.len() - j,
        {
            let ghost ps = done + pairs_of_entry(e).take(j as int);
            let ghost b0 = buf@;
            put_string(buf, name.as_str());
            put_string(buf, values[j].as_str());
            proof {
                let p = (e.0, values@[j as int]@);
                assert(values.deep_view()[j as int] == values@[j as int]@);
                assert(done + pairs_of_entry(e).take(j + 1) =~= ps.push(p));
                lemma_pairs_push(ps, p);
                assert(buf@ =~= before + (pairs_bytes(ps) + (string_bytes(p.0) + string_bytes(
                    p.1,
                ))));
            }
            j = j + 1;
        }
        assert(pairs_of_entry(e).take(j as int) =~= pairs_of_entry(e));
        i = i + 1;
    }
    assert(all.take(all.len() as int) =~= all);
}

proof fn lemma_pairs_push(ps: Seq<Pair>, p: Pair)
    ensures
        pairs_bytes(ps.push(p)) == pairs_bytes(ps) + (string_bytes(p.0) + string_bytes(p.1)),
    decreases ps.len(),
{
    let q = ps.push(p);
    if ps.len() == 0 {
        assert(q.skip(1) =~= Seq::<Pair>::empty());
        assert(pairs_bytes(q.skip(1)) =~= Seq::<u8>::empty());
        assert(pairs_bytes(q) =~= pairs_bytes(ps) + (string_bytes(p.0) + string_bytes(p.1)));
    } else {
        lemma_pairs_push(ps.skip(1), p);
        assert(q.skip(1) =~= ps.skip(1).push(p));
        assert(pairs_bytes(q) =~= pairs_bytes(ps) + (string_bytes(p.0) + string_bytes(p.1)));
    }
}

impl BinaryRequestHeaders {
    /// Encode to bytes.
    pub fn encode(&self) -> (r: Bytes)
        ensures
            binary::content(r) == self@.bytes(),
    {
        let mut buf: Vec<u8> = Vec::new();
        put_string(&mut buf, self.correlation_id.as_str());
        put_string(&mut buf, self.method.as_str());
        put_string(&mut buf, self.uri.as_str());
        wire::put_u16(&mut buf, header_count(&self.headers));
        put_headers(&mut buf, &self.headers);
        put_string(&mut buf, self.client_ip.as_str());
        wire::put_u16(&mut buf, self.client_port);
        assert(buf@ =~= self@.bytes());
        binary::bytes_from_vec(buf)
    }

    /// Decode from bytes.
    pub fn decode(data: Bytes) -> (r: Result<BinaryRequestHeaders, AgentProtocolError>)
        ensures
            (match r {
                Ok(x) => decode_request_headers(binary::content(data)) == Result::<
                    RequestHeaders,
                    Seq<char>,
                >::Ok(x@),
                Err(e) => decode_request_headers(binary::content(data)) matches Err(m) && says(
                    e,
                    m,
                ),
            }),
    {
        let d = binary::bytes_as_slice(&data);
        let (correlation_id, method, uri, p) = match get_line(d) {
            Ok(x) => x,
            Err(e) => {
                return Err(e);
            },
        };
        let (pairs, p) = match get_counted(d, p, "Missing header count") {
            Ok(x) => x,
            Err(e) => {
                return Err(e);
            },
        };
        let headers = build_headers(pairs);
        let (client_ip, p) = match get_string(d, p) {
            Ok(x) => x,
            Err(e) => {
                return Err(e);
            },
        };
        if d.len() - p < 2 {
            return Err(invalid("Missing client port"));
        }
        let client_port = wire::read_u16(d, p);
        proof {
            assert(d@.skip(p as int)[0] == d@[p as int] && d@.skip(p as int)[1] == d@[p + 1]);
        }
        Ok(BinaryRequestHeaders { correlation_id, method, uri, headers, client_ip, client_port })
    }
}

proof fn lemma_flatten_push(m: HeaderMap, e: (Seq<char>, Seq<Seq<char>>))
    ensures
        flatten(m.push(e)) == flatten(m) + pairs_of_entry(e),
{
    assert(m.push(e).drop_last() =~= m);
}

/// Reading back the values of the last name of a header map.
proof fn lemma_headers_of_entry(m: HeaderMap, k: Seq<char>, vs: Seq<Seq<char>>)
    requires
        strmap::sorted(m.push((k, vs))),
        headers_of(flatten(m)) == m,
        vs.len() > 0,
    ensures
        headers_of(flatten(m) + pairs_of_entry((k, vs))) == m.push((k, vs)),
    decreases vs.len(),
{
    let e = (k, vs);
    let n = m.push(e);
    let f = flatten(m);
    let ps = f + pairs_of_entry(e);
    let init = vs.drop_last();
    let p = (k, vs.last());
    assert(ps.last() == p);
    assert(ps.drop_last() =~= f + pairs_of_entry((k, init)));
    assert forall|j: int| 0 <= j < m.len() implies text::text_lt(#[trigger] m[j].0, k) by {
        assert(n[j] == m[j]);
        assert(text::text_lt(n[j].0, n[m.len() as int].0));
    }
    if vs.len() == 1 {
        assert(ps.drop_last() =~= f);
        strmap::lemma_rank_unique(m, k, m.len() as int);
        assert(strmap::get(m, k) is None);
        assert(Seq::<Seq<char>>::empty().push(p.1) =~= vs);
        assert(add_value(m, p) =~= n);
    } else {
        let n0 = m.push((k, init));
        assert(strmap::sorted(n0)) by {
            assert forall|i: int, j: int| 0 <= i < j < n0.len() implies text::text_lt(
                #[trigger] n0[i].0,
                #[trigger] n0[j].0,
            ) by {
                assert(n0[i].0 == n[i].0 && n0[j].0 == n[j].0);
            }
        }
        lemma_headers_of_entry(m, k, init);
        strmap::lemma_get_at(n0, m.len() as int);
        assert(init.push(p.1) =~= vs);
        assert(add_value(n0, p) =~= n);
    }
}

/// Reading back the pairs of a header map yields the map.
proof fn lemma_headers_of_flatten(m: HeaderMap)
    requires
        strmap::sorted(m),
        forall|i: int| 0 <= i < m.len() ==> (#[trigger] m[i]).1.len() > 0,
    ensures
        headers_of(flatten(m)) == m,
    decreases m.len(),
{
    if m.len() == 0 {
        assert(m =~= Seq::empty());
    } else {
        let init = m.drop_last();
        let (k, vs) = m.last();
        assert(init.push((k, vs)) =~= m);
        assert forall|i: int, j: int| 0 <= i < j < init.len() implies text::text_lt(
            #[trigger] init[i].0,
            #[trigger] init[j].0,
        ) by {
            assert(init[i] == m[i] && init[j] == m[j]);
        }
        assert forall|i: int| 0 <= i < init.len() implies (#[trigger] init[i]).1.len() > 0 by {
            assert(init[i] == m[i]);
        }
        assert(m[m.len() - 1].1.len() > 0);
        lemma_headers_of_flatten(init);
        lemma_headers_of_entry(init, k, vs);
    }
}

proof fn lemma_line(id: Seq<char>, method: Seq<char>, uri: Seq<char>, rest: Seq<u8>)
    requires
        short(id),
        short(method),
        short(uri),
    ensures
        take_line(line_bytes(id, method, uri) + rest) == Parsed::<
            (Seq<char>, Seq<char>, Seq<char>),
        >::Ok(((id, method, uri), rest)),
{
    let t2 = string_bytes(uri) + rest;
    let t1 = string_bytes(method) + t2;
    assert(line_bytes(id, method, uri) + rest =~= string_bytes(id) + t1);
    lemma_string(id, t1);
    lemma_string(method, t2);
    lemma_string(uri, rest);
}

proof fn lemma_line_short(b: Seq<u8>)
    ensures
        take_line(b) matches Ok((l, rest)) ==> short(l.0) && short(l.1) && short(l.2),
{
    if take_line(b) is Ok {
        lemma_string_short(b);
        let b1 = take_string(b)->Ok_0.1;
        lemma_string_short(b1);
        let b2 = take_string(b1)->Ok_0.1;
        lemma_string_short(b2);
    }
}

/// The parts of an event make the event.
proof fn lemma_request_headers_parts(
    b: Seq<u8>,
    x: RequestHeaders,
    ps: Seq<Pair>,
    b1: Seq<u8>,
    b2: Seq<u8>,
    b3: Seq<u8>,
)
    requires
        take_line(b) == Parsed::<(Seq<char>, Seq<char>, Seq<char>)>::Ok(
            ((x.correlation_id, x.method, x.uri), b1),
        ),
        take_counted(b1, "Missing header count"@) == Parsed::<Seq<Pair>>::Ok((ps, b2)),
        take_string(b2) == Parsed::<Seq<char>>::Ok((x.client_ip, b3)),
        b3.len() >= 2,
        wire::u16_at(b3, 0) == x.client_port,
        headers_of(ps) == x.headers,
    ensures
        decode_request_headers(b) == Result::<RequestHeaders, Seq<char>>::Ok(x),
{
}

/// A request headers event that fits the wire is decoded as it was encoded.
pub proof fn request_headers_round_trip(x: RequestHeaders)
    requires
        x.wire_valid(),
    ensures
        decode_request_headers(x.bytes()) == Result::<RequestHeaders, Seq<char>>::Ok(x),
{
    let ps = flatten(x.headers);
    let t3 = wire::be16(x.client_port);
    let t2 = string_bytes(x.client_ip) + t3;
    let t1 = counted_bytes(ps) + t2;
    let b = x.bytes();
    assert(b == line_bytes(x.correlation_id, x.method, x.uri) + t1);
    lemma_line(x.correlation_id, x.method, x.uri, t1);
    lemma_counted(ps, t2, "Missing header count"@);
    lemma_string(x.client_ip, t3);
    wire::lemma_be16(x.client_port);
    lemma_headers_of_flatten(x.headers);
    lemma_request_headers_parts(b, x, ps, t1, t2, t3);
}

proof fn lemma_flatten_insert(m: HeaderMap, i: int, e: (Seq<char>, Seq<Seq<char>>))
    requires
        0 <= i <= m.len(),
    ensures
        flatten(m.insert(i, e)).len() == flatten(m).len() + e.1.len(),
    decreases m.len(),
{
    let n = m.insert(i, e);
    if i == m.len() {
        assert(n =~= m.push(e));
        lemma_flatten_push(m, e);
    } else {
        lemma_flatten_insert(m.drop_last(), i, e);
        assert(n.drop_last() =~= m.drop_last().insert(i, e));
        assert(n.last() == m.last());
    }
}

proof fn lemma_flatten_update(m: HeaderMap, i: int, e: (Seq<char>, Seq<Seq<char>>))
    requires
        0 <= i < m.len(),
    ensures
        flatten(m.update(i, e)).len() == flatten(m).len() - m[i].1.len() + e.1.len(),
    decreases m.len(),
{
    let n = m.update(i, e);
    if i == m.len() - 1 {
        assert(n.drop_last() =~= m.drop_last());
    } else {
        lemma_flatten_update(m.drop_last(), i, e);
        assert(n.drop_last() =~= m.drop_last().update(i, e));
        assert(n.last() == m.last());
    }
}

/// Every name and value of the map fits its length field.
spec fn short_headers(m: HeaderMap) -> bool {
    forall|i: int|
        0 <= i < m.len() ==> short((#[trigger] m[i]).0) && forall|j: int|
            0 <= j < m[i].1.len() ==> short(#[trigger] m[i].1[j])
}

proof fn lemma_flatten_short(m: HeaderMap)
    requires
        short_headers(m),
    ensures
        short_pairs(flatten(m)),
    decreases m.len(),
{
    if m.len() > 0 {
        let init = m.drop_last();
        assert forall|i: int| 0 <= i < init.len() implies short((#[trigger] init[i]).0) && forall|
            j: int,
        |
            0 <= j < init[i].1.len() ==> short(#[trigger] init[i].1[j]) by {
            assert(init[i] == m[i]);
        }
        lemma_flatten_short(init);
        let f = flatten(m);
        let a = flatten(init);
        let e = m.last();
        assert(e == m[m.len() - 1]);
        assert forall|i: int| 0 <= i < f.len() implies short((#[trigger] f[i]).0) && short(
            f[i].1,
        ) by {
            if i < a.len() {
                assert(f[i] == a[i]);
            } else {
                assert(f[i] == (e.0, e.1[i - a.len()]));
            }
        }
    }
}

proof fn lemma_headers_of(ps: Seq<Pair>)
    requires
        short_pairs(ps),
    ensures
        strmap::sorted(headers_of(ps)),
        flatten(headers_of(ps)).len() == ps.len(),
        short_headers(headers_of(ps)),
        forall|i: int|
            0 <= i < headers_of(ps).len() ==> (#[trigger] headers_of(ps)[i]).1.len() > 0,
    decreases ps.len(),
{
    if ps.len() > 0 {
        let init = ps.drop_last();
        assert forall|i: int| 0 <= i < init.len() implies short((#[trigger] init[i]).0) && short(
            init[i].1,
        ) by {
            assert(init[i] == ps[i]);
        }
        lemma_headers_of(init);
        let m = headers_of(init);
        let (k, v) = ps.last();
        assert(ps.last() == ps[ps.len() - 1]);
        strmap::lemma_rank(m, k);
        let r = strmap::rank(m, k);
        let old_values = match strmap::get(m, k) {
            Some(vs) => vs,
            None => Seq::empty(),
        };
        let e = (k, old_values.push(v));
        let n = headers_of(ps);
        strmap::lemma_insert_sorted(m, k, old_values.push(v));
        let found = r < m.len() && m[r].0 == k;
        if found {
            lemma_flatten_update(m, r, e);
        } else {
            lemma_flatten_insert(m, r, e);
        }
        assert forall|i: int| 0 <= i < n.len() implies short((#[trigger] n[i]).0) && (forall|
            j: int,
        |
            0 <= j < n[i].1.len() ==> short(#[trigger] n[i].1[j])) && n[i].1.len() > 0 by {
            if i == r {
                assert(n[i] == e);
                assert forall|j: int| 0 <= j < e.1.len() implies short(#[trigger] e.1[j]) by {
                    if j < old_values.len() {
                        assert(e.1[j] == m[r].1[j]);
                    }
                }
            } else if i < r || found {
                assert(n[i] == m[i]);
            } else {
                assert(n[i] == m[i - 1]);
            }
        }
    }
}

/// What decoding yields fits the wire, so it can be encoded again and decodes
/// to itself.
pub proof fn decoded_request_headers_reencode(b: Seq<u8>)
    ensures
        decode_request_headers(b) matches Ok(x) ==> x.wire_valid() && decode_request_headers(
            x.bytes(),
        ) == Result::<RequestHeaders, Seq<char>>::Ok(x),
{
    if let Ok(x) = decode_request_headers(b) {
        lemma_line_short(b);
        let b1 = take_line(b)->Ok_0.1;
        lemma_counted_short(b1, "Missing header count"@);
        let (ps, b2) = take_counted(b1, "Missing header count"@)->Ok_0;
        lemma_string_short(b2);
        lemma_headers_of(ps);
        lemma_flatten_short(x.headers);
        request_headers_round_trip(x);
    }
}

// ---------------------------------------------------------------------------
// Body chunks
// ---------------------------------------------------------------------------

/// Binary body chunk event: raw bytes, no base64.
#[derive(Debug)]
pub struct BinaryBodyChunk {
    /// Correlation identifier.
    pub correlation_id: String,
    /// Position of the chunk.
    pub chunk_index: u32,
    /// True for the last chunk.
    pub is_last: bool,
    /// The bytes of the chunk.
    pub data: Bytes,
}

/// A body chunk as plain values.
#[verifier::ext_equal]
pub ghost struct BodyChunk {
    pub correlation_id: Seq<char>,
    pub chunk_index: u32,
    pub is_last: bool,
    pub data: Seq<u8>,
}

impl View for BinaryBodyChunk {
    type V = BodyChunk;

    open spec fn view(&self) -> BodyChunk {
        BodyChunk {
            correlation_id: self.correlation_id@,
            chunk_index: self.chunk_index,
            is_last: self.is_last,
            data: binary::content(self.data),
        }
    }
}

/// A flag on the wire.
pub open spec fn flag(b: bool) -> u8 {
    if b {
        1
    } else {
        0
    }
}

impl BodyChunk {
    /// The chunk on the wire. The length field holds the low 32 bits.
    pub open spec fn bytes(self) -> Seq<u8> {
        string_bytes(self.correlation_id) + (wire::be32(self.chunk_index) + seq![flag(self.is_last)]
            + wire::be32((self.data.len() % 0x1_0000_0000) as u32) + self.data)
    }

    /// The chunk survives the wire: both lengths fit their fields.
    pub open spec fn wire_valid(self) -> bool {
        short(self.correlation_id) && self.data.len() <= 0xffff_ffff
    }
}

/// The chunk that the bytes encode.
pub open spec fn decode_body_chunk(b: Seq<u8>) -> Result<BodyChunk, Seq<char>> {
    match take_string(b) {
        Err(m) => Err(m),
        Ok((correlation_id, b)) => if b.len() < 9 {
            Err("Missing body chunk fields"@)
        } else {
            let n = wire::u32_at(b, 5);
            if b.len() - 9 < n {
                Err("Body data truncated"@)
            } else {
                Ok(
                    BodyChunk {
                        correlation_id,
                        chunk_index: wire::u32_at(b, 0),
                        is_last: b[4] != 0,
                        data: b.subrange(9, 9 + n),
                    },
                )
            }
        },
    }
}

impl BinaryBodyChunk {
    /// Encode to bytes.
    pub fn encode(&self) -> (r: Bytes)
        ensures
            binary::content(r) == self@.bytes(),
    {
        let body = binary::bytes_as_slice(&self.data);
        let mut buf: Vec<u8> = Vec::new();
        put_string(&mut buf, self.correlation_id.as_str());
        wire::put_u32(&mut buf, self.chunk_index);
        buf.push(
            if self.is_last {
                1
            } else {
                0
            },
        );
        wire::put_u32(&mut buf, (body.len() as u64 % 0x1_0000_0000) as u32);
        wire::put_all(&mut buf, body);
        assert(buf@ =~= self@.bytes());
        binary::bytes_from_vec(buf)
    }

    /// Decode from bytes; the chunk shares the buffer.
    pub fn decode(data: Bytes) -> (r: Result<BinaryBodyChunk, AgentProtocolError>)
        ensures
            (match r {
                Ok(x) => decode_body_chunk(binary::content(data)) == Result::<
                    BodyChunk,
                    Seq<char>,
                >::Ok(x@),
                Err(e) => decode_body_chunk(binary::content(data)) matches Err(m) && says(e, m),
            }),
    {
        let d = binary::bytes_as_slice(&data);
        assert(d@.skip(0) =~= d@);
        let (correlation_id, p) = match get_string(d, 0) {
            Ok(x) => x,
            Err(e) => {
                return Err(e);
            },
        };
        let ghost b = d@.skip(p as int);
        if d.len() - p < 9 {
            return Err(invalid("Missing body chunk fields"));
        }
        assert forall|i: int| 0 <= i < 9 implies b[i] == d@[p + i] by {}
        let chunk_index = wire::read_u32(d, p);
        let is_last = d[p + 4] != 0;
        let n: usize = wire::read_u32(d, p + 5) as usize;
        if d.len() - p - 9 < n {
            return Err(invalid("Body data truncated"));
        }
        let body = binary::bytes_slice(&data, p + 9, p + 9 + n);
        assert(b.subrange(9, 9 + n) =~= d@.subrange(p + 9, p + 9 + n));
        Ok(BinaryBodyChunk { correlation_id, chunk_index, is_last, data: body })
    }
}

/// A body chunk that fits the wire is decoded as it was encoded.
pub proof fn body_chunk_round_trip(x: BodyChunk)
    requires
        x.wire_valid(),
    ensures
        decode_body_chunk(x.bytes()) == Result::<BodyChunk, Seq<char>>::Ok(x),
{
    let n = (x.data.len() % 0x1_0000_0000) as u32;
    let b = wire::be32(x.chunk_index) + seq![flag(x.is_last)] + wire::be32(n) + x.data;
    lemma_string(x.correlation_id, b);
    wire::lemma_be32(x.chunk_index);
    wire::lemma_be32(n);
    let c = wire::be32(x.chunk_index);
    let l = wire::be32(n);
    assert(b[0] == c[0] && b[1] == c[1] && b[2] == c[2] && b[3] == c[3]);
    assert(b[4] == flag(x.is_last));
    assert(b[5] == l[0] && b[6] == l[1] && b[7] == l[2] && b[8] == l[3]);
    assert(b.subrange(9, 9 + n as int) =~= x.data);
}

/// What decoding yields fits the wire, so it can be encoded again and decodes
/// to itself.
pub proof fn decoded_body_chunk_reencodes(b: Seq<u8>)
    ensures
        decode_body_chunk(b) matches Ok(x) ==> x.wire_valid() && decode_body_chunk(x.bytes())
            == Result::<BodyChunk, Seq<char>>::Ok(x),
{
    if let Ok(x) = decode_body_chunk(b) {
        lemma_string_short(b);
        body_chunk_round_trip(x);
    }
}

// ---------------------------------------------------------------------------
// Header operations
// ---------------------------------------------------------------------------

/// A change to a header.
#[derive(Debug, PartialEq, Eq)]
pub enum HeaderOp {
    /// Replace the header.
    Replace {
        /// Header name.
        name: String,
        /// New value.
        value: String,
    },
    /// Add a value.
    Add {
        /// Header name.
        name: String,
        /// Added value.
        value: String,
    },
    /// Remove the header.
    Remove {
        /// Header name.
        name: String,
    },
}

/// A header operation as plain values.
pub ghost enum Op {
    Replace { name: Seq<char>, value: Seq<char> },
    Add { name: Seq<char>, value: Seq<char> },
    Remove { name: Seq<char> },
}

impl DeepView for HeaderOp {
    type V = Op;

    open spec fn deep_view(&self) -> Op {
        match self {
            HeaderOp::Replace { name, value } => Op::Replace { name: name@, value: value@ },
            HeaderOp::Add { name, value } => Op::Add { name: name@, value: value@ },
            HeaderOp::Remove { name } => Op::Remove { name: name@ },
        }
    }
}

/// Every string of the operation fits its length field.
pub open spec fn short_op(op: Op) -> bool {
    match op {
        Op::Replace { name, value } => short(name) && short(value),
        Op::Add { name, value } => short(name) && short(value),
        Op::Remove { name } => short(name),
    }
}

/// An operation on the wire.
pub open spec fn op_bytes(op: Op) -> Seq<u8> {
    match op {
        Op::Replace { name, value } => seq![0u8] + (string_bytes(name) + string_bytes(value)),
        Op::Add { name, value } => seq![1u8] + (string_bytes(name) + string_bytes(value)),
        Op::Remove { name } => seq![2u8] + string_bytes(name),
    }
}

/// The operation at the front of `b`.
#[verifier::opaque]
pub open spec fn take_op(b: Seq<u8>) -> Parsed<Op> {
    if b.len() < 1 {
        Err("Missing header op type"@)
    } else if b[0] > 2 {
        Err("Unknown header op type: "@ + text::digits(b[0] as nat))
    } else {
        match take_string(b.skip(1)) {
            Err(m) => Err(m),
            Ok((name, b1)) => if b[0] == 2 {
                Ok((Op::Remove { name }, b1))
            } else {
                match take_string(b1) {
                    Err(m) => Err(m),
                    Ok((value, b2)) => if b[0] == 0 {
                        Ok((Op::Replace { name, value }, b2))
                    } else {
                        Ok((Op::Add { name, value }, b2))
                    },
                }
            },
        }
    }
}

/// Operations on the wire.
pub open spec fn ops_bytes(ops: Seq<Op>) -> Seq<u8>
    decreases ops.len(),
{
    if ops.len() == 0 {
        Seq::empty()
    } else {
        op_bytes(ops[0]) + ops_bytes(ops.skip(1))
    }
}

/// The `n` operations at the front of `b`.
pub open spec fn take_ops(b: Seq<u8>, n: nat) -> Parsed<Seq<Op>>
    decreases n,
{
    if n == 0 {
        Ok((Seq::empty(), b))
    } else {
        match take_op(b) {
            Err(m) => Err(m),
            Ok((op, b1)) => match take_ops(b1, (n - 1) as nat) {
                Err(m) => Err(m),
                Ok((ops, rest)) => Ok((seq![op] + ops, rest)),
            },
        }
    }
}

/// Operations behind their 16-bit count, of which the low 16 bits are written.
pub open spec fn counted_ops_bytes(ops: Seq<Op>) -> Seq<u8> {
    wire::be16((ops.len() % 0x1_0000) as u16) + ops_bytes(ops)
}

/// The counted operations at the front of `b`.
#[verifier::opaque]
pub open spec fn take_counted_ops(b: Seq<u8>, missing: Seq<char>) -> Parsed<Seq<Op>> {
    if b.len() < 2 {
        Err(missing)
    } else {
        take_ops(b.skip(2), wire::u16_at(b, 0) as nat)
    }
}

fn encode_header_op(buf: &mut Vec<u8>, op: &HeaderOp)
    ensures
        final(buf)@ == old(buf)@ + op_bytes(op.deep_view()),
{
    let ghost before = buf@;
    match op {
        HeaderOp::Replace { name, value } => {
            buf.push(0);
            put_string(buf, name.as_str());
            put_string(buf, value.as_str());
        },
        HeaderOp::Add { name, value } => {
            buf.push(1);
            put_string(buf, name.as_str());
            put_string(buf, value.as_str());
        },
        HeaderOp::Remove { name } => {
            buf.push(2);
            put_string(buf, name.as_str());
        },
    }
    assert(buf@ =~= before + op_bytes(op.deep_view()));
}

fn decode_header_op(data: &[u8], pos: usize) -> (r: Result<(HeaderOp, usize), AgentProtocolError>)
    requires
        pos <= data@.len(),
    ensures
        (match r {
            Ok((op, p)) => pos <= p <= data@.len() && take_op(data@.skip(pos as int)) == Parsed::<
                Op,
            >::Ok((op.deep_view(), data@.skip(p as int))),
            Err(e) => take_op(data@.skip(pos as int)) matches Err(m) && says(e, m),
        }),
{
    reveal(take_op);
    if data.len() - pos < 1 {
        return Err(invalid("Missing header op type"));
    }
    let op_type = data[pos];
    proof {
        assert(data@.skip(pos as int)[0] == op_type);
        assert(data@.skip(pos as int).skip(1) =~= data@.skip(pos + 1));
    }
    if op_type > 2 {
        let mut m = "Unknown header op type: ".to_owned();
        text::push_decimal(&mut m, op_type as u64);
        return Err(AgentProtocolError::InvalidMessage(m));
    }
    let (name, p) = match get_string(data, pos + 1) {
        Ok(x) => x,
        Err(e) => {
            return Err(e);
        },
    };
    if op_type == 2 {
        return Ok((HeaderOp::Remove { name }, p));
    }
    let (value, p) = match get_string(data, p) {
        Ok(x) => x,
        Err(e) => {
            return Err(e);
        },
    };
    if op_type == 0 {
        Ok((HeaderOp::Replace { name, value }, p))
    } else {
        Ok((HeaderOp::Add { name, value }, p))
    }
}

fn put_ops(buf: &mut Vec<u8>, ops: &Vec<HeaderOp>)
    ensures
        final(buf)@ == old(buf)@ + counted_ops_bytes(ops.deep_view()),
{
    let ghost all = ops.deep_view();
    let ghost b00 = buf@;
    wire::put_u16(buf, (ops.len() % 0x1_0000) as u16);
    let ghost before = buf@;
    let mut i: usize = 0;
    assert(all.skip(0) =~= all);
    while i < ops.len()
        invariant
            i <= ops@.len(),
            all == ops.deep_view(),
            buf@ + ops_bytes(all.skip(i as int)) == before + ops_bytes(all),
        decreases ops@.len() - i,
    {
        let ghost b0 = buf@;
        encode_header_op(buf, &ops[i]);
        proof {
            let op = ops@[i as int].deep_view();
            assert(all.skip(i as int)[0] == op);
            assert(all.skip(i as int).skip(1) =~= all.skip(i + 1));
            assert(b0 + (op_bytes(op) + ops_bytes(all.skip(i + 1))) =~= buf@ + ops_bytes(
                all.skip(i + 1),
            ));
        }
        i = i + 1;
    }
    proof {
        assert(all.skip(i as int) =~= Seq::empty());
        assert(buf@ =~= before + ops_bytes(all));
        assert(buf@ =~= b00 + counted_ops_bytes(all));
    }
}

fn get_ops(data: &[u8], pos: usize, missing: &str) -> (r: Result<
    (Vec<HeaderOp>, usize),
    AgentProtocolError,
>)
    requires
        pos <= data@.len(),
    ensures
        (match r {
            Ok((v, p)) => pos <= p <= data@.len() && take_counted_ops(
                data@.skip(pos as int),
                missing@,
            ) == Parsed::<Seq<Op>>::Ok((v.deep_view(), data@.skip(p as int))),
            Err(e) => take_counted_ops(data@.skip(pos as int), missing@) matches Err(m) && says(
                e,
                m,
            ),
        }),
{
    reveal(take_counted_ops);
    if data.len() - pos < 2 {
        return Err(invalid(missing));
    }
    let n: usize = wire::read_u16(data, pos) as usize;
    let ghost all = take_ops(data@.skip(pos + 2), n as nat);
    proof {
        let b = data@.skip(pos as int);
        assert(b[0] == data@[pos as int] && b[1] == data@[pos + 1]);
        assert(b.skip(2) =~= data@.skip(pos + 2));
    }
    let mut out: Vec<HeaderOp> = Vec::new();
    let mut p: usize = pos + 2;
    let mut i: usize = 0;
    assert(match take_ops(data@.skip(p as int), n as nat) {
        Ok((ops, rest)) => all == Parsed::<Seq<Op>>::Ok((out.deep_view() + ops, rest)),
        Err(m) => all == Parsed::<Seq<Op>>::Err(m),
    }) by {
        assert(out.deep_view() =~= Seq::<Op>::empty());
        match all {
            Ok((ops, rest)) => {
                assert(out.deep_view() + ops =~= ops);
            },
            Err(_) => {},
        }
    }
    while i < n
        invariant
            i <= n,
            pos <= p <= data@.len(),
            all == take_ops(data@.skip(pos + 2), n as nat),
            all == take_counted_ops(data@.skip(pos as int), missing@),
            (match take_ops(data@.skip(p as int), (n - i) as nat) {
                Ok((ops, rest)) => all == Parsed::<Seq<Op>>::Ok((out.deep_view() + ops, rest)),
                Err(m) => all == Parsed::<Seq<Op>>::Err(m),
            }),
        decreases n - i,
    {
        let (op, p1) = match decode_header_op(data, p) {
            Ok(x) => x,
            Err(e) => {
                return Err(e);
            },
        };
        let ghost before = out.deep_view();
        let ghost ov = op.deep_view();
        out.push(op);
        proof {
            assert(out.deep_view() =~= before.push(ov));
            match take_ops(data@.skip(p1 as int), (n - i - 1) as nat) {
                Ok((ops, rest)) => {
                    assert(before + (seq![ov] + ops) =~= out.deep_view() + ops);
                },
                Err(_) => {},
            }
        }
        p = p1;
        i = i + 1;
    }
    proof {
        assert(out.deep_view() + Seq::<Op>::empty() =~= out.deep_view());
    }
    Ok((out, p))
}

proof fn lemma_op(op: Op, rest: Seq<u8>)
    requires
        short_op(op),
    ensures
        take_op(op_bytes(op) + rest) == Parsed::<Op>::Ok((op, rest)),
{
    reveal(take_op);
    let b = op_bytes(op) + rest;
    match op {
        Op::Replace { name, value } => {
            assert(b.skip(1) =~= string_bytes(name) + (string_bytes(value) + rest));
            lemma_string(name, string_bytes(value) + rest);
            lemma_string(value, rest);
        },
        Op::Add { name, value } => {
            assert(b.skip(1) =~= string_bytes(name) + (string_bytes(value) + rest));
            lemma_string(name, string_bytes(value) + rest);
            lemma_string(value, rest);
        },
        Op::Remove { name } => {
            assert(b.skip(1) =~= string_bytes(name) + rest);
            lemma_string(name, rest);
        },
    }
}

proof fn lemma_op_short(b: Seq<u8>)
    ensures
        take_op(b) matches Ok((op, rest)) ==> short_op(op),
{
    reveal(take_op);
    if take_op(b) is Ok {
        lemma_string_short(b.skip(1));
        let b1 = take_string(b.skip(1))->Ok_0.1;
        lemma_string_short(b1);
    }
}

/// Every operation fits its length fields.
pub open spec fn short_ops(ops: Seq<Op>) -> bool {
    forall|i: int| 0 <= i < ops.len() ==> short_op(#[trigger] ops[i])
}

proof fn lemma_ops(ops: Seq<Op>, rest: Seq<u8>)
    requires
        short_ops(ops),
    ensures
        take_ops(ops_bytes(ops) + rest, ops.len()) == Parsed::<Seq<Op>>::Ok((ops, rest)),
    decreases ops.len(),
{
    if ops.len() == 0 {
        assert(ops_bytes(ops) + rest =~= rest);
        assert(ops =~= Seq::empty());
    } else {
        let tail = ops.skip(1);
        let b1 = ops_bytes(tail) + rest;
        assert(ops_bytes(ops) + rest =~= op_bytes(ops[0]) + b1);
        lemma_op(ops[0], b1);
        assert forall|i: int| 0 <= i < tail.len() implies short_op(#[trigger] tail[i]) by {
            assert(tail[i] == ops[i + 1]);
        }
        lemma_ops(tail, rest);
        assert(seq![ops[0]] + tail =~= ops);
    }
}

proof fn lemma_ops_short(b: Seq<u8>, n: nat)
    ensures
        take_ops(b, n) matches Ok((ops, rest)) ==> short_ops(ops) && ops.len() == n,
    decreases n,
{
    if n > 0 && take_ops(b, n) is Ok {
        lemma_op_short(b);
        let b1 = take_op(b)->Ok_0.1;
        lemma_ops_short(b1, (n - 1) as nat);
        let tail = take_ops(b1, (n - 1) as nat)->Ok_0.0;
        let all = take_ops(b, n)->Ok_0.0;
        assert forall|i: int| 0 <= i < all.len() implies short_op(#[trigger] all[i]) by {
            if i > 0 {
                assert(all[i] == tail[i - 1]);
            }
        }
    }
}

proof fn lemma_counted_ops(ops: Seq<Op>, rest: Seq<u8>, missing: Seq<char>)
    requires
        short_ops(ops),
        ops.len() <= 0xffff,
    ensures
        take_counted_ops(counted_ops_bytes(ops) + rest, missing) == Parsed::<Seq<Op>>::Ok(
            (ops, rest),
        ),
{
    reveal(take_counted_ops);
    let n = (ops.len() % 0x1_0000) as u16;
    let b = counted_ops_bytes(ops) + rest;
    wire::lemma_be16(n);
    assert(b[0] == wire::be16(n)[0] && b[1] == wire::be16(n)[1]);
    assert(b.skip(2) =~= ops_bytes(ops) + rest);
    lemma_ops(ops, rest);
}

proof fn lemma_counted_ops_short(b: Seq<u8>, missing: Seq<char>)
    ensures
        take_counted_ops(b, missing) matches Ok((ops, rest)) ==> short_ops(ops) && ops.len()
            <= 0xffff,
{
    reveal(take_counted_ops);
    if b.len() >= 2 {
        lemma_ops_short(b.skip(2), wire::u16_at(b, 0) as nat);
    }
}

// ---------------------------------------------------------------------------
// Decisions
// ---------------------------------------------------------------------------

/// What an agent decides about a request.
#[derive(Debug, PartialEq, Eq)]
pub enum Decision {
    /// Let the request pass.
    Allow,
    /// Answer the request with an error.
    Block {
        /// HTTP status.
        status: u16,
        /// Body of the answer.
        body: Option<String>,
        /// Headers of the answer.
        headers: Option<StringMap<String>>,
    },
    /// Send the client elsewhere.
    Redirect {
        /// Target.
        url: String,
        /// HTTP status.
        status: u16,
    },
    /// Ask the client for a proof.
    Challenge {
        /// Kind of challenge.
        challenge_type: String,
        /// Parameters of the challenge.
        params: StringMap<String>,
    },
}

/// A decision as plain values.
pub ghost enum Verdict {
    Allow,
    Block { status: u16, body: Option<Seq<char>>, headers: Option<Seq<Pair>> },
    Redirect { url: Seq<char>, status: u16 },
    Challenge { challenge_type: Seq<char>, params: Seq<Pair> },
}

impl View for Decision {
    type V = Verdict;

    open spec fn view(&self) -> Verdict {
        match self {
            Decision::Allow => Verdict::Allow,
            Decision::Block { status, body, headers } => Verdict::Block {
                status: *status,
                body: body.deep_view(),
                headers: headers.deep_view(),
            },
            Decision::Redirect { url, status } => Verdict::Redirect { url: url@, status: *status },
            Decision::Challenge { challenge_type, params } => Verdict::Challenge {
                challenge_type: challenge_type@,
                params: params.deep_view(),
            },
        }
    }
}

/// A map of single values survives the wire.
pub open spec fn valid_map(m: Seq<Pair>) -> bool {
    strmap::sorted(m) && short_pairs(m) && m.len() <= 0xffff
}

impl Verdict {
    /// The decision survives the wire. An empty map of block headers does not:
    /// it reads back as no headers.
    pub open spec fn wire_valid(self) -> bool {
        match self {
            Verdict::Allow => true,
            Verdict::Block { status, body, headers } => (body matches Some(s) ==> short(s)) && (
            headers matches Some(m) ==> valid_map(m) && m.len() > 0),
            Verdict::Redirect { url, status } => short(url),
            Verdict::Challenge { challenge_type, params } => short(challenge_type) && valid_map(
                params,
            ),
        }
    }

    /// The decision on the wire.
    pub open spec fn bytes(self) -> Seq<u8> {
        match self {
            Verdict::Allow => seq![0u8],
            Verdict::Block { status, body, headers } => seq![1u8] + (wire::be16(status) + (
            opt_string_bytes(body) + counted_bytes(
                match headers {
                    Some(m) => m,
                    None => Seq::empty(),
                },
            ))),
            Verdict::Redirect { url, status } => seq![2u8] + (string_bytes(url) + wire::be16(
                status,
            )),
            Verdict::Challenge { challenge_type, params } => seq![3u8] + (string_bytes(
                challenge_type,
            ) + counted_bytes(params)),
        }
    }
}

/// A block decision behind its type byte.
#[verifier::opaque]
pub open spec fn take_block(b: Seq<u8>) -> Parsed<Verdict> {
    if b.len() < 2 {
        Err("Missing block status"@)
    } else {
        match take_opt_string(b.skip(2)) {
            Err(m) => Err(m),
            Ok((body, b1)) => match take_counted(b1, "Missing block headers count"@) {
                Err(m) => Err(m),
                Ok((ps, b2)) => Ok(
                    (
                        Verdict::Block {
                            status: wire::u16_at(b, 0),
                            body,
                            headers: if ps.len() > 0 {
                                Some(map_of(ps))
                            } else {
                                None
                            },
                        },
                        b2,
                    ),
                ),
            },
        }
    }
}

/// A redirect decision behind its type byte.
#[verifier::opaque]
pub open spec fn take_redirect(b: Seq<u8>) -> Parsed<Verdict> {
    match take_string(b) {
        Err(m) => Err(m),
        Ok((url, b1)) => if b1.len() < 2 {
            Err("Missing redirect status"@)
        } else {
            Ok((Verdict::Redirect { url, status: wire::u16_at(b1, 0) }, b1.skip(2)))
        },
    }
}

/// A challenge decision behind its type byte.
#[verifier::opaque]
pub open spec fn take_challenge(b: Seq<u8>) -> Parsed<Verdict> {
    match take_string(b) {
        Err(m) => Err(m),
        Ok((challenge_type, b1)) => match take_counted(b1, "Missing challenge params count"@) {
            Err(m) => Err(m),
            Ok((ps, b2)) => Ok((Verdict::Challenge { challenge_type, params: map_of(ps) }, b2)),
        },
    }
}

/// The decision at the front of `b`.
pub open spec fn take_decision(b: Seq<u8>) -> Parsed<Verdict> {
    if b.len() < 1 {
        Err("Missing decision type"@)
    } else if b[0] == 0 {
        Ok((Verdict::Allow, b.skip(1)))
    } else if b[0] == 1 {
        take_block(b.skip(1))
    } else if b[0] == 2 {
        take_redirect(b.skip(1))
    } else if b[0] == 3 {
        take_challenge(b.skip(1))
    } else {
        Err("Unknown decision type: "@ + text::digits(b[0] as nat))
    }
}

/// A decoding step of a decision does what `d` says.
pub open spec fn decided(
    r: Result<(Decision, usize), AgentProtocolError>,
    data: Seq<u8>,
    pos: int,
    d: Parsed<Verdict>,
) -> bool {
    match r {
        Ok((x, p)) => pos <= p <= data.len() && d == Parsed::<Verdict>::Ok(
            (x@, data.skip(p as int)),
        ),
        Err(e) => d matches Err(m) && says(e, m),
    }
}

fn get_block(data: &[u8], pos: usize) -> (r: Result<(Decision, usize), AgentProtocolError>)
    requires
        pos <= data@.len(),
    ensures
        decided(r, data@, pos as int, take_block(data@.skip(pos as int))),
{
    reveal(take_block);
    if data.len() - pos < 2 {
        return Err(invalid("Missing block status"));
    }
    let status = wire::read_u16(data, pos);
    proof {
        let b = data@.skip(pos as int);
        assert(b[0] == data@[pos as int] && b[1] == data@[pos + 1]);
        assert(b.skip(2) =~= data@.skip(pos + 2));
    }
    let (body, p) = match get_optional_string(data, pos + 2) {
        Ok(x) => x,
        Err(e) => {
            return Err(e);
        },
    };
    let (pairs, p) = match get_counted(data, p, "Missing block headers count") {
        Ok(x) => x,
        Err(e) => {
            return Err(e);
        },
    };
    assert(pairs.deep_view().len() == pairs@.len());
    let headers = if pairs.len() > 0 {
        Some(build_map(pairs))
    } else {
        None
    };
    Ok((Decision::Block { status, body, headers }, p))
}

fn get_redirect(data: &[u8], pos: usize) -> (r: Result<(Decision, usize), AgentProtocolError>)
    requires
        pos <= data@.len(),
    ensures
        decided(r, data@, pos as int, take_redirect(data@.skip(pos as int))),
{
    reveal(take_redirect);
    let (url, p) = match get_string(data, pos) {
        Ok(x) => x,
        Err(e) => {
            return Err(e);
        },
    };
    if data.len() - p < 2 {
        return Err(invalid("Missing redirect status"));
    }
    let status = wire::read_u16(data, p);
    proof {
        let b = data@.skip(p as int);
        assert(b[0] == data@[p as int] && b[1] == data@[p + 1]);
        assert(b.skip(2) =~= data@.skip(p + 2));
    }
    Ok((Decision::Redirect { url, status }, p + 2))
}

fn get_challenge(data: &[u8], pos: usize) -> (r: Result<(Decision, usize), AgentProtocolError>)
    requires
        pos <= data@.len(),
    ensures
        decided(r, data@, pos as int, take_challenge(data@.skip(pos as int))),
{
    reveal(take_challenge);
    let (challenge_type, p) = match get_string(data, pos) {
        Ok(x) => x,
        Err(e) => {
            return Err(e);
        },
    };
    let (pairs, p) = match get_counted(data, p, "Missing challenge params count") {
        Ok(x) => x,
        Err(e) => {
            return Err(e);
        },
    };
    let params = build_map(pairs);
    Ok((Decision::Challenge { challenge_type, params }, p))
}

fn get_decision(data: &[u8], pos: usize) -> (r: Result<(Decision, usize), AgentProtocolError>)
    requires
        pos <= data@.len(),
    ensures
        decided(r, data@, pos as int, take_decision(data@.skip(pos as int))),
{
    if data.len() - pos < 1 {
        return Err(invalid("Missing decision type"));
    }
    let decision_type = data[pos];
    proof {
        assert(data@.skip(pos as int)[0] == decision_type);
        assert(data@.skip(pos as int).skip(1) =~= data@.skip(pos + 1));
    }
    if decision_type == 0 {
        Ok((Decision::Allow, pos + 1))
    } else if decision_type == 1 {
        get_block(data, pos + 1)
    } else if decision_type == 2 {
        get_redirect(data, pos + 1)
    } else if decision_type == 3 {
        get_challenge(data, pos + 1)
    } else {
        let mut m = "Unknown decision type: ".to_owned();
        text::push_decimal(&mut m, decision_type as u64);
        Err(AgentProtocolError::InvalidMessage(m))
    }
}

fn put_counted_map(buf: &mut Vec<u8>, m: &StringMap<String>)
    ensures
        final(buf)@ == old(buf)@ + counted_bytes(m.deep_view()),
{
    let ghost before = buf@;
    wire::put_u16(buf, (m.len() % 0x1_0000) as u16);
    put_map(buf, m);
    assert(buf@ =~= before + counted_bytes(m.deep_view()));
}

fn put_decision(buf: &mut Vec<u8>, d: &Decision)
    ensures
        final(buf)@ == old(buf)@ + d@.bytes(),
{
    let ghost before = buf@;
    match d {
        Decision::Allow => {
            buf.push(0);
        },
        Decision::Block { status, body, headers } => {
            buf.push(1);
            wire::put_u16(buf, *status);
            put_optional_string(buf, body);
            match headers {
                Some(m) => {
                    put_counted_map(buf, m);
                },
                None => {
                    wire::put_u16(buf, 0);
                    assert(counted_bytes(Seq::<Pair>::empty()) =~= wire::be16(0));
                },
            }
        },
        Decision::Redirect { url, status } => {
            buf.push(2);
            put_string(buf, url.as_str());
            wire::put_u16(buf, *status);
        },
        Decision::Challenge { challenge_type, params } => {
            buf.push(3);
            put_string(buf, challenge_type.as_str());
            put_counted_map(buf, params);
        },
    }
    assert(buf@ =~= before + d@.bytes());
}

proof fn lemma_opt_string(s: Option<Seq<char>>, rest: Seq<u8>)
    requires
        s matches Some(x) ==> short(x),
    ensures
        take_opt_string(opt_string_bytes(s) + rest) == Parsed::<Option<Seq<char>>>::Ok((s, rest)),
{
    let b = opt_string_bytes(s) + rest;
    match s {
        Some(x) => {
            assert(b.skip(1) =~= string_bytes(x) + rest);
            lemma_string(x, rest);
        },
        None => {
            assert(b.skip(1) =~= rest);
        },
    }
}

proof fn lemma_decision(d: Verdict, rest: Seq<u8>)
    requires
        d.wire_valid(),
    ensures
        take_decision(d.bytes() + rest) == Parsed::<Verdict>::Ok((d, rest)),
{
    let b = d.bytes() + rest;
    match d {
        Verdict::Allow => {
            assert(b.skip(1) =~= rest);
        },
        Verdict::Block { status, body, headers } => {
            lemma_block(d, status, body, headers, rest);
            let m = or_empty(headers);
            assert(b.skip(1) =~= wire::be16(status) + (opt_string_bytes(body) + (counted_bytes(m)
                + rest)));
        },
        Verdict::Redirect { url, status } => {
            reveal(take_redirect);
            let b1 = wire::be16(status) + rest;
            assert(b.skip(1) =~= string_bytes(url) + b1);
            lemma_string(url, b1);
            wire::lemma_be16(status);
            assert(b1[0] == wire::be16(status)[0] && b1[1] == wire::be16(status)[1]);
            assert(b1.skip(2) =~= rest);
        },
        Verdict::Challenge { challenge_type, params } => {
            reveal(take_challenge);
            let b1 = counted_bytes(params) + rest;
            assert(b.skip(1) =~= string_bytes(challenge_type) + b1);
            lemma_string(challenge_type, b1);
            lemma_counted(params, rest, "Missing challenge params count"@);
            lemma_map_of_sorted(params);
        },
    }
}

/// The map, or the empty map.
spec fn or_empty(headers: Option<Seq<Pair>>) -> Seq<Pair> {
    match headers {
        Some(m) => m,
        None => Seq::empty(),
    }
}

proof fn lemma_block(
    d: Verdict,
    status: u16,
    body: Option<Seq<char>>,
    headers: Option<Seq<Pair>>,
    rest: Seq<u8>,
)
    requires
        d == (Verdict::Block { status, body, headers }),
        d.wire_valid(),
    ensures
        take_block(
            wire::be16(status) + (opt_string_bytes(body) + (counted_bytes(or_empty(headers))
                + rest)),
        ) == Parsed::<Verdict>::Ok((d, rest)),
{
    reveal(take_block);
    let m = or_empty(headers);
    let b2 = counted_bytes(m) + rest;
    let b1 = opt_string_bytes(body) + b2;
    let b = wire::be16(status) + b1;
    wire::lemma_be16(status);
    assert(b[0] == wire::be16(status)[0] && b[1] == wire::be16(status)[1]);
    assert(b.skip(2) =~= b1);
    lemma_opt_string(body, b2);
    lemma_counted(m, rest, "Missing block headers count"@);
    lemma_map_of_sorted(m);
}

proof fn lemma_decision_valid(b: Seq<u8>)
    ensures
        take_decision(b) matches Ok((d, rest)) ==> d.wire_valid(),
{
    if take_decision(b) is Ok {
        let c = b.skip(1);
        if b[0] == 1 {
            reveal(take_block);
            let (body, b1) = take_opt_string(c.skip(2))->Ok_0;
            lemma_string_short(c.skip(2).skip(1));
            lemma_counted_short(b1, "Missing block headers count"@);
            lemma_map_of(take_counted(b1, "Missing block headers count"@)->Ok_0.0);
        } else if b[0] == 2 {
            reveal(take_redirect);
            lemma_string_short(c);
        } else if b[0] == 3 {
            reveal(take_challenge);
            lemma_string_short(c);
            let b1 = take_string(c)->Ok_0.1;
            lemma_counted_short(b1, "Missing challenge params count"@);
            lemma_map_of(take_counted(b1, "Missing challenge params count"@)->Ok_0.0);
        }
    }
}

// ---------------------------------------------------------------------------
// Agent responses
// ---------------------------------------------------------------------------

/// Binary agent response.
#[derive(Debug, PartialEq, Eq)]
pub struct BinaryAgentResponse {
    /// Correlation identifier.
    pub correlation_id: String,
    /// The decision.
    pub decision: Decision,
    /// Changes to the request headers.
    pub request_headers: Vec<HeaderOp>,
    /// Changes to the response headers.
    pub response_headers: Vec<HeaderOp>,
    /// True if the agent wants more of the body.
    pub needs_more: bool,
}

/// An agent response as plain values.
#[verifier::ext_equal]
pub ghost struct Response {
    pub correlation_id: Seq<char>,
    pub decision: Verdict,
    pub request_headers: Seq<Op>,
    pub response_headers: Seq<Op>,
    pub needs_more: bool,
}

impl View for BinaryAgentResponse {
    type V = Response;

    open spec fn view(&self) -> Response {
        Response {
            correlation_id: self.correlation_id@,
            decision: self.decision@,
            request_headers: self.request_headers.deep_view(),
            response_headers: self.response_headers.deep_view(),
            needs_more: self.needs_more,
        }
    }
}

impl Response {
    /// The response on the wire.
    pub open spec fn bytes(self) -> Seq<u8> {
        string_bytes(self.correlation_id) + (self.decision.bytes() + (counted_ops_bytes(
            self.request_headers,
        ) + (counted_ops_bytes(self.response_headers) + seq![flag(self.needs_more)])))
    }

    /// The response survives the wire.
    pub open spec fn wire_valid(self) -> bool {
        &&& short(self.correlation_id)
        &&& self.decision.wire_valid()
        &&& short_ops(self.request_headers)
        &&& self.request_headers.len() <= 0xffff
        &&& short_ops(self.response_headers)
        &&& self.response_headers.len() <= 0xffff
    }
}

/// The response that the bytes encode.
pub open spec fn decode_response(b: Seq<u8>) -> Result<Response, Seq<char>> {
    match take_string(b) {
        Err(m) => Err(m),
        Ok((correlation_id, b)) => match take_decision(b) {
            Err(m) => Err(m),
            Ok((decision, b)) => match take_counted_ops(b, "Missing request headers count"@) {
                Err(m) => Err(m),
                Ok((request_headers, b)) => match take_counted_ops(
                    b,
                    "Missing response headers count"@,
                ) {
                    Err(m) => Err(m),
                    Ok((response_headers, b)) => if b.len() < 1 {
                        Err("Missing needs_more"@)
                    } else {
                        Ok(
                            Response {
                                correlation_id,
                                decision,
                                request_headers,
                                response_headers,
                                needs_more: b[0] != 0,
                            },
                        )
                    },
                },
            },
        },
    }
}

impl BinaryAgentResponse {
    /// Encode to bytes.
    pub fn encode(&self) -> (r: Bytes)
        ensures
            binary::content(r) == self@.bytes(),
    {
        let mut buf: Vec<u8> = Vec::new();
        put_string(&mut buf, self.correlation_id.as_str());
        put_decision(&mut buf, &self.decision);
        put_ops(&mut buf, &self.request_headers);
        put_ops(&mut buf, &self.response_headers);
        buf.push(
            if self.needs_more {
                1
            } else {
                0
            },
        );
        assert(buf@ =~= self@.bytes());
        binary::bytes_from_vec(buf)
    }

    /// Decode from bytes.
    pub fn decode(data: Bytes) -> (r: Result<BinaryAgentResponse, AgentProtocolError>)
        ensures
            (match r {
                Ok(x) => decode_response(binary::content(data)) == Result::<
                    Response,
                    Seq<char>,
                >::Ok(x@),
                Err(e) => decode_response(binary::content(data)) matches Err(m) && says(e, m),
            }),
    {
        let d = binary::bytes_as_slice(&data);
        assert(d@.skip(0) =~= d@);
        let (correlation_id, p) = match get_string(d, 0) {
            Ok(x) => x,
            Err(e) => {
                return Err(e);
            },
        };
        let (decision, p) = match get_decision(d, p) {
            Ok(x) => x,
            Err(e) => {
                return Err(e);
            },
        };
        let (request_headers, p) = match get_ops(d, p, "Missing request headers count") {
            Ok(x) => x,
            Err(e) => {
                return Err(e);
            },
        };
        let (response_headers, p) = match get_ops(d, p, "Missing response headers count") {
            Ok(x) => x,
            Err(e) => {
                return Err(e);
            },
        };
        if d.len() - p < 1 {
            return Err(invalid("Missing needs_more"));
        }
        assert(d@.skip(p as int)[0] == d@[p as int]);
        let needs_more = d[p] != 0;
        Ok(
            BinaryAgentResponse {
                correlation_id,
                decision,
                request_headers,
                response_headers,
                needs_more,
            },
        )
    }
}

/// An agent response that fits the wire is decoded as it was encoded.
pub proof fn response_round_trip(x: Response)
    requires
        x.wire_valid(),
    ensures
        decode_response(x.bytes()) == Result::<Response, Seq<char>>::Ok(x),
{
    let t4 = seq![flag(x.needs_more)];
    let t3 = counted_ops_bytes(x.response_headers) + t4;
    let t2 = counted_ops_bytes(x.request_headers) + t3;
    let t1 = x.decision.bytes() + t2;
    lemma_string(x.correlation_id, t1);
    lemma_decision(x.decision, t2);
    lemma_counted_ops(x.request_headers, t3, "Missing request headers count"@);
    lemma_counted_ops(x.response_headers, t4, "Missing response headers count"@);
}

/// What decoding yields fits the wire, so it can be encoded again and decodes
/// to itself.
pub proof fn decoded_response_reencodes(b: Seq<u8>)
    ensures
        decode_response(b) matches Ok(x) ==> x.wire_valid() && decode_response(x.bytes())
            == Result::<Response, Seq<char>>::Ok(x),
{
    if let Ok(x) = decode_response(b) {
        lemma_string_short(b);
        let b1 = take_string(b)->Ok_0.1;
        lemma_decision_valid(b1);
        let b2 = take_decision(b1)->Ok_0.1;
        lemma_counted_ops_short(b2, "Missing request headers count"@);
        let b3 = take_counted_ops(b2, "Missing request headers count"@)->Ok_0.1;
        lemma_counted_ops_short(b3, "Missing response headers count"@);
        response_round_trip(x);
    }
}

// ---------------------------------------------------------------------------
// Bytes that are missing or left over
// ---------------------------------------------------------------------------

proof fn lemma_string_more(b: Seq<u8>, e: Seq<u8>)
    ensures
        take_string(b) matches Ok((s, rest)) ==> take_string(b + e) == Parsed::<Seq<char>>::Ok(
            (s, rest + e),
        ),
{
    reveal(take_string);
    if take_string(b) is Ok {
        let c = b + e;
        let n = wire::u16_at(b, 0) as int;
        assert(c[0] == b[0] && c[1] == b[1]);
        assert(c.subrange(2, 2 + n) =~= b.subrange(2, 2 + n));
        assert(c.skip(2 + n) =~= b.skip(2 + n) + e);
    }
}

proof fn lemma_opt_string_more(b: Seq<u8>, e: Seq<u8>)
    ensures
        take_opt_string(b) matches Ok((s, rest)) ==> take_opt_string(b + e) == Parsed::<
            Option<Seq<char>>,
        >::Ok((s, rest + e)),
{
    if take_opt_string(b) is Ok {
        assert((b + e)[0] == b[0]);
        assert((b + e).skip(1) =~= b.skip(1) + e);
        lemma_string_more(b.skip(1), e);
    }
}

proof fn lemma_pairs_more(b: Seq<u8>, n: nat, e: Seq<u8>)
    ensures
        take_pairs(b, n) matches Ok((ps, rest)) ==> take_pairs(b + e, n) == Parsed::<Seq<Pair>>::Ok(
            (ps, rest + e),
        ),
    decreases n,
{
    if n > 0 && take_pairs(b, n) is Ok {
        lemma_string_more(b, e);
        let b1 = take_string(b)->Ok_0.1;
        lemma_string_more(b1, e);
        let b2 = take_string(b1)->Ok_0.1;
        lemma_pairs_more(b2, (n - 1) as nat, e);
    }
}

proof fn lemma_counted_more(b: Seq<u8>, missing: Seq<char>, e: Seq<u8>)
    ensures
        take_counted(b, missing) matches Ok((ps, rest)) ==> take_counted(b + e, missing)
            == Parsed::<Seq<Pair>>::Ok((ps, rest + e)),
{
    if take_counted(b, missing) is Ok {
        assert((b + e)[0] == b[0] && (b + e)[1] == b[1]);
        assert((b + e).skip(2) =~= b.skip(2) + e);
        lemma_pairs_more(b.skip(2), wire::u16_at(b, 0) as nat, e);
    }
}

proof fn lemma_line_more(b: Seq<u8>, e: Seq<u8>)
    ensures
        take_line(b) matches Ok((l, rest)) ==> take_line(b + e) == Parsed::<
            (Seq<char>, Seq<char>, Seq<char>),
        >::Ok((l, rest + e)),
{
    if take_line(b) is Ok {
        lemma_string_more(b, e);
        let b1 = take_string(b)->Ok_0.1;
        lemma_string_more(b1, e);
        let b2 = take_string(b1)->Ok_0.1;
        lemma_string_more(b2, e);
    }
}

proof fn lemma_op_more(b: Seq<u8>, e: Seq<u8>)
    ensures
        take_op(b) matches Ok((op, rest)) ==> take_op(b + e) == Parsed::<Op>::Ok((op, rest + e)),
{
    reveal(take_op);
    if take_op(b) is Ok {
        assert((b + e)[0] == b[0]);
        assert((b + e).skip(1) =~= b.skip(1) + e);
        lemma_string_more(b.skip(1), e);
        lemma_string_more(take_string(b.skip(1))->Ok_0.1, e);
    }
}

proof fn lemma_ops_more(b: Seq<u8>, n: nat, e: Seq<u8>)
    ensures
        take_ops(b, n) matches Ok((ops, rest)) ==> take_ops(b + e, n) == Parsed::<Seq<Op>>::Ok(
            (ops, rest + e),
        ),
    decreases n,
{
    if n > 0 && take_ops(b, n) is Ok {
        lemma_op_more(b, e);
        lemma_ops_more(take_op(b)->Ok_0.1, (n - 1) as nat, e);
    }
}

proof fn lemma_counted_ops_more(b: Seq<u8>, missing: Seq<char>, e: Seq<u8>)
    ensures
        take_counted_ops(b, missing) matches Ok((ops, rest)) ==> take_counted_ops(b + e, missing)
            == Parsed::<Seq<Op>>::Ok((ops, rest + e)),
{
    reveal(take_counted_ops);
    if take_counted_ops(b, missing) is Ok {
        assert((b + e)[0] == b[0] && (b + e)[1] == b[1]);
        assert((b + e).skip(2) =~= b.skip(2) + e);
        lemma_ops_more(b.skip(2), wire::u16_at(b, 0) as nat, e);
    }
}

proof fn lemma_block_more(b: Seq<u8>, e: Seq<u8>)
    ensures
        take_block(b) matches Ok((d, rest)) ==> take_block(b + e) == Parsed::<Verdict>::Ok(
            (d, rest + e),
        ),
{
    reveal(take_block);
    if take_block(b) is Ok {
        assert((b + e)[0] == b[0] && (b + e)[1] == b[1]);
        assert((b + e).skip(2) =~= b.skip(2) + e);
        lemma_opt_string_more(b.skip(2), e);
        lemma_counted_more(
            take_opt_string(b.skip(2))->Ok_0.1,
            "Missing block headers count"@,
            e,
        );
    }
}

proof fn lemma_redirect_more(b: Seq<u8>, e: Seq<u8>)
    ensures
        take_redirect(b) matches Ok((d, rest)) ==> take_redirect(b + e) == Parsed::<Verdict>::Ok(
            (d, rest + e),
        ),
{
    reveal(take_redirect);
    if take_redirect(b) is Ok {
        lemma_string_more(b, e);
        let b1 = take_string(b)->Ok_0.1;
        assert((b1 + e)[0] == b1[0] && (b1 + e)[1] == b1[1]);
        assert((b1 + e).skip(2) =~= b1.skip(2) + e);
    }
}

proof fn lemma_challenge_more(b: Seq<u8>, e: Seq<u8>)
    ensures
        take_challenge(b) matches Ok((d, rest)) ==> take_challenge(b + e) == Parsed::<Verdict>::Ok(
            (d, rest + e),
        ),
{
    reveal(take_challenge);
    if take_challenge(b) is Ok {
        lemma_string_more(b, e);
        lemma_counted_more(take_string(b)->Ok_0.1, "Missing challenge params count"@, e);
    }
}

proof fn lemma_decision_more(b: Seq<u8>, e: Seq<u8>)
    ensures
        take_decision(b) matches Ok((d, rest)) ==> take_decision(b + e) == Parsed::<Verdict>::Ok(
            (d, rest + e),
        ),
{
    if take_decision(b) is Ok {
        assert((b + e)[0] == b[0]);
        assert((b + e).skip(1) =~= b.skip(1) + e);
        lemma_block_more(b.skip(1), e);
        lemma_redirect_more(b.skip(1), e);
        lemma_challenge_more(b.skip(1), e);
    }
}

/// Bytes behind an event change nothing.
pub proof fn bytes_behind_request_headers_are_ignored(b: Seq<u8>, behind: Seq<u8>)
    ensures
        decode_request_headers(b) is Ok ==> decode_request_headers(b + behind)
            == decode_request_headers(b),
{
    if decode_request_headers(b) is Ok {
        lemma_line_more(b, behind);
        let b1 = take_line(b)->Ok_0.1;
        lemma_counted_more(b1, "Missing header count"@, behind);
        let b2 = take_counted(b1, "Missing header count"@)->Ok_0.1;
        lemma_string_more(b2, behind);
        let b3 = take_string(b2)->Ok_0.1;
        assert((b3 + behind)[0] == b3[0] && (b3 + behind)[1] == b3[1]);
    }
}

/// An encoded event is refused if its end is missing.
pub proof fn cut_request_headers_are_refused(x: RequestHeaders, cut: int)
    requires
        x.wire_valid(),
        0 <= cut < x.bytes().len(),
    ensures
        decode_request_headers(x.bytes().take(cut)) is Err,
{
    let b = x.bytes().take(cut);
    let e = x.bytes().skip(cut);
    assert(b + e =~= x.bytes());
    if decode_request_headers(b) is Ok {
        let ps = flatten(x.headers);
        let t3 = wire::be16(x.client_port);
        let t2 = string_bytes(x.client_ip) + t3;
        let t1 = counted_bytes(ps) + t2;
        assert(x.bytes() == line_bytes(x.correlation_id, x.method, x.uri) + t1);
        lemma_line(x.correlation_id, x.method, x.uri, t1);
        lemma_counted(ps, t2, "Missing header count"@);
        lemma_string(x.client_ip, t3);
        lemma_line_more(b, e);
        let b1 = take_line(b)->Ok_0.1;
        assert(b1 + e == t1);
        lemma_counted_more(b1, "Missing header count"@, e);
        let b2 = take_counted(b1, "Missing header count"@)->Ok_0.1;
        assert(b2 + e == t2);
        lemma_string_more(b2, e);
        let b3 = take_string(b2)->Ok_0.1;
        assert(b3 + e == t3);
        assert((b3 + e).len() == 2);
    }
}

/// Bytes behind a chunk change nothing.
pub proof fn bytes_behind_body_chunk_are_ignored(b: Seq<u8>, behind: Seq<u8>)
    ensures
        decode_body_chunk(b) is Ok ==> decode_body_chunk(b + behind) == decode_body_chunk(b),
{
    if decode_body_chunk(b) is Ok {
        lemma_string_more(b, behind);
        let b1 = take_string(b)->Ok_0.1;
        let c = b1 + behind;
        assert forall|i: int| 0 <= i < 9 implies #[trigger] c[i] == b1[i] by {}
        assert(c[0] == b1[0] && c[1] == b1[1] && c[2] == b1[2] && c[3] == b1[3] && c[4] == b1[4]);
        assert(c[5] == b1[5] && c[6] == b1[6] && c[7] == b1[7] && c[8] == b1[8]);
        let n = wire::u32_at(b1, 5) as int;
        assert(c.subrange(9, 9 + n) =~= b1.subrange(9, 9 + n));
    }
}

/// An encoded chunk is refused if its end is missing.
pub proof fn cut_body_chunk_is_refused(x: BodyChunk, cut: int)
    requires
        x.wire_valid(),
        0 <= cut < x.bytes().len(),
    ensures
        decode_body_chunk(x.bytes().take(cut)) is Err,
{
    let b = x.bytes().take(cut);
    let e = x.bytes().skip(cut);
    assert(b + e =~= x.bytes());
    if decode_body_chunk(b) is Ok {
        let n = (x.data.len() % 0x1_0000_0000) as u32;
        let l = wire::be32(n);
        let t = wire::be32(x.chunk_index) + seq![flag(x.is_last)] + l + x.data;
        lemma_string(x.correlation_id, t);
        lemma_string_more(b, e);
        let b1 = take_string(b)->Ok_0.1;
        assert(b1 + e == t);
        assert(b1.len() < t.len());
        assert(t.len() == 9 + x.data.len());
        wire::lemma_be32(n);
        assert(t[5] == l[0] && t[6] == l[1] && t[7] == l[2] && t[8] == l[3]);
        assert(b1[5] == t[5] && b1[6] == t[6] && b1[7] == t[7] && b1[8] == t[8]);
        assert(wire::u32_at(b1, 5) == n);
    }
}

/// Bytes behind a response change nothing.
pub proof fn bytes_behind_response_are_ignored(b: Seq<u8>, behind: Seq<u8>)
    ensures
        decode_response(b) is Ok ==> decode_response(b + behind) == decode_response(b),
{
    if decode_response(b) is Ok {
        lemma_string_more(b, behind);
        let b1 = take_string(b)->Ok_0.1;
        lemma_decision_more(b1, behind);
        let b2 = take_decision(b1)->Ok_0.1;
        lemma_counted_ops_more(b2, "Missing request headers count"@, behind);
        let b3 = take_counted_ops(b2, "Missing request headers count"@)->Ok_0.1;
        lemma_counted_ops_more(b3, "Missing response headers count"@, behind);
        let b4 = take_counted_ops(b3, "Missing response headers count"@)->Ok_0.1;
        assert((b4 + behind)[0] == b4[0]);
    }
}

/// An encoded response is refused if its end is missing.
pub proof fn cut_response_is_refused(x: Response, cut: int)
    requires
        x.wire_valid(),
        0 <= cut < x.bytes().len(),
    ensures
        decode_response(x.bytes().take(cut)) is Err,
{
    let b = x.bytes().take(cut);
    let e = x.bytes().skip(cut);
    assert(b + e =~= x.bytes());
    if decode_response(b) is Ok {
        let t4 = seq![flag(x.needs_more)];
        let t3 = counted_ops_bytes(x.response_headers) + t4;
        let t2 = counted_ops_bytes(x.request_headers) + t3;
        let t1 = x.decision.bytes() + t2;
        lemma_string(x.correlation_id, t1);
        lemma_decision(x.decision, t2);
        lemma_counted_ops(x.request_headers, t3, "Missing request headers count"@);
        lemma_counted_ops(x.response_headers, t4, "Missing response headers count"@);
        lemma_string_more(b, e);
        let b1 = take_string(b)->Ok_0.1;
        assert(b1 + e == t1);
        lemma_decision_more(b1, e);
        let b2 = take_decision(b1)->Ok_0.1;
        assert(b2 + e == t2);
        lemma_counted_ops_more(b2, "Missing request headers count"@, e);
        let b3 = take_counted_ops(b2, "Missing request headers count"@)->Ok_0.1;
        assert(b3 + e == t3);
        lemma_counted_ops_more(b3, "Missing response headers count"@, e);
        let b4 = take_counted_ops(b3, "Missing response headers count"@)->Ok_0.1;
        assert(b4 + e == t4);
        assert((b4 + e).len() == 1);
    }
}

// ---------------------------------------------------------------------------
// Layout
// ---------------------------------------------------------------------------

/// A string is preceded by the count of its bytes, high byte first; one that may be missing
/// by a byte that says whether it is there.
pub proof fn string_layout(s: Seq<char>)
    requires
        short(s),
    ensures
        ({
            let b = string_bytes(s);
            &&& b.len() == 2 + encode_utf8(s).len()
            &&& b[0] * 0x100 + b[1] == encode_utf8(s).len()
            &&& b.skip(2) == encode_utf8(s)
        }),
        opt_string_bytes(None) == seq![0u8],
        opt_string_bytes(Some(s)).len() == 1 + string_bytes(s).len(),
        opt_string_bytes(Some(s))[0] == 1,
        opt_string_bytes(Some(s)).skip(1) == string_bytes(s),
{
    let b = string_bytes(s);
    let n = (encode_utf8(s).len() % 0x1_0000) as u16;
    wire::lemma_be16(n);
    wire::first_octet_counts_most(b[0], b[1], 0, 0);
    assert(b[0] == wire::be16(n)[0] && b[1] == wire::be16(n)[1]);
    assert(b.skip(2) =~= encode_utf8(s));
    assert(opt_string_bytes(Some(s)).skip(1) =~= string_bytes(s));
}

/// A list of pairs is preceded by their count, high byte first; each pair is its name and
/// its value.
pub proof fn pairs_layout(ps: Seq<Pair>, p: Pair)
    requires
        ps.len() <= 0xffff,
    ensures
        ({
            let b = counted_bytes(ps);
            &&& b[0] * 0x100 + b[1] == ps.len()
            &&& b.skip(2) == pairs_bytes(ps)
        }),
        pairs_bytes(seq![p] + ps) == string_bytes(p.0) + string_bytes(p.1) + pairs_bytes(ps),
        pairs_bytes(Seq::empty()) == Seq::<u8>::empty(),
{
    let b = counted_bytes(ps);
    let n = (ps.len() % 0x1_0000) as u16;
    wire::lemma_be16(n);
    wire::first_octet_counts_most(b[0], b[1], 0, 0);
    assert(b[0] == wire::be16(n)[0] && b[1] == wire::be16(n)[1]);
    assert(b.skip(2) =~= pairs_bytes(ps));
    let more = seq![p] + ps;
    assert(more[0] == p);
    assert(more.skip(1) =~= ps);
}

/// The headers of a request stand between its first line and the address of the client:
/// identifier, method, target, headers, address, port.
pub proof fn request_headers_layout(x: RequestHeaders)
    ensures
        ({
            let head = string_bytes(x.correlation_id) + string_bytes(x.method) + string_bytes(
                x.uri,
            ) + counted_bytes(flatten(x.headers)) + string_bytes(x.client_ip);
            let b = x.bytes();
            &&& b.len() == head.len() + 2
            &&& b.take(head.len() as int) == head
            &&& b[head.len() as int] * 0x100 + b[(head.len() + 1) as int] == x.client_port
        }),
{
    let head = string_bytes(x.correlation_id) + string_bytes(x.method) + string_bytes(x.uri)
        + counted_bytes(flatten(x.headers)) + string_bytes(x.client_ip);
    let b = x.bytes();
    let port = wire::be16(x.client_port);
    assert(b =~= head + port);
    assert(b.take(head.len() as int) =~= head);
    wire::lemma_be16(x.client_port);
    wire::first_octet_counts_most(port[0], port[1], 0, 0);
    assert(b[head.len() as int] == port[0]);
    assert(b[(head.len() + 1) as int] == port[1]);
}

/// A chunk of a body is its identifier, its number, a byte that is one for the last chunk
/// and zero else, the count of its bytes and the bytes.
pub proof fn body_chunk_layout(x: BodyChunk)
    requires
        x.data.len() <= 0xffff_ffff,
    ensures
        ({
            let n = string_bytes(x.correlation_id).len() as int;
            let b = x.bytes();
            &&& b.len() == n + 9 + x.data.len()
            &&& b.take(n) == string_bytes(x.correlation_id)
            &&& b[n] * 0x100_0000 + b[n + 1] * 0x1_0000 + b[n + 2] * 0x100 + b[n + 3]
                == x.chunk_index
            &&& b[n + 4] == (if x.is_last {
                1
            } else {
                0int
            })
            &&& b[n + 5] * 0x100_0000 + b[n + 6] * 0x1_0000 + b[n + 7] * 0x100 + b[n + 8]
                == x.data.len()
            &&& b.skip(n + 9) == x.data
        }),
{
    let id = string_bytes(x.correlation_id);
    let n = id.len() as int;
    let b = x.bytes();
    let i = wire::be32(x.chunk_index);
    let l = wire::be32((x.data.len() % 0x1_0000_0000) as u32);
    assert(b =~= id + i + seq![flag(x.is_last)] + l + x.data);
    wire::lemma_be32(x.chunk_index);
    wire::lemma_be32((x.data.len() % 0x1_0000_0000) as u32);
    wire::first_octet_counts_most(i[0], i[1], i[2], i[3]);
    wire::first_octet_counts_most(l[0], l[1], l[2], l[3]);
    assert(b.take(n) =~= id);
    assert(b[n] == i[0] && b[n + 1] == i[1] && b[n + 2] == i[2] && b[n + 3] == i[3]);
    assert(b[n + 5] == l[0] && b[n + 6] == l[1] && b[n + 7] == l[2] && b[n + 8] == l[3]);
    assert(b.skip(n + 9) =~= x.data);
}

/// A decision starts with its kind: zero lets the request pass, one blocks it, two sends
/// the client elsewhere, three challenges it. What it needs follows.
pub proof fn decision_layout(d: Verdict)
    ensures
        d.bytes().len() > 0,
        d is Allow <==> d.bytes()[0] == 0,
        d is Block <==> d.bytes()[0] == 1,
        d is Redirect <==> d.bytes()[0] == 2,
        d is Challenge <==> d.bytes()[0] == 3,
        d is Allow ==> d.bytes().len() == 1,
        d matches Verdict::Block { status, body, headers } ==> d.bytes()[1] * 0x100 + d.bytes()[2]
            == status && d.bytes().skip(3) == opt_string_bytes(body) + counted_bytes(
            if headers is Some {
                headers->0
            } else {
                Seq::empty()
            },
        ),
        d matches Verdict::Redirect { url, status } ==> d.bytes().len() == 3 + string_bytes(
            url,
        ).len() && d.bytes().subrange(1, (1 + string_bytes(url).len()) as int) == string_bytes(url)
            && d.bytes()[d.bytes().len() - 2] * 0x100 + d.bytes()[d.bytes().len() - 1] == status,
        d matches Verdict::Challenge { challenge_type, params } ==> d.bytes().skip(1)
            == string_bytes(challenge_type) + counted_bytes(params),
{
    let b = d.bytes();
    match d {
        Verdict::Allow => {},
        Verdict::Block { status, body, headers } => {
            let s = wire::be16(status);
            wire::lemma_be16(status);
            wire::first_octet_counts_most(s[0], s[1], 0, 0);
            assert(b[1] == s[0] && b[2] == s[1]);
            assert(b.skip(3) =~= opt_string_bytes(body) + counted_bytes(
                if headers is Some {
                    headers->0
                } else {
                    Seq::empty()
                },
            ));
        },
        Verdict::Redirect { url, status } => {
            let s = wire::be16(status);
            let u = string_bytes(url);
            wire::lemma_be16(status);
            wire::first_octet_counts_most(s[0], s[1], 0, 0);
            assert(b =~= seq![2u8] + u + s);
            assert(b.subrange(1, (1 + u.len()) as int) =~= u);
            assert(b[b.len() - 2] == s[0] && b[b.len() - 1] == s[1]);
        },
        Verdict::Challenge { challenge_type, params } => {
            assert(b.skip(1) =~= string_bytes(challenge_type) + counted_bytes(params));
        },
    }
}

/// A response is its identifier, its decision, what it does to the headers of the request
/// and then to those of the response, and a byte that is one if it needs more.
pub proof fn response_layout(x: Response, op: Op, ops: Seq<Op>)
    ensures
        x.bytes() == string_bytes(x.correlation_id) + x.decision.bytes() + counted_ops_bytes(
            x.request_headers,
        ) + counted_ops_bytes(x.response_headers) + seq![
            (if x.needs_more {
                1u8
            } else {
                0u8
            }),
        ],
        ops.len() <= 0xffff ==> counted_ops_bytes(ops)[0] * 0x100 + counted_ops_bytes(ops)[1]
            == ops.len() && counted_ops_bytes(ops).skip(2) == ops_bytes(ops),
        ops_bytes(seq![op] + ops) == op_bytes(op) + ops_bytes(ops),
        ops_bytes(Seq::empty()) == Seq::<u8>::empty(),
        op matches Op::Replace { name, value } ==> op_bytes(op) == seq![0u8] + string_bytes(name)
            + string_bytes(value),
        op matches Op::Add { name, value } ==> op_bytes(op) == seq![1u8] + string_bytes(name)
            + string_bytes(value),
        op matches Op::Remove { name } ==> op_bytes(op) == seq![2u8] + string_bytes(name),
{
    assert(x.bytes() =~= string_bytes(x.correlation_id) + x.decision.bytes() + counted_ops_bytes(
        x.request_headers,
    ) + counted_ops_bytes(x.response_headers) + seq![
        (if x.needs_more {
            1u8
        } else {
            0u8
        }),
    ]);
    let more = seq![op] + ops;
    assert(more[0] == op);
    assert(more.skip(1) =~= ops);
    let b = counted_ops_bytes(ops);
    let n = (ops.len() % 0x1_0000) as u16;
    wire::lemma_be16(n);
    wire::first_octet_counts_most(b[0], b[1], 0, 0);
    assert(b[0] == wire::be16(n)[0] && b[1] == wire::be16(n)[1]);
    assert(b.skip(2) =~= ops_bytes(ops));
    match op {
        Op::Replace { name, value } => {
            assert(op_bytes(op) =~= seq![0u8] + string_bytes(name) + string_bytes(value));
        },
        Op::Add { name, value } => {
            assert(op_bytes(op) =~= seq![1u8] + string_bytes(name) + string_bytes(value));
        },
        Op::Remove { .. } => {},
    }
}

proof fn lemma_map_is_sorted(ps: Seq<Pair>)
    ensures
        strmap::sorted(map_of(ps)),
    decreases ps.len(),
{
    if ps.len() > 0 {
        lemma_map_is_sorted(ps.drop_last());
        strmap::lemma_insert_sorted(map_of(ps.drop_last()), ps.last().0, ps.last().1);
    }
}

proof fn lemma_headers_are_sorted(ps: Seq<Pair>)
    ensures
        strmap::sorted(headers_of(ps)),
    decreases ps.len(),
{
    if ps.len() > 0 {
        let m = headers_of(ps.drop_last());
        lemma_headers_are_sorted(ps.drop_last());
        let vs = match strmap::get(m, ps.last().0) {
            Some(vs) => vs,
            None => Seq::empty(),
        };
        strmap::lemma_insert_sorted(m, ps.last().0, vs.push(ps.last().1));
    }
}

/// Of pairs with the same name a map keeps the last; headers keep all values, in order.
pub proof fn repeated_names(ps: Seq<Pair>, p: Pair, q: Seq<char>)
    ensures
        strmap::get(map_of(ps.push(p)), q) == (if q == p.0 {
            Some(p.1)
        } else {
            strmap::get(map_of(ps), q)
        }),
        strmap::get(map_of(Seq::empty()), q) is None,
        q != p.0 ==> strmap::get(headers_of(ps.push(p)), q) == strmap::get(headers_of(ps), q),
        q == p.0 ==> (strmap::get(headers_of(ps), q) matches Some(vs) ==> strmap::get(
            headers_of(ps.push(p)),
            q,
        ) == Some(vs.push(p.1))),
        q == p.0 && strmap::get(headers_of(ps), q) is None ==> strmap::get(
            headers_of(ps.push(p)),
            q,
        ) == Some(seq![p.1]),
        strmap::get(headers_of(Seq::empty()), q) is None,
{
    lemma_map_is_sorted(ps);
    lemma_headers_are_sorted(ps);
    assert(ps.push(p).drop_last() =~= ps);
    strmap::get_after_insert(map_of(ps), p.0, p.1, q);
    let vs = match strmap::get(headers_of(ps), p.0) {
        Some(vs) => vs,
        None => Seq::empty(),
    };
    strmap::get_after_insert(headers_of(ps), p.0, vs.push(p.1), q);
    assert(Seq::<Seq<char>>::empty().push(p.1) =~= seq![p.1]);
}

/// A kind of decision or of change that is not known is refused.
pub proof fn unknown_kinds_are_refused(b: Seq<u8>)
    requires
        b.len() > 0,
    ensures
        b[0] > 3 ==> take_decision(b) == Parsed::<Verdict>::Err(
            "Unknown decision type: "@ + text::digits(b[0] as nat),
        ),
        b[0] > 2 ==> take_op(b) == Parsed::<Op>::Err(
            "Unknown header op type: "@ + text::digits(b[0] as nat),
        ),
{
    reveal(take_op);
}

} // verus!
