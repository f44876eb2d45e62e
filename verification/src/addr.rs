//! IP and socket addresses: values, text form and grammar.
//!
//! An address is held in its integer form (network byte order read as one
//! number), which is what prefix matching works on.

use crate::text;
use vstd::prelude::*;
use vstd::string::*;

verus! {

/// An IPv4 or IPv6 address.
#[derive(Clone, Copy, Debug, PartialEq, Eq, Structural, Hash)]
pub enum IpAddr {
    /// The four octets as one big-endian number.
    V4(u32),
    /// The eight segments as one big-endian number.
    V6(u128),
}

/// An address with a port.
#[derive(Clone, Copy, Debug, PartialEq, Eq, Structural, Hash)]
pub enum SocketAddr {
    /// An IPv4 socket address.
    V4 {
        /// The address, as in [`IpAddr::V4`].
        ip: u32,
        /// The port.
        port: u16,
    },
    /// An IPv6 socket address.
    V6 {
        /// The address, as in [`IpAddr::V6`].
        ip: u128,
        /// The port.
        port: u16,
        /// Flow label and traffic class.
        flowinfo: u32,
        /// The interface of a link-local address; zero for none.
        scope_id: u32,
    },
}

// ---------------------------------------------------------------------------
// Integer form, octets and segments
// ---------------------------------------------------------------------------

/// The four octets of an IPv4 address.
pub open spec fn octets(x: u32) -> Seq<u8> {
    seq![(x >> 24) as u8, ((x >> 16) & 0xff) as u8, ((x >> 8) & 0xff) as u8, (x & 0xff) as u8]
}

/// The IPv4 address with the given octets.
pub open spec fn join_octets(a: u8, b: u8, c: u8, d: u8) -> u32 {
    ((a as u32) << 24) | ((b as u32) << 16) | ((c as u32) << 8) | (d as u32)
}

/// The eight segments of an IPv6 address.
pub open spec fn segments(x: u128) -> Seq<u16> {
    seq![
        (x >> 112) as u16,
        ((x >> 96) & 0xffff) as u16,
        ((x >> 80) & 0xffff) as u16,
        ((x >> 64) & 0xffff) as u16,
        ((x >> 48) & 0xffff) as u16,
        ((x >> 32) & 0xffff) as u16,
        ((x >> 16) & 0xffff) as u16,
        (x & 0xffff) as u16,
    ]
}

/// The IPv6 address with the given segments.
pub open spec fn join_segments(s: Seq<u16>) -> u128 {
    ((s[0] as u128) << 112) | ((s[1] as u128) << 96) | ((s[2] as u128) << 80) | ((s[3] as u128)
        << 64) | ((s[4] as u128) << 48) | ((s[5] as u128) << 32) | ((s[6] as u128) << 16) | (
    s[7] as u128)
}

pub proof fn lemma_octets(x: u32)
    ensures
        join_octets(octets(x)[0], octets(x)[1], octets(x)[2], octets(x)[3]) == x,
{
    assert((((((x >> 24) as u8) as u32) << 24) | (((((x >> 16) & 0xff) as u8) as u32) << 16) | ((((
    (x >> 8) & 0xff) as u8) as u32) << 8) | (((x & 0xff) as u8) as u32)) == x) by (bit_vector);
}

pub proof fn lemma_segments(x: u128)
    ensures
        join_segments(segments(x)) == x,
{
    assert(((((x >> 112) as u16) as u128) << 112) | (((((x >> 96) & 0xffff) as u16) as u128) << 96)
        | (((((x >> 80) & 0xffff) as u16) as u128) << 80) | (((((x >> 64) & 0xffff) as u16) as u128)
        << 64) | (((((x >> 48) & 0xffff) as u16) as u128) << 48) | (((((x >> 32) & 0xffff) as u16)
        as u128) << 32) | (((((x >> 16) & 0xffff) as u16) as u128) << 16) | (((x & 0xffff) as u16)
        as u128) == x) by (bit_vector);
}

/// [`octets`].
pub fn octets_of(x: u32) -> (r: Vec<u8>)
    ensures
        r@ == octets(x),
{
    let v: Vec<u8> = vec![
        (x >> 24) as u8,
        ((x >> 16) & 0xff) as u8,
        ((x >> 8) & 0xff) as u8,
        (x & 0xff) as u8,
    ];
    assert(v@ =~= octets(x));
    v
}

/// [`segments`].
pub fn segments_of(x: u128) -> (r: Vec<u16>)
    ensures
        r@ == segments(x),
{
    let v: Vec<u16> = vec![
        (x >> 112) as u16,
        ((x >> 96) & 0xffff) as u16,
        ((x >> 80) & 0xffff) as u16,
        ((x >> 64) & 0xffff) as u16,
        ((x >> 48) & 0xffff) as u16,
        ((x >> 32) & 0xffff) as u16,
        ((x >> 16) & 0xffff) as u16,
        (x & 0xffff) as u16,
    ];
    assert(v@ =~= segments(x));
    v
}

/// [`join_octets`].
pub fn from_octets(a: u8, b: u8, c: u8, d: u8) -> (r: u32)
    ensures
        r == join_octets(a, b, c, d),
{
    ((a as u32) << 24) | ((b as u32) << 16) | ((c as u32) << 8) | (d as u32)
}

/// [`join_segments`].
pub fn from_segments(s: &Vec<u16>) -> (r: u128)
    requires
        s@.len() == 8,
    ensures
        r == join_segments(s@),
{
    ((s[0] as u128) << 112) | ((s[1] as u128) << 96) | ((s[2] as u128) << 80) | ((s[3] as u128)
        << 64) | ((s[4] as u128) << 48) | ((s[5] as u128) << 32) | ((s[6] as u128) << 16) | (
    s[7] as u128)
}

// ---------------------------------------------------------------------------
// IPv4 text
// ---------------------------------------------------------------------------

/// A decimal octet: one to three digits without a superfluous leading zero.
pub open spec fn octet_value(s: Seq<char>) -> Option<u8> {
    if 1 <= s.len() <= 3 && text::all_digits(s) && text::digits_value(s) <= 255 && (s[0] == '0' ==> s.len()
        == 1) {
        Some(text::digits_value(s) as u8)
    } else {
        None
    }
}

/// Dotted-quad notation.
pub open spec fn parse_v4(s: Seq<char>) -> Option<u32> {
    let p = text::split(s, '.');
    if p.len() == 4 && octet_value(p[0]) is Some && octet_value(p[1]) is Some && octet_value(
        p[2],
    ) is Some && octet_value(p[3]) is Some {
        Some(
            join_octets(
                octet_value(p[0])->0,
                octet_value(p[1])->0,
                octet_value(p[2])->0,
                octet_value(p[3])->0,
            ),
        )
    } else {
        None
    }
}

/// The dotted-quad form of an address.
pub open spec fn format_v4(x: u32) -> Seq<char> {
    let o = octets(x);
    text::join(o.map_values(|b: u8| text::digits(b as nat)), seq!['.'])
}

fn octet_of(s: &str) -> (r: Option<u8>)
    ensures
        r == octet_value(s@),
{
    let v = text::chars_of(s);
    if v.len() < 1 || v.len() > 3 {
        return None;
    }
    if v[0] == '0' && v.len() != 1 {
        return None;
    }
    if v[0] == '+' {
        assert(!text::is_digit(s@[0]));
        return None;
    }
    match text::parse_unsigned(s, 255) {
        Some(n) => Some(n as u8),
        None => None,
    }
}

/// [`parse_v4`] on strings.
pub fn ipv4_from_text(s: &str) -> (r: Option<u32>)
    ensures
        r == parse_v4(s@),
{
    let p = text::split_on(s, '.');
    let ghost pv = p.deep_view();
    assert(pv.len() == p@.len());
    if p.len() != 4 {
        return None;
    }
    assert(pv[0] == p@[0]@ && pv[1] == p@[1]@ && pv[2] == p@[2]@ && pv[3] == p@[3]@);
    let a = octet_of(p[0].as_str());
    let b = octet_of(p[1].as_str());
    let c = octet_of(p[2].as_str());
    let d = octet_of(p[3].as_str());
    match (a, b, c, d) {
        (Some(a), Some(b), Some(c), Some(d)) => Some(from_octets(a, b, c, d)),
        _ => None,
    }
}

/// [`format_v4`] as a string.
pub fn ipv4_text(x: u32) -> (r: String)
    ensures
        r@ == format_v4(x),
{
    let o = octets_of(x);
    let mut parts: Vec<String> = Vec::new();
    let mut i: usize = 0;
    while i < o.len()
        invariant
            i <= o@.len(),
            parts.deep_view() == o@.take(i as int).map_values(|b: u8| text::digits(b as nat)),
        decreases o@.len() - i,
    {
        let ghost before = parts.deep_view();
        parts.push(text::decimal(o[i] as u64));
        proof {
            assert(parts.deep_view() =~= before.push(text::digits(o@[i as int] as nat)));
            assert(parts.deep_view() =~= o@.take(i + 1).map_values(|b: u8| text::digits(b as nat)));
        }
        i = i + 1;
    }
    assert(o@.take(o@.len() as int) =~= o@);
    let out = text::join_with(&parts, ".");
    proof {
        reveal_strlit(".");
        assert("."@ =~= seq!['.']);
    }
    out
}

/// The decimal form of an octet has one to three digits and no leading zero.
pub proof fn lemma_octet_text(b: u8)
    ensures
        octet_value(text::digits(b as nat)) == Some(b),
        1 <= text::digits(b as nat).len() <= 3,
{
    let n = b as nat;
    text::lemma_digits(n);
    reveal_with_fuel(text::digits, 3);
    assert(n >= 100 ==> (n / 10) / 10 < 10);
}

pub proof fn lemma_digits_without(n: nat, c: char)
    requires
        !text::is_digit(c),
    ensures
        !text::digits(n).contains(c),
{
    text::lemma_digits(n);
    assert forall|i: int| 0 <= i < text::digits(n).len() implies text::digits(n)[i] != c by {
        assert(text::is_digit(text::digits(n)[i]));
    }
}

/// Reading the dotted-quad form of an address gives the address back.
pub proof fn ipv4_round_trip(x: u32)
    ensures
        parse_v4(format_v4(x)) == Some(x),
{
    let parts = octets(x).map_values(|b: u8| text::digits(b as nat));
    assert forall|i: int| 0 <= i < parts.len() implies !(#[trigger] parts[i]).contains('.') by {
        lemma_digits_without(octets(x)[i] as nat, '.');
    }
    text::lemma_split_join(parts, '.');
    lemma_octet_text(octets(x)[0]);
    lemma_octet_text(octets(x)[1]);
    lemma_octet_text(octets(x)[2]);
    lemma_octet_text(octets(x)[3]);
    lemma_octets(x);
}

// ---------------------------------------------------------------------------
// IPv6 text
// ---------------------------------------------------------------------------

/// A hexadecimal digit, in either case.
pub open spec fn is_hex(c: char) -> bool {
    '0' <= c <= '9' || 'a' <= c <= 'f' || 'A' <= c <= 'F'
}

/// What a hexadecimal digit stands for.
pub open spec fn hex_value(c: char) -> nat {
    if '0' <= c <= '9' {
        (c as nat - 48) as nat
    } else if 'a' <= c <= 'f' {
        (c as nat - 87) as nat
    } else {
        (c as nat - 55) as nat
    }
}

/// The number that a run of hexadecimal digits stands for.
pub open spec fn hex_number(s: Seq<char>) -> nat
    decreases s.len(),
{
    if s.len() == 0 {
        0
    } else {
        hex_number(s.drop_last()) * 16 + hex_value(s.last())
    }
}

/// A group of an IPv6 address: one to four hexadecimal digits.
pub open spec fn group_value(s: Seq<char>) -> Option<u16> {
    if 1 <= s.len() <= 4 && (forall|i: int| 0 <= i < s.len() ==> is_hex(#[trigger] s[i])) {
        Some(hex_number(s) as u16)
    } else {
        None
    }
}

/// The values of a list of groups.
pub open spec fn group_values(pieces: Seq<Seq<char>>) -> Option<Seq<u16>>
    decreases pieces.len(),
{
    if pieces.len() == 0 {
        Some(Seq::empty())
    } else {
        match (group_values(pieces.drop_last()), group_value(pieces.last())) {
            (Some(init), Some(x)) => Some(init.push(x)),
            _ => None,
        }
    }
}

/// An IPv4 address as the two segments that it fills.
pub open spec fn v4_segments(x: u32) -> Seq<u16> {
    seq![(x >> 16) as u16, (x & 0xffff) as u16]
}

/// Colon-separated groups; the last may be an IPv4 address where `allow_v4` holds.
pub open spec fn parse_groups(s: Seq<char>, allow_v4: bool) -> Option<Seq<u16>> {
    if s.len() == 0 {
        Some(Seq::empty())
    } else {
        let p = text::split(s, ':');
        if allow_v4 && p.last().contains('.') {
            match (group_values(p.drop_last()), parse_v4(p.last())) {
                (Some(init), Some(x)) => Some(init + v4_segments(x)),
                _ => None,
            }
        } else {
            group_values(p)
        }
    }
}

/// The first position at or after `from` where `::` stands, or the length.
pub open spec fn find_double(s: Seq<char>, from: int) -> int
    decreases s.len() - from,
{
    if from < 0 || from + 1 >= s.len() {
        s.len() as int
    } else if s[from] == ':' && s[from + 1] == ':' {
        from
    } else {
        find_double(s, from + 1)
    }
}

/// `n` zero segments.
pub open spec fn zeros(n: int) -> Seq<u16> {
    Seq::new(n as nat, |i: int| 0u16)
}

/// IPv6 notation: eight groups, or fewer with one `::` for the missing zeros.
pub open spec fn parse_v6(s: Seq<char>) -> Option<u128> {
    let k = find_double(s, 0);
    if k < s.len() {
        match (parse_groups(s.take(k), false), parse_groups(s.skip(k + 2), true)) {
            (Some(head), Some(tail)) => if head.len() + tail.len() <= 7 {
                Some(join_segments(head + zeros(8 - head.len() - tail.len()) + tail))
            } else {
                None
            },
            _ => None,
        }
    } else {
        match parse_groups(s, true) {
            Some(all) => if all.len() == 8 {
                Some(join_segments(all))
            } else {
                None
            },
            None => None,
        }
    }
}

/// The number of zero segments in a row from position `i` on.
pub open spec fn run_at(s: Seq<u16>, i: int) -> nat
    decreases s.len() - i,
{
    if 0 <= i < s.len() && s[i] == 0 {
        1 + run_at(s, i + 1)
    } else {
        0
    }
}

/// Start and length of the first longest run of zero segments from `i` on.
pub open spec fn longest_run(s: Seq<u16>, i: int) -> (int, nat)
    decreases s.len() - i,
{
    if i < 0 || i >= s.len() {
        (s.len() as int, 0)
    } else {
        let rest = longest_run(s, i + 1);
        if run_at(s, i) >= rest.1 {
            (i, run_at(s, i))
        } else {
            rest
        }
    }
}

/// Segments in hexadecimal, colons between them.
pub open spec fn format_groups(s: Seq<u16>) -> Seq<char> {
    text::join(s.map_values(|g: u16| text::hex_digits(g as nat)), seq![':'])
}

/// An IPv4-mapped address, `::ffff:a.b.c.d`.
pub open spec fn is_mapped(x: u128) -> bool {
    (x >> 32) == 0xffff
}

/// The canonical text form of an IPv6 address.
pub open spec fn format_v6(x: u128) -> Seq<char> {
    let s = segments(x);
    let (start, n) = longest_run(s, 0);
    if is_mapped(x) {
        "::ffff:"@ + format_v4((x & 0xffff_ffff) as u32)
    } else if n > 1 {
        format_groups(s.take(start)) + "::"@ + format_groups(s.skip(start + n))
    } else {
        format_groups(s)
    }
}

fn hex_of(c: char) -> (r: Option<u16>)
    ensures
        r == (if is_hex(c) {
            Some(hex_value(c) as u16)
        } else {
            None
        }),
        r is Some ==> r->0 < 16,
{
    if '0' <= c && c <= '9' {
        Some((c as u16) - 48)
    } else if 'a' <= c && c <= 'f' {
        Some((c as u16) - 87)
    } else if 'A' <= c && c <= 'F' {
        Some((c as u16) - 55)
    } else {
        None
    }
}

fn group_of(s: &str) -> (r: Option<u16>)
    ensures
        r == group_value(s@),
{
    let v = text::chars_of(s);
    if v.len() < 1 || v.len() > 4 {
        return None;
    }
    let mut n: u32 = 0;
    let mut i: usize = 0;
    while i < v.len()
        invariant
            i <= v@.len() <= 4,
            1 <= v@.len(),
            v@ == s@,
            n == hex_number(v@.take(i as int)),
            i == 0 ==> n == 0,
            i == 1 ==> n < 16,
            i == 2 ==> n < 256,
            i == 3 ==> n < 4096,
            i == 4 ==> n < 65536,
            forall|j: int| 0 <= j < i ==> is_hex(#[trigger] v@[j]),
        decreases v@.len() - i,
    {
        assert(v@.take(i + 1).drop_last() =~= v@.take(i as int));
        match hex_of(v[i]) {
            Some(d) => {
                n = n * 16 + d as u32;
            },
            None => {
                return None;
            },
        }
        i = i + 1;
    }
    assert(v@.take(i as int) =~= v@);
    Some(n as u16)
}

/// [`group_values`] of the first `n` pieces.
fn groups_of(pieces: &Vec<String>, n: usize) -> (r: Option<Vec<u16>>)
    requires
        n <= pieces@.len(),
    ensures
        (match r {
            Some(v) => group_values(pieces.deep_view().take(n as int)) == Some(v@),
            None => group_values(pieces.deep_view().take(n as int)) is None,
        }),
{
    let ghost all = pieces.deep_view();
    let mut out: Vec<u16> = Vec::new();
    let mut i: usize = 0;
    while i < n
        invariant
            i <= n <= pieces@.len(),
            all == pieces.deep_view(),
            group_values(all.take(i as int)) == Some(out@),
        decreases n - i,
    {
        assert(all.take(i + 1).drop_last() =~= all.take(i as int));
        assert(all.take(i + 1).last() == pieces@[i as int]@);
        match group_of(pieces[i].as_str()) {
            Some(x) => {
                out.push(x);
            },
            None => {
                proof {
                    lemma_group_values_none(all, i + 1, n as int);
                }
                return None;
            },
        }
        i = i + 1;
    }
    Some(out)
}

/// A list of groups has no value once a part of it has none.
proof fn lemma_group_values_none(all: Seq<Seq<char>>, i: int, n: int)
    requires
        0 <= i <= n <= all.len(),
        group_values(all.take(i)) is None,
    ensures
        group_values(all.take(n)) is None,
    decreases n - i,
{
    if i < n {
        assert(all.take(i + 1).drop_last() =~= all.take(i));
        lemma_group_values_none(all, i + 1, n);
    }
}

fn parse_group_list(s: &str, allow_v4: bool) -> (r: Option<Vec<u16>>)
    ensures
        (match r {
            Some(v) => parse_groups(s@, allow_v4) == Some(v@),
            None => parse_groups(s@, allow_v4) is None,
        }),
{
    if s.is_empty() {
        return Some(Vec::new());
    }
    let p = text::split_on(s, ':');
    let ghost pv = p.deep_view();
    let last: usize = p.len() - 1;
    assert(pv.len() == p@.len());
    assert(pv.last() == p@[last as int]@);
    if allow_v4 && text::contains_char(p[last].as_str(), '.') {
        assert(pv.take(last as int) =~= pv.drop_last());
        match (groups_of(&p, last), ipv4_from_text(p[last].as_str())) {
            (Some(init), Some(x)) => {
                let mut out = init;
                let ghost before = out@;
                out.push((x >> 16) as u16);
                out.push((x & 0xffff) as u16);
                assert(out@ =~= before + v4_segments(x));
                Some(out)
            },
            _ => None,
        }
    } else {
        assert(pv.take(pv.len() as int) =~= pv);
        groups_of(&p, p.len())
    }
}

fn find_double_colon(v: &Vec<char>) -> (r: usize)
    ensures
        r == find_double(v@, 0),
        r <= v@.len(),
        r < v@.len() ==> r + 1 < v@.len(),
{
    let mut i: usize = 0;
    while i < v.len() && i + 1 < v.len()
        invariant
            i <= v@.len(),
            find_double(v@, i as int) == find_double(v@, 0),
        decreases v@.len() - i,
    {
        if v[i] == ':' && v[i + 1] == ':' {
            return i;
        }
        i = i + 1;
    }
    v.len()
}

/// [`parse_v6`] on strings.
pub fn ipv6_from_text(s: &str) -> (r: Option<u128>)
    ensures
        r == parse_v6(s@),
{
    let v = text::chars_of(s);
    let k = find_double_colon(&v);
    if k < v.len() {
        let head_text = text::string_of_range(v.as_slice(), 0, k);
        let tail_text = text::string_of_range(v.as_slice(), k + 2, v.len());
        assert(head_text@ =~= s@.take(k as int));
        assert(tail_text@ =~= s@.skip(k + 2));
        let head = parse_group_list(head_text.as_str(), false);
        let tail = parse_group_list(tail_text.as_str(), true);
        match (head, tail) {
            (Some(head), Some(tail)) => {
                if head.len() > 7 || tail.len() > 7 || head.len() + tail.len() > 7 {
                    return None;
                }
                let ghost h = head@;
                let ghost t = tail@;
                let mut all = head;
                let gap: usize = 8 - all.len() - tail.len();
                let mut i: usize = 0;
                while i < gap
                    invariant
                        i <= gap,
                        all@ == h + zeros(i as int),
                    decreases gap - i,
                {
                    all.push(0);
                    assert(all@ =~= h + zeros(i + 1));
                    i = i + 1;
                }
                let mut j: usize = 0;
                while j < tail.len()
                    invariant
                        j <= tail@.len(),
                        tail@ == t,
                        all@ == h + zeros(gap as int) + t.take(j as int),
                    decreases tail@.len() - j,
                {
                    all.push(tail[j]);
                    assert(all@ =~= h + zeros(gap as int) + t.take(j + 1));
                    j = j + 1;
                }
                assert(t.take(j as int) =~= t);
                Some(from_segments(&all))
            },
            _ => None,
        }
    } else {
        match parse_group_list(s, true) {
            Some(all) => {
                if all.len() == 8 {
                    Some(from_segments(&all))
                } else {
                    None
                }
            },
            None => None,
        }
    }
}

/// [`format_groups`] of `s[lo..hi]`.
fn groups_text(s: &Vec<u16>, lo: usize, hi: usize) -> (r: String)
    requires
        lo <= hi <= s@.len(),
    ensures
        r@ == format_groups(s@.subrange(lo as int, hi as int)),
{
    let mut parts: Vec<String> = Vec::new();
    let mut i: usize = lo;
    let ghost f = |g: u16| text::hex_digits(g as nat);
    while i < hi
        invariant
            lo <= i <= hi <= s@.len(),
            f == (|g: u16| text::hex_digits(g as nat)),
            parts.deep_view() == s@.subrange(lo as int, i as int).map_values(f),
        decreases hi - i,
    {
        let ghost before = parts.deep_view();
        let mut t = String::new();
        text::push_hex(&mut t, s[i]);
        parts.push(t);
        proof {
            assert(t@ =~= text::hex_digits(s@[i as int] as nat));
            assert(parts.deep_view() =~= before.push(text::hex_digits(s@[i as int] as nat)));
            assert(parts.deep_view() =~= s@.subrange(lo as int, i + 1).map_values(f));
        }
        i = i + 1;
    }
    let out = text::join_with(&parts, ":");
    proof {
        reveal_strlit(":");
        assert(":"@ =~= seq![':']);
    }
    out
}

/// [`format_v6`] as a string.
pub fn ipv6_text(x: u128) -> (r: String)
    ensures
        r@ == format_v6(x),
{
    let s = segments_of(x);
    if (x >> 32) == 0xffff {
        let mut out = "::ffff:".to_owned();
        let v4 = ipv4_text((x & 0xffff_ffff) as u32);
        out.append(v4.as_str());
        return out;
    }
    let mut i: usize = s.len();
    let mut run: usize = 0;
    let mut start: usize = s.len();
    let mut n: usize = 0;
    while i > 0
        invariant
            i <= s@.len() == 8,
            run == run_at(s@, i as int),
            run <= s@.len() - i,
            start <= s@.len(),
            start + n <= s@.len(),
            (start as int, n as nat) == longest_run(s@, i as int),
        decreases i,
    {
        i = i - 1;
        if s[i] == 0 {
            run = run + 1;
        } else {
            run = 0;
        }
        if run >= n {
            start = i;
            n = run;
        }
    }
    if n > 1 {
        let mut out = groups_text(&s, 0, start);
        out.append("::");
        let tail = groups_text(&s, start + n, s.len());
        out.append(tail.as_str());
        proof {
            assert(s@.subrange(0, start as int) =~= s@.take(start as int));
            assert(s@.subrange(start + n, s@.len() as int) =~= s@.skip(start + n));
        }
        out
    } else {
        assert(s@.subrange(0, s@.len() as int) =~= s@);
        groups_text(&s, 0, s.len())
    }
}

// --- reading back what was written ------------------------------------------

/// No two colons in a row.
spec fn no_double(s: Seq<char>) -> bool {
    forall|i: int| 0 <= i < s.len() - 1 ==> !(#[trigger] s[i] == ':' && s[i + 1] == ':')
}

proof fn lemma_hex_digits(n: nat)
    ensures
        text::hex_digits(n).len() >= 1,
        forall|i: int|
            0 <= i < text::hex_digits(n).len() ==> is_hex(#[trigger] text::hex_digits(n)[i]),
        hex_number(text::hex_digits(n)) == n,
    decreases n,
{
    if n >= 16 {
        lemma_hex_digits(n / 16);
        assert(text::hex_digits(n).drop_last() =~= text::hex_digits(n / 16));
    } else {
        assert(text::hex_digits(n).drop_last() =~= Seq::<char>::empty());
        assert(hex_number(Seq::<char>::empty()) == 0);
    }
}

proof fn lemma_group_text(g: u16)
    ensures
        group_value(text::hex_digits(g as nat)) == Some(g),
        1 <= text::hex_digits(g as nat).len() <= 4,
        !text::hex_digits(g as nat).contains(':'),
        !text::hex_digits(g as nat).contains('.'),
{
    let n = g as nat;
    lemma_hex_digits(n);
    reveal_with_fuel(text::hex_digits, 4);
    assert(n >= 4096 ==> ((n / 16) / 16) / 16 < 16);
    let t = text::hex_digits(n);
    assert forall|i: int| 0 <= i < t.len() implies t[i] != ':' && t[i] != '.' by {
        assert(is_hex(t[i]));
    }
}

proof fn lemma_group_values(s: Seq<u16>)
    ensures
        group_values(s.map_values(|g: u16| text::hex_digits(g as nat))) == Some(s),
    decreases s.len(),
{
    let f = |g: u16| text::hex_digits(g as nat);
    let p = s.map_values(f);
    if s.len() > 0 {
        lemma_group_values(s.drop_last());
        lemma_group_text(s.last());
        assert(p.drop_last() =~= s.drop_last().map_values(f));
        assert(p.last() == text::hex_digits(s.last() as nat));
        assert(s.drop_last().push(s.last()) =~= s);
    } else {
        assert(s =~= Seq::empty());
    }
}

/// Groups in text form hold no `::` and neither begin nor end with a colon.
proof fn lemma_groups_clean(s: Seq<u16>)
    requires
        s.len() >= 1,
    ensures
        no_double(format_groups(s)),
        1 <= format_groups(s).len() <= 5 * s.len() - 1,
        format_groups(s)[0] != ':',
        format_groups(s).last() != ':',
    decreases s.len(),
{
    let f = |g: u16| text::hex_digits(g as nat);
    let p = s.map_values(f);
    let last = text::hex_digits(s.last() as nat);
    lemma_group_text(s.last());
    assert(p.last() == last);
    assert forall|i: int| 0 <= i < last.len() implies last[i] != ':' by {
        assert(last.contains(last[i]));
    }
    if s.len() == 1 {
        assert(format_groups(s) == last);
    } else {
        let init = s.drop_last();
        lemma_groups_clean(init);
        assert(p.drop_last() =~= init.map_values(f));
        let a = format_groups(init);
        let t = format_groups(s);
        assert(t == a + seq![':'] + last);
        assert forall|i: int| 0 <= i < t.len() - 1 implies !(#[trigger] t[i] == ':' && t[i + 1]
            == ':') by {
            if i < a.len() - 1 {
                assert(t[i] == a[i] && t[i + 1] == a[i + 1]);
            } else if i == a.len() - 1 {
                assert(t[i] == a.last());
            } else {
                assert(t[i + 1] == last[i + 1 - a.len() - 1]);
            }
        }
    }
}

proof fn lemma_parse_groups(s: Seq<u16>, allow_v4: bool)
    ensures
        parse_groups(format_groups(s), allow_v4) == Some(s),
{
    let f = |g: u16| text::hex_digits(g as nat);
    let p = s.map_values(f);
    if s.len() == 0 {
        assert(s =~= Seq::empty());
    } else {
        lemma_groups_clean(s);
        assert forall|i: int| 0 <= i < p.len() implies !(#[trigger] p[i]).contains(':') by {
            lemma_group_text(s[i]);
        }
        text::lemma_split_join(p, ':');
        lemma_group_text(s.last());
        lemma_group_values(s);
    }
}

proof fn lemma_find_double_at(s: Seq<char>, from: int, k: int)
    requires
        0 <= from <= k,
        k + 1 < s.len(),
        s[k] == ':',
        s[k + 1] == ':',
        forall|i: int| from <= i < k ==> !(#[trigger] s[i] == ':' && s[i + 1] == ':'),
    ensures
        find_double(s, from) == k,
    decreases k - from,
{
    if from < k {
        assert(!(s[from] == ':' && s[from + 1] == ':'));
        lemma_find_double_at(s, from + 1, k);
    }
}

proof fn lemma_find_double_none(s: Seq<char>, from: int)
    requires
        0 <= from,
        no_double(s),
    ensures
        find_double(s, from) == s.len(),
    decreases s.len() - from,
{
    if from + 1 < s.len() {
        assert(!(s[from] == ':' && s[from + 1] == ':'));
        lemma_find_double_none(s, from + 1);
    }
}

proof fn lemma_run_at(s: Seq<u16>, i: int)
    requires
        0 <= i <= s.len(),
    ensures
        i + run_at(s, i) <= s.len(),
        forall|j: int| i <= j < i + run_at(s, i) ==> s[j] == 0,
    decreases s.len() - i,
{
    if i < s.len() && s[i] == 0 {
        lemma_run_at(s, i + 1);
    }
}

proof fn lemma_longest_run(s: Seq<u16>, i: int)
    requires
        0 <= i <= s.len(),
    ensures
        i <= longest_run(s, i).0,
        longest_run(s, i).0 + longest_run(s, i).1 <= s.len(),
        forall|j: int|
            longest_run(s, i).0 <= j < longest_run(s, i).0 + longest_run(s, i).1 ==> s[j] == 0,
    decreases s.len() - i,
{
    lemma_run_at(s, i);
    if i < s.len() {
        lemma_longest_run(s, i + 1);
    }
}

proof fn lemma_mapped_segments(x: u128)
    requires
        is_mapped(x),
    ensures
        segments(x) == zeros(5) + seq![0xffffu16] + v4_segments((x & 0xffff_ffff) as u32),
{
    let v: u32 = (x & 0xffff_ffff) as u32;
    assert((x >> 112) as u16 == 0 && ((x >> 96) & 0xffff) as u16 == 0 && ((x >> 80) & 0xffff) as u16
        == 0 && ((x >> 64) & 0xffff) as u16 == 0 && ((x >> 48) & 0xffff) as u16 == 0 && ((x >> 32)
        & 0xffff) as u16 == 0xffff && ((x >> 16) & 0xffff) as u16 == (v >> 16) as u16 && (x
        & 0xffff) as u16 == (v & 0xffff) as u16) by (bit_vector)
        requires
            (x >> 32) == 0xffff,
            v == (x & 0xffff_ffff) as u32,
    ;
    assert(segments(x) =~= zeros(5) + seq![0xffffu16] + v4_segments(v));
}

/// Dotted-quad text holds no colon and is 7 to 15 characters long.
pub proof fn lemma_v4_text(x: u32)
    ensures
        !format_v4(x).contains(':'),
        format_v4(x).contains('.'),
        7 <= format_v4(x).len() <= 15,
        forall|i: int|
            0 <= i < format_v4(x).len() ==> (text::is_digit(#[trigger] format_v4(x)[i])
                || format_v4(x)[i] == '.'),
{
    let o = octets(x);
    let p = o.map_values(|b: u8| text::digits(b as nat));
    assert forall|i: int| 0 <= i < 4 implies 1 <= (#[trigger] p[i]).len() <= 3 && text::all_digits(
        p[i],
    ) by {
        lemma_octet_text(o[i]);
        text::lemma_digits(o[i] as nat);
    }
    reveal_with_fuel(text::join, 4);
    let (p0, p1, p2, p3) = (p[0], p[1], p[2], p[3]);
    assert(p.drop_last() =~= seq![p0, p1, p2]);
    assert(seq![p0, p1, p2].drop_last() =~= seq![p0, p1]);
    assert(seq![p0, p1].drop_last() =~= seq![p0]);
    let t = format_v4(x);
    let a = p0 + seq!['.'] + p1;
    let b = a + seq!['.'] + p2;
    assert(t == b + seq!['.'] + p3);
    assert(t[b.len() as int] == '.');
    assert(text::all_digits(p0) && text::all_digits(p1) && text::all_digits(p2)
        && text::all_digits(p3));
    assert forall|i: int| 0 <= i < t.len() implies (text::is_digit(#[trigger] t[i]) || t[i]
        == '.') by {
        let na = a.len() as int;
        let nb = b.len() as int;
        let n0 = p0.len() as int;
        if i < n0 {
            assert(t[i] == p0[i]);
        } else if i == n0 {
        } else if i < na {
            assert(t[i] == p1[i - n0 - 1]);
        } else if i == na {
        } else if i < nb {
            assert(t[i] == p2[i - na - 1]);
        } else if i == nb {
        } else {
            assert(t[i] == p3[i - nb - 1]);
        }
    }
    assert forall|i: int| 0 <= i < t.len() implies t[i] != ':' by {
        assert(text::is_digit(t[i]) || t[i] == '.');
    }
}

proof fn lemma_mapped_round_trip(x: u128)
    requires
        is_mapped(x),
    ensures
        parse_v6(format_v6(x)) == Some(x),
{
    let v: u32 = (x & 0xffff_ffff) as u32;
    let q = format_v4(v);
    let t = format_v6(x);
    reveal_strlit("::ffff:");
    assert(t == "::ffff:"@ + q);
    assert(t[0] == ':' && t[1] == ':');
    assert(find_double(t, 0) == 0);
    assert(t.take(0) =~= Seq::empty());
    let rest = t.skip(2);
    let g = text::hex_digits(0xffff);
    assert(g =~= seq!['f', 'f', 'f', 'f']) by {
        reveal_with_fuel(text::hex_digits, 4);
    }
    assert(rest =~= g + seq![':'] + q);
    lemma_v4_text(v);
    lemma_group_text(0xffff);
    let p = seq![g, q];
    assert(text::join(p, seq![':']) =~= rest) by {
        reveal_with_fuel(text::join, 2);
        assert(p.drop_last() =~= seq![g]);
    }
    text::lemma_split_join(p, ':');
    assert(p.drop_last() =~= seq![g]);
    assert(group_values(seq![g]) == Some(seq![0xffffu16])) by {
        reveal_with_fuel(group_values, 2);
        assert(seq![g].drop_last() =~= Seq::<Seq<char>>::empty());
        assert(Seq::<u16>::empty().push(0xffffu16) =~= seq![0xffffu16]);
    }
    ipv4_round_trip(v);
    assert(parse_groups(rest, true) == Some(seq![0xffffu16] + v4_segments(v)));
    lemma_mapped_segments(x);
    lemma_segments(x);
    assert(Seq::<u16>::empty() + zeros(5) + (seq![0xffffu16] + v4_segments(v)) =~= segments(x));
}

/// Reading the canonical text of an IPv6 address gives the address back.
#[verifier::rlimit(60)]
pub proof fn ipv6_round_trip(x: u128)
    ensures
        parse_v6(format_v6(x)) == Some(x),
{
    let s = segments(x);
    let (start, n) = longest_run(s, 0);
    lemma_longest_run(s, 0);
    lemma_segments(x);
    if is_mapped(x) {
        lemma_mapped_round_trip(x);
    } else if n > 1 {
        let a = s.take(start);
        let b = s.skip(start + n);
        let ta = format_groups(a);
        let tb = format_groups(b);
        let t = format_v6(x);
        reveal_strlit("::");
        assert(t == ta + "::"@ + tb);
        assert(a.len() == 0 ==> ta =~= Seq::empty());
        if a.len() > 0 {
            lemma_groups_clean(a);
        }
        assert forall|i: int| 0 <= i < ta.len() implies !(#[trigger] t[i] == ':' && t[i + 1]
            == ':') by {
            assert(t[i] == ta[i]);
            if i < ta.len() - 1 {
                assert(t[i + 1] == ta[i + 1]);
                assert(!(ta[i] == ':' && ta[i + 1] == ':'));
            } else {
                assert(t[i] == ta.last());
            }
        }
        lemma_find_double_at(t, 0, ta.len() as int);
        assert(t.take(ta.len() as int) =~= ta);
        assert(t.skip(ta.len() as int + 2) =~= tb);
        lemma_parse_groups(a, false);
        lemma_parse_groups(b, true);
        assert(a + zeros(8 - a.len() - b.len()) + b =~= s);
    } else {
        lemma_groups_clean(s);
        lemma_find_double_none(format_v6(x), 0);
        lemma_parse_groups(s, true);
    }
}

/// The canonical text of an IPv6 address is 2 to 39 characters long and made of
/// hexadecimal digits, colons and dots.
pub proof fn lemma_v6_text(x: u128)
    ensures
        2 <= format_v6(x).len() <= 39,
        forall|i: int|
            0 <= i < format_v6(x).len() ==> (is_hex(#[trigger] format_v6(x)[i]) || format_v6(
                x,
            )[i] == ':' || format_v6(x)[i] == '.'),
{
    let s = segments(x);
    let (start, n) = longest_run(s, 0);
    lemma_longest_run(s, 0);
    let t = format_v6(x);
    if is_mapped(x) {
        reveal_strlit("::ffff:");
        let q = format_v4((x & 0xffff_ffff) as u32);
        lemma_v4_text((x & 0xffff_ffff) as u32);
        assert forall|i: int| 0 <= i < t.len() implies (is_hex(#[trigger] t[i]) || t[i] == ':'
            || t[i] == '.') by {
            if i >= 7 {
                assert(t[i] == q[i - 7]);
            }
        }
    } else if n > 1 {
        let a = s.take(start);
        let b = s.skip(start + n);
        reveal_strlit("::");
        lemma_groups_chars(a);
        lemma_groups_chars(b);
        let ta = format_groups(a);
        let tb = format_groups(b);
        assert forall|i: int| 0 <= i < t.len() implies (is_hex(#[trigger] t[i]) || t[i] == ':'
            || t[i] == '.') by {
            if i < ta.len() {
                assert(t[i] == ta[i]);
            } else if i >= ta.len() + 2 {
                assert(t[i] == tb[i - ta.len() - 2]);
            }
        }
    } else {
        lemma_groups_chars(s);
        lemma_groups_clean(s);
        let g = format_groups(s);
        reveal_with_fuel(text::join, 2);
        lemma_groups_longer(s);
    }
}

proof fn lemma_groups_chars(s: Seq<u16>)
    ensures
        format_groups(s).len() <= 5 * s.len(),
        s.len() >= 1 ==> format_groups(s).len() <= 5 * s.len() - 1,
        forall|i: int|
            0 <= i < format_groups(s).len() ==> (is_hex(#[trigger] format_groups(s)[i])
                || format_groups(s)[i] == ':'),
    decreases s.len(),
{
    let f = |g: u16| text::hex_digits(g as nat);
    let p = s.map_values(f);
    if s.len() > 0 {
        let init = s.drop_last();
        lemma_groups_chars(init);
        lemma_group_text(s.last());
        lemma_hex_digits(s.last() as nat);
        let last = text::hex_digits(s.last() as nat);
        assert(p.drop_last() =~= init.map_values(f));
        assert(p.last() == last);
        let t = format_groups(s);
        if s.len() == 1 {
            assert(t == last);
        } else {
            let a = format_groups(init);
            assert(t == a + seq![':'] + last);
            assert forall|i: int| 0 <= i < t.len() implies (is_hex(#[trigger] t[i]) || t[i]
                == ':') by {
                if i < a.len() {
                    assert(t[i] == a[i]);
                } else if i > a.len() {
                    assert(t[i] == last[i - a.len() - 1]);
                }
            }
        }
    }
}

proof fn lemma_groups_longer(s: Seq<u16>)
    requires
        s.len() >= 2,
    ensures
        format_groups(s).len() >= 2,
{
    let f = |g: u16| text::hex_digits(g as nat);
    let p = s.map_values(f);
    lemma_group_text(s.last());
    assert(p.last() == text::hex_digits(s.last() as nat));
}

// ---------------------------------------------------------------------------
// Addresses
// ---------------------------------------------------------------------------

/// The canonical text form of an address.
pub open spec fn format_ip(ip: IpAddr) -> Seq<char> {
    match ip {
        IpAddr::V4(x) => format_v4(x),
        IpAddr::V6(x) => format_v6(x),
    }
}

/// An address in either notation.
pub open spec fn parse_ip(s: Seq<char>) -> Option<IpAddr> {
    match parse_v4(s) {
        Some(x) => Some(IpAddr::V4(x)),
        None => match parse_v6(s) {
            Some(x) => Some(IpAddr::V6(x)),
            None => None,
        },
    }
}

/// An IPv4-mapped IPv6 address becomes the IPv4 address that it stands for.
pub open spec fn canonical(ip: IpAddr) -> IpAddr {
    match ip {
        IpAddr::V4(x) => IpAddr::V4(x),
        IpAddr::V6(x) => if is_mapped(x) {
            IpAddr::V4((x & 0xffff_ffff) as u32)
        } else {
            IpAddr::V6(x)
        },
    }
}

/// A decimal port: digits only, at most 65535.
pub open spec fn parse_port(s: Seq<char>) -> Option<u16> {
    if s.len() > 0 && text::all_digits(s) && text::digits_value(s) <= 0xffff {
        Some(text::digits_value(s) as u16)
    } else {
        None
    }
}

/// A scope identifier of a bracketed address: decimal digits, at most 32 bits.
pub open spec fn parse_scope(s: Seq<char>) -> Option<u32> {
    if s.len() > 0 && text::all_digits(s) && text::digits_value(s) <= 0xffff_ffff {
        Some(text::digits_value(s) as u32)
    } else {
        None
    }
}

/// The address between the brackets of a socket address with its scope identifier,
/// which stands behind a percent sign and is zero where there is none.
pub open spec fn parse_scoped_v6(s: Seq<char>) -> Option<(u128, u32)> {
    let k = text::find_char(s, '%');
    if k < s.len() {
        match (parse_v6(s.take(k)), parse_scope(s.skip(k + 1))) {
            (Some(x), Some(scope_id)) => Some((x, scope_id)),
            _ => None,
        }
    } else {
        match parse_v6(s) {
            Some(x) => Some((x, 0)),
            None => None,
        }
    }
}

/// `a.b.c.d:port`, `[v6]:port` or `[v6%scope]:port`.
pub open spec fn parse_socket(s: Seq<char>) -> Option<SocketAddr> {
    if s.len() > 0 && s[0] == '[' {
        let k = text::find_char(s, ']');
        if k + 1 < s.len() && s[k + 1] == ':' {
            match (parse_scoped_v6(s.subrange(1, k)), parse_port(s.skip(k + 2))) {
                (Some((ip, scope_id)), Some(port)) => Some(
                    SocketAddr::V6 { ip, port, flowinfo: 0, scope_id },
                ),
                _ => None,
            }
        } else {
            None
        }
    } else {
        let k = text::find_char(s, ':');
        if k < s.len() {
            match (parse_v4(s.take(k)), parse_port(s.skip(k + 1))) {
                (Some(ip), Some(port)) => Some(SocketAddr::V4 { ip, port }),
                _ => None,
            }
        } else {
            None
        }
    }
}

/// The text form of a socket address; a scope identifier is shown unless it is zero.
pub open spec fn format_socket(a: SocketAddr) -> Seq<char> {
    match a {
        SocketAddr::V4 { ip, port } => format_v4(ip) + ":"@ + text::digits(port as nat),
        SocketAddr::V6 { ip, port, scope_id, .. } => "["@ + format_v6(ip) + (if scope_id == 0 {
            Seq::empty()
        } else {
            "%"@ + text::digits(scope_id as nat)
        }) + "]:"@ + text::digits(port as nat),
    }
}

/// The socket address of an address and a port, without flow information or scope.
pub open spec fn socket(ip: IpAddr, port: u16) -> SocketAddr {
    match ip {
        IpAddr::V4(ip) => SocketAddr::V4 { ip, port },
        IpAddr::V6(ip) => SocketAddr::V6 { ip, port, flowinfo: 0, scope_id: 0 },
    }
}

fn number_of(s: &str, max: u64) -> (r: Option<u64>)
    requires
        max <= 0xffff_ffff,
    ensures
        r == (if s@.len() > 0 && text::all_digits(s@) && text::digits_value(s@) <= max {
            Some(text::digits_value(s@) as u64)
        } else {
            None
        }),
{
    let v = text::chars_of(s);
    if v.len() > 0 && v[0] == '+' {
        assert(!text::is_digit(s@[0]));
        return None;
    }
    text::parse_unsigned(s, max)
}

impl IpAddr {
    /// Reads an address in IPv4 or IPv6 notation.
    pub fn parse(s: &str) -> (r: Option<IpAddr>)
        ensures
            r == parse_ip(s@),
    {
        match ipv4_from_text(s) {
            Some(x) => Some(IpAddr::V4(x)),
            None => match ipv6_from_text(s) {
                Some(x) => Some(IpAddr::V6(x)),
                None => None,
            },
        }
    }

    /// The canonical text form.
    pub fn text(&self) -> (r: String)
        ensures
            r@ == format_ip(*self),
    {
        match self {
            IpAddr::V4(x) => ipv4_text(*x),
            IpAddr::V6(x) => ipv6_text(*x),
        }
    }

    /// Turns an IPv4-mapped IPv6 address into the IPv4 address it stands for.
    pub fn to_canonical(&self) -> (r: IpAddr)
        ensures
            r == canonical(*self),
    {
        match self {
            IpAddr::V4(x) => IpAddr::V4(*x),
            IpAddr::V6(x) => if (*x >> 32) == 0xffff {
                IpAddr::V4((*x & 0xffff_ffff) as u32)
            } else {
                IpAddr::V6(*x)
            },
        }
    }

    /// The address `0.0.0.0` or `::`.
    pub fn is_unspecified(&self) -> (r: bool)
        ensures
            r == (*self == IpAddr::V4(0) || *self == IpAddr::V6(0)),
    {
        match self {
            IpAddr::V4(x) => *x == 0,
            IpAddr::V6(x) => *x == 0,
        }
    }
}

impl SocketAddr {
    /// [`SocketAddr::ip`].
    pub open spec fn spec_ip(&self) -> IpAddr {
        match *self {
            SocketAddr::V4 { ip, .. } => IpAddr::V4(ip),
            SocketAddr::V6 { ip, .. } => IpAddr::V6(ip),
        }
    }

    /// [`SocketAddr::port`].
    pub open spec fn spec_port(&self) -> u16 {
        match *self {
            SocketAddr::V4 { port, .. } => port,
            SocketAddr::V6 { port, .. } => port,
        }
    }

    /// The address.
    #[verifier::when_used_as_spec(spec_ip)]
    pub fn ip(&self) -> (r: IpAddr)
        ensures
            r == self.spec_ip(),
    {
        match self {
            SocketAddr::V4 { ip, .. } => IpAddr::V4(*ip),
            SocketAddr::V6 { ip, .. } => IpAddr::V6(*ip),
        }
    }

    /// The port.
    #[verifier::when_used_as_spec(spec_port)]
    pub fn port(&self) -> (r: u16)
        ensures
            r == self.spec_port(),
    {
        match self {
            SocketAddr::V4 { port, .. } => *port,
            SocketAddr::V6 { port, .. } => *port,
        }
    }

    /// An address with a port, without flow information or scope.
    pub fn new(ip: IpAddr, port: u16) -> (r: SocketAddr)
        ensures
            r == socket(ip, port),
    {
        match ip {
            IpAddr::V4(ip) => SocketAddr::V4 { ip, port },
            IpAddr::V6(ip) => SocketAddr::V6 { ip, port, flowinfo: 0, scope_id: 0 },
        }
    }

    /// Reads `a.b.c.d:port`, `[v6]:port` or `[v6%scope]:port`.
    pub fn parse(s: &str) -> (r: Option<SocketAddr>)
        ensures
            r == parse_socket(s@),
    {
        let v = text::chars_of(s);
        if v.len() > 0 && v[0] == '[' {
            let k = text::find_in(v.as_slice(), ']', 0);
            if k >= v.len() || v.len() - k < 2 || v[k + 1] != ':' {
                return None;
            }
            let inner = text::string_of_range(v.as_slice(), 1, k);
            let port_text = text::string_of_range(v.as_slice(), k + 2, v.len());
            assert(port_text@ =~= s@.skip(k + 2));
            match (scoped_v6_of(inner.as_str()), number_of(port_text.as_str(), 0xffff)) {
                (Some((ip, scope_id)), Some(port)) => Some(
                    SocketAddr::V6 { ip, port: port as u16, flowinfo: 0, scope_id },
                ),
                _ => None,
            }
        } else {
            let k = text::find_in(v.as_slice(), ':', 0);
            if k >= v.len() {
                return None;
            }
            let addr = text::string_of_range(v.as_slice(), 0, k);
            let port_text = text::string_of_range(v.as_slice(), k + 1, v.len());
            assert(addr@ =~= s@.take(k as int));
            assert(port_text@ =~= s@.skip(k + 1));
            match (ipv4_from_text(addr.as_str()), number_of(port_text.as_str(), 0xffff)) {
                (Some(ip), Some(port)) => Some(SocketAddr::V4 { ip, port: port as u16 }),
                _ => None,
            }
        }
    }

    /// The text form, `ip:port`, `[ip]:port` or `[ip%scope]:port`.
    pub fn text(&self) -> (r: String)
        ensures
            r@ == format_socket(*self),
    {
        match self {
            SocketAddr::V4 { ip, port } => {
                let mut out = ipv4_text(*ip);
                out.append(":");
                text::push_decimal(&mut out, *port as u64);
                out
            },
            SocketAddr::V6 { ip, port, flowinfo: _, scope_id } => {
                let mut out = "[".to_owned();
                let shown = ipv6_text(*ip);
                out.append(shown.as_str());
                let ghost before = out@;
                if *scope_id != 0 {
                    out.append("%");
                    text::push_decimal(&mut out, *scope_id as u64);
                    assert(out@ =~= before + ("%"@ + text::digits(*scope_id as nat)));
                } else {
                    assert(out@ =~= before + Seq::<char>::empty());
                }
                out.append("]:");
                text::push_decimal(&mut out, *port as u64);
                out
            },
        }
    }

    /// True for an IPv4 address.
    pub fn is_ipv4(&self) -> (r: bool)
        ensures
            r == (*self is V4),
    {
        match self {
            SocketAddr::V4 { .. } => true,
            SocketAddr::V6 { .. } => false,
        }
    }
}

fn scoped_v6_of(s: &str) -> (r: Option<(u128, u32)>)
    ensures
        r == parse_scoped_v6(s@),
{
    let v = text::chars_of(s);
    let k = text::find_in(v.as_slice(), '%', 0);
    if k < v.len() {
        let addr = text::string_of_range(v.as_slice(), 0, k);
        let scope = text::string_of_range(v.as_slice(), k + 1, v.len());
        assert(addr@ =~= s@.take(k as int));
        assert(scope@ =~= s@.skip(k + 1));
        match (ipv6_from_text(addr.as_str()), number_of(scope.as_str(), 0xffff_ffff)) {
            (Some(x), Some(scope_id)) => Some((x, scope_id as u32)),
            _ => None,
        }
    } else {
        match ipv6_from_text(s) {
            Some(x) => Some((x, 0)),
            None => None,
        }
    }
}

/// Reading the text form of an address gives the address back.
pub proof fn ip_round_trip(ip: IpAddr)
    ensures
        parse_ip(format_ip(ip)) == Some(ip),
{
    match ip {
        IpAddr::V4(x) => {
            ipv4_round_trip(x);
        },
        IpAddr::V6(x) => {
            ipv6_round_trip(x);
            let t = format_v6(x);
            // No IPv6 text is a dotted quad: it holds a colon.
            lemma_v6_has_colon(x);
            if parse_v4(t) is Some {
                lemma_v4_no_colon(t);
            }
        },
    }
}

proof fn lemma_v6_has_colon(x: u128)
    ensures
        format_v6(x).contains(':'),
{
    let s = segments(x);
    let (start, n) = longest_run(s, 0);
    let t = format_v6(x);
    if is_mapped(x) {
        reveal_strlit("::ffff:");
        assert(t[0] == ':');
    } else if n > 1 {
        reveal_strlit("::");
        lemma_longest_run(s, 0);
        assert(t[format_groups(s.take(start)).len() as int] == ':');
    } else {
        let f = |g: u16| text::hex_digits(g as nat);
        let p = s.map_values(f);
        let a = text::join(p.drop_last(), seq![':']);
        assert(t == a + seq![':'] + p.last());
        assert(t[a.len() as int] == ':');
    }
}

/// Text that splits into digit-only pieces holds digits and separators only.
proof fn lemma_v4_no_colon(t: Seq<char>)
    requires
        parse_v4(t) is Some,
    ensures
        !t.contains(':'),
{
    let p = text::split(t, '.');
    assert forall|i: int| 0 <= i < p.len() implies text::all_digits(#[trigger] p[i]) by {
        assert(i == 0 || i == 1 || i == 2 || i == 3);
    }
    lemma_split_chars(t, 0);
    assert forall|j: int| 0 <= j < t.len() implies t[j] != ':' by {
        assert(t[j] == '.' || text::is_digit(t[j]));
    }
}

proof fn lemma_split_chars(t: Seq<char>, from: int)
    requires
        0 <= from <= t.len(),
        forall|i: int|
            0 <= i < text::split_from(t, '.', from).len() ==> text::all_digits(
                #[trigger] text::split_from(t, '.', from)[i],
            ),
    ensures
        forall|j: int| from <= j < t.len() ==> (#[trigger] t[j] == '.' || text::is_digit(t[j])),
    decreases t.len() - from,
{
    let p = text::split_from(t, '.', from);
    let k = text::find_from(t, '.', from);
    text::lemma_find_from(t, '.', from);
    assert(text::all_digits(p[0]));
    if k < t.len() {
        let q = text::split_from(t, '.', k + 1);
        assert(p == seq![t.subrange(from, k)] + q);
        assert forall|i: int| 0 <= i < q.len() implies text::all_digits(#[trigger] q[i]) by {
            assert(q[i] == p[i + 1]);
        }
        lemma_split_chars(t, k + 1);
        assert forall|j: int| from <= j < t.len() implies (#[trigger] t[j] == '.'
            || text::is_digit(t[j])) by {
            if j < k {
                assert(t[j] == t.subrange(from, k)[j - from]);
                assert(text::is_digit(p[0][j - from]));
            }
        }
    } else {
        assert forall|j: int| from <= j < t.len() implies (#[trigger] t[j] == '.'
            || text::is_digit(t[j])) by {
            assert(t[j] == t.subrange(from, t.len() as int)[j - from]);
            assert(text::is_digit(p[0][j - from]));
        }
    }
}

/// The value of an IPv4 address: its first octet counts most.
pub proof fn first_octet_counts_most(a: u8, b: u8, c: u8, d: u8)
    ensures
        join_octets(a, b, c, d) == a * 0x100_0000 + b * 0x1_0000 + c * 0x100 + d,
        parse_v4(
            text::digits(a as nat) + seq!['.'] + text::digits(b as nat) + seq!['.'] + text::digits(
                c as nat,
            ) + seq!['.'] + text::digits(d as nat),
        ) matches Some(x) && x == a * 0x100_0000 + b * 0x1_0000 + c * 0x100 + d,
{
    assert((((a as u32) << 24) | ((b as u32) << 16) | ((c as u32) << 8) | (d as u32)) == a
        * 0x100_0000 + b * 0x1_0000 + c * 0x100 + d) by (bit_vector);
    let parts = seq![
        text::digits(a as nat),
        text::digits(b as nat),
        text::digits(c as nat),
        text::digits(d as nat),
    ];
    lemma_digits_without(a as nat, '.');
    lemma_digits_without(b as nat, '.');
    lemma_digits_without(c as nat, '.');
    lemma_digits_without(d as nat, '.');
    text::lemma_split_join(parts, '.');
    reveal_with_fuel(text::join, 4);
    assert(parts.drop_last() =~= seq![parts[0], parts[1], parts[2]]);
    assert(seq![parts[0], parts[1], parts[2]].drop_last() =~= seq![parts[0], parts[1]]);
    assert(seq![parts[0], parts[1]].drop_last() =~= seq![parts[0]]);
    lemma_octet_text(a);
    lemma_octet_text(b);
    lemma_octet_text(c);
    lemma_octet_text(d);
}

/// The canonical form: an IPv6 address whose upper 96 bits are `::ffff:0:0` becomes
/// the IPv4 address of its lower 32 bits, and no other address changes.
pub proof fn only_mapped_addresses_change(ip: IpAddr)
    ensures
        ip is V4 ==> canonical(ip) == ip,
        ip matches IpAddr::V6(x) ==> (if x as int / 0x1_0000_0000 == 0xffff {
            canonical(ip) matches IpAddr::V4(y) && y == x as int % 0x1_0000_0000
        } else {
            canonical(ip) == ip
        }),
{
    if let IpAddr::V6(x) = ip {
        lemma_halves(x);
    }
}

/// The upper and the lower part of an IPv6 address as numbers.
pub proof fn lemma_halves(x: u128)
    ensures
        (x >> 32) == x as int / 0x1_0000_0000,
        ((x & 0xffff_ffff) as u32) == x as int % 0x1_0000_0000,
{
    assert((x >> 32) == x / 0x1_0000_0000 && (x & 0xffff_ffff) == x % 0x1_0000_0000 && (x
        & 0xffff_ffff) <= 0xffff_ffff) by (bit_vector);
}

/// The text of a socket address: the port behind a colon, an IPv6 address in brackets,
/// with its scope behind a percent sign where it has one.
pub proof fn socket_text_by_family(a: SocketAddr)
    ensures
        a matches SocketAddr::V4 { ip, port } ==> format_socket(a) == format_ip(IpAddr::V4(ip))
            + seq![':'] + text::digits(port as nat),
        a matches SocketAddr::V6 { ip, port, flowinfo, scope_id } ==> format_socket(a) == (if scope_id
            == 0 {
            seq!['['] + format_ip(IpAddr::V6(ip)) + seq![']', ':'] + text::digits(port as nat)
        } else {
            seq!['['] + format_ip(IpAddr::V6(ip)) + seq!['%'] + text::digits(scope_id as nat) + seq![
                ']',
                ':',
            ] + text::digits(port as nat)
        }),
{
    reveal_strlit(":");
    reveal_strlit("[");
    reveal_strlit("]:");
    reveal_strlit("%");
    assert(":"@ =~= seq![':']);
    assert("["@ =~= seq!['[']);
    assert("]:"@ =~= seq![']', ':']);
    assert("%"@ =~= seq!['%']);
    if let SocketAddr::V6 { ip, port, flowinfo, scope_id } = a {
        let t = format_v6(ip);
        if scope_id == 0 {
            assert(format_socket(a) =~= seq!['['] + t + seq![']', ':'] + text::digits(port as nat));
        } else {
            assert(format_socket(a) =~= seq!['['] + t + seq!['%'] + text::digits(scope_id as nat)
                + seq![']', ':'] + text::digits(port as nat));
        }
    }
}

// ---------------------------------------------------------------------------
// Notation
// ---------------------------------------------------------------------------

/// The text of an octet: decimal digits, up to 255, without a leading zero.
pub open spec fn is_octet_text(s: Seq<char>) -> bool {
    1 <= s.len() <= 3 && (forall|i: int| 0 <= i < s.len() ==> '0' <= #[trigger] s[i] <= '9')
        && text::digits_value(s) <= 255 && (s.len() > 1 ==> s[0] != '0')
}

/// An IPv4 address is written as exactly four octets with dots between them, the most
/// significant first.
pub proof fn quads_are_four_octets(p: Seq<Seq<char>>)
    requires
        p.len() >= 1,
        forall|i: int| 0 <= i < p.len() ==> !(#[trigger] p[i]).contains('.'),
    ensures
        parse_v4(text::join(p, seq!['.'])) is Some <==> p.len() == 4 && is_octet_text(p[0])
            && is_octet_text(p[1]) && is_octet_text(p[2]) && is_octet_text(p[3]),
        parse_v4(text::join(p, seq!['.'])) matches Some(x) ==> x == text::digits_value(p[0])
            * 0x100_0000 + text::digits_value(p[1]) * 0x1_0000 + text::digits_value(p[2]) * 0x100
            + text::digits_value(p[3]),
{
    text::lemma_split_join(p, '.');
    assert forall|i: int| 0 <= i < p.len() implies (octet_value(#[trigger] p[i]) is Some
        <==> is_octet_text(p[i])) by {
        let s = p[i];
        if is_octet_text(s) {
            assert forall|j: int| 0 <= j < s.len() implies text::is_digit(#[trigger] s[j]) by {}
        }
        if octet_value(s) is Some {
            assert forall|j: int| 0 <= j < s.len() implies '0' <= #[trigger] s[j] <= '9' by {
                assert(text::is_digit(s[j]));
            }
        }
    }
    if parse_v4(text::join(p, seq!['.'])) is Some {
        first_octet_counts_most(
            octet_value(p[0])->0,
            octet_value(p[1])->0,
            octet_value(p[2])->0,
            octet_value(p[3])->0,
        );
    }
}

/// The text of a number up to a limit: decimal digits, at least one.
pub open spec fn is_number_text(s: Seq<char>, max: nat) -> bool {
    s.len() > 0 && (forall|i: int| 0 <= i < s.len() ==> '0' <= #[trigger] s[i] <= '9')
        && text::digits_value(s) <= max
}

proof fn lemma_number_text(s: Seq<char>)
    ensures
        parse_port(s) is Some <==> is_number_text(s, 65535),
        parse_port(s) matches Some(n) ==> n == text::digits_value(s),
        parse_scope(s) is Some <==> is_number_text(s, 0xffff_ffff),
        parse_scope(s) matches Some(n) ==> n == text::digits_value(s),
{
    if is_number_text(s, 0xffff_ffff) {
        assert forall|j: int| 0 <= j < s.len() implies text::is_digit(#[trigger] s[j]) by {}
    }
    if text::all_digits(s) {
        assert forall|j: int| 0 <= j < s.len() implies '0' <= #[trigger] s[j] <= '9' by {
            assert(text::is_digit(s[j]));
        }
    }
}

proof fn lemma_first(a: Seq<char>, c: char, b: Seq<char>)
    requires
        !a.contains(c),
    ensures
        text::find_char(a + seq![c] + b, c) == a.len(),
        text::find_char(a, c) == a.len(),
        (a + seq![c] + b).take(a.len() as int) == a,
        (a + seq![c] + b).skip((a.len() + 1) as int) == b,
{
    let s = a + seq![c] + b;
    text::lemma_find_from(a, c, 0);
    text::lemma_find_from(s, c, 0);
    let k = text::find_char(a, c);
    if k < a.len() {
        assert(a[k] == c);
    }
    assert(s[a.len() as int] == c);
    let m = text::find_char(s, c);
    if m < a.len() {
        assert(s[m] == c);
        assert(a[m] == c);
    }
    assert(s.take(a.len() as int) =~= a);
    assert(s.skip((a.len() + 1) as int) =~= b);
}

/// A socket address is an IPv4 address, a colon and a port up to 65535.
pub proof fn v4_sockets_have_a_port(a: Seq<char>, p: Seq<char>)
    requires
        !a.contains(':'),
        a.len() > 0 ==> a[0] != '[',
    ensures
        parse_socket(a) is None,
        parse_socket(a + seq![':'] + p) is Some <==> parse_v4(a) is Some && is_number_text(
            p,
            65535,
        ),
        parse_socket(a + seq![':'] + p) matches Some(s) ==> s matches SocketAddr::V4 { ip, port }
            && Some(ip) == parse_v4(a) && port == text::digits_value(p),
{
    let s = a + seq![':'] + p;
    lemma_first(a, ':', p);
    lemma_number_text(p);
    assert(s[0] == (if a.len() > 0 {
        a[0]
    } else {
        ':'
    }));
}

/// A socket address is an IPv6 address in brackets, with or without a scope behind a
/// percent sign, a colon and a port up to 65535.
pub proof fn v6_sockets_have_brackets(a: Seq<char>, scope: Seq<char>, p: Seq<char>)
    requires
        !a.contains(']') && !a.contains('%'),
        !scope.contains(']'),
    ensures
        ({
            let r = parse_socket(seq!['['] + a + seq![']', ':'] + p);
            &&& r is Some <==> parse_v6(a) is Some && is_number_text(p, 65535)
            &&& r matches Some(s) ==> s matches SocketAddr::V6 { ip, port, flowinfo, scope_id }
                && Some(ip) == parse_v6(a) && port == text::digits_value(p) && flowinfo == 0
                && scope_id == 0
        }),
        ({
            let r = parse_socket(seq!['['] + a + seq!['%'] + scope + seq![']', ':'] + p);
            &&& r is Some <==> parse_v6(a) is Some && is_number_text(scope, 0xffff_ffff)
                && is_number_text(p, 65535)
            &&& r matches Some(s) ==> s matches SocketAddr::V6 { ip, port, flowinfo, scope_id }
                && Some(ip) == parse_v6(a) && port == text::digits_value(p) && flowinfo == 0
                && scope_id == text::digits_value(scope)
        }),
{
    lemma_number_text(p);
    lemma_number_text(scope);
    lemma_first(a, '%', scope);
    lemma_bracketed(a, p);
    let b = a + seq!['%'] + scope;
    assert(!b.contains(']')) by {
        if b.contains(']') {
            let i = choose|i: int| 0 <= i < b.len() && b[i] == ']';
            if i < a.len() {
                assert(a[i] == ']');
            } else if i > a.len() {
                assert(scope[i - a.len() - 1] == ']');
            }
        }
    }
    lemma_bracketed(b, p);
    assert(seq!['['] + a + seq!['%'] + scope + seq![']', ':'] + p =~= seq!['['] + b + seq![']', ':']
        + p);
}

proof fn lemma_bracketed(b: Seq<char>, p: Seq<char>)
    requires
        !b.contains(']'),
    ensures
        parse_socket(seq!['['] + b + seq![']', ':'] + p) == (match (
            parse_scoped_v6(b),
            parse_port(p),
        ) {
            (Some((ip, scope_id)), Some(port)) => Some(
                SocketAddr::V6 { ip, port, flowinfo: 0, scope_id },
            ),
            _ => None,
        }),
{
    let s = seq!['['] + b + seq![']', ':'] + p;
    let open = seq!['['] + b;
    assert(!open.contains(']')) by {
        if open.contains(']') {
            let i = choose|i: int| 0 <= i < open.len() && open[i] == ']';
            if i > 0 {
                assert(b[i - 1] == ']');
            }
        }
    }
    lemma_first(open, ']', seq![':'] + p);
    assert(s =~= open + seq![']'] + (seq![':'] + p));
    let k = open.len() as int;
    assert(s[k + 1] == ':');
    assert(s.subrange(1, k) =~= b);
    assert(s.skip(k + 2) =~= p);
    assert(s[0] == '[');
}

/// What an IPv6 address leaves out is its longest run of zero segments, at least two; of
/// runs of the same length the first.
pub proof fn longest_zero_run_is_left_out(x: u128, i: int, m: nat)
    ensures
        ({
            let s = segments(x);
            let (start, n) = longest_run(s, 0);
            &&& 0 <= start && start + n <= 8
            &&& forall|j: int| start <= j < start + n ==> #[trigger] s[j] == 0
            &&& 0 <= i && i + m <= 8 && (forall|j: int| i <= j < i + m ==> #[trigger] s[j] == 0)
                ==> m <= n && (m == n && m > 0 ==> start <= i)
            &&& !(x as int / 0x1_0000_0000 == 0xffff) && n >= 2 ==> format_v6(x) == format_groups(
                s.take(start),
            ) + seq![':', ':'] + format_groups(s.skip(start + n))
            &&& !(x as int / 0x1_0000_0000 == 0xffff) && n < 2 ==> format_v6(x) == format_groups(s)
        }),
{
    let s = segments(x);
    lemma_longest(s, 0);
    lemma_halves(x);
    reveal_strlit("::");
    assert("::"@ =~= seq![':', ':']);
    let (start, n) = longest_run(s, 0);
    if 0 <= i && i + m <= 8 && (forall|j: int| i <= j < i + m ==> #[trigger] s[j] == 0) {
        if m > 0 {
            lemma_run_length(s, i, m);
        }
    }
    if n > 0 {
        lemma_run(s, start);
    }
}

proof fn lemma_run(s: Seq<u16>, i: int)
    requires
        0 <= i <= s.len(),
    ensures
        i + run_at(s, i) <= s.len(),
        forall|j: int| i <= j < i + run_at(s, i) ==> #[trigger] s[j] == 0,
    decreases s.len() - i,
{
    if i < s.len() && s[i] == 0 {
        lemma_run(s, i + 1);
    }
}

proof fn lemma_run_length(s: Seq<u16>, i: int, m: nat)
    requires
        0 <= i,
        i + m <= s.len(),
        forall|j: int| i <= j < i + m ==> #[trigger] s[j] == 0,
    ensures
        run_at(s, i) >= m,
    decreases m,
{
    if m > 0 {
        assert(s[i] == 0);
        lemma_run_length(s, i + 1, (m - 1) as nat);
    }
}

proof fn lemma_longest(s: Seq<u16>, i: int)
    requires
        0 <= i <= s.len(),
    ensures
        ({
            let (start, n) = longest_run(s, i);
            &&& i <= start && start + n <= s.len()
            &&& start < s.len() ==> n == run_at(s, start)
            &&& start == s.len() ==> n == 0
            &&& forall|k: int| i <= k < s.len() ==> #[trigger] run_at(s, k) <= n
            &&& forall|k: int| i <= k < start ==> #[trigger] run_at(s, k) < n
        }),
    decreases s.len() - i,
{
    if i < s.len() {
        lemma_longest(s, i + 1);
        lemma_run(s, i);
    }
}

/// The text of a group: one to four hexadecimal digits in either case.
pub open spec fn is_group_text(s: Seq<char>) -> bool {
    1 <= s.len() <= 4 && forall|i: int|
        0 <= i < s.len() ==> ('0' <= #[trigger] s[i] <= '9' || 'a' <= s[i] <= 'f' || 'A' <= s[i]
            <= 'F')
}

/// Hexadecimal digits count in sixteens, whatever their case.
pub proof fn hexadecimal_is_read_in_sixteens(s: Seq<char>, c: char)
    ensures
        hex_number(Seq::empty()) == 0,
        '0' <= c <= '9' ==> hex_number(s.push(c)) == 16 * hex_number(s) + (c as int - '0' as int),
        'a' <= c <= 'f' ==> hex_number(s.push(c)) == 16 * hex_number(s) + 10 + (c as int
            - 'a' as int),
        'A' <= c <= 'F' ==> hex_number(s.push(c)) == 16 * hex_number(s) + 10 + (c as int
            - 'A' as int),
{
    assert(s.push(c).drop_last() =~= s);
}

proof fn lemma_all_groups(g: Seq<Seq<char>>)
    ensures
        group_values(g) is Some <==> forall|i: int|
            0 <= i < g.len() ==> is_group_text(#[trigger] g[i]),
        group_values(g) matches Some(v) ==> v == Seq::new(
            g.len(),
            |i: int| hex_number(g[i]) as u16,
        ),
    decreases g.len(),
{
    if g.len() > 0 {
        let init = g.drop_last();
        lemma_all_groups(init);
        let last = g.last();
        assert(g[g.len() - 1] == last);
        assert(group_value(last) is Some <==> is_group_text(last)) by {
            if is_group_text(last) {
                assert forall|i: int| 0 <= i < last.len() implies is_hex(#[trigger] last[i]) by {}
            }
            if group_value(last) is Some {
                assert forall|i: int| 0 <= i < last.len() implies ('0' <= #[trigger] last[i] <= '9'
                    || 'a' <= last[i] <= 'f' || 'A' <= last[i] <= 'F') by {
                    assert(is_hex(last[i]));
                }
            }
        }
        assert forall|i: int| 0 <= i < init.len() implies init[i] == #[trigger] g[i] by {}
        if group_values(init) is Some && group_value(last) is Some {
            assert forall|i: int| 0 <= i < g.len() implies is_group_text(#[trigger] g[i]) by {
                if i < init.len() {
                    assert(is_group_text(init[i]));
                }
            }
            assert(group_values(g)->0 =~= Seq::new(g.len(), |i: int| hex_number(g[i]) as u16));
        }
        if forall|i: int| 0 <= i < g.len() ==> is_group_text(#[trigger] g[i]) {
            assert forall|i: int| 0 <= i < init.len() implies is_group_text(#[trigger] init[i]) by {
                assert(is_group_text(g[i]));
            }
        }
    } else {
        assert(Seq::<u16>::empty() =~= Seq::new(g.len(), |i: int| hex_number(g[i]) as u16));
    }
}

proof fn lemma_joined_clean(g: Seq<Seq<char>>)
    requires
        g.len() >= 1,
        forall|i: int| 0 <= i < g.len() ==> (#[trigger] g[i]).len() > 0 && !g[i].contains(':'),
    ensures
        no_double(text::join(g, seq![':'])),
        text::join(g, seq![':']).len() > 0,
        text::join(g, seq![':'])[0] != ':',
        text::join(g, seq![':']).last() != ':',
    decreases g.len(),
{
    let last = g.last();
    assert(last == g[g.len() - 1]);
    assert forall|i: int| 0 <= i < last.len() implies last[i] != ':' by {
        assert(last.contains(last[i]));
    }
    if g.len() > 1 {
        let init = g.drop_last();
        assert forall|i: int| 0 <= i < init.len() implies (#[trigger] init[i]).len() > 0
            && !init[i].contains(':') by {
            assert(init[i] == g[i]);
        }
        lemma_joined_clean(init);
        let a = text::join(init, seq![':']);
        let t = text::join(g, seq![':']);
        assert(t == a + seq![':'] + last);
        assert forall|i: int| 0 <= i < t.len() - 1 implies !(#[trigger] t[i] == ':' && t[i + 1]
            == ':') by {
            if i < a.len() - 1 {
                assert(t[i] == a[i] && t[i + 1] == a[i + 1]);
            } else if i == a.len() - 1 {
                assert(t[i] == a.last());
            } else {
                assert(t[i + 1] == last[i + 1 - a.len() - 1]);
            }
        }
    }
}

proof fn lemma_double_at(s: Seq<char>, from: int, k: int)
    requires
        0 <= from <= k,
        k + 1 < s.len() || k == s.len(),
        forall|i: int| from <= i < k && i + 1 < s.len() ==> !(#[trigger] s[i] == ':' && s[i + 1]
            == ':'),
        k < s.len() ==> s[k] == ':' && s[k + 1] == ':',
    ensures
        find_double(s, from) == k,
    decreases k - from,
{
    if from < k && from + 1 < s.len() {
        assert(!(s[from] == ':' && s[from + 1] == ':'));
        lemma_double_at(s, from + 1, k);
    }
}

/// The value of an IPv6 address that is written as groups, the first counting most.
pub open spec fn grouped_value(g: Seq<Seq<char>>) -> u128 {
    join_segments(Seq::new(8, |i: int| hex_number(g[i]) as u16))
}

/// An IPv6 address without `::` is written as exactly eight groups with colons between
/// them.
pub proof fn groups_are_eight(g: Seq<Seq<char>>)
    requires
        g.len() >= 1,
        forall|i: int|
            0 <= i < g.len() ==> (#[trigger] g[i]).len() > 0 && !g[i].contains(':')
                && !g[i].contains('.'),
    ensures
        parse_v6(text::join(g, seq![':'])) is Some <==> g.len() == 8 && forall|i: int|
            0 <= i < g.len() ==> is_group_text(#[trigger] g[i]),
        parse_v6(text::join(g, seq![':'])) matches Some(x) ==> x == grouped_value(g),
{
    let s = text::join(g, seq![':']);
    lemma_joined_clean(g);
    lemma_double_at(s, 0, s.len() as int);
    text::lemma_split_join(g, ':');
    assert(!g.last().contains('.')) by {
        assert(g.last() == g[g.len() - 1]);
    }
    lemma_all_groups(g);
}

/// An IPv6 address with `::` has zeros for what is missing: the groups before it come
/// first and those behind it last, and they are seven at most.
pub proof fn missing_groups_are_zero(h: Seq<Seq<char>>, t: Seq<Seq<char>>)
    requires
        h.len() >= 1,
        t.len() >= 1,
        forall|i: int|
            0 <= i < h.len() ==> (#[trigger] h[i]).len() > 0 && !h[i].contains(':')
                && !h[i].contains('.'),
        forall|i: int|
            0 <= i < t.len() ==> (#[trigger] t[i]).len() > 0 && !t[i].contains(':')
                && !t[i].contains('.'),
    ensures
        ({
            let r = parse_v6(text::join(h, seq![':']) + seq![':', ':'] + text::join(t, seq![':']));
            &&& r is Some <==> h.len() + t.len() <= 7 && (forall|i: int|
                0 <= i < h.len() ==> is_group_text(#[trigger] h[i])) && (forall|i: int|
                0 <= i < t.len() ==> is_group_text(#[trigger] t[i]))
            &&& r matches Some(x) ==> x == join_segments(
                Seq::new(
                    8,
                    |i: int|
                        if i < h.len() {
                            hex_number(h[i]) as u16
                        } else if i < 8 - t.len() {
                            0u16
                        } else {
                            hex_number(t[i - (8 - t.len())]) as u16
                        },
                ),
            )
        }),
{
    let a = text::join(h, seq![':']);
    let b = text::join(t, seq![':']);
    let s = a + seq![':', ':'] + b;
    lemma_joined_clean(h);
    lemma_joined_clean(t);
    let k = a.len() as int;
    assert(s[k] == ':' && s[k + 1] == ':');
    assert forall|i: int| 0 <= i < k && i + 1 < s.len() implies !(#[trigger] s[i] == ':' && s[i + 1]
        == ':') by {
        if i + 1 < k {
            assert(s[i] == a[i] && s[i + 1] == a[i + 1]);
        } else {
            assert(s[i] == a.last());
        }
    }
    lemma_double_at(s, 0, k);
    assert(s.take(k) =~= a);
    assert(s.skip(k + 2) =~= b);
    text::lemma_split_join(h, ':');
    text::lemma_split_join(t, ':');
    assert(t.last() == t[t.len() - 1]);
    lemma_all_groups(h);
    lemma_all_groups(t);
    if h.len() + t.len() <= 7 && group_values(h) is Some && group_values(t) is Some {
        let v = Seq::new(
            8,
            |i: int|
                if i < h.len() {
                    hex_number(h[i]) as u16
                } else if i < 8 - t.len() {
                    0u16
                } else {
                    hex_number(t[i - (8 - t.len())]) as u16
                },
        );
        assert(group_values(h)->0 + zeros(8 - h.len() - t.len()) + group_values(t)->0 =~= v);
    }
}

/// The value of an IPv6 address: its first segment counts most.
pub proof fn first_segment_counts_most(s: Seq<u16>)
    requires
        s.len() == 8,
    ensures
        join_segments(s) == s[0] * 0x1_0000_0000_0000_0000_0000_0000_0000 + s[1]
            * 0x1_0000_0000_0000_0000_0000_0000 + s[2] * 0x1_0000_0000_0000_0000_0000 + s[3]
            * 0x1_0000_0000_0000_0000 + s[4] * 0x1_0000_0000_0000 + s[5] * 0x1_0000_0000 + s[6]
            * 0x1_0000 + s[7],
{
    let (a, b, c, d) = (s[0], s[1], s[2], s[3]);
    let (e, f, g, h) = (s[4], s[5], s[6], s[7]);
    assert((((a as u128) << 112) | ((b as u128) << 96) | ((c as u128) << 80) | ((d as u128) << 64)
        | ((e as u128) << 48) | ((f as u128) << 32) | ((g as u128) << 16) | (h as u128)) == a
        * 0x1_0000_0000_0000_0000_0000_0000_0000 + b * 0x1_0000_0000_0000_0000_0000_0000 + c
        * 0x1_0000_0000_0000_0000_0000 + d * 0x1_0000_0000_0000_0000 + e * 0x1_0000_0000_0000 + f
        * 0x1_0000_0000 + g * 0x1_0000 + h) by (bit_vector);
}

} // verus!
