//! CIDR blocks, used for trusted-source allow-lists (which load balancers may
//! send a PROXY protocol header).

use crate::addr;
use crate::addr::IpAddr;
use crate::text;
use std::str::FromStr;
use vstd::arithmetic::power2::pow2;
use vstd::prelude::*;
use vstd::string::*;

verus! {

/// Errors produced while parsing a [`Cidr`] from text.
#[derive(Debug, PartialEq, Eq)]
pub enum CidrParseError {
    /// There is not exactly one `/` between address and prefix.
    MissingPrefix(String),
    /// The address part is neither an IPv4 nor an IPv6 address.
    InvalidAddress(String),
    /// The prefix part is not a number.
    InvalidPrefix(String),
    /// The prefix length exceeds the bit width of the address family.
    PrefixTooLong {
        /// The prefix length given.
        prefix: u8,
        /// Maximum for the family (32 for IPv4, 128 for IPv6).
        max: u8,
    },
}

/// What a [`CidrParseError`] says.
pub ghost enum CidrFault {
    MissingPrefix(Seq<char>),
    InvalidAddress(Seq<char>),
    InvalidPrefix(Seq<char>),
    PrefixTooLong { prefix: u8, max: u8 },
}

impl View for CidrParseError {
    type V = CidrFault;

    open spec fn view(&self) -> CidrFault {
        match self {
            CidrParseError::MissingPrefix(s) => CidrFault::MissingPrefix(s@),
            CidrParseError::InvalidAddress(s) => CidrFault::InvalidAddress(s@),
            CidrParseError::InvalidPrefix(s) => CidrFault::InvalidPrefix(s@),
            CidrParseError::PrefixTooLong { prefix, max } => CidrFault::PrefixTooLong {
                prefix: *prefix,
                max: *max,
            },
        }
    }
}

/// The message of a fault.
pub open spec fn cidr_fault_text(f: CidrFault) -> Seq<char> {
    match f {
        CidrFault::MissingPrefix(s) => "expected 'address/prefix' form, got '"@ + s + "'"@,
        CidrFault::InvalidAddress(s) => "invalid IP address '"@ + s + "'"@,
        CidrFault::InvalidPrefix(s) => "invalid prefix length '"@ + s + "'"@,
        CidrFault::PrefixTooLong { prefix, max } => "prefix length "@ + text::digits(prefix as nat)
            + " exceeds maximum "@ + text::digits(max as nat) + " for this address family"@,
    }
}

impl CidrParseError {
    /// The message for an operator.
    pub fn message(&self) -> (r: String)
        ensures
            r@ == cidr_fault_text(self@),
    {
        match self {
            CidrParseError::MissingPrefix(s) => {
                let mut out = "expected 'address/prefix' form, got '".to_owned();
                out.append(s.as_str());
                out.append("'");
                out
            },
            CidrParseError::InvalidAddress(s) => {
                let mut out = "invalid IP address '".to_owned();
                out.append(s.as_str());
                out.append("'");
                out
            },
            CidrParseError::InvalidPrefix(s) => {
                let mut out = "invalid prefix length '".to_owned();
                out.append(s.as_str());
                out.append("'");
                out
            },
            CidrParseError::PrefixTooLong { prefix, max } => {
                let mut out = "prefix length ".to_owned();
                text::push_decimal(&mut out, *prefix as u64);
                out.append(" exceeds maximum ");
                text::push_decimal(&mut out, *max as u64);
                out.append(" for this address family");
                out
            },
        }
    }
}

/// An IP network in CIDR notation, e.g. `10.0.0.0/8` or `fd00::/8`.
///
/// Matching turns IPv4-mapped IPv6 addresses into IPv4 first. Families never
/// cross otherwise.
#[derive(Debug, Clone, Copy, PartialEq, Eq, Structural, Hash)]
pub struct Cidr {
    addr: IpAddr,
    prefix: u8,
}

/// A block as plain values: a canonical address and a prefix length that fits it.
pub ghost struct Block {
    pub addr: IpAddr,
    pub prefix: u8,
}

/// The bit width of the address family.
pub open spec fn family_bits(ip: IpAddr) -> u8 {
    match ip {
        IpAddr::V4(_) => 32,
        IpAddr::V6(_) => 128,
    }
}

impl Block {
    /// The address is in canonical form and the prefix fits the family.
    pub open spec fn valid(self) -> bool {
        addr::canonical(self.addr) == self.addr && self.prefix <= family_bits(self.addr)
    }

    /// `ip`, in canonical form, is of the family of the block and agrees with
    /// its address in the first `prefix` bits.
    pub open spec fn matches(self, ip: IpAddr) -> bool {
        match (self.addr, addr::canonical(ip)) {
            (IpAddr::V4(net), IpAddr::V4(x)) => self.prefix == 0 || net >> ((32 - self.prefix) as u32)
                == x >> ((32 - self.prefix) as u32),
            (IpAddr::V6(net), IpAddr::V6(x)) => self.prefix == 0 || net >> ((128 - self.prefix) as u32)
                == x >> ((128 - self.prefix) as u32),
            _ => false,
        }
    }
}

impl View for Cidr {
    type V = Block;

    closed spec fn view(&self) -> Block {
        Block { addr: self.addr, prefix: self.prefix }
    }
}

/// Exactly one `/` stands in the text.
pub open spec fn one_slash(s: Seq<char>) -> bool {
    exists|k: int|
        0 <= k < s.len() && #[trigger] s[k] == '/' && forall|j: int|
            0 <= j < s.len() && #[trigger] s[j] == '/' ==> j == k
}

/// The block that `address/prefix` stands for.
pub open spec fn parse_block(s: Seq<char>) -> Result<Block, CidrFault> {
    let k = text::find_char(s, '/');
    if !one_slash(s) {
        Err(CidrFault::MissingPrefix(s))
    } else {
        match addr::parse_ip(s.take(k)) {
            None => Err(CidrFault::InvalidAddress(s.take(k))),
            Some(ip) => match text::parse_number(s.skip(k + 1), 255) {
                None => Err(CidrFault::InvalidPrefix(s.skip(k + 1))),
                Some(n) => if n > family_bits(addr::canonical(ip)) {
                    Err(
                        CidrFault::PrefixTooLong {
                            prefix: n as u8,
                            max: family_bits(addr::canonical(ip)),
                        },
                    )
                } else {
                    Ok(Block { addr: addr::canonical(ip), prefix: n as u8 })
                },
            },
        }
    }
}

/// The text form of a block.
pub open spec fn block_text(b: Block) -> Seq<char> {
    addr::format_ip(b.addr) + "/"@ + text::digits(b.prefix as nat)
}

impl Cidr {
    #[verifier::type_invariant]
    closed spec fn inv(self) -> bool {
        self@.valid()
    }

    /// True when `ip` falls inside this block.
    pub fn contains(&self, ip: IpAddr) -> (r: bool)
        ensures
            r == self@.matches(ip),
            self@.valid(),
    {
        proof {
            use_type_invariant(self);
        }
        let ip = ip.to_canonical();
        match (self.addr, ip) {
            (IpAddr::V4(net), IpAddr::V4(x)) => {
                let p = self.prefix;
                let mask = prefix_mask_v4(p);
                proof {
                    if p > 0 {
                        assert((net & mask == x & mask) <==> (net >> ((32 - p) as u32) == x >> ((32
                            - p) as u32)))
                            by (bit_vector)
                            requires
                                0 < p <= 32,
                                mask == u32::MAX << ((32 - p) as u32),
                        ;
                    } else {
                        assert(net & 0 == x & 0) by (bit_vector);
                    }
                }
                net & mask == x & mask
            },
            (IpAddr::V6(net), IpAddr::V6(x)) => {
                let p = self.prefix;
                let mask = prefix_mask_v6(p);
                proof {
                    if p > 0 {
                        let k = (128 - p) as u32;
                        lemma_mask_v6(net, k);
                        lemma_mask_v6(x, k);
                    } else {
                        assert(net & 0 == x & 0) by (bit_vector);
                    }
                }
                net & mask == x & mask
            },
            _ => false,
        }
    }

    /// Reads a block in `address/prefix` form.
    pub fn parse(s: &str) -> (r: Result<Cidr, CidrParseError>)
        ensures
            (match r {
                Ok(c) => parse_block(s@) == Result::<Block, CidrFault>::Ok(c@),
                Err(e) => parse_block(s@) == Result::<Block, CidrFault>::Err(e@),
            }),
    {
        let v = text::chars_of(s);
        let k = text::find_in(v.as_slice(), '/', 0);
        proof {
            text::lemma_find_from(s@, '/', 0);
        }
        if k >= v.len() || text::find_in(v.as_slice(), '/', k + 1) < v.len() {
            proof {
                if k < v@.len() {
                    text::lemma_find_from(s@, '/', k + 1);
                    assert(s@[k as int] == s@[text::find_from(s@, '/', k + 1)]);
                }
            }
            return Err(CidrParseError::MissingPrefix(s.to_owned()));
        }
        proof {
            text::lemma_find_from(s@, '/', k + 1);
            assert(s@[k as int] == '/');
        }
        let addr_text = text::string_of_range(v.as_slice(), 0, k);
        let prefix_text = text::string_of_range(v.as_slice(), k + 1, v.len());
        assert(addr_text@ =~= s@.take(k as int));
        assert(prefix_text@ =~= s@.skip(k + 1));
        let ip = match IpAddr::parse(addr_text.as_str()) {
            Some(ip) => ip.to_canonical(),
            None => {
                return Err(CidrParseError::InvalidAddress(addr_text));
            },
        };
        let prefix: u8 = match text::parse_unsigned(prefix_text.as_str(), 255) {
            Some(n) => n as u8,
            None => {
                return Err(CidrParseError::InvalidPrefix(prefix_text));
            },
        };
        let max: u8 = match ip {
            IpAddr::V4(_) => 32,
            IpAddr::V6(_) => 128,
        };
        if prefix > max {
            return Err(CidrParseError::PrefixTooLong { prefix, max });
        }
        Ok(Cidr { addr: ip, prefix })
    }

    /// The text form, `address/prefix`.
    pub fn text(&self) -> (r: String)
        ensures
            r@ == block_text(self@),
    {
        let mut out = self.addr.text();
        out.append("/");
        text::push_decimal(&mut out, self.prefix as u64);
        out
    }
}

impl FromStr for Cidr {
    type Err = CidrParseError;

    fn from_str(s: &str) -> (r: Result<Self, Self::Err>)
        ensures
            (match r {
                Ok(c) => parse_block(s@) == Result::<Block, CidrFault>::Ok(c@),
                Err(e) => parse_block(s@) == Result::<Block, CidrFault>::Err(e@),
            }),
    {
        Cidr::parse(s)
    }
}

/// Masking and shifting keep the same bits.
proof fn lemma_mask_v6(a: u128, k: u32)
    requires
        k < 128,
    ensures
        (a & (u128::MAX << k)) >> k == a >> k,
        (a >> k) << k == a & (u128::MAX << k),
{
    assert((a & (u128::MAX << k)) >> k == a >> k) by (bit_vector)
        requires
            k < 128,
    ;
    assert((a >> k) << k == a & (u128::MAX << k)) by (bit_vector)
        requires
            k < 128,
    ;
}

fn prefix_mask_v4(prefix: u8) -> (r: u32)
    requires
        prefix <= 32,
    ensures
        r == (if prefix == 0 {
            0
        } else {
            u32::MAX << ((32 - prefix) as u32)
        }),
{
    if prefix == 0 {
        0
    } else {
        u32::MAX << (32 - prefix as u32)
    }
}

fn prefix_mask_v6(prefix: u8) -> (r: u128)
    requires
        prefix <= 128,
    ensures
        r == (if prefix == 0 {
            0
        } else {
            u128::MAX << ((128 - prefix) as u32)
        }),
{
    if prefix == 0 {
        0
    } else {
        u128::MAX << (128 - prefix as u32)
    }
}

// ---------------------------------------------------------------------------
// Laws
// ---------------------------------------------------------------------------

/// A client that a dual-stack socket reports as IPv4-mapped matches exactly as
/// its IPv4 address does.
pub proof fn mapped_client_matches_as_v4(b: Block, ip: IpAddr)
    ensures
        b.matches(ip) == b.matches(addr::canonical(ip)),
{
    match ip {
        IpAddr::V6(x) => {
            if addr::is_mapped(x) {
                assert(addr::canonical(addr::canonical(ip)) == addr::canonical(ip));
            }
        },
        IpAddr::V4(_) => {},
    }
}

/// A block never matches an address of the other family.
pub proof fn families_never_cross(b: Block, ip: IpAddr)
    ensures
        b.matches(ip) ==> (b.addr is V4) == (addr::canonical(ip) is V4),
{
}

/// A block of prefix length zero matches every address of its family.
pub proof fn zero_prefix_matches_family(b: Block, ip: IpAddr)
    requires
        b.prefix == 0,
    ensures
        b.matches(ip) == ((b.addr is V4) == (addr::canonical(ip) is V4)),
{
}

/// A block of full prefix length matches its own address only.
pub proof fn host_block_matches_only_itself(b: Block, ip: IpAddr)
    requires
        b.valid(),
        b.prefix == family_bits(b.addr),
    ensures
        b.matches(ip) == (addr::canonical(ip) == b.addr),
{
    assert(forall|x: u32| #[trigger] (x >> 0u32) == x) by (bit_vector);
    assert(forall|x: u128| #[trigger] (x >> 0u32) == x) by (bit_vector);
    match (b.addr, addr::canonical(ip)) {
        (IpAddr::V4(net), IpAddr::V4(x)) => {
            assert(net >> 0u32 == net && x >> 0u32 == x);
        },
        (IpAddr::V6(net), IpAddr::V6(x)) => {
            assert(net >> 0u32 == net && x >> 0u32 == x);
        },
        _ => {},
    }
}

/// A block matches its own address.
pub proof fn block_matches_its_address(b: Block)
    requires
        b.valid(),
    ensures
        b.matches(b.addr),
{
}

proof fn lemma_one_slash(s: Seq<char>, k: int)
    requires
        0 <= k < s.len(),
        s[k] == '/',
        forall|j: int| 0 <= j < k ==> s[j] != '/',
        text::all_digits(s.skip(k + 1)),
    ensures
        one_slash(s),
{
    assert forall|j: int| 0 <= j < s.len() && #[trigger] s[j] == '/' implies j == k by {
        if j > k {
            assert(s.skip(k + 1)[j - k - 1] == s[j]);
        }
    }
}

/// Reading the text form of a block gives the block back.
pub proof fn cidr_round_trip(b: Block)
    requires
        b.valid(),
    ensures
        parse_block(block_text(b)) == Result::<Block, CidrFault>::Ok(b),
{
    let t = block_text(b);
    let a = addr::format_ip(b.addr);
    let n = text::digits(b.prefix as nat);
    reveal_strlit("/");
    addr::ip_round_trip(b.addr);
    text::decimal_round_trip(b.prefix as nat, 255);
    match b.addr {
        IpAddr::V4(x) => {
            addr::lemma_v4_text(x);
        },
        IpAddr::V6(x) => {
            addr::lemma_v6_text(x);
        },
    }
    assert forall|j: int| 0 <= j < a.len() implies t[j] != '/' by {
        assert(t[j] == a[j]);
        match b.addr {
            IpAddr::V4(x) => {
                assert(text::is_digit(a[j]) || a[j] == '.');
            },
            IpAddr::V6(x) => {
                assert(addr::is_hex(a[j]) || a[j] == ':' || a[j] == '.');
            },
        }
    }
    assert(t[a.len() as int] == '/');
    text::lemma_find_unique(t, '/', 0, a.len() as int);
    assert(t.take(a.len() as int) =~= a);
    assert(t.skip(a.len() as int + 1) =~= n);
    assert(one_slash(t)) by {
        text::lemma_digits(b.prefix as nat);
        lemma_one_slash(t, a.len() as int);
    }
}

/// A block holds exactly the addresses that agree with its own in the leading bits
/// that its prefix length counts: those with the same quotient by two to the power of
/// the remaining bits. An IPv4-mapped address counts as the IPv4 address that it holds;
/// otherwise an IPv4 block holds no IPv6 address and the other way round.
pub proof fn block_holds_by_leading_bits(b: Block, ip: IpAddr)
    requires
        b.valid(),
    ensures
        b.addr matches IpAddr::V4(net) ==> ip matches IpAddr::V4(x) ==> (b.matches(ip) <==> net as int
            / pow2((32 - b.prefix) as nat) as int == x as int / pow2((32 - b.prefix) as nat) as int),
        b.addr matches IpAddr::V4(net) ==> ip matches IpAddr::V6(x) ==> (b.matches(ip) <==> x as int
            / 0x1_0000_0000 == 0xffff && net as int / pow2((32 - b.prefix) as nat) as int == (x as int
            % 0x1_0000_0000) / pow2((32 - b.prefix) as nat) as int),
        b.addr matches IpAddr::V6(net) ==> ip matches IpAddr::V6(x) ==> (b.matches(ip) <==> x as int
            / 0x1_0000_0000 != 0xffff && net as int / pow2((128 - b.prefix) as nat) as int == x as int
            / pow2((128 - b.prefix) as nat) as int),
        b.addr is V6 && ip is V4 ==> !b.matches(ip),
{
    addr::only_mapped_addresses_change(ip);
    match (b.addr, addr::canonical(ip)) {
        (IpAddr::V4(net), IpAddr::V4(x)) => {
            lemma_quotient_v4(net, b.prefix);
            lemma_quotient_v4(x, b.prefix);
            let k = (32 - b.prefix) as nat;
            assert(b.matches(ip) <==> net as int / pow2(k) as int == x as int / pow2(k) as int);
        },
        (IpAddr::V6(net), IpAddr::V6(x)) => {
            lemma_quotient_v6(net, b.prefix);
            lemma_quotient_v6(x, b.prefix);
        },
        _ => {},
    }
}

proof fn lemma_quotient_v4(x: u32, prefix: u8)
    requires
        prefix <= 32,
    ensures
        prefix > 0 ==> x >> ((32 - prefix) as u32) == x as int / pow2((32 - prefix) as nat) as int,
        prefix == 0 ==> x as int / pow2((32 - prefix) as nat) as int == 0,
{
    if prefix > 0 {
        vstd::bits::lemma_u32_shr_is_div(x, (32 - prefix) as u32);
    } else {
        vstd::arithmetic::power2::lemma2_to64();
        vstd::arithmetic::div_mod::lemma_basic_div(x as int, pow2(32) as int);
    }
}

proof fn lemma_quotient_v6(x: u128, prefix: u8)
    requires
        prefix <= 128,
    ensures
        prefix > 0 ==> x >> ((128 - prefix) as u32) == x as int / pow2((128 - prefix) as nat) as int,
        prefix == 0 ==> x as int / pow2((128 - prefix) as nat) as int == 0,
{
    if prefix > 0 {
        let k = (128 - prefix) as u32;
        vstd::bits::lemma_u128_shr_is_div(x, (128 - prefix) as u128);
        assert(x >> k == x >> (k as u128)) by (bit_vector);
    } else {
        vstd::arithmetic::power2::lemma2_to64();
        vstd::arithmetic::power2::lemma_pow2_adds(64, 64);
        assert(0x1_0000_0000_0000_0000int * 0x1_0000_0000_0000_0000int
            == 0x1_0000_0000_0000_0000_0000_0000_0000_0000int);
        vstd::arithmetic::div_mod::lemma_basic_div(x as int, pow2(128) as int);
    }
}

/// A block is read from an address, a slash and a decimal prefix length of at most 32
/// bits for an IPv4 address, mapped ones included, and at most 128 for any other.
pub proof fn block_is_address_and_prefix_length(a: Seq<char>, n: Seq<char>)
    requires
        !a.contains('/'),
        !n.contains('/'),
    ensures
        ({
            let read = parse_block(a + seq!['/'] + n);
            match (addr::parse_ip(a), text::parse_number(n, 255)) {
                (None, _) => read == Result::<Block, CidrFault>::Err(CidrFault::InvalidAddress(a)),
                (Some(_), None) => read == Result::<Block, CidrFault>::Err(
                    CidrFault::InvalidPrefix(n),
                ),
                (Some(ip), Some(k)) => {
                    let most: nat = if addr::canonical(ip) is V4 {
                        32
                    } else {
                        128
                    };
                    if k <= most {
                        read matches Ok(b) && b.prefix == k && b.addr == addr::canonical(ip)
                    } else {
                        read matches Err(CidrFault::PrefixTooLong { prefix, max }) && prefix == k
                            && max == most
                    }
                },
            }
        }),
{
    let s = a + seq!['/'] + n;
    let k = a.len() as int;
    assert(s[k] == '/');
    assert forall|j: int| 0 <= j < k implies s[j] != '/' by {
        assert(a.contains(a[j]));
    }
    assert forall|j: int| 0 <= j < s.len() && #[trigger] s[j] == '/' implies j == k by {
        if j > k {
            assert(n.contains(n[j - k - 1]));
        }
    }
    assert(one_slash(s));
    text::lemma_find_unique(s, '/', 0, k);
    assert(s.take(k) =~= a);
    assert(s.skip(k + 1) =~= n);
}

/// A text without a slash, or with more than one, is no block.
pub proof fn block_needs_one_slash(s: Seq<char>, i: int, j: int)
    requires
        !s.contains('/') || (0 <= i < j < s.len() && s[i] == '/' && s[j] == '/'),
    ensures
        parse_block(s) == Result::<Block, CidrFault>::Err(CidrFault::MissingPrefix(s)),
{
    if one_slash(s) {
        let k = choose|k: int|
            0 <= k < s.len() && #[trigger] s[k] == '/' && forall|j: int|
                0 <= j < s.len() && #[trigger] s[j] == '/' ==> j == k;
        assert(s.contains(s[k]));
    }
}

} // verus!
