//! IP addresses and networks.

use vstd::prelude::*;

use crate::text;
use crate::text::{append_decimal, chars_of, parse_number, split_chars};

verus! {

/// An IPv4 address.
#[derive(Debug, Clone, Copy, PartialEq, Eq, Structural, Hash)]
pub struct Ipv4Addr {
    pub bits: u32,
}

/// An IPv6 address.
#[derive(Debug, Clone, Copy, PartialEq, Eq, Structural, Hash)]
pub struct Ipv6Addr {
    pub bits: u128,
}

/// An IP address of either family.
#[derive(Debug, Clone, Copy, PartialEq, Eq, Structural, Hash)]
pub enum IpAddr {
    V4(Ipv4Addr),
    V6(Ipv6Addr),
}

/// An address and a port.
#[derive(Debug, Clone, Copy, PartialEq, Eq, Structural, Hash)]
pub struct SocketAddr {
    pub ip: IpAddr,
    pub port: u16,
}

/// A network: an address and how many of its leading bits count.
#[derive(Debug, Clone, Copy, PartialEq, Eq, Structural)]
pub struct IpNet {
    addr: IpAddr,
    prefix_len: u8,
}

/// What an [`IpNet`] says.
pub struct NetView {
    pub addr: IpAddr,
    pub prefix_len: int,
}

impl View for IpNet {
    type V = NetView;

    closed spec fn view(&self) -> NetView {
        NetView { addr: self.addr, prefix_len: self.prefix_len as int }
    }
}

/// The address that the text `s` gives in the notation of IPv6, as
/// `hickory_proto`'s `AAAA` reads it.
pub uninterp spec fn ipv6_of_text(s: Seq<char>) -> Option<u128>;

/// The canonical text of an IPv6 address, as `hickory_proto`'s `AAAA` shows it.
pub uninterp spec fn ipv6_text(bits: u128) -> Seq<char>;

/// The network that the text `s` gives in CIDR notation, as `ipnet` reads it.
pub uninterp spec fn net_of_text(s: Seq<char>) -> Option<(IpAddr, u8)>;

/// One octet of a dotted IPv4 address: one to three digits, at most 255,
/// without leading zeros.
pub open spec fn octet_of_text(s: Seq<char>) -> Option<nat> {
    if 1 <= s.len() <= 3 && text::all_digits(s) && text::digits_value(s) <= 255 && (s.len() > 1 ==> s[0] != '0') {
        Some(text::digits_value(s))
    } else {
        None
    }
}

/// The address that `s` gives as four dotted octets.
pub open spec fn ipv4_of_text(s: Seq<char>) -> Option<u32> {
    let parts = text::split(s, '.');
    if parts.len() != 4 {
        None
    } else {
        match (
            octet_of_text(parts[0]),
            octet_of_text(parts[1]),
            octet_of_text(parts[2]),
            octet_of_text(parts[3]),
        ) {
            (Some(a), Some(b), Some(c), Some(d)) => Some(
                (a * 0x100_0000 + b * 0x1_0000 + c * 0x100 + d) as u32,
            ),
            _ => None,
        }
    }
}

/// The address that `s` gives, of either family.
pub open spec fn ip_of_text(s: Seq<char>) -> Option<IpAddr> {
    match ipv4_of_text(s) {
        Some(bits) => Some(IpAddr::V4(Ipv4Addr { bits })),
        None => match ipv6_of_text(s) {
            Some(bits) => Some(IpAddr::V6(Ipv6Addr { bits })),
            None => None,
        },
    }
}

/// The dotted form of an IPv4 address.
pub open spec fn ipv4_text(bits: u32) -> Seq<char> {
    text::decimal((bits / 0x100_0000) as nat).push('.') + text::decimal((bits / 0x1_0000 % 0x100) as nat).push(
        '.',
    ) + text::decimal((bits / 0x100 % 0x100) as nat).push('.') + text::decimal((bits % 0x100) as nat)
}

/// The canonical text of an address.
pub open spec fn ip_text(ip: IpAddr) -> Seq<char> {
    match ip {
        IpAddr::V4(a) => ipv4_text(a.bits),
        IpAddr::V6(a) => ipv6_text(a.bits),
    }
}

/// The first `len` of the `width` bits of `bits`.
pub open spec fn leading_bits(bits: u128, width: int, len: int) -> u128 {
    if len <= 0 {
        0
    } else {
        bits >> ((width - len) as u128)
    }
}

/// How many bits an address of this family has.
pub open spec fn width(ip: IpAddr) -> int {
    match ip {
        IpAddr::V4(_) => 32,
        IpAddr::V6(_) => 128,
    }
}

impl NetView {
    /// Whether `ip` is of the network's family and agrees with its address on
    /// the first `prefix_len` bits.
    pub open spec fn holds(self, ip: IpAddr) -> bool {
        match (self.addr, ip) {
            (IpAddr::V4(a), IpAddr::V4(b)) => leading_bits(a.bits as u128, 32, self.prefix_len)
                == leading_bits(b.bits as u128, 32, self.prefix_len),
            (IpAddr::V6(a), IpAddr::V6(b)) => leading_bits(a.bits, 128, self.prefix_len)
                == leading_bits(b.bits, 128, self.prefix_len),
            _ => false,
        }
    }
}

impl IpNet {
    /// A prefix is no longer than an address.
    #[verifier::type_invariant]
    spec fn wf(self) -> bool {
        self.prefix_len <= width(self.addr)
    }

    /// The network of the addresses that share the first `prefix_len` bits
    /// with `addr`; `None` where an address has fewer bits.
    pub fn new(addr: IpAddr, prefix_len: u8) -> (r: Option<IpNet>)
        ensures
            match r {
                Some(net) => net@ == (NetView { addr, prefix_len: prefix_len as int })
                    && prefix_len <= width(addr),
                None => prefix_len > width(addr),
            },
    {
        let most: u8 = match addr {
            IpAddr::V4(_) => 32,
            IpAddr::V6(_) => 128,
        };
        if prefix_len <= most {
            Some(IpNet { addr, prefix_len })
        } else {
            None
        }
    }

    /// The address that the network was given with.
    pub fn addr(&self) -> (r: IpAddr)
        ensures
            r == self@.addr,
    {
        self.addr
    }

    /// How many leading bits the addresses of the network share.
    pub fn prefix_len(&self) -> (r: u8)
        ensures
            r == self@.prefix_len,
            r <= width(self@.addr),
    {
        proof {
            use_type_invariant(self);
        }
        self.prefix_len
    }

    /// Whether the network contains the address.
    pub fn contains(&self, ip: &IpAddr) -> (r: bool)
        ensures
            r == self@.holds(*ip),
    {
        proof {
            use_type_invariant(self);
        }
        if self.prefix_len == 0 {
            return match (self.addr, *ip) {
                (IpAddr::V4(_), IpAddr::V4(_)) => true,
                (IpAddr::V6(_), IpAddr::V6(_)) => true,
                _ => false,
            };
        }
        match (self.addr, *ip) {
            (IpAddr::V4(a), IpAddr::V4(b)) => {
                let shift: u128 = 32 - self.prefix_len as u128;
                a.bits as u128 >> shift == b.bits as u128 >> shift
            },
            (IpAddr::V6(a), IpAddr::V6(b)) => {
                let shift: u128 = 128 - self.prefix_len as u128;
                a.bits >> shift == b.bits >> shift
            },
            _ => false,
        }
    }

    /// Reads a network in CIDR notation.
    pub fn parse(s: &str) -> (r: Option<IpNet>)
        ensures
            match net_of_text(s@) {
                Some((addr, prefix_len)) => r matches Some(net) && net@ == (NetView {
                    addr,
                    prefix_len: prefix_len as int,
                }),
                None => r is None,
            },
    {
        match parse_net(s) {
            Some((addr, prefix_len)) => IpNet::new(addr, prefix_len),
            None => None,
        }
    }
}

/// `<ipnet::IpNet as FromStr>::from_str`, with the address and the prefix
/// length of the network it gives. A prefix length never exceeds the width of
/// the address.
#[verifier::external_body]
fn parse_net(s: &str) -> (r: Option<(IpAddr, u8)>)
    ensures
        r == net_of_text(s@),
        r matches Some((addr, len)) ==> len <= width(addr),
{
    match s.parse::<ipnet::IpNet>() {
        Ok(ipnet::IpNet::V4(net)) => Some(
            (IpAddr::V4(Ipv4Addr { bits: u32::from(net.addr()) }), net.prefix_len()),
        ),
        Ok(ipnet::IpNet::V6(net)) => Some(
            (IpAddr::V6(Ipv6Addr { bits: u128::from(net.addr()) }), net.prefix_len()),
        ),
        Err(_) => None,
    }
}

/// `<hickory_proto::rr::rdata::AAAA as FromStr>::from_str`, with the bits of
/// the address.
#[verifier::external_body]
fn parse_v6(s: &str) -> (r: Option<u128>)
    ensures
        r == ipv6_of_text(s@),
{
    match s.parse::<hickory_proto::rr::rdata::AAAA>() {
        Ok(a) => Some(u128::from(a.0)),
        Err(_) => None,
    }
}

/// `<hickory_proto::rr::rdata::AAAA as Display>::fmt`: the canonical text.
#[verifier::external_body]
fn show_v6(bits: u128) -> (r: String)
    ensures
        r@ == ipv6_text(bits),
{
    format!("{}", hickory_proto::rr::rdata::AAAA(bits.into()))
}

impl Ipv4Addr {
    /// The address with the four given octets.
    pub fn new(a: u8, b: u8, c: u8, d: u8) -> (r: Ipv4Addr)
        ensures
            r.bits == a * 0x100_0000 + b * 0x1_0000 + c * 0x100 + d,
    {
        Ipv4Addr {
            bits: a as u32 * 0x100_0000 + b as u32 * 0x1_0000 + c as u32 * 0x100 + d as u32,
        }
    }

    /// Reads four dotted octets.
    pub fn parse(s: &str) -> (r: Option<Ipv4Addr>)
        ensures
            match ipv4_of_text(s@) {
                Some(bits) => r == Some(Ipv4Addr { bits }),
                None => r is None,
            },
    {
        let chars: Vec<char> = chars_of(s);
        let parts: Vec<&[char]> = split_chars(chars.as_slice(), '.');
        let ghost texts = text::slices(parts@);
        if parts.len() != 4 {
            return None;
        }
        assert(forall|i: int| 0 <= i < 4 ==> #[trigger] texts[i] == parts@[i]@);
        match (
            parse_octet(parts[0]),
            parse_octet(parts[1]),
            parse_octet(parts[2]),
            parse_octet(parts[3]),
        ) {
            (Some(a), Some(b), Some(c), Some(d)) => Some(Ipv4Addr::new(a, b, c, d)),
            _ => None,
        }
    }
}

/// Reads one octet of a dotted address.
fn parse_octet(s: &[char]) -> (r: Option<u8>)
    ensures
        match r {
            Some(n) => octet_of_text(s@) == Some(n as nat),
            None => octet_of_text(s@) is None,
        },
{
    if s.len() == 0 || s.len() > 3 || s[0] == '+' || (s.len() > 1 && s[0] == '0') {
        proof {
            if s@.len() > 0 && s@[0] == '+' {
                assert(!('0' <= s@[0] <= '9'));
                assert(!text::all_digits(s@));
            }
        }
        return None;
    }
    match parse_number(s, 255) {
        Some(n) => Some(n as u8),
        None => None,
    }
}

impl Ipv6Addr {
    /// Reads an address in the notation of IPv6.
    pub fn parse(s: &str) -> (r: Option<Ipv6Addr>)
        ensures
            match ipv6_of_text(s@) {
                Some(bits) => r == Some(Ipv6Addr { bits }),
                None => r is None,
            },
    {
        match parse_v6(s) {
            Some(bits) => Some(Ipv6Addr { bits }),
            None => None,
        }
    }
}

impl IpAddr {
    /// Reads an address of either family.
    pub fn parse(s: &str) -> (r: Option<IpAddr>)
        ensures
            r == ip_of_text(s@),
    {
        match Ipv4Addr::parse(s) {
            Some(a) => Some(IpAddr::V4(a)),
            None => match Ipv6Addr::parse(s) {
                Some(a) => Some(IpAddr::V6(a)),
                None => None,
            },
        }
    }

    /// The canonical text of the address.
    pub fn text(&self) -> (r: String)
        ensures
            r@ == ip_text(*self),
    {
        match self {
            IpAddr::V4(a) => {
                let bits: u32 = a.bits;
                let mut out: String = String::new();
                append_decimal(&mut out, (bits / 0x100_0000) as u64);
                out.push('.');
                append_decimal(&mut out, (bits / 0x1_0000 % 0x100) as u64);
                out.push('.');
                append_decimal(&mut out, (bits / 0x100 % 0x100) as u64);
                out.push('.');
                append_decimal(&mut out, (bits % 0x100) as u64);
                assert(out@ =~= ipv4_text(bits));
                out
            },
            IpAddr::V6(a) => show_v6(a.bits),
        }
    }

    /// Whether the address is unspecified (all zero) or loopback (`127.0.0.0/8`,
    /// `::1`), as hosts files use it to block names.
    pub open spec fn spec_blocking(self) -> bool {
        match self {
            IpAddr::V4(a) => a.bits == 0 || a.bits / 0x100_0000 == 127,
            IpAddr::V6(a) => a.bits == 0 || a.bits == 1,
        }
    }

    /// Whether a hosts-file line with this address blocks its names.
    pub fn is_blocking(&self) -> (r: bool)
        ensures
            r == self.spec_blocking(),
    {
        match self {
            IpAddr::V4(a) => a.bits == 0 || a.bits / 0x100_0000 == 127,
            IpAddr::V6(a) => a.bits == 0 || a.bits == 1,
        }
    }
}

/// A network holds the addresses of its family that are in the same block of addresses,
/// where a prefix of `n` bits leaves blocks of two to the power of what is left.
pub proof fn law_networks(net: NetView, ip: IpAddr)
    requires
        0 <= net.prefix_len <= width(net.addr),
    ensures
        net.holds(ip) <==> match (net.addr, ip) {
            (IpAddr::V4(a), IpAddr::V4(b)) => a.bits as nat / vstd::arithmetic::power2::pow2(
                (32 - net.prefix_len) as nat,
            ) == b.bits as nat / vstd::arithmetic::power2::pow2((32 - net.prefix_len) as nat),
            (IpAddr::V6(a), IpAddr::V6(b)) => a.bits as nat / vstd::arithmetic::power2::pow2(
                (128 - net.prefix_len) as nat,
            ) == b.bits as nat / vstd::arithmetic::power2::pow2((128 - net.prefix_len) as nat),
            _ => false,
        },
{
    let n = net.prefix_len;
    match (net.addr, ip) {
        (IpAddr::V4(a), IpAddr::V4(b)) => {
            vstd::bits::lemma_u128_shr_is_div(a.bits as u128, (32 - n) as u128);
            vstd::bits::lemma_u128_shr_is_div(b.bits as u128, (32 - n) as u128);
            if n == 0 {
                vstd::arithmetic::power2::lemma2_to64();
                assert(vstd::arithmetic::power2::pow2(32) == 0x1_0000_0000);
                assert(a.bits as nat / 0x1_0000_0000 == 0 && b.bits as nat / 0x1_0000_0000 == 0);
            }
        },
        (IpAddr::V6(a), IpAddr::V6(b)) => {
            if n == 0 {
                vstd::arithmetic::power2::lemma2_to64();
                vstd::arithmetic::power2::lemma_pow2_adds(64, 64);
                let all = vstd::arithmetic::power2::pow2(128);
                assert(all == 0x1_0000_0000_0000_0000 * 0x1_0000_0000_0000_0000);
                vstd::arithmetic::div_mod::lemma_basic_div(a.bits as int, all as int);
                vstd::arithmetic::div_mod::lemma_basic_div(b.bits as int, all as int);
            } else {
                vstd::bits::lemma_u128_shr_is_div(a.bits, (128 - n) as u128);
                vstd::bits::lemma_u128_shr_is_div(b.bits, (128 - n) as u128);
            }
        },
        _ => {},
    }
}

/// Whether `s` is the number `n`, at most 255, in digits.
pub open spec fn is_octet(s: Seq<char>, n: int) -> bool {
    &&& forall|i: int| 0 <= i < s.len() ==> '0' <= #[trigger] s[i] <= '9'
    &&& n <= 255
    &&& 1 <= s.len() <= 3
    &&& s.len() > 1 ==> s[0] != '0'
    &&& s.len() == 1 ==> n == s[0] as int - 48
    &&& s.len() == 2 ==> n == 10 * (s[0] as int - 48) + (s[1] as int - 48)
    &&& s.len() == 3 ==> n == 100 * (s[0] as int - 48) + 10 * (s[1] as int - 48) + (s[2] as int
        - 48)
}

/// An octet is read as the number that it is.
proof fn lemma_octet(s: Seq<char>, n: int)
    requires
        is_octet(s, n),
    ensures
        octet_of_text(s) == Some(n as nat),
        !s.contains('.'),
{
    let one = s.drop_last();
    if s.len() == 1 {
        assert(one =~= Seq::empty());
        assert(text::digits_value(one) == 0);
    } else {
        let two = one.drop_last();
        assert(one.last() == s[s.len() - 2]);
        if s.len() == 2 {
            assert(two =~= Seq::empty());
            assert(text::digits_value(two) == 0);
        } else {
            assert(two.last() == s[0]);
            assert(two.drop_last() =~= Seq::empty());
            assert(text::digits_value(two.drop_last()) == 0);
            assert(text::digits_value(two) == s[0] as int - 48);
        }
        assert(text::digits_value(one) == text::digits_value(two) * 10 + (s[s.len() - 2] as int - 48));
    }
    assert(text::digits_value(s) == text::digits_value(one) * 10 + (s[s.len() - 1] as int - 48));
}

/// Four octets with dots between them are the address with these octets, the first one
/// the most significant.
pub proof fn law_dotted_address(
    s: Seq<char>,
    w: Seq<char>,
    x: Seq<char>,
    y: Seq<char>,
    z: Seq<char>,
    a: int,
    b: int,
    c: int,
    d: int,
)
    requires
        is_octet(w, a) && is_octet(x, b) && is_octet(y, c) && is_octet(z, d),
        s == w.push('.') + (x.push('.') + (y.push('.') + z)),
    ensures
        ip_of_text(s) == Some(
            IpAddr::V4(Ipv4Addr { bits: (16777216 * a + 65536 * b + 256 * c + d) as u32 }),
        ),
{
    lemma_octet(w, a);
    lemma_octet(x, b);
    lemma_octet(y, c);
    lemma_octet(z, d);
    text::lemma_split_whole(w, '.');
    text::lemma_split_whole(x, '.');
    text::lemma_split_whole(y, '.');
    text::lemma_split_whole(z, '.');
    text::lemma_split_join(y, z, '.');
    text::lemma_split_join(x, y.push('.') + z, '.');
    text::lemma_split_join(w, x.push('.') + (y.push('.') + z), '.');
    let parts = text::split(s, '.');
    assert(parts =~= seq![w, x, y, z]);
}

} // verus!
