//! Parsing of upstream server specifications.
//!
//! Accepted forms (AdGuard-compatible):
//! * `8.8.8.8`, `8.8.8.8:53`: plain DNS over UDP (TCP fallback)
//! * `udp://1.1.1.1`: plain DNS over UDP
//! * `tcp://1.1.1.1`: plain DNS over TCP
//! * `tls://dns.google`: DNS-over-TLS (default port 853)
//! * `https://dns.google/dns-query`: DNS-over-HTTPS
//! * `h3://dns.google/dns-query`: DNS-over-HTTPS, over HTTP/3 alone
//! * `quic://dns.adguard.com`: DNS-over-QUIC (default port 853)
//!
//! The host may be an IP literal or a hostname; hostnames are resolved via the
//! bootstrap resolver at connection time.

use vstd::prelude::*;

use crate::net;
use crate::net::IpAddr;
use crate::text;
use crate::text::{
    append_chars, append_decimal, chars_of, find_char, is_text, parse_number, part, string_of,
    trim_chars,
};
use crate::upstream::error::{ErrorView, UpstreamError};

verus! {

/// The wire protocol used to reach an upstream.
#[derive(Debug, Clone, Copy, PartialEq, Eq, Structural)]
pub enum TransportKind {
    Udp,
    Tcp,
    Tls,
    Https,
    Quic,
}

/// The port that a protocol is served on where none is given.
pub open spec fn usual_port(kind: TransportKind) -> u16 {
    match kind {
        TransportKind::Udp | TransportKind::Tcp => 53,
        TransportKind::Tls | TransportKind::Quic => 853,
        TransportKind::Https => 443,
    }
}

/// A protocol's name.
pub open spec fn kind_label(kind: TransportKind) -> Seq<char> {
    match kind {
        TransportKind::Udp => "udp"@,
        TransportKind::Tcp => "tcp"@,
        TransportKind::Tls => "tls"@,
        TransportKind::Https => "https"@,
        TransportKind::Quic => "quic"@,
    }
}

impl TransportKind {
    pub fn default_port(self) -> (r: u16)
        ensures
            r == usual_port(self),
    {
        match self {
            TransportKind::Udp | TransportKind::Tcp => 53,
            TransportKind::Tls | TransportKind::Quic => 853,
            TransportKind::Https => 443,
        }
    }

    pub fn as_str(self) -> (r: &'static str)
        ensures
            r@ == kind_label(self),
    {
        match self {
            TransportKind::Udp => "udp",
            TransportKind::Tcp => "tcp",
            TransportKind::Tls => "tls",
            TransportKind::Https => "https",
            TransportKind::Quic => "quic",
        }
    }
}

/// Where the host part of a spec points.
#[derive(Debug, Clone)]
pub enum Host {
    Ip(IpAddr),
    Name(String),
}

/// What a [`Host`] says.
pub enum HostView {
    Ip(IpAddr),
    Name(Seq<char>),
}

impl View for Host {
    type V = HostView;

    open spec fn view(&self) -> HostView {
        match self {
            Host::Ip(ip) => HostView::Ip(*ip),
            Host::Name(name) => HostView::Name(name@),
        }
    }
}

/// A host as it is written: an address in canonical form, or the name.
pub open spec fn host_text(host: HostView) -> Seq<char> {
    match host {
        HostView::Ip(ip) => net::ip_text(ip),
        HostView::Name(name) => name,
    }
}

impl Host {
    pub fn as_ip(&self) -> (r: Option<IpAddr>)
        ensures
            r == match self@ {
                HostView::Ip(ip) => Some(ip),
                HostView::Name(_) => None,
            },
    {
        match self {
            Host::Ip(ip) => Some(*ip),
            Host::Name(_) => None,
        }
    }

    /// The host as it is written.
    pub fn text(&self) -> (r: String)
        ensures
            r@ == host_text(self@),
    {
        match self {
            Host::Ip(ip) => ip.text(),
            Host::Name(name) => name.as_str().to_owned(),
        }
    }
}

/// A fully-parsed upstream specification.
#[derive(Debug, Clone)]
pub struct UpstreamSpec {
    pub kind: TransportKind,
    pub host: Host,
    pub port: u16,
    /// HTTP path for DoH (e.g. `/dns-query`).
    pub path: String,
    /// HTTP/3 from the first packet, without discovery (`h3://`).
    pub force_http3: bool,
    /// The spec string as it was given, used for display.
    pub display: String,
}

/// What an [`UpstreamSpec`] says.
pub struct SpecView {
    pub kind: TransportKind,
    pub host: HostView,
    pub port: u16,
    pub path: Seq<char>,
    pub force_http3: bool,
    pub display: Seq<char>,
}

impl View for UpstreamSpec {
    type V = SpecView;

    open spec fn view(&self) -> SpecView {
        SpecView {
            kind: self.kind,
            host: self.host@,
            port: self.port,
            path: self.path@,
            force_http3: self.force_http3,
            display: self.display@,
        }
    }
}

/// The first index from `i` on at which `://` stands in `s`; the length of `s`
/// where there is none.
pub open spec fn marker_from(s: Seq<char>, i: int) -> int
    decreases s.len() - i,
{
    if i < 0 || i + 3 > s.len() {
        s.len() as int
    } else if s[i] == ':' && s[i + 1] == '/' && s[i + 2] == '/' {
        i
    } else {
        marker_from(s, i + 1)
    }
}

/// The last index of `c` in `s`, or -1.
pub open spec fn find_last(s: Seq<char>, c: char) -> int
    decreases s.len(),
{
    if s.len() == 0 {
        -1
    } else if s.last() == c {
        s.len() - 1
    } else {
        find_last(s.drop_last(), c)
    }
}

/// The protocol that a scheme stands for, and whether it forces HTTP/3.
pub open spec fn scheme_kind(scheme: Seq<char>) -> Option<(TransportKind, bool)> {
    if scheme == "udp"@ {
        Some((TransportKind::Udp, false))
    } else if scheme == "tcp"@ {
        Some((TransportKind::Tcp, false))
    } else if scheme == "tls"@ {
        Some((TransportKind::Tls, false))
    } else if scheme == "https"@ {
        Some((TransportKind::Https, false))
    } else if scheme == "h3"@ {
        Some((TransportKind::Https, true))
    } else if scheme == "quic"@ {
        Some((TransportKind::Quic, false))
    } else {
        None
    }
}

/// The port that `s` gives, or what is wrong with it.
pub open spec fn port_of(s: Seq<char>) -> Result<u16, Seq<char>> {
    match text::number_of_text(s, u16::MAX as nat) {
        Some(n) => Ok(n as u16),
        None => Err("bad port "@ + s),
    }
}

/// The host that `s` gives, where it is an address or else a name.
pub open spec fn host_of(s: Seq<char>) -> HostView {
    match net::ip_of_text(s) {
        Some(ip) => HostView::Ip(ip),
        None => HostView::Name(s),
    }
}

/// `host[:port]`, with IPv6 addresses bare or, before a port, in brackets.
pub open spec fn host_port(s: Seq<char>, default_port: u16) -> Result<(HostView, u16), Seq<char>> {
    if s.len() > 0 && s[0] == '[' {
        let rest = s.skip(1);
        let close = text::find(rest, ']');
        if close >= rest.len() {
            Err("unterminated [ in "@ + s)
        } else {
            let after = rest.skip(close + 1);
            match net::ip_of_text(rest.take(close)) {
                None => Err("bad IPv6 "@ + rest.take(close)),
                Some(ip) => if after.len() > 0 && after[0] == ':' {
                    match port_of(after.skip(1)) {
                        Ok(port) => Ok((HostView::Ip(ip), port)),
                        Err(e) => Err(e),
                    }
                } else {
                    Ok((HostView::Ip(ip), default_port))
                },
            }
        }
    } else {
        match net::ip_of_text(s) {
            Some(ip) => Ok((HostView::Ip(ip), default_port)),
            None => {
                let colon = find_last(s, ':');
                if colon < 0 {
                    Ok((HostView::Name(s), default_port))
                } else {
                    match port_of(s.skip(colon + 1)) {
                        Ok(port) => Ok((host_of(s.take(colon)), port)),
                        Err(e) => Err(e),
                    }
                }
            },
        }
    }
}

/// What follows the scheme: the authority, and the path from the first slash
/// on, `/dns-query` where there is none.
pub open spec fn rest_of_spec(
    rest: Seq<char>,
    kind: TransportKind,
    force_http3: bool,
    display: Seq<char>,
) -> Result<SpecView, Seq<char>> {
    let slash = text::find(rest, '/');
    let path = if slash < rest.len() { rest.skip(slash) } else { "/dns-query"@ };
    match host_port(rest.take(slash), usual_port(kind)) {
        Ok((host, port)) => Ok(SpecView { kind, host, port, path, force_http3, display }),
        Err(e) => Err(e),
    }
}

/// The specification that `input` gives, or what is wrong with it.
pub open spec fn spec_of_text(input: Seq<char>) -> Result<SpecView, Seq<char>> {
    let s = text::trim(input);
    let marker = marker_from(s, 0);
    if s.len() == 0 {
        Err("empty"@)
    } else if marker >= s.len() {
        rest_of_spec(s, TransportKind::Udp, false, s)
    } else {
        match scheme_kind(s.take(marker)) {
            Some((kind, force_http3)) => rest_of_spec(s.skip(marker + 3), kind, force_http3, s),
            None => Err("unknown scheme "@ + s.take(marker)),
        }
    }
}

/// The scheme under which a specification is written in full.
pub open spec fn full_scheme(v: SpecView) -> Seq<char> {
    if v.force_http3 {
        "h3"@
    } else {
        kind_label(v.kind)
    }
}

/// The endpoint that a specification names, however it is spelled.
pub open spec fn identity_text(v: SpecView) -> Seq<char> {
    full_scheme(v) + "://"@ + host_text(v.host) + ":"@ + text::decimal(v.port as nat) + v.path
}

fn marker_at(s: &[char]) -> (r: usize)
    ensures
        r == marker_from(s@, 0),
        r <= s@.len(),
        r < s@.len() ==> r + 3 <= s@.len(),
{
    let mut i: usize = 0;
    while s.len() >= 3 && i <= s.len() - 3
        invariant
            i <= s@.len(),
            marker_from(s@, i as int) == marker_from(s@, 0),
        decreases s@.len() + 1 - i,
    {
        if s[i] == ':' && s[i + 1] == '/' && s[i + 2] == '/' {
            return i;
        }
        i = i + 1;
    }
    s.len()
}

fn last_of(s: &[char], c: char) -> (r: Option<usize>)
    ensures
        match r {
            Some(i) => i == find_last(s@, c) && i < s@.len(),
            None => find_last(s@, c) < 0,
        },
{
    let mut i: usize = s.len();
    assert(s@.take(i as int) =~= s@);
    while i > 0
        invariant
            i <= s@.len(),
            find_last(s@.take(i as int), c) == find_last(s@, c),
        decreases i,
    {
        assert(s@.take(i as int).drop_last() =~= s@.take(i - 1));
        if s[i - 1] == c {
            return Some(i - 1);
        }
        i = i - 1;
    }
    None
}

fn invalid(what: &str, s: &[char]) -> (r: UpstreamError)
    ensures
        r@ == ErrorView::InvalidSpec(what@ + s@),
{
    let mut e: String = what.to_owned();
    append_chars(&mut e, s);
    UpstreamError::InvalidSpec(e)
}

fn parse_port(s: &[char]) -> (r: Result<u16, UpstreamError>)
    ensures
        match port_of(s@) {
            Ok(port) => r == Ok::<u16, UpstreamError>(port),
            Err(e) => r matches Err(err) && err@ == ErrorView::InvalidSpec(e),
        },
{
    match parse_number(s, u16::MAX as u64) {
        Some(n) => Ok(n as u16),
        None => Err(invalid("bad port ", s)),
    }
}

fn parse_ip(s: &[char]) -> (r: Option<IpAddr>)
    ensures
        r == net::ip_of_text(s@),
{
    let t: String = string_of(s);
    IpAddr::parse(t.as_str())
}

/// Split `host[:port]`, supporting bracketed IPv6 (`[::1]:53`).
fn split_host_port(s: &[char], default_port: u16) -> (r: Result<(Host, u16), UpstreamError>)
    ensures
        match host_port(s@, default_port) {
            Ok((host, port)) => r matches Ok((h, p)) && h@ == host && p == port,
            Err(e) => r matches Err(err) && err@ == ErrorView::InvalidSpec(e),
        },
{
    if s.len() > 0 && s[0] == '[' {
        let rest: &[char] = part(s, 1, s.len());
        assert(rest@ =~= s@.skip(1));
        let close: usize = find_char(rest, ']', 0);
        if close >= rest.len() {
            return Err(invalid("unterminated [ in ", s));
        }
        let ip_str: &[char] = part(rest, 0, close);
        assert(ip_str@ =~= rest@.take(close as int));
        let after: &[char] = part(rest, close + 1, rest.len());
        assert(after@ =~= rest@.skip(close + 1));
        return match parse_ip(ip_str) {
            None => Err(invalid("bad IPv6 ", ip_str)),
            Some(ip) => if after.len() > 0 && after[0] == ':' {
                let p: &[char] = part(after, 1, after.len());
                assert(p@ =~= after@.skip(1));
                match parse_port(p) {
                    Ok(port) => Ok((Host::Ip(ip), port)),
                    Err(e) => Err(e),
                }
            } else {
                Ok((Host::Ip(ip), default_port))
            },
        };
    }
    if let Some(ip) = parse_ip(s) {
        return Ok((Host::Ip(ip), default_port));
    }
    match last_of(s, ':') {
        Some(colon) => {
            let h: &[char] = part(s, 0, colon);
            assert(h@ =~= s@.take(colon as int));
            let p: &[char] = part(s, colon + 1, s.len());
            assert(p@ =~= s@.skip(colon + 1));
            match parse_port(p) {
                Ok(port) => {
                    let host: Host = match parse_ip(h) {
                        Some(ip) => Host::Ip(ip),
                        None => Host::Name(string_of(h)),
                    };
                    Ok((host, port))
                },
                Err(e) => Err(e),
            }
        },
        None => Ok((Host::Name(string_of(s)), default_port)),
    }
}

fn parse_scheme(scheme: &[char]) -> (r: Option<(TransportKind, bool)>)
    ensures
        r == scheme_kind(scheme@),
{
    if is_text(scheme, "udp") {
        Some((TransportKind::Udp, false))
    } else if is_text(scheme, "tcp") {
        Some((TransportKind::Tcp, false))
    } else if is_text(scheme, "tls") {
        Some((TransportKind::Tls, false))
    } else if is_text(scheme, "https") {
        Some((TransportKind::Https, false))
    } else if is_text(scheme, "h3") {
        Some((TransportKind::Https, true))
    } else if is_text(scheme, "quic") {
        Some((TransportKind::Quic, false))
    } else {
        None
    }
}

fn parse_rest(rest: &[char], kind: TransportKind, force_http3: bool, display: &[char]) -> (r: Result<
    UpstreamSpec,
    UpstreamError,
>)
    ensures
        match rest_of_spec(rest@, kind, force_http3, display@) {
            Ok(v) => r matches Ok(spec) && spec@ == v,
            Err(e) => r matches Err(err) && err@ == ErrorView::InvalidSpec(e),
        },
{
    let slash: usize = find_char(rest, '/', 0);
    let authority: &[char] = part(rest, 0, slash);
    assert(authority@ =~= rest@.take(slash as int));
    let path: String = if slash < rest.len() {
        let p: &[char] = part(rest, slash, rest.len());
        assert(p@ =~= rest@.skip(slash as int));
        string_of(p)
    } else {
        "/dns-query".to_owned()
    };
    match split_host_port(authority, kind.default_port()) {
        Ok((host, port)) => Ok(
            UpstreamSpec { kind, host, port, path, force_http3, display: string_of(display) },
        ),
        Err(e) => Err(e),
    }
}

impl UpstreamSpec {
    /// Parse a spec string.
    pub fn parse(input: &str) -> (r: Result<UpstreamSpec, UpstreamError>)
        ensures
            match spec_of_text(input@) {
                Ok(v) => r matches Ok(spec) && spec@ == v,
                Err(e) => r matches Err(err) && err@ == ErrorView::InvalidSpec(e),
            },
    {
        let chars: Vec<char> = chars_of(input);
        let s: &[char] = trim_chars(chars.as_slice());
        if s.len() == 0 {
            return Err(UpstreamError::InvalidSpec("empty".to_owned()));
        }
        let marker: usize = marker_at(s);
        if marker >= s.len() {
            return parse_rest(s, TransportKind::Udp, false, s);
        }
        let scheme: &[char] = part(s, 0, marker);
        assert(scheme@ =~= s@.take(marker as int));
        let rest: &[char] = part(s, marker + 3, s.len());
        assert(rest@ =~= s@.skip(marker + 3));
        match parse_scheme(scheme) {
            Some((kind, force_http3)) => parse_rest(rest, kind, force_http3, s),
            None => Err(invalid("unknown scheme ", scheme)),
        }
    }

    /// Hostname to use for TLS SNI / HTTP Host. For IP literals this is the IP
    /// string (certificates for public resolvers carry IP SANs).
    pub fn server_name(&self) -> (r: String)
        ensures
            r@ == host_text(self@.host),
    {
        self.host.text()
    }

    /// The endpoint that the spec names, however it is spelled.
    pub fn identity(&self) -> (r: String)
        ensures
            r@ == identity_text(self@),
    {
        let scheme: &str = if self.force_http3 {
            "h3"
        } else {
            self.kind.as_str()
        };
        let host: String = self.host.text();
        let mut id: String = scheme.to_owned().concat("://").concat(host.as_str()).concat(":");
        append_decimal(&mut id, self.port as u64);
        id.concat(self.path.as_str())
    }
}

/// A spec without a scheme names the same endpoint as with `udp://` before it.
pub proof fn law_bare_is_udp(input: Seq<char>)
    requires
        text::trim(input) == input,
        marker_from(input, 0) >= input.len(),
        spec_of_text(input) is Ok,
    ensures
        spec_of_text("udp://"@ + input) is Ok,
        identity_text(spec_of_text("udp://"@ + input)->Ok_0) == identity_text(
            spec_of_text(input)->Ok_0,
        ),
{
    reveal_strlit("udp://");
    reveal_strlit("udp");
    let s = "udp://"@ + input;
    assert(input.len() > 0);
    assert(!text::is_white(input.last())) by {
        assert(text::trim_end(text::trim_start(input)) == input);
        lemma_trim_end_last(text::trim_start(input));
    }
    assert(s.last() == input.last());
    assert(s[0] == 'u');
    assert(text::trim_start(s) == s);
    assert(text::trim_end(s) == s);
    reveal_with_fuel(marker_from, 5);
    assert(s[3] == ':' && s[4] == '/' && s[5] == '/');
    assert(s[1] == 'd' && s[2] == 'p');
    assert(marker_from(s, 0) == 3);
    assert(s.take(3) =~= "udp"@);
    assert(s.skip(6) =~= input);
}

proof fn lemma_trim_end_last(s: Seq<char>)
    ensures
        text::trim_end(s).len() > 0 ==> !text::is_white(text::trim_end(s).last()),
    decreases s.len(),
{
    if s.len() > 0 && text::is_white(s.last()) {
        lemma_trim_end_last(s.drop_last());
    }
}

} // verus!
