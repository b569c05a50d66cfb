//! What the written form of an upstream means.

use vstd::prelude::*;

use crate::net;
use crate::net::IpAddr;
use crate::text;
use crate::upstream::spec;
use crate::upstream::spec::{HostView, SpecView, TransportKind};

verus! {

/// Whether `s` can be the host of an upstream: a text without white space and without
/// the marks around a host.
pub open spec fn is_host_part(s: Seq<char>) -> bool {
    s.len() > 0 && s[0] != '[' && forall|i: int|
        0 <= i < s.len() ==> ' ' < #[trigger] s[i] <= '~' && s[i] != '/' && s[i] != ':'
}

/// What a scheme stands for, and the port where none is given: `udp` and `tcp` on 53,
/// `tls` and `quic` on 853, `https` on 443, and `h3` for HTTP/3 only.
pub open spec fn stands_for(scheme: Seq<char>, kind: TransportKind, h3: bool, port: u16) -> bool {
    ||| scheme == seq!['u', 'd', 'p'] && kind == TransportKind::Udp && !h3 && port == 53
    ||| scheme == seq!['t', 'c', 'p'] && kind == TransportKind::Tcp && !h3 && port == 53
    ||| scheme == seq!['t', 'l', 's'] && kind == TransportKind::Tls && !h3 && port == 853
    ||| scheme == seq!['q', 'u', 'i', 'c'] && kind == TransportKind::Quic && !h3 && port == 853
    ||| scheme == seq!['h', 't', 't', 'p', 's'] && kind == TransportKind::Https && !h3 && port
        == 443
    ||| scheme == seq!['h', '3'] && kind == TransportKind::Https && h3 && port == 443
}

proof fn lemma_scheme(scheme: Seq<char>, kind: TransportKind, h3: bool, port: u16)
    requires
        stands_for(scheme, kind, h3, port),
    ensures
        spec::scheme_kind(scheme) == Some((kind, h3)),
        spec::usual_port(kind) == port,
        2 <= scheme.len() <= 5,
        forall|i: int| 0 <= i < scheme.len() ==> ' ' < #[trigger] scheme[i] <= '~' && scheme[i]
            != ':',
{
    reveal_strlit("udp");
    reveal_strlit("tcp");
    reveal_strlit("tls");
    reveal_strlit("https");
    reveal_strlit("h3");
    reveal_strlit("quic");
    assert("udp"@ =~= seq!['u', 'd', 'p']);
    assert("tcp"@ =~= seq!['t', 'c', 'p']);
    assert("tls"@ =~= seq!['t', 'l', 's']);
    assert("quic"@ =~= seq!['q', 'u', 'i', 'c']);
    assert("https"@ =~= seq!['h', 't', 't', 'p', 's']);
    assert("h3"@ =~= seq!['h', '3']);
    assert(seq!['u', 'd', 'p'][0] == 'u');
    assert(seq!['t', 'c', 'p'][0] == 't' && seq!['t', 'c', 'p'][1] == 'c');
    assert(seq!['t', 'l', 's'][0] == 't' && seq!['t', 'l', 's'][1] == 'l');
}

/// The place of the first `://`.
proof fn lemma_marker(s: Seq<char>, i: int, at: int)
    requires
        0 <= i <= at,
        at + 3 <= s.len(),
        forall|j: int| i <= j < at ==> #[trigger] s[j] != ':',
        s[at] == ':' && s[at + 1] == '/' && s[at + 2] == '/',
    ensures
        spec::marker_from(s, i) == at,
    decreases at - i,
{
    if i < at {
        lemma_marker(s, i + 1, at);
    }
}

/// No `:` but a last one, or none.
proof fn lemma_last_colon(s: Seq<char>, at: int)
    requires
        -1 <= at < s.len(),
        at >= 0 ==> s[at] == ':',
        forall|j: int| at < j < s.len() ==> #[trigger] s[j] != ':',
    ensures
        spec::find_last(s, ':') == at,
    decreases s.len(),
{
    if s.len() > 0 && at < s.len() - 1 {
        assert(s.last() == s[s.len() - 1]);
        lemma_last_colon(s.drop_last(), at);
    } else if s.len() > 0 {
        assert(s.last() == s[at]);
    }
}

/// The port behind a host, where there is one.
pub open spec fn port_part(port: Option<Seq<char>>) -> Seq<char> {
    match port {
        Some(p) => seq![':'] + p,
        None => Seq::empty(),
    }
}

/// Whether `n` is the port: the one that is written, or else the usual one.
pub open spec fn is_port(port: Option<Seq<char>>, usual: u16, n: u16) -> bool {
    match port {
        Some(p) => p.len() > 0 && text::number_of_text(p, 65535) == Some(n as nat) && forall|
            i: int,
        |
            0 <= i < p.len() ==> '0' <= #[trigger] p[i] <= '9',
        None => n == usual,
    }
}

/// The host of an upstream, with a port or without.
proof fn lemma_host_port(host: Seq<char>, port: Option<Seq<char>>, usual: u16, n: u16)
    requires
        is_host_part(host),
        is_port(port, usual, n),
        port is Some ==> net::ip_of_text(host + port_part(port)) is None,
    ensures
        spec::host_port(host + port_part(port), usual) == Ok::<(HostView, u16), Seq<char>>(
            (
                match net::ip_of_text(host) {
                    Some(ip) => HostView::Ip(ip),
                    None => HostView::Name(host),
                },
                n,
            ),
        ),
{
    let s = host + port_part(port);
    assert(s[0] == host[0]);
    match port {
        Some(p) => {
            let at = host.len() as int;
            assert(s[at] == ':');
            assert forall|j: int| at < j < s.len() implies #[trigger] s[j] != ':' by {
                assert(s[j] == p[j - at - 1]);
            }
            lemma_last_colon(s, at);
            assert(s.take(at) =~= host);
            assert(s.skip(at + 1) =~= p);
        },
        None => {
            assert(s =~= host);
            lemma_last_colon(s, -1);
        },
    }
}

/// An upstream is written as a scheme, `://`, a host, a port where it is not the usual
/// one, and a path where it is not `/dns-query`; without a scheme it is plain DNS over
/// UDP. Each part means what it says.
pub proof fn law_written_upstream(
    scheme: Seq<char>,
    kind: TransportKind,
    h3: bool,
    usual: u16,
    host: Seq<char>,
    port: Option<Seq<char>>,
    n: u16,
    path: Seq<char>,
)
    requires
        stands_for(scheme, kind, h3, usual),
        is_host_part(host),
        is_port(port, usual, n),
        port is Some ==> net::ip_of_text(host + port_part(port)) is None,
        path.len() > 0 ==> path[0] == '/',
        forall|i: int| 0 <= i < path.len() ==> ' ' < #[trigger] path[i] <= '~',
    ensures
        ({
            let named = match net::ip_of_text(host) {
                Some(ip) => HostView::Ip(ip),
                None => HostView::Name(host),
            };
            let written = scheme + seq![':', '/', '/'] + (host + port_part(port) + path);
            &&& spec::spec_of_text(written) matches Ok(v) && v.kind == kind && v.force_http3 == h3
                && v.host == named && v.port == n && v.path == (if path.len() > 0 {
                path
            } else {
                "/dns-query"@
            }) && v.display == written
            &&& kind == TransportKind::Udp && path.len() == 0 ==> (spec::spec_of_text(
                host + port_part(port),
            ) matches Ok(v) && v.kind == TransportKind::Udp && !v.force_http3 && v.host == named
                && v.port == n)
        }),
{
    let place = host + port_part(port);
    let named = match net::ip_of_text(host) {
        Some(ip) => HostView::Ip(ip),
        None => HostView::Name(host),
    };
    lemma_scheme(scheme, kind, h3, usual);
    lemma_host_port(host, port, usual, n);
    lemma_place(host, port, usual, n);
    lemma_with_scheme(scheme, kind, h3, place, path, named, n);
    if kind == TransportKind::Udp && path.len() == 0 {
        lemma_without_scheme(place, named, n);
    }
}

/// A host with its port is a text without white space and slashes.
proof fn lemma_place(host: Seq<char>, port: Option<Seq<char>>, usual: u16, n: u16)
    requires
        is_host_part(host),
        is_port(port, usual, n),
    ensures
        is_place(host + port_part(port)),
{
    let place = host + port_part(port);
    assert forall|j: int| 0 <= j < place.len() implies ' ' < #[trigger] place[j] <= '~' && place[j]
        != '/' by {
        if j < host.len() {
            assert(place[j] == host[j]);
        } else if j > host.len() {
            assert(place[j] == (port->0)[j - host.len() - 1]);
        }
    }
}

/// A text without white space and slashes.
spec fn is_place(place: Seq<char>) -> bool {
    place.len() > 0 && forall|j: int|
        0 <= j < place.len() ==> ' ' < #[trigger] place[j] <= '~' && place[j] != '/'
}

/// What follows a scheme.
proof fn lemma_rest(
    place: Seq<char>,
    path: Seq<char>,
    kind: TransportKind,
    h3: bool,
    display: Seq<char>,
    host: HostView,
    n: u16,
)
    requires
        is_place(place),
        path.len() > 0 ==> path[0] == '/',
        spec::host_port(place, spec::usual_port(kind)) == Ok::<(HostView, u16), Seq<char>>(
            (host, n),
        ),
    ensures
        spec::rest_of_spec(place + path, kind, h3, display) == Ok::<SpecView, Seq<char>>(
            SpecView {
                kind,
                host,
                port: n,
                path: if path.len() > 0 {
                    path
                } else {
                    "/dns-query"@
                },
                force_http3: h3,
                display,
            },
        ),
{
    let rest = place + path;
    let k = place.len() as int;
    assert forall|j: int| 0 <= j < k implies #[trigger] rest[j] != '/' by {
        assert(rest[j] == place[j]);
    }
    if path.len() > 0 {
        assert(rest[k] == path[0]);
    }
    text::lemma_find_is(rest, '/', 0, k);
    assert(rest.take(k) =~= place);
    assert(rest.skip(k) =~= path);
}

/// A text that begins and ends with what can be seen is not trimmed.
proof fn lemma_untrimmed(s: Seq<char>)
    requires
        s.len() > 0,
        ' ' < s[0] <= '~',
        ' ' < s.last() <= '~',
    ensures
        text::trim(s) == s,
{
    assert(text::trim_start(s) == s);
    assert(text::trim_end(s) == s);
}

proof fn lemma_with_scheme(
    scheme: Seq<char>,
    kind: TransportKind,
    h3: bool,
    place: Seq<char>,
    path: Seq<char>,
    host: HostView,
    n: u16,
)
    requires
        spec::scheme_kind(scheme) == Some((kind, h3)),
        scheme.len() > 0,
        forall|i: int| 0 <= i < scheme.len() ==> ' ' < #[trigger] scheme[i] <= '~' && scheme[i]
            != ':',
        is_place(place),
        path.len() > 0 ==> path[0] == '/',
        forall|i: int| 0 <= i < path.len() ==> ' ' < #[trigger] path[i] <= '~',
        spec::host_port(place, spec::usual_port(kind)) == Ok::<(HostView, u16), Seq<char>>(
            (host, n),
        ),
    ensures
        ({
            let s = scheme + seq![':', '/', '/'] + (place + path);
            spec::spec_of_text(s) == Ok::<SpecView, Seq<char>>(
                SpecView {
                    kind,
                    host,
                    port: n,
                    path: if path.len() > 0 {
                        path
                    } else {
                        "/dns-query"@
                    },
                    force_http3: h3,
                    display: s,
                },
            )
        }),
{
    let rest = place + path;
    let s = scheme + seq![':', '/', '/'] + rest;
    let k = scheme.len() as int;
    lemma_rest(place, path, kind, h3, s, host, n);
    assert(forall|j: int| 0 <= j < k ==> #[trigger] s[j] == scheme[j]);
    assert(s[k] == ':' && s[k + 1] == '/' && s[k + 2] == '/');
    lemma_marker(s, 0, k);
    assert(s.take(k) =~= scheme);
    assert(s.skip(k + 3) =~= rest);
    assert(s[0] == scheme[0]);
    if path.len() > 0 {
        assert(s.last() == path[path.len() - 1]);
    } else {
        assert(s.last() == place[place.len() - 1]);
    }
    lemma_untrimmed(s);
}

proof fn lemma_without_scheme(place: Seq<char>, host: HostView, n: u16)
    requires
        is_place(place),
        spec::host_port(place, 53) == Ok::<(HostView, u16), Seq<char>>((host, n)),
    ensures
        spec::spec_of_text(place) matches Ok(v) && v.kind == TransportKind::Udp && !v.force_http3
            && v.host == host && v.port == n,
{
    let none = Seq::<char>::empty();
    lemma_rest(place, none, TransportKind::Udp, false, place, host, n);
    assert(place + none =~= place);
    assert(place.last() == place[place.len() - 1]);
    lemma_untrimmed(place);
    lemma_no_marker(place, 0);
}

proof fn lemma_no_marker(s: Seq<char>, i: int)
    requires
        0 <= i <= s.len(),
        forall|j: int| i <= j < s.len() ==> #[trigger] s[j] != '/',
    ensures
        spec::marker_from(s, i) == s.len(),
    decreases s.len() - i,
{
    if i + 3 <= s.len() {
        assert(s[i + 1] != '/');
        lemma_no_marker(s, i + 1);
    }
}

/// An endpoint is the same however it is written: by its protocol, its host, its port and
/// its path alone.
pub proof fn law_same_endpoint(a: SpecView, b: SpecView)
    requires
        a.kind == b.kind && a.force_http3 == b.force_http3 && a.host == b.host && a.port == b.port
            && a.path == b.path,
    ensures
        spec::identity_text(a) == spec::identity_text(b),
{
}

/// An address in brackets, with a port behind them or without.
pub proof fn law_bracketed_host(
    inner: Seq<char>,
    ip: IpAddr,
    port: Option<Seq<char>>,
    usual: u16,
    n: u16,
)
    requires
        net::ip_of_text(inner) == Some(ip),
        !inner.contains(']'),
        is_port(port, usual, n),
    ensures
        spec::host_port(seq!['['] + inner + seq![']'] + port_part(port), usual) == Ok::<
            (HostView, u16),
            Seq<char>,
        >((HostView::Ip(ip), n)),
{
    let s = seq!['['] + inner + seq![']'] + port_part(port);
    let rest = s.skip(1);
    let k = inner.len() as int;
    assert forall|j: int| 0 <= j < k implies #[trigger] rest[j] != ']' by {
        assert(rest[j] == inner[j]);
        assert(inner.contains(inner[j]));
    }
    assert(rest[k] == ']');
    text::lemma_find_is(rest, ']', 0, k);
    assert(rest.take(k) =~= inner);
    let after = rest.skip(k + 1);
    assert(after =~= port_part(port));
    if let Some(p) = port {
        assert(after.skip(1) =~= p);
    }
}

} // verus!
