//! Where a transport connects to, and what follows a failed attempt.

use vstd::prelude::*;

use crate::message::{DnsMessage, MessageView};
use crate::net;
use crate::net::{IpAddr, SocketAddr};
use crate::text;
use crate::text::append_decimal;
use crate::upstream::alt_svc;
use crate::upstream::alt_svc::doh_url;
use crate::upstream::error::{ErrorView, UpstreamError};
use crate::upstream::spec;
use crate::upstream::spec::{Host, HostView, SpecView, TransportKind, UpstreamSpec};

verus! {

/// The text of a socket address: the port behind the address, which stands in
/// brackets where it is an IPv6 address.
pub open spec fn address_text(a: SocketAddr) -> Seq<char> {
    match a.ip {
        IpAddr::V4(_) => net::ip_text(a.ip) + ":"@ + text::decimal(a.port as nat),
        IpAddr::V6(_) => "["@ + net::ip_text(a.ip) + "]:"@ + text::decimal(a.port as nat),
    }
}

/// The text of a socket address.
pub fn show_address(a: SocketAddr) -> (r: String)
    ensures
        r@ == address_text(a),
{
    let ip: String = a.ip.text();
    let mut out: String = match a.ip {
        IpAddr::V4(_) => ip.concat(":"),
        IpAddr::V6(_) => "[".to_owned().concat(ip.as_str()).concat("]:"),
    };
    append_decimal(&mut out, a.port as u64);
    out
}

/// How a transport describes itself. A plain one is described by the address it
/// sends to, an encrypted one by the server's name.
pub open spec fn description(v: SpecView, address: SocketAddr) -> Seq<char> {
    match v.kind {
        TransportKind::Udp => "udp://"@ + address_text(address),
        TransportKind::Tcp => "tcp://"@ + address_text(address),
        TransportKind::Tls => "tls://"@ + spec::host_text(v.host),
        TransportKind::Https => alt_svc::doh_url_text(v),
        TransportKind::Quic => "quic://"@ + spec::host_text(v.host),
    }
}

/// How a transport describes itself.
pub fn describe(spec: &UpstreamSpec, address: SocketAddr) -> (r: String)
    ensures
        r@ == description(spec@, address),
{
    match spec.kind {
        TransportKind::Udp => "udp://".to_owned().concat(show_address(address).as_str()),
        TransportKind::Tcp => "tcp://".to_owned().concat(show_address(address).as_str()),
        TransportKind::Tls => "tls://".to_owned().concat(spec.server_name().as_str()),
        TransportKind::Https => doh_url(spec),
        TransportKind::Quic => "quic://".to_owned().concat(spec.server_name().as_str()),
    }
}

/// Where a plain transport sends to: the address in its spec, or the first that its
/// name resolved to. A name without an address is an error.
pub open spec fn plain_address(v: SpecView, ips: Seq<IpAddr>) -> Result<SocketAddr, ErrorView> {
    match v.host {
        HostView::Ip(ip) => Ok(SocketAddr { ip, port: v.port }),
        HostView::Name(name) => if ips.len() > 0 {
            Ok(SocketAddr { ip: ips[0], port: v.port })
        } else {
            Err(ErrorView::Bootstrap(name))
        },
    }
}

/// Where a plain transport sends to. `ips` is what the name of the host resolved to;
/// it is not read where the spec holds an address.
pub fn plain_addr(spec: &UpstreamSpec, ips: &Vec<IpAddr>) -> (r: Result<SocketAddr, UpstreamError>)
    ensures
        match plain_address(spec@, ips@) {
            Ok(a) => r == Ok::<SocketAddr, UpstreamError>(a),
            Err(e) => r matches Err(err) && err@ == e,
        },
{
    match &spec.host {
        Host::Ip(ip) => Ok(SocketAddr { ip: *ip, port: spec.port }),
        Host::Name(name) => {
            if ips.len() > 0 {
                Ok(SocketAddr { ip: ips[0], port: spec.port })
            } else {
                Err(UpstreamError::Bootstrap(name.as_str().to_owned()))
            }
        },
    }
}

/// A connection that is being made: the addresses are tried in order, and the last
/// error counts.
#[derive(Debug)]
pub struct Dialing {
    ips: Vec<IpAddr>,
    port: u16,
    next: usize,
    last: UpstreamError,
}

/// What a [`Dialing`] says: the addresses that are left, and the last error.
pub struct DialView {
    pub left: Seq<IpAddr>,
    pub port: u16,
    pub last: ErrorView,
}

impl View for Dialing {
    type V = DialView;

    closed spec fn view(&self) -> DialView {
        DialView { left: self.ips@.skip(self.next as int), port: self.port, last: self.last@ }
    }
}

/// What is left to try after the address that was tried did not answer.
pub open spec fn missed(d: DialView, error: ErrorView) -> DialView {
    DialView {
        left: if d.left.len() > 0 {
            d.left.drop_first()
        } else {
            d.left
        },
        last: error,
        ..d
    }
}

/// The address to try, if one is left.
pub open spec fn to_try(d: DialView) -> Option<SocketAddr> {
    if d.left.len() > 0 {
        Some(SocketAddr { ip: d.left[0], port: d.port })
    } else {
        None
    }
}

impl Dialing {
    #[verifier::type_invariant]
    closed spec fn wf(self) -> bool {
        self.next <= self.ips@.len()
    }

    /// Begins with the addresses that the host of a spec resolved to.
    pub fn new(spec: &UpstreamSpec, ips: Vec<IpAddr>) -> (r: Dialing)
        ensures
            r@ == (DialView {
                left: ips@,
                port: spec@.port,
                last: ErrorView::Bootstrap(spec::host_text(spec@.host)),
            }),
    {
        let r = Dialing {
            ips,
            port: spec.port,
            next: 0,
            last: UpstreamError::Bootstrap(spec.host.text()),
        };
        assert(r@.left =~= ips@);
        r
    }

    /// The address to try, if one is left.
    pub fn current(&self) -> (r: Option<SocketAddr>)
        ensures
            r == to_try(self@),
    {
        proof {
            use_type_invariant(self);
        }
        if self.next < self.ips.len() {
            Some(SocketAddr { ip: self.ips[self.next], port: self.port })
        } else {
            None
        }
    }

    /// The address that was tried did not answer.
    pub fn failed(&mut self, error: UpstreamError)
        ensures
            final(self)@ == missed(old(self)@, error@),
    {
        proof {
            use_type_invariant(&*self);
        }
        let n: usize = self.ips.len();
        if self.next < n {
            assert(self.ips@.skip(self.next as int).drop_first() =~= self.ips@.skip(self.next + 1));
            self.next = self.next + 1;
        }
        self.last = error;
    }

    /// Why no connection could be made.
    pub fn into_error(self) -> (r: UpstreamError)
        ensures
            r@ == self@.last,
    {
        self.last
    }
}

/// What follows an exchange on a shared connection.
#[derive(Debug)]
pub enum After {
    Answer(DnsMessage),
    /// The connection is dropped and the query goes out once more, on a fresh one.
    Retry,
    /// The answer was cut short: the query goes out over TCP.
    OverTcp,
    Fail(UpstreamError),
}

/// What an [`After`] says.
pub enum AfterView {
    Answer(MessageView),
    Retry,
    OverTcp,
    Fail(ErrorView),
}

impl View for After {
    type V = AfterView;

    open spec fn view(&self) -> AfterView {
        match self {
            After::Answer(m) => AfterView::Answer(m@),
            After::Retry => AfterView::Retry,
            After::OverTcp => AfterView::OverTcp,
            After::Fail(e) => AfterView::Fail(e@),
        }
    }
}

/// Whether a transport shares a connection that may have broken since it was last
/// used, so that a query on it is worth a second attempt.
pub open spec fn retries(kind: TransportKind) -> bool {
    kind == TransportKind::Udp || kind == TransportKind::Tls
}

/// What follows an exchange.
pub open spec fn followed(
    kind: TransportKind,
    retried: bool,
    outcome: Result<MessageView, ErrorView>,
) -> AfterView {
    match outcome {
        Ok(m) => if kind == TransportKind::Udp && m.truncation {
            AfterView::OverTcp
        } else {
            AfterView::Answer(m)
        },
        Err(e) => if retries(kind) && !retried {
            AfterView::Retry
        } else {
            AfterView::Fail(e)
        },
    }
}

/// What follows an exchange: a first failure on a shared connection is retried on a
/// fresh one, and a datagram that was cut short is asked for over TCP.
pub fn after_exchange(
    kind: TransportKind,
    retried: bool,
    outcome: Result<DnsMessage, UpstreamError>,
) -> (r: After)
    ensures
        r@ == followed(
            kind,
            retried,
            match outcome {
                Ok(m) => Ok(m@),
                Err(e) => Err(e@),
            },
        ),
{
    let shared: bool = match kind {
        TransportKind::Udp => true,
        TransportKind::Tls => true,
        _ => false,
    };
    match outcome {
        Ok(m) => {
            let datagram: bool = match kind {
                TransportKind::Udp => true,
                _ => false,
            };
            if datagram && m.truncation {
                After::OverTcp
            } else {
                After::Answer(m)
            }
        },
        Err(e) => {
            if shared && !retried {
                After::Retry
            } else {
                After::Fail(e)
            }
        },
    }
}

} // verus!
