//! Plain-DNS bootstrap resolution for encrypted upstreams.

use vstd::hash_map::StringHashMap;
use vstd::prelude::*;

use crate::message;
use crate::message::{read_data, read_fqdn, Data, DataView, DnsMessage, Record};
use crate::net;
use crate::net::{IpAddr, Ipv4Addr, SocketAddr};
use crate::upstream::error::{ErrorView, UpstreamError};
use crate::upstream::failover;
use crate::upstream::failover::{query_for, random_id};

verus! {

/// How long a resolved host is kept, in milliseconds.
pub const CACHE_TTL_MS: u64 = 300_000;

/// The port of plain DNS.
pub const DNS_PORT: u16 = 53;

/// What was found for a host, and when.
#[derive(Debug)]
pub struct Entry {
    pub ips: Vec<IpAddr>,
    pub at: u64,
}

/// Resolves hostnames through bootstrap servers with a short cache.
pub struct Bootstrap {
    pub servers: Vec<SocketAddr>,
    cache: StringHashMap<Entry>,
}

/// What a [`Bootstrap`] says: its servers, and what it knows of hosts.
#[verifier::ext_equal]
pub struct BootstrapView {
    pub servers: Seq<SocketAddr>,
    pub cache: Map<Seq<char>, (Seq<IpAddr>, u64)>,
}

pub open spec fn known(entries: Map<Seq<char>, Entry>) -> Map<Seq<char>, (Seq<IpAddr>, u64)> {
    entries.map_values(|e: Entry| (e.ips@, e.at))
}

impl View for Bootstrap {
    type V = BootstrapView;

    closed spec fn view(&self) -> BootstrapView {
        BootstrapView { servers: self.servers@, cache: known(self.cache@) }
    }
}

/// The servers that are asked where none is configured.
pub open spec fn usual_servers() -> Seq<SocketAddr> {
    seq![
        SocketAddr { ip: IpAddr::V4(Ipv4Addr { bits: 0x0101_0101 }), port: DNS_PORT },
        SocketAddr { ip: IpAddr::V4(Ipv4Addr { bits: 0x0808_0808 }), port: DNS_PORT },
    ]
}

/// The addresses among records' data, in order.
pub open spec fn addresses(answers: Seq<Record>) -> Seq<IpAddr>
    decreases answers.len(),
{
    if answers.len() == 0 {
        Seq::empty()
    } else {
        let before = addresses(answers.drop_last());
        match answers.last()@.data {
            DataView::A(ip) => before.push(IpAddr::V4(ip)),
            DataView::Aaaa(ip) => before.push(IpAddr::V6(ip)),
            _ => before,
        }
    }
}

/// The addresses that a response gives.
pub fn extract_ips(msg: &DnsMessage) -> (r: Vec<IpAddr>)
    ensures
        r@ == addresses(msg@.answers),
{
    let mut out: Vec<IpAddr> = Vec::new();
    let mut i: usize = 0;
    assert(msg.answers@.take(0) =~= Seq::<Record>::empty());
    while i < msg.answers.len()
        invariant
            i <= msg.answers@.len(),
            out@ == addresses(msg.answers@.take(i as int)),
        decreases msg.answers@.len() - i,
    {
        proof {
            let upto = msg.answers@.take(i + 1);
            assert(upto.drop_last() =~= msg.answers@.take(i as int));
            assert(upto.last() == msg.answers@[i as int]);
        }
        match read_data(&msg.answers[i].data) {
            Data::A(ip) => out.push(IpAddr::V4(ip)),
            Data::Aaaa(ip) => out.push(IpAddr::V6(ip)),
            _ => {},
        }
        i = i + 1;
    }
    assert(msg.answers@.take(i as int) =~= msg.answers@);
    out
}

fn copy_ips(v: &Vec<IpAddr>) -> (r: Vec<IpAddr>)
    ensures
        r@ == v@,
{
    let mut out: Vec<IpAddr> = Vec::new();
    let mut i: usize = 0;
    while i < v.len()
        invariant
            i <= v@.len(),
            out@ == v@.take(i as int),
        decreases v@.len() - i,
    {
        out.push(v[i]);
        assert(v@.take(i + 1) =~= v@.take(i as int).push(v@[i as int]));
        i = i + 1;
    }
    assert(v@.take(i as int) =~= v@);
    out
}

/// What is known of a host without asking: an IP literal is its own address, and
/// what was found less than five minutes ago still holds.
pub open spec fn known_ips(b: BootstrapView, host: Seq<char>, now: u64) -> Option<Seq<IpAddr>> {
    match net::ip_of_text(host) {
        Some(ip) => Some(seq![ip]),
        None => if b.cache.dom().contains(host) && now - b.cache[host].1 < CACHE_TTL_MS {
            Some(b.cache[host].0)
        } else {
            None
        },
    }
}

/// What two lookups of a host give together.
pub open spec fn found(host: Seq<char>, v4: Seq<IpAddr>, v6: Seq<IpAddr>) -> Result<
    Seq<IpAddr>,
    ErrorView,
> {
    if v4.len() + v6.len() == 0 {
        Err(ErrorView::Bootstrap(host))
    } else {
        Ok(v4 + v6)
    }
}

impl Bootstrap {
    /// Create with the given bootstrap servers (e.g. `1.1.1.1:53`). Falls back
    /// to Cloudflare + Google if the list is empty.
    pub fn new(servers: Vec<SocketAddr>) -> (r: Bootstrap)
        ensures
            r@.servers == (if servers@.len() == 0 {
                usual_servers()
            } else {
                servers@
            }),
            r@.cache == Map::<Seq<char>, (Seq<IpAddr>, u64)>::empty(),
    {
        let mut list: Vec<SocketAddr> = servers;
        if list.len() == 0 {
            list.push(SocketAddr { ip: IpAddr::V4(Ipv4Addr::new(1, 1, 1, 1)), port: DNS_PORT });
            list.push(SocketAddr { ip: IpAddr::V4(Ipv4Addr::new(8, 8, 8, 8)), port: DNS_PORT });
            assert(list@ =~= usual_servers());
        }
        let cache: StringHashMap<Entry> = StringHashMap::new();
        assert(known(cache@) =~= Map::<Seq<char>, (Seq<IpAddr>, u64)>::empty());
        Bootstrap { servers: list, cache }
    }

    /// What is known of a host without asking. `now` is not before any time that
    /// something was found.
    pub fn cached(&self, host: &str, now: u64) -> (r: Option<Vec<IpAddr>>)
        ensures
            match known_ips(self@, host@, now) {
                Some(ips) => r matches Some(v) && v@ == ips,
                None => r is None,
            },
    {
        if let Some(ip) = IpAddr::parse(host) {
            let mut one: Vec<IpAddr> = Vec::new();
            one.push(ip);
            assert(one@ =~= seq![ip]);
            return Some(one);
        }
        match self.cache.get(host) {
            Some(e) => if now < e.at || now - e.at < CACHE_TTL_MS {
                Some(copy_ips(&e.ips))
            } else {
                None
            },
            None => None,
        }
    }

    /// Takes what the lookups of a host's IPv4 and IPv6 addresses found, none
    /// where one failed, and keeps it.
    pub fn finish(&mut self, host: &str, v4: Vec<IpAddr>, v6: Vec<IpAddr>, now: u64) -> (r: Result<
        Vec<IpAddr>,
        UpstreamError,
    >)
        ensures
            match found(host@, v4@, v6@) {
                Ok(ips) => {
                    &&& r matches Ok(v) && v@ == ips
                    &&& final(self)@ == (BootstrapView {
                        cache: old(self)@.cache.insert(host@, (ips, now)),
                        ..old(self)@
                    })
                },
                Err(e) => {
                    &&& r matches Err(err) && err@ == e
                    &&& final(self)@ == old(self)@
                },
            },
    {
        let mut ips: Vec<IpAddr> = v4;
        let mut more: Vec<IpAddr> = v6;
        ips.append(&mut more);
        if ips.len() == 0 {
            return Err(UpstreamError::Bootstrap(host.to_owned()));
        }
        let entry: Entry = Entry { ips: copy_ips(&ips), at: now };
        let ghost before = self.cache@;
        self.cache.insert(host.to_owned(), entry);
        assert(known(self.cache@) =~= known(before).insert(host@, (ips@, now)));
        Ok(ips)
    }

    /// The query for the addresses of a host.
    pub fn lookup_query(&self, host: &str, rtype: u16) -> (r: Result<DnsMessage, UpstreamError>)
        ensures
            match message::fqdn_of_text(host@) {
                Ok(name) => r matches Ok(m) && failover::is_query_for(m@, m@.id, name, rtype),
                Err(why) => r matches Err(e) && e@ == ErrorView::Proto(why),
            },
    {
        match read_fqdn(host) {
            Ok(name) => Ok(query_for(random_id(), name, rtype)),
            Err(e) => Err(UpstreamError::Proto(e)),
        }
    }

    /// A lookup of a host that is yet to ask the first server.
    pub fn lookup(&self, host: &str) -> (r: Lookup)
        ensures
            r@ == (LookupView { asked: 0, last: ErrorView::Bootstrap(host@) }),
    {
        Lookup { asked: 0, last: UpstreamError::Bootstrap(host.to_owned()) }
    }
}

/// A lookup on its way through the servers.
#[derive(Debug)]
pub struct Lookup {
    /// How many servers were asked.
    pub asked: usize,
    pub last: UpstreamError,
}

/// What a [`Lookup`] says.
pub struct LookupView {
    pub asked: int,
    pub last: ErrorView,
}

impl View for Lookup {
    type V = LookupView;

    open spec fn view(&self) -> LookupView {
        LookupView { asked: self.asked as int, last: self.last@ }
    }
}

/// What became of a lookup after a reply.
#[derive(Debug)]
pub enum LookupStep {
    Found(Vec<IpAddr>),
    Going(Lookup),
}

/// What a lookup comes to by a reply: the addresses, or how it goes on.
pub open spec fn looked_up(l: LookupView, reply: failover::ReplyView) -> Result<
    Seq<IpAddr>,
    LookupView,
> {
    match reply {
        failover::ReplyView::Response(m) => if addresses(m.answers).len() > 0 {
            Ok(addresses(m.answers))
        } else {
            Err(LookupView { asked: l.asked + 1, ..l })
        },
        failover::ReplyView::Failed(e) => Err(LookupView { asked: l.asked + 1, last: e }),
        failover::ReplyView::TimedOut => Err(
            LookupView { asked: l.asked + 1, last: ErrorView::Timeout },
        ),
    }
}

/// The server to ask now; none where all were asked.
pub open spec fn next_server(b: BootstrapView, l: LookupView) -> Option<SocketAddr> {
    if l.asked < b.servers.len() {
        Some(b.servers[l.asked])
    } else {
        None
    }
}

impl Lookup {
    /// The server to ask now; none where all were asked.
    pub fn current(&self, bootstrap: &Bootstrap) -> (r: Option<SocketAddr>)
        ensures
            r == next_server(bootstrap@, self@),
    {
        if self.asked < bootstrap.servers.len() {
            Some(bootstrap.servers[self.asked])
        } else {
            None
        }
    }

    /// Takes what a server replied: addresses end the lookup, a response without
    /// any and a failure go on with the next server.
    pub fn reply(self, reply: &failover::Reply) -> (r: LookupStep)
        requires
            self@.asked < usize::MAX,
        ensures
            match looked_up(self@, reply@) {
                Ok(ips) => r matches LookupStep::Found(v) && v@ == ips,
                Err(next) => r matches LookupStep::Going(l) && l@ == next,
            },
    {
        match reply {
            failover::Reply::Response(m) => {
                let ips: Vec<IpAddr> = extract_ips(m);
                if ips.len() > 0 {
                    LookupStep::Found(ips)
                } else {
                    LookupStep::Going(Lookup { asked: self.asked + 1, last: self.last })
                }
            },
            failover::Reply::Failed(e) => LookupStep::Going(
                Lookup { asked: self.asked + 1, last: e.copied() },
            ),
            failover::Reply::TimedOut => LookupStep::Going(
                Lookup { asked: self.asked + 1, last: UpstreamError::Timeout },
            ),
        }
    }
}

/// What was found for a host is known for five minutes from then on, and not
/// after.
pub proof fn law_bootstrap_cache(b: BootstrapView, host: Seq<char>, ips: Seq<IpAddr>, at: u64, now: u64)
    requires
        net::ip_of_text(host) is None,
        at <= now,
    ensures
        known_ips(
            BootstrapView { cache: b.cache.insert(host, (ips, at)), ..b },
            host,
            now,
        ) == (if now - at < CACHE_TTL_MS {
            Some(ips)
        } else {
            None
        }),
{
}

} // verus!
