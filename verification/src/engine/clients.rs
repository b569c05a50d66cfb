//! Client identification by IP or CIDR.

use std::collections::HashMap;

use vstd::prelude::*;

use crate::config::settings::ClientConfig;
use crate::net;
use crate::net::{IpAddr, IpNet, NetView};
use crate::text;

verus! {

/// A configured client.
struct ClientEntry {
    name: String,
    nets: Vec<IpNet>,
    tags: Vec<String>,
    filtering_enabled: bool,
}

/// What is known of a configured client.
pub struct ClientEntryView {
    pub name: Seq<char>,
    pub nets: Seq<NetView>,
    pub tags: Seq<Seq<char>>,
    pub filtering_enabled: bool,
}

pub open spec fn net_views(v: Seq<IpNet>) -> Seq<NetView> {
    v.map_values(|n: IpNet| n@)
}

impl View for ClientEntry {
    type V = ClientEntryView;

    closed spec fn view(&self) -> ClientEntryView {
        ClientEntryView {
            name: self.name@,
            nets: net_views(self.nets@),
            tags: text::texts(self.tags@),
            filtering_enabled: self.filtering_enabled,
        }
    }
}

/// Client settings resolved for a request.
#[derive(Debug, Clone)]
pub struct ResolvedClient {
    pub ip: IpAddr,
    /// Friendly name, if the IP matched a configured client.
    pub name: Option<String>,
    pub tags: Vec<String>,
    pub filtering_enabled: bool,
}

/// What a [`ResolvedClient`] says.
pub struct ResolvedClientView {
    pub ip: IpAddr,
    pub name: Option<Seq<char>>,
    pub tags: Seq<Seq<char>>,
    pub filtering_enabled: bool,
}

impl View for ResolvedClient {
    type V = ResolvedClientView;

    open spec fn view(&self) -> ResolvedClientView {
        ResolvedClientView {
            ip: self.ip,
            name: match self.name {
                Some(n) => Some(n@),
                None => None,
            },
            tags: text::texts(self.tags@),
            filtering_enabled: self.filtering_enabled,
        }
    }
}

impl ResolvedClient {
    /// Returns the configured name or IP address.
    pub fn label(&self) -> (r: String)
        ensures
            r@ == match self@.name {
                Some(n) => n,
                None => net::ip_text(self@.ip),
            },
    {
        match &self.name {
            Some(name) => name.as_str().to_owned(),
            None => self.ip.text(),
        }
    }
}

/// Matches source IPs to client configuration.
pub struct ClientMatcher {
    /// Exact matches: the first client with an address has it.
    hosts_v4: HashMap<u32, usize>,
    hosts_v6: HashMap<u128, usize>,
    entries: Vec<ClientEntry>,
}

/// What a [`ClientMatcher`] says: the clients, and which of them has an address
/// of its own.
#[verifier::ext_equal]
pub struct MatcherView {
    pub hosts: Map<IpAddr, int>,
    pub entries: Seq<ClientEntryView>,
}

/// The addresses of two maps.
pub open spec fn hosts_in(v4: Map<u32, usize>, v6: Map<u128, usize>) -> Map<IpAddr, int> {
    Map::new(
        |ip: IpAddr|
            match ip {
                IpAddr::V4(a) => v4.dom().contains(a.bits),
                IpAddr::V6(a) => v6.dom().contains(a.bits),
            },
        |ip: IpAddr|
            match ip {
                IpAddr::V4(a) => v4[a.bits] as int,
                IpAddr::V6(a) => v6[a.bits] as int,
            },
    )
}

spec fn entry_views(v: Seq<ClientEntry>) -> Seq<ClientEntryView> {
    v.map_values(|e: ClientEntry| e@)
}

impl View for ClientMatcher {
    type V = MatcherView;

    closed spec fn view(&self) -> MatcherView {
        MatcherView {
            hosts: hosts_in(self.hosts_v4@, self.hosts_v6@),
            entries: entry_views(self.entries@),
        }
    }
}

/// `hosts` with those of `ids` that are addresses, for the client `idx`. An
/// address that somebody has stays with them.
pub open spec fn with_hosts(hosts: Map<IpAddr, int>, ids: Seq<Seq<char>>, idx: int) -> Map<
    IpAddr,
    int,
>
    decreases ids.len(),
{
    if ids.len() == 0 {
        hosts
    } else {
        let before = with_hosts(hosts, ids.drop_last(), idx);
        match net::ip_of_text(ids.last()) {
            Some(ip) => if before.dom().contains(ip) {
                before
            } else {
                before.insert(ip, idx)
            },
            None => before,
        }
    }
}

/// The networks among ids; what is neither an address nor a network is skipped.
pub open spec fn nets_of(ids: Seq<Seq<char>>) -> Seq<NetView>
    decreases ids.len(),
{
    if ids.len() == 0 {
        Seq::empty()
    } else {
        let before = nets_of(ids.drop_last());
        match (net::ip_of_text(ids.last()), net::net_of_text(ids.last())) {
            (None, Some((addr, prefix_len))) => before.push(
                NetView { addr, prefix_len: prefix_len as int },
            ),
            _ => before,
        }
    }
}

/// What configured clients amount to.
pub open spec fn matcher_of(clients: Seq<ClientConfig>) -> MatcherView
    decreases clients.len(),
{
    if clients.len() == 0 {
        MatcherView { hosts: Map::empty(), entries: Seq::empty() }
    } else {
        let before = matcher_of(clients.drop_last());
        let c = clients.last();
        MatcherView {
            hosts: with_hosts(before.hosts, text::texts(c.ids@), clients.len() - 1),
            entries: before.entries.push(
                ClientEntryView {
                    name: c.name@,
                    nets: nets_of(text::texts(c.ids@)),
                    tags: text::texts(c.tags@),
                    filtering_enabled: c.filtering_enabled,
                },
            ),
        }
    }
}

/// The longest prefix among networks that contain an address; -1 where none
/// does.
pub open spec fn longest_prefix(nets: Seq<NetView>, ip: IpAddr) -> int
    decreases nets.len(),
{
    if nets.len() == 0 {
        -1
    } else {
        let before = longest_prefix(nets.drop_last(), ip);
        if nets.last().holds(ip) && nets.last().prefix_len > before {
            nets.last().prefix_len
        } else {
            before
        }
    }
}

/// The client whose networks hold an address with the longest prefix, the first
/// of them in configuration order; -1 where none does.
pub open spec fn best_net(entries: Seq<ClientEntryView>, ip: IpAddr) -> int
    decreases entries.len(),
{
    if entries.len() == 0 {
        -1
    } else {
        let before = best_net(entries.drop_last(), ip);
        let prefix = longest_prefix(entries.last().nets, ip);
        if prefix >= 0 && (before < 0 || prefix > longest_prefix(entries[before].nets, ip)) {
            entries.len() - 1
        } else {
            before
        }
    }
}

/// The client behind an address: the one whose own it is, or else the one with
/// the longest prefix.
pub open spec fn client_behind(m: MatcherView, ip: IpAddr) -> Option<int> {
    if m.hosts.dom().contains(ip) {
        Some(m.hosts[ip])
    } else if best_net(m.entries, ip) >= 0 {
        Some(best_net(m.entries, ip))
    } else {
        None
    }
}

/// What is known of the client behind an address. Unknown addresses resolve to
/// an unnamed client with filtering enabled.
pub open spec fn resolved(m: MatcherView, ip: IpAddr) -> ResolvedClientView {
    match client_behind(m, ip) {
        Some(i) => ResolvedClientView {
            ip,
            name: Some(m.entries[i].name),
            tags: m.entries[i].tags,
            filtering_enabled: m.entries[i].filtering_enabled,
        },
        None => ResolvedClientView { ip, name: None, tags: Seq::empty(), filtering_enabled: true },
    }
}

/// The configured name of the client behind an address.
pub open spec fn name_behind(m: MatcherView, ip: IpAddr) -> Option<Seq<char>> {
    match client_behind(m, ip) {
        Some(i) => Some(m.entries[i].name),
        None => None,
    }
}

proof fn lemma_best_net(entries: Seq<ClientEntryView>, ip: IpAddr)
    ensures
        -1 <= best_net(entries, ip) < entries.len(),
        best_net(entries, ip) >= 0 ==> longest_prefix(
            entries[best_net(entries, ip)].nets,
            ip,
        ) >= 0,
        forall|j: int|
            0 <= j < entries.len() && longest_prefix(#[trigger] entries[j].nets, ip) >= 0 ==> {
                &&& best_net(entries, ip) >= 0
                &&& longest_prefix(entries[j].nets, ip) <= longest_prefix(
                    entries[best_net(entries, ip)].nets,
                    ip,
                )
                &&& j < best_net(entries, ip) ==> longest_prefix(entries[j].nets, ip)
                    < longest_prefix(entries[best_net(entries, ip)].nets, ip)
            },
    decreases entries.len(),
{
    if entries.len() > 0 {
        let rest = entries.drop_last();
        lemma_best_net(rest, ip);
        assert forall|j: int|
            0 <= j < entries.len() && longest_prefix(#[trigger] entries[j].nets, ip) >= 0 implies {
            &&& best_net(entries, ip) >= 0
            &&& longest_prefix(entries[j].nets, ip) <= longest_prefix(
                entries[best_net(entries, ip)].nets,
                ip,
            )
            &&& j < best_net(entries, ip) ==> longest_prefix(entries[j].nets, ip)
                < longest_prefix(entries[best_net(entries, ip)].nets, ip)
        } by {
            if j < rest.len() {
                assert(rest[j].nets == entries[j].nets);
            }
            if best_net(rest, ip) >= 0 {
                assert(rest[best_net(rest, ip)] == entries[best_net(rest, ip)]);
            }
        }
        if best_net(rest, ip) >= 0 {
            assert(rest[best_net(rest, ip)] == entries[best_net(rest, ip)]);
        }
    }
}

proof fn lemma_longest_prefix(nets: Seq<NetView>, ip: IpAddr)
    requires
        forall|k: int| 0 <= k < nets.len() ==> (#[trigger] nets[k]).prefix_len >= 0,
    ensures
        longest_prefix(nets, ip) >= -1,
        forall|k: int|
            0 <= k < nets.len() && (#[trigger] nets[k]).holds(ip) ==> nets[k].prefix_len
                <= longest_prefix(nets, ip),
    decreases nets.len(),
{
    if nets.len() > 0 {
        let rest = nets.drop_last();
        assert forall|k: int| 0 <= k < rest.len() implies (#[trigger] rest[k]).prefix_len >= 0 by {
            assert(rest[k] == nets[k]);
        }
        lemma_longest_prefix(rest, ip);
        assert forall|k: int| 0 <= k < nets.len() && (#[trigger] nets[k]).holds(ip) implies nets[k].prefix_len
            <= longest_prefix(nets, ip) by {
            if k < rest.len() {
                assert(rest[k] == nets[k]);
            }
        }
    }
}

/// An address of a client's own beats every network. Without one, no client has
/// a network that holds the address with a longer prefix than the client found,
/// and one that comes earlier in the configuration has only shorter ones.
pub proof fn law_longest_prefix_wins(m: MatcherView, ip: IpAddr, j: int, k: int)
    requires
        0 <= j < m.entries.len(),
        0 <= k < m.entries[j].nets.len(),
        forall|n: int| 0 <= n < m.entries[j].nets.len() ==> (#[trigger] m.entries[j].nets[n]).prefix_len >= 0,
        m.entries[j].nets[k].holds(ip),
    ensures
        m.hosts.dom().contains(ip) ==> client_behind(m, ip) == Some(m.hosts[ip]),
        !m.hosts.dom().contains(ip) ==> {
            &&& client_behind(m, ip) matches Some(i)
            &&& 0 <= i < m.entries.len()
            &&& m.entries[j].nets[k].prefix_len <= longest_prefix(m.entries[i].nets, ip)
            &&& j < i ==> m.entries[j].nets[k].prefix_len < longest_prefix(m.entries[i].nets, ip)
        },
{
    lemma_best_net(m.entries, ip);
    lemma_longest_prefix(m.entries[j].nets, ip);
    assert(longest_prefix(m.entries[j].nets, ip) >= 0);
}

impl Default for ClientMatcher {
    fn default() -> (r: ClientMatcher)
        ensures
            r@ == matcher_of(Seq::empty()),
    {
        broadcast use vstd::std_specs::hash::group_hash_axioms;

        let r = ClientMatcher {
            hosts_v4: HashMap::new(),
            hosts_v6: HashMap::new(),
            entries: Vec::new(),
        };
        assert(r@.hosts =~= Map::<IpAddr, int>::empty());
        assert(r@.entries =~= Seq::<ClientEntryView>::empty());
        r
    }
}

fn copy_texts(v: &Vec<String>) -> (r: Vec<String>)
    ensures
        text::texts(r@) == text::texts(v@),
{
    let mut out: Vec<String> = Vec::new();
    let mut i: usize = 0;
    while i < v.len()
        invariant
            i <= v@.len(),
            out@.len() == i,
            forall|k: int| 0 <= k < i ==> (#[trigger] out@[k])@ == v@[k]@,
        decreases v@.len() - i,
    {
        out.push(v[i].as_str().to_owned());
        i = i + 1;
    }
    assert(text::texts(out@) =~= text::texts(v@));
    out
}

impl ClientMatcher {
    /// Every address belongs to a client.
    #[verifier::type_invariant]
    closed spec fn wf(self) -> bool {
        &&& forall|b: u32| #[trigger]
            self.hosts_v4@.dom().contains(b) ==> self.hosts_v4@[b] < self.entries@.len()
        &&& forall|b: u128| #[trigger]
            self.hosts_v6@.dom().contains(b) ==> self.hosts_v6@[b] < self.entries@.len()
    }

    /// Build from configured clients. Invalid id strings are skipped.
    pub fn build(clients: &[ClientConfig]) -> (r: ClientMatcher)
        ensures
            r@ == matcher_of(clients@),
    {
        broadcast use vstd::std_specs::hash::group_hash_axioms;

        let mut v4: HashMap<u32, usize> = HashMap::new();
        let mut v6: HashMap<u128, usize> = HashMap::new();
        let mut entries: Vec<ClientEntry> = Vec::new();
        let mut i: usize = 0;
        proof {
            assert(clients@.take(0) =~= Seq::<ClientConfig>::empty());
            assert(hosts_in(v4@, v6@) =~= Map::<IpAddr, int>::empty());
            assert(entry_views(entries@) =~= Seq::<ClientEntryView>::empty());
        }
        while i < clients.len()
            invariant
                i <= clients@.len(),
                entries@.len() == i,
                hosts_in(v4@, v6@) == matcher_of(clients@.take(i as int)).hosts,
                entry_views(entries@) == matcher_of(clients@.take(i as int)).entries,
                forall|b: u32| #[trigger] v4@.dom().contains(b) ==> v4@[b] < entries@.len(),
                forall|b: u128| #[trigger] v6@.dom().contains(b) ==> v6@[b] < entries@.len(),
            decreases clients@.len() - i,
        {
            broadcast use vstd::std_specs::hash::group_hash_axioms;

            let c: &ClientConfig = &clients[i];
            let ghost hosts = hosts_in(v4@, v6@);
            let ghost ids = text::texts(c.ids@);
            let mut nets: Vec<IpNet> = Vec::new();
            let mut k: usize = 0;
            proof {
                assert(ids.take(0) =~= Seq::<Seq<char>>::empty());
                assert(net_views(nets@) =~= Seq::<NetView>::empty());
            }
            while k < c.ids.len()
                invariant
                    k <= c.ids@.len(),
                    ids == text::texts(c.ids@),
                    hosts_in(v4@, v6@) == with_hosts(hosts, ids.take(k as int), i as int),
                    net_views(nets@) == nets_of(ids.take(k as int)),
                    forall|b: u32| #[trigger] v4@.dom().contains(b) ==> v4@[b] <= i,
                    forall|b: u128| #[trigger] v6@.dom().contains(b) ==> v6@[b] <= i,
                decreases c.ids@.len() - k,
            {
                broadcast use vstd::std_specs::hash::group_hash_axioms;

                let id: &str = c.ids[k].as_str();
                let ghost before = hosts_in(v4@, v6@);
                proof {
                    assert(ids.take(k + 1).drop_last() =~= ids.take(k as int));
                    assert(ids.take(k + 1).last() == id@);
                }
                match IpAddr::parse(id) {
                    Some(IpAddr::V4(a)) => {
                        let ghost ip = IpAddr::V4(a);
                        assert(before.dom().contains(ip) == v4@.dom().contains(a.bits));
                        if !v4.contains_key(&a.bits) {
                            v4.insert(a.bits, i);
                            assert(hosts_in(v4@, v6@) =~= before.insert(ip, i as int));
                        }
                    },
                    Some(IpAddr::V6(a)) => {
                        let ghost ip = IpAddr::V6(a);
                        assert(before.dom().contains(ip) == v6@.dom().contains(a.bits));
                        if !v6.contains_key(&a.bits) {
                            v6.insert(a.bits, i);
                            assert(hosts_in(v4@, v6@) =~= before.insert(ip, i as int));
                        }
                    },
                    None => {
                        if let Some(net) = IpNet::parse(id) {
                            let ghost old_nets = net_views(nets@);
                            nets.push(net);
                            assert(net_views(nets@) =~= old_nets.push(net@));
                        }
                    },
                }
                k = k + 1;
            }
            assert(ids.take(k as int) =~= ids);
            let entry = ClientEntry {
                name: c.name.as_str().to_owned(),
                nets,
                tags: copy_texts(&c.tags),
                filtering_enabled: c.filtering_enabled,
            };
            let ghost old_entries = entry_views(entries@);
            entries.push(entry);
            proof {
                let upto = clients@.take(i + 1);
                assert(upto.drop_last() =~= clients@.take(i as int));
                assert(upto.last() == *c);
                assert(entry_views(entries@) =~= old_entries.push(entry@));
            }
            i = i + 1;
        }
        assert(clients@.take(i as int) =~= clients@);
        ClientMatcher { hosts_v4: v4, hosts_v6: v6, entries }
    }

    fn best_match(&self, ip: IpAddr) -> (r: Option<usize>)
        ensures
            match r {
                Some(i) => client_behind(self@, ip) == Some(i as int) && i < self.entries@.len(),
                None => client_behind(self@, ip) is None,
            },
    {
        broadcast use vstd::std_specs::hash::group_hash_axioms;

        proof {
            use_type_invariant(self);
        }
        let own: Option<&usize> = match ip {
            IpAddr::V4(a) => self.hosts_v4.get(&a.bits),
            IpAddr::V6(a) => self.hosts_v6.get(&a.bits),
        };
        if let Some(i) = own {
            return Some(*i);
        }
        let ghost all = entry_views(self.entries@);
        let mut best: Option<(usize, u8)> = None;
        let mut i: usize = 0;
        assert(all.take(0) =~= Seq::<ClientEntryView>::empty());
        while i < self.entries.len()
            invariant
                i <= self.entries@.len(),
                all == entry_views(self.entries@),
                match best {
                    Some((b, prefix)) => b == best_net(all.take(i as int), ip) && b < i && prefix
                        == longest_prefix(all[b as int].nets, ip),
                    None => best_net(all.take(i as int), ip) < 0,
                },
            decreases self.entries@.len() - i,
        {
            let e: &ClientEntry = &self.entries[i];
            proof {
                let upto = all.take(i + 1);
                assert(upto.drop_last() =~= all.take(i as int));
                assert(upto.last() == e@);
                lemma_best_net(all.take(i as int), ip);
            }
            let ghost nets = net_views(e.nets@);
            let mut longest: Option<u8> = None;
            let mut k: usize = 0;
            assert(nets.take(0) =~= Seq::<NetView>::empty());
            while k < e.nets.len()
                invariant
                    k <= e.nets@.len(),
                    nets == net_views(e.nets@),
                    match longest {
                        Some(p) => p == longest_prefix(nets.take(k as int), ip),
                        None => longest_prefix(nets.take(k as int), ip) == -1,
                    },
                decreases e.nets@.len() - k,
            {
                proof {
                    assert(nets.take(k + 1).drop_last() =~= nets.take(k as int));
                    assert(nets.take(k + 1).last() == e.nets@[k as int]@);
                }
                let prefix: u8 = e.nets[k].prefix_len();
                if e.nets[k].contains(&ip) {
                    let longer: bool = match longest {
                        Some(p) => prefix > p,
                        None => true,
                    };
                    if longer {
                        longest = Some(prefix);
                    }
                }
                k = k + 1;
            }
            assert(nets.take(k as int) =~= nets);
            if let Some(p) = longest {
                let better: bool = match best {
                    Some((b, q)) => p > q,
                    None => true,
                };
                if better {
                    best = Some((i, p));
                }
            }
            i = i + 1;
        }
        assert(all.take(i as int) =~= all);
        match best {
            Some((b, _)) => Some(b),
            None => None,
        }
    }

    /// Identify the client behind `ip`. Unknown IPs resolve to an unnamed client
    /// with filtering enabled.
    pub fn identify(&self, ip: IpAddr) -> (r: ResolvedClient)
        ensures
            r@ == resolved(self@, ip),
    {
        match self.best_match(ip) {
            Some(i) => {
                let e: &ClientEntry = &self.entries[i];
                assert(self@.entries[i as int] == e@);
                ResolvedClient {
                    ip,
                    name: Some(e.name.as_str().to_owned()),
                    tags: copy_texts(&e.tags),
                    filtering_enabled: e.filtering_enabled,
                }
            },
            None => {
                let tags: Vec<String> = Vec::new();
                assert(text::texts(tags@) =~= Seq::<Seq<char>>::empty());
                ResolvedClient { ip, name: None, tags, filtering_enabled: true }
            },
        }
    }

    /// Returns the configured name for an IP.
    pub fn name_for(&self, ip: IpAddr) -> (r: Option<&str>)
        ensures
            match name_behind(self@, ip) {
                Some(name) => r matches Some(n) && n@ == name,
                None => r is None,
            },
    {
        match self.best_match(ip) {
            Some(i) => {
                assert(self@.entries[i as int] == self.entries@[i as int]@);
                Some(self.entries[i].name.as_str())
            },
            None => None,
        }
    }

    /// Returns the configured name for a stored IP string.
    pub fn name_for_str(&self, ip: &str) -> (r: Option<&str>)
        ensures
            match net::ip_of_text(ip@) {
                Some(addr) => match name_behind(self@, addr) {
                    Some(name) => r matches Some(n) && n@ == name,
                    None => r is None,
                },
                None => r is None,
            },
    {
        match IpAddr::parse(ip) {
            Some(addr) => self.name_for(addr),
            None => None,
        }
    }
}

} // verus!
