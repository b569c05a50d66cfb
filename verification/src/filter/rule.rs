//! Filtering rule model.
//!
//! A parsed rule captures the matching pattern, the action (block, allow or
//! rewrite), and the DNS-relevant AdGuard modifiers.

use vstd::prelude::*;

use crate::filter::regexes::CompiledRegex;
use crate::net::{IpAddr, IpNet, Ipv4Addr, Ipv6Addr, NetView};
use crate::text;
use crate::text::same_text;

verus! {

/// What a rule does when it matches.
#[derive(Debug, Clone, Copy, PartialEq, Eq, Structural)]
pub enum Action {
    /// Block the query (synthesize a blocked response).
    Block,
    /// Allow the query (an `@@` exception).
    Allow,
    /// Rewrite the response (`$dnsrewrite=` or a hosts-file address).
    Rewrite,
}

/// How a rule matches a query name.
#[derive(Debug)]
pub enum Pattern {
    /// Matches the domain itself and any subdomain (`||example.org^` or a bare
    /// `example.org` line in a blocklist).
    Subdomain(String),
    /// Matches only the exact domain (hosts-file entries, fully anchored rules).
    Exact(String),
    /// A wildcard pattern compiled to a regex (`*.example.org`, `ads.*`).
    Wildcard(CompiledRegex),
    /// A user-supplied regex rule (`/regexp/`).
    Regex(CompiledRegex),
}

/// What a [`Pattern`] says: a domain, or the source of a regex.
pub enum PatternView {
    Subdomain(Seq<char>),
    Exact(Seq<char>),
    Wildcard(Seq<char>),
    Regex(Seq<char>),
}

impl View for Pattern {
    type V = PatternView;

    open spec fn view(&self) -> PatternView {
        match self {
            Pattern::Subdomain(d) => PatternView::Subdomain(d@),
            Pattern::Exact(d) => PatternView::Exact(d@),
            Pattern::Wildcard(re) => PatternView::Wildcard(re@),
            Pattern::Regex(re) => PatternView::Regex(re@),
        }
    }
}

impl Pattern {
    /// The domain key this pattern indexes under, and whether it covers
    /// subdomains, if it is a plain exact or subdomain pattern. Wildcard and
    /// regex patterns have no key.
    pub fn index_key(&self) -> (r: Option<(&str, bool)>)
        ensures
            match self@ {
                PatternView::Subdomain(d) => r matches Some((key, sub)) && key@ == d && sub,
                PatternView::Exact(d) => r matches Some((key, sub)) && key@ == d && !sub,
                _ => r is None,
            },
    {
        match self {
            Pattern::Subdomain(d) => Some((d.as_str(), true)),
            Pattern::Exact(d) => Some((d.as_str(), false)),
            _ => None,
        }
    }
}

/// Whether an included list and an excluded list of texts let `x` pass: it is
/// not excluded, and it is included where anything is.
pub open spec fn lists_admit(included: Seq<Seq<char>>, excluded: Seq<Seq<char>>, x: Seq<char>) -> bool {
    !excluded.contains(x) && (included.len() > 0 ==> included.contains(x))
}

/// Whether one of the strings holds the text `x`.
fn any_text(list: &Vec<String>, x: &str) -> (r: bool)
    ensures
        r == text::texts(list@).contains(x@),
{
    let mut i: usize = 0;
    while i < list.len()
        invariant
            i <= list@.len(),
            forall|j: int| 0 <= j < i ==> #[trigger] text::texts(list@)[j] != x@,
        decreases list@.len() - i,
    {
        if same_text(list[i].as_str(), x) {
            assert(text::texts(list@)[i as int] == x@);
            return true;
        }
        i = i + 1;
    }
    false
}

/// A DNS record type filter from `$dnstype=A|AAAA` (with optional `~` negation).
#[derive(Debug, Clone)]
pub struct DnsTypeFilter {
    /// Allowed record types (uppercase, e.g. `A`, `AAAA`, `HTTPS`). Empty means
    /// "any".
    pub included: Vec<String>,
    /// Negated record types: the rule applies to everything except these.
    pub excluded: Vec<String>,
}

/// The texts of an included list and an excluded list.
pub struct ListsView {
    pub included: Seq<Seq<char>>,
    pub excluded: Seq<Seq<char>>,
}

impl View for DnsTypeFilter {
    type V = ListsView;

    open spec fn view(&self) -> ListsView {
        ListsView { included: text::texts(self.included@), excluded: text::texts(self.excluded@) }
    }
}

impl Default for DnsTypeFilter {
    fn default() -> (r: Self)
        ensures
            r.included@.len() == 0,
            r.excluded@.len() == 0,
    {
        DnsTypeFilter { included: Vec::new(), excluded: Vec::new() }
    }
}

impl DnsTypeFilter {
    /// Does this filter apply to the given (uppercase) record type?
    pub fn matches(&self, rtype: &str) -> (r: bool)
        ensures
            r == lists_admit(self@.included, self@.excluded, rtype@),
    {
        if any_text(&self.excluded, rtype) {
            return false;
        }
        if self.included.len() > 0 {
            return any_text(&self.included, rtype);
        }
        true
    }
}

/// One entry of a `$client=` filter.
#[derive(Debug, Clone)]
pub enum ClientMatch {
    Ip(IpAddr),
    Net(IpNet),
    Name(String),
}

/// What a [`ClientMatch`] says.
pub enum ClientMatchView {
    Ip(IpAddr),
    Net(NetView),
    Name(Seq<char>),
}

impl View for ClientMatch {
    type V = ClientMatchView;

    open spec fn view(&self) -> ClientMatchView {
        match self {
            ClientMatch::Ip(ip) => ClientMatchView::Ip(*ip),
            ClientMatch::Net(net) => ClientMatchView::Net(net@),
            ClientMatch::Name(n) => ClientMatchView::Name(n@),
        }
    }
}

/// A `$client=` filter (addresses, networks or client names), with `~` negation.
#[derive(Debug, Clone)]
pub struct ClientFilter {
    pub included: Vec<ClientMatch>,
    pub excluded: Vec<ClientMatch>,
}

/// The entries of a [`ClientFilter`].
pub struct ClientFilterView {
    pub included: Seq<ClientMatchView>,
    pub excluded: Seq<ClientMatchView>,
}

/// What each entry of a list says.
pub open spec fn client_matches(v: Seq<ClientMatch>) -> Seq<ClientMatchView> {
    v.map_values(|m: ClientMatch| m@)
}

impl View for ClientFilter {
    type V = ClientFilterView;

    open spec fn view(&self) -> ClientFilterView {
        ClientFilterView {
            included: client_matches(self.included@),
            excluded: client_matches(self.excluded@),
        }
    }
}

/// The client issuing a query, for `$client` and `$ctag`.
#[derive(Debug, Clone)]
pub struct ClientInfo<'a> {
    pub ip: Option<IpAddr>,
    pub name: Option<&'a str>,
    pub tags: &'a [String],
}

/// What a [`ClientInfo`] says.
pub struct ClientView {
    pub ip: Option<IpAddr>,
    pub name: Option<Seq<char>>,
    pub tags: Seq<Seq<char>>,
}

impl<'a> View for ClientInfo<'a> {
    type V = ClientView;

    open spec fn view(&self) -> ClientView {
        ClientView {
            ip: self.ip,
            name: match self.name {
                Some(n) => Some(n@),
                None => None,
            },
            tags: text::texts(self.tags@),
        }
    }
}

impl<'a> Default for ClientInfo<'a> {
    fn default() -> (r: Self)
        ensures
            r@ == (ClientView { ip: None, name: None, tags: Seq::empty() }),
    {
        let r: ClientInfo<'a> = ClientInfo { ip: None, name: None, tags: &[] };
        assert(text::texts(r.tags@) =~= Seq::empty());
        r
    }
}

impl ClientMatchView {
    /// Whether the entry is about this client.
    pub open spec fn names(self, client: ClientView) -> bool {
        match self {
            ClientMatchView::Ip(ip) => client.ip == Some(ip),
            ClientMatchView::Net(net) => client.ip matches Some(ip) && net.holds(ip),
            ClientMatchView::Name(n) => client.name == Some(n),
        }
    }
}

/// Whether one of the entries is about this client.
pub open spec fn any_names(list: Seq<ClientMatchView>, client: ClientView) -> bool {
    exists|i: int| 0 <= i < list.len() && (#[trigger] list[i]).names(client)
}

impl ClientFilterView {
    /// Whether the filter lets a client pass: no excluded entry names it, and
    /// an included one does where there are any.
    pub open spec fn admits(self, client: ClientView) -> bool {
        &&& !any_names(self.excluded, client)
        &&& self.included.len() > 0 ==> any_names(self.included, client)
    }
}

impl Default for ClientFilter {
    fn default() -> (r: Self)
        ensures
            r.included@.len() == 0,
            r.excluded@.len() == 0,
    {
        ClientFilter { included: Vec::new(), excluded: Vec::new() }
    }
}

impl ClientFilter {
    fn entry_matches(m: &ClientMatch, client: &ClientInfo<'_>) -> (r: bool)
        ensures
            r == m@.names(client@),
    {
        match m {
            ClientMatch::Ip(ip) => match client.ip {
                Some(x) => x == *ip,
                None => false,
            },
            ClientMatch::Net(net) => match client.ip {
                Some(x) => net.contains(&x),
                None => false,
            },
            ClientMatch::Name(n) => match client.name {
                Some(x) => same_text(x, n.as_str()),
                None => false,
            },
        }
    }

    fn any_matches(list: &Vec<ClientMatch>, client: &ClientInfo<'_>) -> (r: bool)
        ensures
            r == any_names(client_matches(list@), client@),
    {
        let mut i: usize = 0;
        while i < list.len()
            invariant
                i <= list@.len(),
                forall|j: int|
                    0 <= j < i ==> !(#[trigger] client_matches(list@)[j]).names(client@),
            decreases list@.len() - i,
        {
            if ClientFilter::entry_matches(&list[i], client) {
                assert(client_matches(list@)[i as int].names(client@));
                return true;
            }
            i = i + 1;
        }
        false
    }

    /// Does this filter apply to the given client?
    pub fn matches(&self, client: &ClientInfo<'_>) -> (r: bool)
        ensures
            r == self@.admits(client@),
    {
        if ClientFilter::any_matches(&self.excluded, client) {
            return false;
        }
        if self.included.len() > 0 {
            return ClientFilter::any_matches(&self.included, client);
        }
        true
    }
}

/// A `$ctag=` filter on client tags, with `~` negation.
#[derive(Debug, Clone)]
pub struct CtagFilter {
    pub included: Vec<String>,
    pub excluded: Vec<String>,
}

impl View for CtagFilter {
    type V = ListsView;

    open spec fn view(&self) -> ListsView {
        ListsView { included: text::texts(self.included@), excluded: text::texts(self.excluded@) }
    }
}

impl Default for CtagFilter {
    fn default() -> (r: Self)
        ensures
            r.included@.len() == 0,
            r.excluded@.len() == 0,
    {
        CtagFilter { included: Vec::new(), excluded: Vec::new() }
    }
}

/// Whether two lists of texts share one.
pub open spec fn share(a: Seq<Seq<char>>, b: Seq<Seq<char>>) -> bool {
    exists|i: int| 0 <= i < a.len() && b.contains(#[trigger] a[i])
}

/// Whether two lists of strings share a text.
fn any_shared(list: &Vec<String>, tags: &[String]) -> (r: bool)
    ensures
        r == share(text::texts(list@), text::texts(tags@)),
{
    let mut i: usize = 0;
    while i < list.len()
        invariant
            i <= list@.len(),
            forall|k: int|
                0 <= k < i ==> !text::texts(tags@).contains(#[trigger] text::texts(list@)[k]),
        decreases list@.len() - i,
    {
        let mut j: usize = 0;
        while j < tags.len()
            invariant
                i < list@.len(),
                j <= tags@.len(),
                forall|k: int| 0 <= k < j ==> #[trigger] text::texts(tags@)[k] != list@[i as int]@,
            decreases tags@.len() - j,
        {
            if same_text(list[i].as_str(), tags[j].as_str()) {
                assert(text::texts(tags@)[j as int] == text::texts(list@)[i as int]);
                return true;
            }
            j = j + 1;
        }
        i = i + 1;
    }
    false
}

impl CtagFilter {
    /// Does this filter apply to a client with the given tags? None of its
    /// tags is excluded, and one is included where any is.
    pub fn matches(&self, tags: &[String]) -> (r: bool)
        ensures
            r == (!share(self@.excluded, text::texts(tags@)) && (self@.included.len() > 0 ==> share(
                self@.included,
                text::texts(tags@),
            ))),
    {
        if any_shared(&self.excluded, tags) {
            return false;
        }
        if self.included.len() > 0 {
            return any_shared(&self.included, tags);
        }
        true
    }
}

/// The response a `$dnsrewrite` (or a hosts-file address) produces.
#[derive(Debug, Clone, PartialEq, Eq)]
pub enum RewriteData {
    /// Force an IPv4 answer.
    A(Ipv4Addr),
    /// Force an IPv6 answer.
    Aaaa(Ipv6Addr),
    /// Force a CNAME answer (the engine resolves the target).
    Cname(String),
    /// Force a TXT answer.
    Txt(String),
    /// Force an MX answer.
    Mx { preference: u16, exchange: String },
    /// Force a PTR answer.
    Ptr(String),
    /// Force a specific response code (NXDOMAIN, REFUSED, NOERROR, SERVFAIL).
    Rcode(RewriteRcode),
}

/// Response codes expressible via `$dnsrewrite=`.
#[derive(Debug, Clone, Copy, PartialEq, Eq, Structural)]
pub enum RewriteRcode {
    NoError,
    NxDomain,
    Refused,
    ServFail,
}

/// What a [`RewriteData`] says.
pub enum RewriteView {
    A(Ipv4Addr),
    Aaaa(Ipv6Addr),
    Cname(Seq<char>),
    Txt(Seq<char>),
    Mx(int, Seq<char>),
    Ptr(Seq<char>),
    Rcode(RewriteRcode),
}

impl View for RewriteData {
    type V = RewriteView;

    open spec fn view(&self) -> RewriteView {
        match self {
            RewriteData::A(ip) => RewriteView::A(*ip),
            RewriteData::Aaaa(ip) => RewriteView::Aaaa(*ip),
            RewriteData::Cname(t) => RewriteView::Cname(t@),
            RewriteData::Txt(t) => RewriteView::Txt(t@),
            RewriteData::Mx { preference, exchange } => RewriteView::Mx(
                *preference as int,
                exchange@,
            ),
            RewriteData::Ptr(t) => RewriteView::Ptr(t@),
            RewriteData::Rcode(c) => RewriteView::Rcode(*c),
        }
    }
}

impl RewriteData {
    /// Another value that says the same.
    pub fn copied(&self) -> (r: RewriteData)
        ensures
            r@ == self@,
    {
        match self {
            RewriteData::A(ip) => RewriteData::A(*ip),
            RewriteData::Aaaa(ip) => RewriteData::Aaaa(*ip),
            RewriteData::Cname(t) => RewriteData::Cname(t.clone()),
            RewriteData::Txt(t) => RewriteData::Txt(t.clone()),
            RewriteData::Mx { preference, exchange } => RewriteData::Mx {
                preference: *preference,
                exchange: exchange.clone(),
            },
            RewriteData::Ptr(t) => RewriteData::Ptr(t.clone()),
            RewriteData::Rcode(c) => RewriteData::Rcode(*c),
        }
    }
}

/// The modifiers of a rule.
#[derive(Debug, Clone)]
pub struct RuleMods {
    pub important: bool,
    pub dnstype: Option<DnsTypeFilter>,
    pub client: Option<ClientFilter>,
    pub ctag: Option<CtagFilter>,
    /// `$denyallow=` domains excluded from this (blocking) rule.
    pub denyallow: Vec<String>,
    pub rewrite: Option<RewriteData>,
}

/// What a [`RuleMods`] says.
pub struct ModsView {
    pub important: bool,
    pub dnstype: Option<ListsView>,
    pub client: Option<ClientFilterView>,
    pub ctag: Option<ListsView>,
    pub denyallow: Seq<Seq<char>>,
    pub rewrite: Option<RewriteView>,
}

impl View for RuleMods {
    type V = ModsView;

    open spec fn view(&self) -> ModsView {
        ModsView {
            important: self.important,
            dnstype: match self.dnstype {
                Some(f) => Some(f@),
                None => None,
            },
            client: match self.client {
                Some(f) => Some(f@),
                None => None,
            },
            ctag: match self.ctag {
                Some(f) => Some(f@),
                None => None,
            },
            denyallow: text::texts(self.denyallow@),
            rewrite: match self.rewrite {
                Some(d) => Some(d@),
                None => None,
            },
        }
    }
}

/// No modifiers at all.
pub open spec fn no_mods() -> ModsView {
    ModsView {
        important: false,
        dnstype: None,
        client: None,
        ctag: None,
        denyallow: Seq::empty(),
        rewrite: None,
    }
}

impl Default for RuleMods {
    fn default() -> (r: Self)
        ensures
            r@ == no_mods(),
    {
        let r: RuleMods = RuleMods {
            important: false,
            dnstype: None,
            client: None,
            ctag: None,
            denyallow: Vec::new(),
            rewrite: None,
        };
        assert(text::texts(r.denyallow@) =~= Seq::empty());
        r
    }
}

impl RuleMods {
    /// Whether there is no modifier.
    pub fn is_empty(&self) -> (r: bool)
        ensures
            r == (self@ == no_mods()),
    {
        proof {
            assert(self.denyallow@.len() == 0 ==> text::texts(self.denyallow@) =~= Seq::empty());
            assert(text::texts(self.denyallow@).len() == self.denyallow@.len());
        }
        !self.important && self.dnstype.is_none() && self.client.is_none() && self.ctag.is_none()
            && self.denyallow.len() == 0 && self.rewrite.is_none()
    }
}

/// A parsed filtering rule.
#[derive(Debug)]
pub struct Rule {
    /// The original source line, kept for display and logging.
    pub raw: String,
    pub action: Action,
    pub pattern: Pattern,
    /// Modifiers, where the rule has any.
    pub mods: Option<Box<RuleMods>>,
    /// Which loaded list this rule came from.
    pub list_id: u32,
}

/// What a [`Rule`] says.
pub struct RuleView {
    pub raw: Seq<char>,
    pub action: Action,
    pub pattern: PatternView,
    pub mods: Option<ModsView>,
    pub list_id: u32,
}

impl View for Rule {
    type V = RuleView;

    open spec fn view(&self) -> RuleView {
        RuleView {
            raw: self.raw@,
            action: self.action,
            pattern: self.pattern@,
            mods: match self.mods {
                Some(m) => Some(m@),
                None => None,
            },
            list_id: self.list_id,
        }
    }
}

impl RuleView {
    pub open spec fn important(self) -> bool {
        self.mods matches Some(m) && m.important
    }

    /// The rank of a rule among those that match: `$important` counts most;
    /// among equals an exception beats a block or a rewrite.
    pub open spec fn priority(self) -> int {
        (if self.action == Action::Allow { 2int } else { 1int }) + (if self.important() {
            100int
        } else {
            0int
        })
    }
}

impl Rule {
    /// Priority score used to choose a winner among matching rules. Higher
    /// wins: `$important` adds a large bonus; among equal importance, allow
    /// beats block, and rewrites sit alongside blocks.
    pub fn priority(&self) -> (r: u32)
        ensures
            r == self@.priority(),
    {
        let mut score: u32 = match self.action {
            Action::Allow => 2,
            Action::Block => 1,
            Action::Rewrite => 1,
        };
        let important: bool = match &self.mods {
            Some(m) => m.important,
            None => false,
        };
        if important {
            score = score + 100;
        }
        score
    }
}

/// A rule on its way into an engine.
#[derive(Debug)]
pub struct BuildRule {
    pub rule: Rule,
    /// `$badfilter`: the rule disables a matching rule rather than acting.
    pub badfilter: bool,
    /// Canonical signature (pattern and sorted modifiers without `badfilter`),
    /// which pairs `$badfilter` rules with the rules they disable.
    pub signature: String,
    /// Hashes of the tokens under which a wildcard rule can be indexed.
    pub index_tokens: Vec<u32>,
}

/// What a [`BuildRule`] says.
pub struct BuildView {
    pub rule: RuleView,
    pub badfilter: bool,
    pub signature: Seq<char>,
    pub index_tokens: Seq<u32>,
}

impl View for BuildRule {
    type V = BuildView;

    open spec fn view(&self) -> BuildView {
        BuildView {
            rule: self.rule@,
            badfilter: self.badfilter,
            signature: self.signature@,
            index_tokens: self.index_tokens@,
        }
    }
}

/// What each rule of a list says.
pub open spec fn build_views(v: Seq<BuildRule>) -> Seq<BuildView> {
    v.map_values(|b: BuildRule| b@)
}

} // verus!
