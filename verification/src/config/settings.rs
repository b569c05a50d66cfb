//! The configuration and its rules.
//!
//! Durations are plain seconds (`*_secs`), so that a file and an API stay simple
//! and a user interface can edit them as numbers.

use vstd::prelude::*;

use crate::net::{IpAddr, Ipv4Addr, Ipv6Addr, SocketAddr};
use crate::text;
use crate::text::{
    append_decimal, chars_of, split_chars, string_of, trim_chars, trim_end_char, trim_start_char,
};

verus! {

/// Current on-disk schema version.
pub const SCHEMA_VERSION: u32 = 1;

pub const DEFAULT_CACHE_SIZE: usize = 10_000;

pub const DEFAULT_MAX_TTL_SECS: u32 = 86_400;

pub const DEFAULT_TIMEOUT_SECS: u64 = 5;

pub const DEFAULT_BLOCKED_TTL_SECS: u32 = 10;

pub const DEFAULT_STATS_DAYS: u32 = 30;

pub const DEFAULT_LOG_RETENTION_DAYS: u32 = 7;

/// What is wrong with a configuration.
#[derive(Debug)]
pub enum ConfigError {
    Io(String),
    Yaml(String),
    Invalid(String),
}

/// What a [`ConfigError`] says.
pub enum ConfigErrorView {
    Io(Seq<char>),
    Yaml(Seq<char>),
    Invalid(Seq<char>),
}

impl View for ConfigError {
    type V = ConfigErrorView;

    open spec fn view(&self) -> ConfigErrorView {
        match self {
            ConfigError::Io(e) => ConfigErrorView::Io(e@),
            ConfigError::Yaml(e) => ConfigErrorView::Yaml(e@),
            ConfigError::Invalid(e) => ConfigErrorView::Invalid(e@),
        }
    }
}

impl ConfigError {
    /// The error in words.
    pub fn message(&self) -> (r: String)
        ensures
            r@ == match self@ {
                ConfigErrorView::Io(e) => "i/o error: "@ + e,
                ConfigErrorView::Yaml(e) => "yaml error: "@ + e,
                ConfigErrorView::Invalid(e) => "invalid config: "@ + e,
            },
    {
        match self {
            ConfigError::Io(e) => "i/o error: ".to_owned().concat(e.as_str()),
            ConfigError::Yaml(e) => "yaml error: ".to_owned().concat(e.as_str()),
            ConfigError::Invalid(e) => "invalid config: ".to_owned().concat(e.as_str()),
        }
    }
}

/// How blocked queries are answered.
#[derive(Debug, Clone, Copy, PartialEq, Eq, Structural)]
pub enum BlockingMode {
    /// Respond with NXDOMAIN.
    NxDomain,
    /// Respond with 0.0.0.0 / :: (null IP).
    NullIp,
    /// Respond with a custom IP (see `custom_block_ipv4`/`ipv6`).
    CustomIp,
    /// Respond with REFUSED.
    Refused,
    /// Respond with NODATA (empty NOERROR).
    NoData,
}

impl Default for BlockingMode {
    fn default() -> (r: BlockingMode)
        ensures
            r == BlockingMode::NxDomain,
    {
        BlockingMode::NxDomain
    }
}

/// Where Bulwark listens.
#[derive(Debug, Clone)]
pub struct ServerConfig {
    /// Addresses to serve plain DNS on (UDP + TCP).
    pub dns_bind: Vec<SocketAddr>,
    /// Address to serve the web UI + API on.
    pub http_bind: SocketAddr,
    /// Per-client query rate limit (queries/sec); 0 disables.
    pub ratelimit: u32,
}

/// A port on all IPv4 addresses.
pub open spec fn any_address(port: u16) -> SocketAddr {
    SocketAddr { ip: IpAddr::V4(Ipv4Addr { bits: 0 }), port }
}

impl Default for ServerConfig {
    fn default() -> (r: ServerConfig)
        ensures
            r.dns_bind@ == seq![any_address(53)],
            r.http_bind == any_address(3000),
            r.ratelimit == 0,
    {
        let any: IpAddr = IpAddr::V4(Ipv4Addr { bits: 0 });
        let mut dns_bind: Vec<SocketAddr> = Vec::new();
        dns_bind.push(SocketAddr { ip: any, port: 53 });
        assert(dns_bind@ =~= seq![any_address(53)]);
        ServerConfig { dns_bind, http_bind: SocketAddr { ip: any, port: 3000 }, ratelimit: 0 }
    }
}

/// Which upstreams are asked.
#[derive(Debug, Clone)]
pub struct UpstreamsConfig {
    /// Freeform upstream list: one spec per line. Lines starting with `#` are
    /// comments and blank lines are ignored; both are kept, so that entries can
    /// be annotated, and toggled by commenting them out.
    pub servers: String,
    /// Plain-DNS bootstrap servers for resolving DoT/DoH/DoQ hostnames.
    pub bootstrap: Vec<SocketAddr>,
    /// Per-attempt query timeout (seconds).
    pub timeout_secs: u64,
}

/// The upstreams of a new installation.
pub open spec fn usual_upstreams() -> Seq<char> {
    "# Quad9 (DoH)\nhttps://dns.quad9.net/dns-query\n# Cloudflare\n1.1.1.1\n"@
}

/// The upstreams of a new installation.
pub fn default_upstreams() -> (r: String)
    ensures
        r@ == usual_upstreams(),
{
    "# Quad9 (DoH)\nhttps://dns.quad9.net/dns-query\n# Cloudflare\n1.1.1.1\n".to_owned()
}

/// The bootstrap servers of a new installation.
pub open spec fn usual_bootstrap() -> Seq<SocketAddr> {
    seq![
        SocketAddr { ip: IpAddr::V4(Ipv4Addr { bits: 0x0101_0101 }), port: 53 },
        SocketAddr { ip: IpAddr::V4(Ipv4Addr { bits: 0x0909_0909 }), port: 53 },
    ]
}

impl Default for UpstreamsConfig {
    fn default() -> (r: UpstreamsConfig)
        ensures
            r.servers@ == usual_upstreams(),
            r.bootstrap@ == usual_bootstrap(),
            r.timeout_secs == DEFAULT_TIMEOUT_SECS,
    {
        let mut bootstrap: Vec<SocketAddr> = Vec::new();
        bootstrap.push(SocketAddr { ip: IpAddr::V4(Ipv4Addr::new(1, 1, 1, 1)), port: 53 });
        bootstrap.push(SocketAddr { ip: IpAddr::V4(Ipv4Addr::new(9, 9, 9, 9)), port: 53 });
        assert(bootstrap@ =~= usual_bootstrap());
        UpstreamsConfig {
            servers: default_upstreams(),
            bootstrap,
            timeout_secs: DEFAULT_TIMEOUT_SECS,
        }
    }
}

/// Whether a trimmed line is a spec: neither blank nor a comment.
pub open spec fn is_spec_line(line: Seq<char>) -> bool {
    line.len() > 0 && line[0] != '#'
}

/// The specs among lines: trimmed, without blank lines and comments.
pub open spec fn specs_in(lines: Seq<Seq<char>>) -> Seq<Seq<char>>
    decreases lines.len(),
{
    if lines.len() == 0 {
        Seq::empty()
    } else {
        let before = specs_in(lines.drop_last());
        let line = text::trim(lines.last());
        if is_spec_line(line) {
            before.push(line)
        } else {
            before
        }
    }
}

/// Lines as a tidied text has them, one after the other, each with its end: the
/// lines trimmed, and of blank lines in a row the first.
pub open spec fn tidied(lines: Seq<Seq<char>>) -> Seq<char>
    decreases lines.len(),
{
    if lines.len() == 0 {
        Seq::empty()
    } else {
        let before = tidied(lines.drop_last());
        let line = text::trim(lines.last());
        let repeated = line.len() == 0 && lines.len() > 1 && text::trim(
            lines[lines.len() - 2],
        ).len() == 0;
        if repeated {
            before
        } else {
            before + line.push('\n')
        }
    }
}

/// A tidied text: without blank lines at its start and end, and with one line
/// end at its end, or empty.
pub open spec fn normalized(servers: Seq<char>) -> Seq<char> {
    let body = text::strip_start(text::strip_end(tidied(text::split(servers, '\n')), '\n'), '\n');
    if body.len() == 0 {
        body
    } else {
        body.push('\n')
    }
}

impl UpstreamsConfig {
    /// The active upstream specs: non-blank lines that aren't comments (`#`),
    /// trimmed.
    pub fn active_specs(&self) -> (r: Vec<String>)
        ensures
            text::texts(r@) == specs_in(text::split(self.servers@, '\n')),
    {
        let chars: Vec<char> = chars_of(self.servers.as_str());
        let lines: Vec<&[char]> = split_chars(chars.as_slice(), '\n');
        let ghost all = text::slices(lines@);
        let mut out: Vec<String> = Vec::new();
        let mut i: usize = 0;
        proof {
            assert(all.take(0) =~= Seq::<Seq<char>>::empty());
            assert(text::texts(out@) =~= Seq::<Seq<char>>::empty());
        }
        while i < lines.len()
            invariant
                i <= lines@.len(),
                all == text::slices(lines@),
                text::texts(out@) == specs_in(all.take(i as int)),
            decreases lines@.len() - i,
        {
            proof {
                assert(all.take(i + 1).drop_last() =~= all.take(i as int));
                assert(all.take(i + 1).last() == lines@[i as int]@);
            }
            let line: &[char] = trim_chars(lines[i]);
            if line.len() > 0 && line[0] != '#' {
                let ghost before = text::texts(out@);
                out.push(string_of(line));
                assert(text::texts(out@) =~= before.push(line@));
            }
            i = i + 1;
        }
        assert(all.take(i as int) =~= all);
        out
    }

    /// Tidy the freeform list in place: trim each line, drop leading and
    /// trailing blank lines, and collapse runs of blank lines so at most one
    /// survives. The result ends in a single line end, or is empty.
    pub fn normalize(&mut self)
        ensures
            final(self).servers@ == normalized(old(self).servers@),
            final(self).bootstrap == old(self).bootstrap,
            final(self).timeout_secs == old(self).timeout_secs,
    {
        let chars: Vec<char> = chars_of(self.servers.as_str());
        let lines: Vec<&[char]> = split_chars(chars.as_slice(), '\n');
        let ghost all = text::slices(lines@);
        let mut out: Vec<char> = Vec::new();
        let mut blank_before: bool = false;
        let mut i: usize = 0;
        assert(all.take(0) =~= Seq::<Seq<char>>::empty());
        while i < lines.len()
            invariant
                i <= lines@.len(),
                all == text::slices(lines@),
                out@ == tidied(all.take(i as int)),
                blank_before == (i > 0 && text::trim(all[i - 1]).len() == 0),
            decreases lines@.len() - i,
        {
            proof {
                let upto = all.take(i + 1);
                assert(upto.drop_last() =~= all.take(i as int));
                assert(upto.last() == lines@[i as int]@);
                assert(i > 0 ==> upto[upto.len() - 2] == all[i - 1]);
            }
            let line: &[char] = trim_chars(lines[i]);
            let blank: bool = line.len() == 0;
            if !(blank && blank_before) {
                let ghost before = out@;
                out.extend_from_slice(line);
                out.push('\n');
                assert(out@ =~= before + line@.push('\n'));
            }
            blank_before = blank;
            i = i + 1;
        }
        assert(all.take(i as int) =~= all);
        let body: &[char] = trim_start_char(trim_end_char(out.as_slice(), '\n'), '\n');
        let mut tidy: String = string_of(body);
        if body.len() > 0 {
            tidy.push('\n');
        }
        self.servers = tidy;
    }
}

/// How responses are cached.
#[derive(Debug, Clone, Copy, PartialEq, Eq, Structural)]
pub struct CacheConfig {
    pub enabled: bool,
    /// Maximum number of cached entries.
    pub size: usize,
    /// Clamp lower bound for TTLs (seconds).
    pub min_ttl_secs: u32,
    /// Clamp upper bound for TTLs (seconds); 0 means "no upper clamp".
    pub max_ttl_secs: u32,
    /// Optimistic caching (serve-stale): for how many seconds past its expiry an
    /// entry may be served while a fresh resolve runs in the background. `0`
    /// disables serve-stale.
    pub optimistic_max_age_secs: u32,
}

impl Default for CacheConfig {
    fn default() -> (r: CacheConfig)
        ensures
            r == (CacheConfig {
                enabled: true,
                size: DEFAULT_CACHE_SIZE,
                min_ttl_secs: 0,
                max_ttl_secs: DEFAULT_MAX_TTL_SECS,
                optimistic_max_age_secs: 0,
            }),
    {
        CacheConfig {
            enabled: true,
            size: DEFAULT_CACHE_SIZE,
            min_ttl_secs: 0,
            max_ttl_secs: DEFAULT_MAX_TTL_SECS,
            optimistic_max_age_secs: 0,
        }
    }
}

/// A filter list.
#[derive(Debug, Clone)]
pub struct FilterListConfig {
    pub id: u32,
    pub name: String,
    /// Remote URL to fetch; if absent the list is managed purely in the UI.
    pub url: Option<String>,
    pub enabled: bool,
    /// Cached metadata (updated by the server; persisted for the UI).
    pub rule_count: usize,
    pub last_updated: Option<i64>,
}

/// How queries are filtered.
#[derive(Debug, Clone)]
pub struct FilteringConfig {
    pub enabled: bool,
    pub blocking_mode: BlockingMode,
    pub custom_block_ipv4: Ipv4Addr,
    pub custom_block_ipv6: Ipv6Addr,
    /// TTL (seconds) for synthesized blocked responses.
    pub blocked_ttl_secs: u32,
    pub lists: Vec<FilterListConfig>,
    /// User-authored custom rules (one rule per line).
    pub custom_rules: String,
}

impl Default for FilteringConfig {
    fn default() -> (r: FilteringConfig)
        ensures
            r.enabled,
            r.blocking_mode == BlockingMode::NxDomain,
            r.custom_block_ipv4.bits == 0,
            r.custom_block_ipv6.bits == 0,
            r.blocked_ttl_secs == DEFAULT_BLOCKED_TTL_SECS,
            r.lists@.len() == 0,
            r.custom_rules@ == Seq::<char>::empty(),
    {
        FilteringConfig {
            enabled: true,
            blocking_mode: BlockingMode::default(),
            custom_block_ipv4: Ipv4Addr { bits: 0 },
            custom_block_ipv6: Ipv6Addr { bits: 0 },
            blocked_ttl_secs: DEFAULT_BLOCKED_TTL_SECS,
            lists: Vec::new(),
            custom_rules: String::new(),
        }
    }
}

/// A client that is known by its addresses.
#[derive(Debug, Clone)]
pub struct ClientConfig {
    /// Stable, server-assigned identifier. Used as the resource key in the API.
    pub id: String,
    pub name: String,
    /// Identifiers: IP addresses or CIDR ranges.
    pub ids: Vec<String>,
    pub tags: Vec<String>,
    /// Whether filtering applies to this client.
    pub filtering_enabled: bool,
}

/// What is logged of queries.
#[derive(Debug, Clone, Copy, PartialEq, Eq, Structural)]
pub struct QueryLogConfig {
    pub enabled: bool,
    /// Persist the query log to disk so it survives restarts.
    pub persist: bool,
    /// How many days of query log to retain; 0 keeps it indefinitely.
    pub retention_days: u32,
}

impl Default for QueryLogConfig {
    fn default() -> (r: QueryLogConfig)
        ensures
            r == (QueryLogConfig {
                enabled: true,
                persist: true,
                retention_days: DEFAULT_LOG_RETENTION_DAYS,
            }),
    {
        QueryLogConfig { enabled: true, persist: true, retention_days: DEFAULT_LOG_RETENTION_DAYS }
    }
}

/// Privacy-related toggles that span more than one subsystem.
#[derive(Debug, Clone, Copy, PartialEq, Eq, Structural)]
pub struct PrivacyConfig {
    /// Client IPs are dropped from the query log and from statistics. The IP is
    /// still used to identify the client for filtering.
    pub anonymize_client_ips: bool,
}

impl Default for PrivacyConfig {
    fn default() -> (r: PrivacyConfig)
        ensures
            !r.anonymize_client_ips,
    {
        PrivacyConfig { anonymize_client_ips: false }
    }
}

/// What is counted.
#[derive(Debug, Clone, Copy, PartialEq, Eq, Structural)]
pub struct StatsConfig {
    pub enabled: bool,
    /// Persist statistics to disk so they survive restarts.
    pub persist: bool,
    /// How many days of time-bucketed statistics history to keep.
    pub retention_days: u32,
}

impl Default for StatsConfig {
    fn default() -> (r: StatsConfig)
        ensures
            r == (StatsConfig { enabled: true, persist: true, retention_days: DEFAULT_STATS_DAYS }),
    {
        StatsConfig { enabled: true, persist: true, retention_days: DEFAULT_STATS_DAYS }
    }
}

/// Who administers Bulwark.
#[derive(Debug, Clone)]
pub struct AuthConfig {
    /// Admin username.
    pub username: String,
    /// Password hash; `None` until the admin sets a password (setup flow).
    pub password_hash: Option<String>,
}

impl Default for AuthConfig {
    fn default() -> (r: AuthConfig)
        ensures
            r.username@ == Seq::<char>::empty(),
            r.password_hash is None,
    {
        AuthConfig { username: String::new(), password_hash: None }
    }
}

impl AuthConfig {
    /// Whether initial setup (creating the admin account) is still required.
    pub fn needs_setup(&self) -> (r: bool)
        ensures
            r == (self.username@.len() == 0 || self.password_hash is None),
    {
        self.username.as_str().unicode_len() == 0 || self.password_hash.is_none()
    }
}

/// The root configuration.
#[derive(Debug, Clone)]
pub struct Config {
    pub version: u32,
    pub server: ServerConfig,
    pub upstreams: UpstreamsConfig,
    pub cache: CacheConfig,
    pub filtering: FilteringConfig,
    pub clients: Vec<ClientConfig>,
    pub query_log: QueryLogConfig,
    pub stats: StatsConfig,
    pub privacy: PrivacyConfig,
    pub auth: AuthConfig,
}

impl Default for Config {
    fn default() -> (r: Config)
        ensures
            r.version == SCHEMA_VERSION,
            r.server.dns_bind@ == seq![any_address(53)],
            r.server.http_bind == any_address(3000),
            r.server.ratelimit == 0,
            r.upstreams.servers@ == usual_upstreams(),
            r.upstreams.bootstrap@ == usual_bootstrap(),
            r.upstreams.timeout_secs == DEFAULT_TIMEOUT_SECS,
            r.cache.enabled && r.cache.size == DEFAULT_CACHE_SIZE,
            r.cache.min_ttl_secs == 0 && r.cache.max_ttl_secs == DEFAULT_MAX_TTL_SECS,
            r.cache.optimistic_max_age_secs == 0,
            r.filtering.enabled && r.filtering.blocking_mode == BlockingMode::NxDomain,
            r.filtering.custom_block_ipv4.bits == 0,
            r.filtering.custom_block_ipv6.bits == 0,
            r.filtering.blocked_ttl_secs == DEFAULT_BLOCKED_TTL_SECS,
            r.filtering.lists@.len() == 0,
            r.filtering.custom_rules@ == Seq::<char>::empty(),
            r.clients@.len() == 0,
            r.query_log.enabled && r.query_log.persist,
            r.query_log.retention_days == DEFAULT_LOG_RETENTION_DAYS,
            r.stats.enabled && r.stats.persist && r.stats.retention_days == DEFAULT_STATS_DAYS,
            !r.privacy.anonymize_client_ips,
            r.auth.username@.len() == 0 && r.auth.password_hash is None,
    {
        Config {
            version: SCHEMA_VERSION,
            server: ServerConfig::default(),
            upstreams: UpstreamsConfig::default(),
            cache: CacheConfig::default(),
            filtering: FilteringConfig::default(),
            clients: Vec::new(),
            query_log: QueryLogConfig::default(),
            stats: StatsConfig::default(),
            privacy: PrivacyConfig::default(),
            auth: AuthConfig::default(),
        }
    }
}

/// What is wrong with a configuration, if anything: without an address to serve
/// DNS on, with TTL bounds that cross, or without an active upstream.
pub open spec fn fault(
    dns_bind: Seq<SocketAddr>,
    min_ttl: u32,
    max_ttl: u32,
    servers: Seq<char>,
) -> Option<Seq<char>> {
    if dns_bind.len() == 0 {
        Some("server.dns_bind must not be empty"@)
    } else if max_ttl != 0 && min_ttl > max_ttl {
        Some(
            "cache.min_ttl_secs ("@ + text::decimal(min_ttl as nat) + ") exceeds max_ttl_secs ("@
                + text::decimal(max_ttl as nat) + ")"@,
        )
    } else if specs_in(text::split(servers, '\n')).len() == 0 {
        Some("at least one upstream must be configured"@)
    } else {
        None
    }
}

/// The largest id of a list before the `n`-th; 0 where there is none.
pub open spec fn largest_id(lists: Seq<FilterListConfig>, n: int) -> u32
    decreases n,
{
    if n <= 0 {
        0
    } else {
        let before = largest_id(lists, n - 1);
        if lists[n - 1].id > before {
            lists[n - 1].id
        } else {
            before
        }
    }
}

/// The clients that can be addressed: those with an id.
pub open spec fn addressable(clients: Seq<ClientConfig>) -> Seq<ClientConfig>
    decreases clients.len(),
{
    if clients.len() == 0 {
        Seq::empty()
    } else {
        let before = addressable(clients.drop_last());
        if clients.last().id@.len() > 0 {
            before.push(clients.last())
        } else {
            before
        }
    }
}

impl Config {
    /// Validate invariants, returning a helpful error otherwise.
    pub fn validate(&self) -> (r: Result<(), ConfigError>)
        ensures
            match fault(
                self.server.dns_bind@,
                self.cache.min_ttl_secs,
                self.cache.max_ttl_secs,
                self.upstreams.servers@,
            ) {
                Some(why) => r matches Err(e) && e@ == ConfigErrorView::Invalid(why),
                None => r is Ok,
            },
    {
        if self.server.dns_bind.len() == 0 {
            return Err(ConfigError::Invalid("server.dns_bind must not be empty".to_owned()));
        }
        if self.cache.max_ttl_secs != 0 && self.cache.min_ttl_secs > self.cache.max_ttl_secs {
            let mut e: String = "cache.min_ttl_secs (".to_owned();
            append_decimal(&mut e, self.cache.min_ttl_secs as u64);
            let mut e: String = e.concat(") exceeds max_ttl_secs (");
            append_decimal(&mut e, self.cache.max_ttl_secs as u64);
            return Err(ConfigError::Invalid(e.concat(")")));
        }
        let specs: Vec<String> = self.upstreams.active_specs();
        assert(text::texts(specs@).len() == specs@.len());
        if specs.len() == 0 {
            return Err(
                ConfigError::Invalid("at least one upstream must be configured".to_owned()),
            );
        }
        Ok(())
    }

    /// Drops the clients that have no id: nothing can address them. The result
    /// is how many there were.
    pub fn drop_unaddressed_clients(&mut self) -> (dropped: usize)
        ensures
            final(self).clients@ == addressable(old(self).clients@),
            dropped == old(self).clients@.len() - final(self).clients@.len(),
            final(self).version == old(self).version,
            final(self).server == old(self).server,
            final(self).upstreams == old(self).upstreams,
            final(self).cache == old(self).cache,
            final(self).filtering == old(self).filtering,
            final(self).query_log == old(self).query_log,
            final(self).stats == old(self).stats,
            final(self).privacy == old(self).privacy,
            final(self).auth == old(self).auth,
    {
        let mut clients: Vec<ClientConfig> = Vec::new();
        std::mem::swap(&mut clients, &mut self.clients);
        let ghost all = clients@;
        let before: usize = clients.len();
        let mut kept: Vec<ClientConfig> = Vec::new();
        assert(all.take(0) =~= Seq::<ClientConfig>::empty());
        for c in it: clients
            invariant
                it.seq() == all,
                kept@ == addressable(all.take(it.index() as int)),
                kept@.len() <= it.index(),
        {
            proof {
                let i = it.index() as int;
                assert(all.take(i + 1).drop_last() =~= all.take(i));
                assert(all.take(i + 1).last() == c);
            }
            if c.id.as_str().unicode_len() > 0 {
                kept.push(c);
            }
        }
        assert(all.take(all.len() as int) =~= all);
        let dropped: usize = before - kept.len();
        self.clients = kept;
        dropped
    }

    /// Allocate a filter-list id not already used: one more than the largest.
    pub fn next_list_id(&self) -> (r: u32)
        requires
            forall|i: int|
                0 <= i < self.filtering.lists@.len() ==> (#[trigger] self.filtering.lists@[i]).id
                    < u32::MAX,
        ensures
            r == largest_id(self.filtering.lists@, self.filtering.lists@.len() as int) + 1,
            forall|i: int|
                0 <= i < self.filtering.lists@.len() ==> (#[trigger] self.filtering.lists@[i]).id
                    < r,
    {
        let mut largest: u32 = 0;
        let mut i: usize = 0;
        while i < self.filtering.lists.len()
            invariant
                i <= self.filtering.lists@.len(),
                largest == largest_id(self.filtering.lists@, i as int),
                largest < u32::MAX,
                forall|k: int|
                    0 <= k < self.filtering.lists@.len() ==> (
                    #[trigger] self.filtering.lists@[k]).id < u32::MAX,
                forall|k: int| 0 <= k < i ==> (#[trigger] self.filtering.lists@[k]).id <= largest,
            decreases self.filtering.lists@.len() - i,
        {
            if self.filtering.lists[i].id > largest {
                largest = self.filtering.lists[i].id;
            }
            i = i + 1;
        }
        largest + 1
    }
}

} // verus!
