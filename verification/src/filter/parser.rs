//! Parsing of individual filter-list lines into rules.
//!
//! Supports three line shapes:
//! * **Hosts-file** lines: `0.0.0.0 ads.example.com` (block) or
//!   `1.2.3.4 host.example.com` (rewrite). One line may list several hosts.
//! * **AdBlock-style** DNS rules: `||example.org^`, `@@||example.org^`,
//!   `*.tracker.com`, with the DNS-relevant modifiers
//!   (`$important`, `$badfilter`, `$dnstype`, `$dnsrewrite`, `$client`,
//!   `$ctag`, `$denyallow`).
//! * **Regex** rules: `/^ads?\..*/`.
//!
//! Plain bare-domain lines (`example.org`) are treated as `||example.org^`
//! (block the domain and its subdomains), matching how blocklists are used.

use vstd::prelude::*;

use crate::filter::regexes;
use crate::filter::regexes::CompiledRegex;
use crate::filter::rule;
use crate::filter::rule::{
    Action, BuildRule, BuildView, ClientFilter, ClientFilterView, ClientMatch, ClientMatchView,
    CtagFilter, DnsTypeFilter, ListsView, ModsView, Pattern, PatternView, RewriteData,
    RewriteRcode, RewriteView, Rule, RuleMods, RuleView,
};
use crate::filter::token;
use crate::filter::token::tokenize_pattern_safe;
use crate::net;
use crate::net::{IpAddr, IpNet, Ipv4Addr, Ipv6Addr, NetView};
use crate::text;
use crate::text::{
    append_chars, append_decimal, append_joined, chars_of, find_char, has_char,
    is_ascii_alphanumeric, is_text, lower_chars, parse_number, part, sort_slices, split_chars,
    split_words, starts_with, string_of, trim_chars, trim_end_char, trim_start_char, upper_chars,
};

verus! {

/// Maximum source length of a `/regex/` rule, in bytes. Matching takes linear
/// time, but a pathological source can still blow up compile time and memory,
/// so over-long regexes are rejected.
pub const MAX_REGEX_LEN: usize = 1000;

/// Per-regex compiled-size cap (bytes). Bounds the memory a single rule's
/// compiled program may use, so one hostile list entry can't exhaust memory.
pub const REGEX_SIZE_LIMIT: usize = 262144;

/// Outcome of parsing one line.
#[derive(Debug)]
pub enum Parsed {
    /// One or more rules (hosts lines can yield several).
    Rules(Vec<BuildRule>),
    /// A comment, blank line or list header: nothing to do.
    Ignored,
    /// A syntactically valid line that is skipped on purpose (e.g. it carries
    /// HTTP-only modifiers irrelevant to DNS).
    Unsupported(String),
}

/// Why a line is no rule.
#[derive(Debug)]
pub enum ParseError {
    Regex(String),
    Invalid(String),
}

/// What a [`Parsed`] says.
pub enum ParsedView {
    Rules(Seq<BuildView>),
    Ignored,
    Unsupported(Seq<char>),
}

/// What a [`ParseError`] says.
pub enum ErrorView {
    Regex(Seq<char>),
    Invalid(Seq<char>),
}

impl View for Parsed {
    type V = ParsedView;

    open spec fn view(&self) -> ParsedView {
        match self {
            Parsed::Rules(rules) => ParsedView::Rules(rule::build_views(rules@)),
            Parsed::Ignored => ParsedView::Ignored,
            Parsed::Unsupported(line) => ParsedView::Unsupported(line@),
        }
    }
}

impl View for ParseError {
    type V = ErrorView;

    open spec fn view(&self) -> ErrorView {
        match self {
            ParseError::Regex(e) => ErrorView::Regex(e@),
            ParseError::Invalid(e) => ErrorView::Invalid(e@),
        }
    }
}

impl ParseError {
    /// The error in words.
    pub fn message(&self) -> (r: String)
        ensures
            r@ == match self@ {
                ErrorView::Regex(e) => "invalid regex rule: "@ + e,
                ErrorView::Invalid(e) => "invalid rule: "@ + e,
            },
    {
        match self {
            ParseError::Regex(e) => "invalid regex rule: ".to_owned().concat(e.as_str()),
            ParseError::Invalid(e) => "invalid rule: ".to_owned().concat(e.as_str()),
        }
    }
}

/// Hostnames commonly present in hosts files that must never be blocked.
pub open spec fn is_noise(d: Seq<char>) -> bool {
    ||| d == "localhost"@
    ||| d == "localhost.localdomain"@
    ||| d == "local"@
    ||| d == "broadcasthost"@
    ||| d == "ip6-localhost"@
    ||| d == "ip6-loopback"@
    ||| d == "ip6-localnet"@
    ||| d == "ip6-mcastprefix"@
    ||| d == "ip6-allnodes"@
    ||| d == "ip6-allrouters"@
    ||| d == "ip6-allhosts"@
    ||| d == "0.0.0.0"@
}

/// A domain in normal form: trimmed, lowercase, without trailing dots.
pub open spec fn norm(d: Seq<char>) -> Seq<char> {
    text::lowered(text::strip_end(text::trim(d), '.'))
}

/// The canonical text of the address that `s` is, bare or in brackets.
pub open spec fn ip_literal_of(s: Seq<char>) -> Option<Seq<char>> {
    let bare = if s.len() >= 2 && s[0] == '[' && s.last() == ']' {
        s.subrange(1, s.len() - 1)
    } else {
        s
    };
    match net::ip_of_text(bare) {
        Some(ip) => Some(net::ip_text(ip)),
        None => None,
    }
}

/// Whether a cosmetic marker starts at `i`: `#`, an optional `@`, an optional one
/// of `? $ %`, then `#`; or `$$`; or `$@$`.
pub open spec fn marker_at(s: Seq<char>, i: int) -> bool {
    ||| s[i] == '#' && {
        let j = if i + 1 < s.len() && s[i + 1] == '@' {
            i + 2
        } else {
            i + 1
        };
        let k = if j < s.len() && is_marker_kind(s[j]) {
            j + 1
        } else {
            j
        };
        k < s.len() && s[k] == '#'
    }
    ||| s[i] == '$' && i + 1 < s.len() && s[i + 1] == '$'
    ||| s[i] == '$' && i + 2 < s.len() && s[i + 1] == '@' && s[i + 2] == '$'
}

/// The characters that tell the cosmetic markers apart: extended CSS, CSS
/// injection, scriptlets.
pub open spec fn is_marker_kind(c: char) -> bool {
    c == '?' || c == '$' || c == '%'
}

/// Whether a line carries a cosmetic or HTML-filtering marker.
pub open spec fn cosmetic(s: Seq<char>) -> bool {
    exists|i: int| 0 <= i < s.len() && #[trigger] marker_at(s, i)
}

pub open spec fn is_label_char(c: char) -> bool {
    text::is_alphanumeric(c) || c == '-' || c == '_'
}

pub open spec fn is_label(s: Seq<char>) -> bool {
    1 <= s.len() <= 63 && forall|i: int| 0 <= i < s.len() ==> is_label_char(#[trigger] s[i])
}

/// A plausible DNS hostname: dot-separated labels of letters, digits, `-` and
/// `_`, within the length limits.
pub open spec fn dns_hostname(d: Seq<char>) -> bool {
    1 <= d.len() <= 253 && forall|i: int|
        0 <= i < text::split(d, '.').len() ==> is_label(#[trigger] text::split(d, '.')[i])
}

/// The rule for one host of a hosts line with the address `ip` written `first`.
pub open spec fn host_rule(first: Seq<char>, ip: IpAddr, host: Seq<char>) -> BuildView {
    let block = ip.spec_blocking();
    BuildView {
        rule: RuleView {
            raw: first.push(' ') + host,
            action: if block { Action::Block } else { Action::Rewrite },
            pattern: PatternView::Exact(norm(host)),
            mods: if block {
                None
            } else {
                Some(ModsView { rewrite: Some(ip_rewrite_of(ip)), ..rule::no_mods() })
            },
            list_id: 0,
        },
        badfilter: false,
        signature: "hosts|"@ + norm(host) + if block { "|block"@ } else { "|rewrite"@ },
        index_tokens: Seq::empty(),
    }
}

/// The answer that an address stands for.
pub open spec fn ip_rewrite_of(ip: IpAddr) -> RewriteView {
    match ip {
        IpAddr::V4(a) => RewriteView::A(a),
        IpAddr::V6(a) => RewriteView::Aaaa(a),
    }
}

/// The words before the first one that starts a comment.
pub open spec fn before_comment(words: Seq<Seq<char>>) -> Seq<Seq<char>>
    decreases words.len(),
{
    if words.len() == 0 || words[0].len() > 0 && words[0][0] == '#' {
        Seq::empty()
    } else {
        seq![words[0]] + before_comment(words.drop_first())
    }
}

/// Whether a hosts line may give a rule for this host.
pub open spec fn is_usable_host(host: Seq<char>) -> bool {
    norm(host).len() > 0 && !is_noise(norm(host))
}

/// The rules of a hosts-file line: one per usable host. `None` where the line
/// does not start with an address or names no host.
pub open spec fn hosts_of(line: Seq<char>) -> Option<Seq<BuildView>> {
    let words = text::words(line);
    if words.len() == 0 {
        None
    } else {
        match net::ip_of_text(words[0]) {
            Some(ip) => {
                let hosts = before_comment(words.drop_first());
                if hosts.len() == 0 {
                    None
                } else {
                    Some(
                        hosts.filter(|h: Seq<char>| is_usable_host(h)).map_values(
                            |h: Seq<char>| host_rule(words[0], ip, h),
                        ),
                    )
                }
            },
            None => None,
        }
    }
}

/// The first index from `i` on at which `/$` stands, or the length.
pub open spec fn find_slash_dollar(s: Seq<char>, i: int) -> int
    decreases s.len() - i,
{
    if i + 1 >= s.len() {
        s.len() as int
    } else if s[i] == '/' && s[i + 1] == '$' {
        i
    } else {
        find_slash_dollar(s, i + 1)
    }
}

/// A rule body split into its pattern and its modifiers. In a regex rule the
/// modifiers follow `/$`, elsewhere the first `$`.
pub open spec fn modifiers_of(s: Seq<char>) -> (Seq<char>, Option<Seq<char>>) {
    if s.len() > 0 && s[0] == '/' {
        let i = find_slash_dollar(s, 0);
        if i < s.len() {
            (s.take(i + 1), Some(s.skip(i + 2)))
        } else {
            (s, None)
        }
    } else {
        let i = text::find(s, '$');
        if i < s.len() {
            (s.take(i), Some(s.skip(i + 1)))
        } else {
            (s, None)
        }
    }
}

/// The trimmed, non-empty modifiers of a modifier list.
pub open spec fn modifier_list(mods: Option<Seq<char>>) -> Seq<Seq<char>> {
    match mods {
        Some(m) => text::split(m, ',').map_values(|t: Seq<char>| text::trim(t)).filter(
            |t: Seq<char>| t.len() > 0,
        ),
        None => Seq::empty(),
    }
}

/// The canonical signature of a rule: `@@` for an exception, the lowercase
/// pattern, and the sorted modifiers without `badfilter`. A `$badfilter` rule
/// shares its signature with the rule it cancels.
pub open spec fn signature_of(allow: bool, pattern: Seq<char>, mods: Option<Seq<char>>) -> Seq<
    char,
> {
    (if allow { "@@"@ } else { Seq::empty() }) + text::lowered(pattern) + "|$"@ + text::join(
        text::sorted_texts(
            modifier_list(mods).filter(|t: Seq<char>| t != "badfilter"@),
        ),
        ',',
    )
}

/// A character of a wildcard pattern as a piece of regex source.
pub open spec fn wildcard_piece(c: char) -> Seq<char> {
    if c == '*' {
        ".*"@
    } else if c == '^' {
        "(?:[^a-z0-9._-]|$)"@
    } else if is_regex_special(c) {
        seq!['\\', c]
    } else {
        seq![c]
    }
}

pub open spec fn is_regex_special(c: char) -> bool {
    ||| c == '\\'
    ||| c == '.'
    ||| c == '+'
    ||| c == '?'
    ||| c == '('
    ||| c == ')'
    ||| c == '['
    ||| c == ']'
    ||| c == '{'
    ||| c == '}'
    ||| c == '|'
    ||| c == '$'
}

/// The regex source of the pattern characters of `body`.
pub open spec fn wildcard_body(body: Seq<char>) -> Seq<char>
    decreases body.len(),
{
    if body.len() == 0 {
        Seq::empty()
    } else {
        wildcard_body(body.drop_last()) + wildcard_piece(body.last())
    }
}

/// The regex source of a wildcard pattern: case-insensitive; anchored at a
/// label boundary, at the start, or not; and at the end, or not.
pub open spec fn wildcard_source(
    body: Seq<char>,
    subdomain_anchor: bool,
    start_anchor: bool,
    end_anchor: bool,
) -> Seq<char> {
    "(?i)"@ + (if subdomain_anchor {
        "(?:^|\\.)"@
    } else if start_anchor {
        "^"@
    } else {
        Seq::empty()
    }) + wildcard_body(body) + (if end_anchor {
        "$"@
    } else {
        Seq::empty()
    })
}

/// What compiling `src` gives: nothing to say, or the error.
pub open spec fn regex_error(src: Seq<char>) -> Option<Seq<char>> {
    regexes::build_error(src, REGEX_SIZE_LIMIT as nat, usize::BITS as nat)
}

/// A pattern taken apart: its body and its anchors.
pub struct Anchored {
    pub body: Seq<char>,
    pub subdomain: bool,
    pub start: bool,
    pub end: bool,
}

/// The body and the anchors of a pattern: `||` or `|` in front, `^` or `|`
/// behind; further `^` behind the body are dropped.
pub open spec fn anchors_of(p: Seq<char>) -> Anchored {
    let subdomain = text::has_prefix(p, "||"@);
    let start = !subdomain && p.len() > 0 && p[0] == '|';
    let s = if subdomain {
        p.skip(2)
    } else if start {
        p.skip(1)
    } else {
        p
    };
    let end = s.len() > 0 && (s.last() == '^' || s.last() == '|');
    let t = if end {
        s.drop_last()
    } else {
        s
    };
    Anchored { body: text::strip_end(t, '^'), subdomain, start, end }
}

/// The pattern of a rule and its index tokens, or the error.
pub open spec fn pattern_of(p: Seq<char>) -> Result<(PatternView, Seq<u32>), ErrorView> {
    if p.len() >= 2 && p[0] == '/' && p.last() == '/' {
        let inner = p.subrange(1, p.len() - 1);
        if text::utf8_len(inner) > MAX_REGEX_LEN {
            Err(
                ErrorView::Regex(
                    "regex too long ("@ + text::decimal(text::utf8_len(inner)) + " > 1000 chars)"@,
                ),
            )
        } else {
            match regex_error("(?i)"@ + inner) {
                None => Ok((PatternView::Regex("(?i)"@ + inner), Seq::empty())),
                Some(e) => Err(ErrorView::Regex(e)),
            }
        }
    } else {
        let a = anchors_of(p);
        if a.body.contains('*') || a.body.contains('^') {
            let src = wildcard_source(a.body, a.subdomain, a.start, a.end);
            match regex_error(src) {
                None => Ok(
                    (
                        PatternView::Wildcard(src),
                        token::increasing_values(token::pattern_tokens(text::lowered(a.body))),
                    ),
                ),
                Some(e) => Err(ErrorView::Regex(e)),
            }
        } else {
            match ip_literal_of(a.body) {
                Some(ip) => Ok((PatternView::Exact(ip), Seq::empty())),
                None => {
                    let domain = norm(a.body);
                    if domain.len() == 0 {
                        Err(ErrorView::Invalid("empty domain"@))
                    } else if !dns_hostname(domain) {
                        Err(ErrorView::Invalid("not a DNS hostname: "@ + domain))
                    } else if a.start {
                        Ok((PatternView::Exact(domain), Seq::empty()))
                    } else {
                        Ok((PatternView::Subdomain(domain), Seq::empty()))
                    }
                },
            }
        }
    }
}

/// The non-empty entries of a `|`-separated value.
pub open spec fn entries(value: Seq<char>) -> Seq<Seq<char>> {
    text::split(value, '|').filter(|t: Seq<char>| t.len() > 0)
}

pub open spec fn is_negated(t: Seq<char>) -> bool {
    t.len() > 0 && t[0] == '~'
}

/// The entries without `~`, and those with one, which loses it.
pub open spec fn in_and_out(list: Seq<Seq<char>>) -> ListsView {
    ListsView {
        included: list.filter(|t: Seq<char>| !is_negated(t)),
        excluded: list.filter(|t: Seq<char>| is_negated(t)).map_values(
            |t: Seq<char>| t.drop_first(),
        ),
    }
}

pub open spec fn dnstype_of(value: Seq<char>) -> Result<ListsView, ErrorView> {
    let lists = in_and_out(entries(value));
    if entries(value).len() == 0 {
        Err(ErrorView::Invalid("$dnstype requires at least one record type"@))
    } else {
        Ok(
            ListsView {
                included: lists.included.map_values(|t: Seq<char>| text::uppered(t)),
                excluded: lists.excluded.map_values(|t: Seq<char>| text::uppered(t)),
            },
        )
    }
}

pub open spec fn ctag_of(value: Seq<char>) -> Result<ListsView, ErrorView> {
    if entries(value).len() == 0 {
        Err(ErrorView::Invalid("$ctag requires at least one tag"@))
    } else {
        Ok(in_and_out(entries(value)))
    }
}

/// `s` without the quotes around a client name.
pub open spec fn unquoted(s: Seq<char>) -> Seq<char> {
    strip_both(strip_both(s, '"'), '\'')
}

pub open spec fn strip_both(s: Seq<char>, c: char) -> Seq<char> {
    text::strip_end(text::strip_start(s, c), c)
}

/// A client entry: a network, an address, or else a name.
pub open spec fn client_of_text(t: Seq<char>) -> ClientMatchView {
    let spec = unquoted(t);
    match net::net_of_text(spec) {
        Some((addr, prefix_len)) => ClientMatchView::Net(
            NetView { addr, prefix_len: prefix_len as int },
        ),
        None => match net::ip_of_text(spec) {
            Some(ip) => ClientMatchView::Ip(ip),
            None => ClientMatchView::Name(spec),
        },
    }
}

pub open spec fn client_filter_of(value: Seq<char>) -> Result<ClientFilterView, ErrorView> {
    let lists = in_and_out(entries(value));
    if entries(value).len() == 0 {
        Err(ErrorView::Invalid("$client requires at least one client"@))
    } else {
        Ok(
            ClientFilterView {
                included: lists.included.map_values(|t: Seq<char>| client_of_text(t)),
                excluded: lists.excluded.map_values(|t: Seq<char>| client_of_text(t)),
            },
        )
    }
}

pub open spec fn denyallow_of(value: Seq<char>) -> Result<Seq<Seq<char>>, ErrorView> {
    if entries(value).len() == 0 {
        Err(ErrorView::Invalid("$denyallow requires at least one domain"@))
    } else {
        Ok(entries(value).map_values(|t: Seq<char>| norm(t)))
    }
}

/// The three parts of `RCODE;TYPE;VALUE`; further `;` belong to the value.
pub open spec fn full_form(v: Seq<char>) -> Option<(Seq<char>, Seq<char>, Seq<char>)> {
    let i = text::find(v, ';');
    let j = text::find_from(v, ';', i + 1);
    if i < v.len() && j < v.len() {
        Some((v.take(i), v.subrange(i + 1, j), v.skip(j + 1)))
    } else {
        None
    }
}

/// A response code keyword, in any case.
pub open spec fn rcode_of(v: Seq<char>) -> Option<RewriteRcode> {
    let u = text::uppered(v);
    if u == "NOERROR"@ {
        Some(RewriteRcode::NoError)
    } else if u == "NXDOMAIN"@ {
        Some(RewriteRcode::NxDomain)
    } else if u == "REFUSED"@ {
        Some(RewriteRcode::Refused)
    } else if u == "SERVFAIL"@ {
        Some(RewriteRcode::ServFail)
    } else {
        None
    }
}

/// The answer of the type `rtype` with the value `data`; `None` for a type
/// that is not synthesized.
pub open spec fn typed_rewrite(rtype: Seq<char>, data: Seq<char>) -> Option<
    Result<RewriteView, ErrorView>,
> {
    let t = text::uppered(rtype);
    if t == "A"@ {
        Some(
            match net::ipv4_of_text(data) {
                Some(bits) => Ok(RewriteView::A(Ipv4Addr { bits })),
                None => Err(ErrorView::Invalid("bad A in dnsrewrite: "@ + data)),
            },
        )
    } else if t == "AAAA"@ {
        Some(
            match net::ipv6_of_text(data) {
                Some(bits) => Ok(RewriteView::Aaaa(Ipv6Addr { bits })),
                None => Err(ErrorView::Invalid("bad AAAA in dnsrewrite: "@ + data)),
            },
        )
    } else if t == "CNAME"@ {
        Some(Ok(RewriteView::Cname(norm(data))))
    } else if t == "TXT"@ {
        Some(Ok(RewriteView::Txt(strip_both(data, '"'))))
    } else if t == "PTR"@ {
        Some(Ok(RewriteView::Ptr(norm(data))))
    } else if t == "MX"@ {
        let words = text::words(data);
        Some(
            if words.len() >= 2 && text::number_of_text(words[0], 65535) is Some {
                Ok(RewriteView::Mx(text::number_of_text(words[0], 65535)->0 as int, norm(words[1])))
            } else {
                Err(ErrorView::Invalid("bad MX in dnsrewrite: "@ + data))
            },
        )
    } else {
        None
    }
}

/// The rewrite a `$dnsrewrite` value asks for: a response code keyword, an
/// address, the full form, or a CNAME target.
pub open spec fn rewrite_of(value: Seq<char>) -> Result<RewriteView, ErrorView> {
    let v = text::trim(value);
    match rcode_of(v) {
        Some(c) => Ok(RewriteView::Rcode(c)),
        None => match net::ip_of_text(v) {
            Some(ip) => Ok(ip_rewrite_of(ip)),
            None => {
                let typed = match full_form(v) {
                    Some((_, rtype, data)) => typed_rewrite(rtype, data),
                    None => None,
                };
                match typed {
                    Some(r) => r,
                    None => if v.contains('.') && !v.contains(';') {
                        Ok(RewriteView::Cname(norm(v)))
                    } else {
                        Err(ErrorView::Invalid("unsupported dnsrewrite: "@ + value))
                    },
                }
            },
        },
    }
}

/// What the modifiers read so far come to.
pub struct ModsState {
    pub action: Action,
    pub badfilter: bool,
    pub mods: ModsView,
}

/// What a list of modifiers comes to: a state, a modifier that DNS filtering
/// has no use for, or an error.
pub enum ModsOutcome {
    Read(ModsState),
    Unsupported,
    Failed(ErrorView),
}

/// The key of a modifier: what stands before the first `=`.
pub open spec fn modifier_key(t: Seq<char>) -> Seq<char> {
    t.take(text::find(t, '='))
}

/// The value of a modifier: what stands after the first `=`, if anything.
pub open spec fn modifier_value(t: Seq<char>) -> Seq<char> {
    if text::find(t, '=') < t.len() {
        t.skip(text::find(t, '=') + 1)
    } else {
        Seq::empty()
    }
}

/// The state after one more modifier.
pub open spec fn apply_modifier(st: ModsState, t: Seq<char>) -> ModsOutcome {
    let key = modifier_key(t);
    let value = modifier_value(t);
    if key == "important"@ {
        ModsOutcome::Read(
            ModsState { mods: ModsView { important: true, ..st.mods }, ..st },
        )
    } else if key == "badfilter"@ {
        ModsOutcome::Read(ModsState { badfilter: true, ..st })
    } else if key == "dnstype"@ {
        match dnstype_of(value) {
            Ok(f) => ModsOutcome::Read(
                ModsState { mods: ModsView { dnstype: Some(f), ..st.mods }, ..st },
            ),
            Err(e) => ModsOutcome::Failed(e),
        }
    } else if key == "client"@ {
        match client_filter_of(value) {
            Ok(f) => ModsOutcome::Read(
                ModsState { mods: ModsView { client: Some(f), ..st.mods }, ..st },
            ),
            Err(e) => ModsOutcome::Failed(e),
        }
    } else if key == "ctag"@ {
        match ctag_of(value) {
            Ok(f) => ModsOutcome::Read(
                ModsState { mods: ModsView { ctag: Some(f), ..st.mods }, ..st },
            ),
            Err(e) => ModsOutcome::Failed(e),
        }
    } else if key == "denyallow"@ {
        match denyallow_of(value) {
            Ok(d) => ModsOutcome::Read(
                ModsState { mods: ModsView { denyallow: d, ..st.mods }, ..st },
            ),
            Err(e) => ModsOutcome::Failed(e),
        }
    } else if key == "dnsrewrite"@ {
        match rewrite_of(value) {
            Ok(d) => ModsOutcome::Read(
                ModsState {
                    action: if st.action == Action::Block { Action::Rewrite } else { st.action },
                    mods: ModsView { rewrite: Some(d), ..st.mods },
                    ..st
                },
            ),
            Err(e) => ModsOutcome::Failed(e),
        }
    } else {
        ModsOutcome::Unsupported
    }
}

/// What a list of modifiers comes to, first to last; the first one that fails
/// or is not supported decides.
pub open spec fn apply_modifiers(st: ModsState, list: Seq<Seq<char>>) -> ModsOutcome
    decreases list.len(),
{
    if list.len() == 0 {
        ModsOutcome::Read(st)
    } else {
        match apply_modifiers(st, list.drop_last()) {
            ModsOutcome::Read(before) => apply_modifier(before, list.last()),
            other => other,
        }
    }
}

/// What an AdBlock-style line gives.
pub open spec fn adblock_of(line: Seq<char>) -> Result<ParsedView, ErrorView> {
    let allow = text::has_prefix(line, "@@"@);
    let (untrimmed, mods) = modifiers_of(if allow { line.skip(2) } else { line });
    let pattern = text::trim(untrimmed);
    if pattern.len() == 0 {
        Err(ErrorView::Invalid("empty pattern"@))
    } else {
        match pattern_of(pattern) {
            Err(e) => Err(e),
            Ok((view, tokens)) => match apply_modifiers(
                ModsState {
                    action: if allow { Action::Allow } else { Action::Block },
                    badfilter: false,
                    mods: rule::no_mods(),
                },
                modifier_list(mods),
            ) {
                ModsOutcome::Failed(e) => Err(e),
                ModsOutcome::Unsupported => Ok(ParsedView::Unsupported(line)),
                ModsOutcome::Read(st) => Ok(
                    ParsedView::Rules(
                        seq![
                            BuildView {
                                rule: RuleView {
                                    raw: line,
                                    action: st.action,
                                    pattern: view,
                                    mods: if st.mods == rule::no_mods() {
                                        None
                                    } else {
                                        Some(st.mods)
                                    },
                                    list_id: 0,
                                },
                                badfilter: st.badfilter,
                                signature: signature_of(allow, pattern, mods),
                                index_tokens: tokens,
                            },
                        ],
                    ),
                ),
            },
        }
    }
}

/// What a line of a filter list gives.
pub open spec fn parsed(untrimmed: Seq<char>) -> Result<ParsedView, ErrorView> {
    let line = text::trim(untrimmed);
    if line.len() == 0 || line[0] == '!' || line[0] == '#' || line[0] == '[' {
        Ok(ParsedView::Ignored)
    } else {
        match hosts_of(line) {
            Some(rules) => Ok(
                if rules.len() == 0 {
                    ParsedView::Ignored
                } else {
                    ParsedView::Rules(rules)
                },
            ),
            None => if cosmetic(line) {
                Ok(ParsedView::Unsupported(line))
            } else {
                adblock_of(line)
            },
        }
    }
}

/// Normalise a domain: trimmed, lowercase, without trailing dots.
fn norm_domain(d: &[char]) -> (r: Vec<char>)
    ensures
        r@ == norm(d@),
{
    lower_chars(trim_end_char(trim_chars(d), '.'))
}

/// Reads an address of either family.
fn parse_ip(s: &[char]) -> (r: Option<IpAddr>)
    ensures
        r == net::ip_of_text(s@),
{
    IpAddr::parse(string_of(s).as_str())
}

/// If `s` is an address, bare (`1.2.3.4`, `1234::cdef`) or bracketed
/// (`[1234::cdef]`), its canonical text. Address rules are stored under this
/// key, so they match the resolved addresses that responses carry. A bare v6
/// literal is the only way to block a v6 address: hostnames have no colons.
fn ip_literal(s: &[char]) -> (r: Option<String>)
    ensures
        match r {
            Some(t) => ip_literal_of(s@) == Some(t@),
            None => ip_literal_of(s@) is None,
        },
{
    let n: usize = s.len();
    let bare: &[char] = if n >= 2 && s[0] == '[' && s[n - 1] == ']' {
        part(s, 1, n - 1)
    } else {
        s
    };
    match parse_ip(bare) {
        Some(ip) => Some(ip.text()),
        None => None,
    }
}

/// Does `line` carry a cosmetic marker: element hiding (`##`, `#@#`),
/// extended CSS (`#?#`), CSS injection (`#$#`), scriptlets (`#%#`), their
/// exceptions, or HTML filtering (`$$`, `$@$`)? Such rules act on page content
/// and can never match a DNS hostname. The marker shape is `#`, optional `@`,
/// optional one of `? $ %`, then `#`.
fn is_cosmetic(line: &[char]) -> (r: bool)
    ensures
        r == cosmetic(line@),
{
    let n: usize = line.len();
    let mut i: usize = 0;
    while i < n
        invariant
            i <= n,
            n == line@.len(),
            forall|k: int| 0 <= k < i ==> !#[trigger] marker_at(line@, k),
        decreases n - i,
    {
        if line[i] == '#' {
            let mut j: usize = i + 1;
            if j < n && line[j] == '@' {
                j = j + 1;
            }
            if j < n && (line[j] == '?' || line[j] == '$' || line[j] == '%') {
                j = j + 1;
            }
            if j < n && line[j] == '#' {
                assert(marker_at(line@, i as int));
                return true;
            }
        } else if line[i] == '$' {
            if i + 1 < n && line[i + 1] == '$' {
                assert(marker_at(line@, i as int));
                return true;
            }
            if n - i > 2 && line[i + 1] == '@' && line[i + 2] == '$' {
                assert(marker_at(line@, i as int));
                return true;
            }
        }
        i = i + 1;
    }
    false
}

/// Is `s` one label of a hostname?
fn is_hostname_label(s: &[char]) -> (r: bool)
    ensures
        r == is_label(s@),
{
    if s.len() == 0 || s.len() > 63 {
        return false;
    }
    let mut i: usize = 0;
    while i < s.len()
        invariant
            i <= s@.len(),
            forall|k: int| 0 <= k < i ==> is_label_char(#[trigger] s@[k]),
        decreases s@.len() - i,
    {
        if !(is_ascii_alphanumeric(s[i]) || s[i] == '-' || s[i] == '_') {
            return false;
        }
        i = i + 1;
    }
    true
}

/// Is `d` a plausible DNS hostname? Rejects non-DNS junk (URL paths, cosmetic
/// selectors, lines with spaces) that would otherwise be stored as a bogus
/// domain. Punycode (`xn--…`) and underscore service labels (`_dmarc`) pass.
fn is_dns_hostname(d: &[char]) -> (r: bool)
    ensures
        r == dns_hostname(d@),
{
    if d.len() == 0 || d.len() > 253 {
        return false;
    }
    let labels: Vec<&[char]> = split_chars(d, '.');
    let ghost list = text::split(d@, '.');
    let mut i: usize = 0;
    while i < labels.len()
        invariant
            i <= labels@.len(),
            list == text::split(d@, '.'),
            text::slices(labels@) == list,
            forall|k: int| 0 <= k < i ==> is_label(#[trigger] list[k]),
        decreases labels@.len() - i,
    {
        assert(text::slices(labels@)[i as int] == labels@[i as int]@);
        if !is_hostname_label(labels[i]) {
            assert(!is_label(list[i as int]));
            return false;
        }
        i = i + 1;
    }
    true
}

/// Is `d` a name that hosts files hold but that must never be blocked?
fn is_hosts_noise(d: &[char]) -> (r: bool)
    ensures
        r == is_noise(d@),
{
    is_text(d, "localhost") || is_text(d, "localhost.localdomain") || is_text(d, "local")
        || is_text(d, "broadcasthost") || is_text(d, "ip6-localhost") || is_text(
        d,
        "ip6-loopback",
    ) || is_text(d, "ip6-localnet") || is_text(d, "ip6-mcastprefix") || is_text(d, "ip6-allnodes")
        || is_text(d, "ip6-allrouters") || is_text(d, "ip6-allhosts") || is_text(d, "0.0.0.0")
}

/// The answer that an address stands for.
fn ip_rewrite(ip: IpAddr) -> (r: RewriteData)
    ensures
        r@ == ip_rewrite_of(ip),
{
    match ip {
        IpAddr::V4(a) => RewriteData::A(a),
        IpAddr::V6(a) => RewriteData::Aaaa(a),
    }
}

/// The rule for one host of a hosts line.
fn make_host_rule(first: &[char], ip: IpAddr, host: &[char], domain: &[char]) -> (r: BuildRule)
    requires
        domain@ == norm(host@),
    ensures
        r@ == host_rule(first@, ip, host@),
{
    let block: bool = ip.is_blocking();
    let mut raw: String = string_of(first);
    raw.push(' ');
    append_chars(&mut raw, host);
    let mut signature: String = "hosts|".to_owned();
    append_chars(&mut signature, domain);
    if block {
        signature.append("|block");
    } else {
        signature.append("|rewrite");
    }
    let mods: Option<Box<RuleMods>> = if block {
        None
    } else {
        let mut m: RuleMods = RuleMods::default();
        m.rewrite = Some(ip_rewrite(ip));
        Some(Box::new(m))
    };
    BuildRule {
        rule: Rule {
            raw,
            action: if block { Action::Block } else { Action::Rewrite },
            pattern: Pattern::Exact(string_of(domain)),
            mods,
            list_id: 0,
        },
        badfilter: false,
        signature,
        index_tokens: Vec::new(),
    }
}

/// Attempt to parse a hosts-file line. Returns `None` if it is not one.
fn try_parse_hosts(line: &[char]) -> (r: Option<Vec<BuildRule>>)
    ensures
        match r {
            Some(rules) => hosts_of(line@) == Some(rule::build_views(rules@)),
            None => hosts_of(line@) is None,
        },
{
    let words: Vec<&[char]> = split_words(line);
    let ghost list = text::words(line@);
    if words.len() == 0 {
        return None;
    }
    let first: &[char] = words[0];
    assert(text::slices(words@)[0] == first@);
    let ip: IpAddr = match parse_ip(first) {
        Some(ip) => ip,
        None => {
            return None;
        },
    };
    let ghost usable = |h: Seq<char>| is_usable_host(h);
    let ghost make = |h: Seq<char>| host_rule(list[0], ip, h);
    let ghost hosts = before_comment(list.drop_first());
    let mut rules: Vec<BuildRule> = Vec::new();
    let mut i: usize = 1;
    let ghost mut seen: Seq<Seq<char>> = Seq::empty();
    proof {
        reveal(Seq::filter);
        assert(list.skip(1) =~= list.drop_first());
        assert(seen + before_comment(list.skip(1)) =~= hosts);
        assert(rule::build_views(rules@) =~= seen.filter(usable).map_values(make));
    }
    while i < words.len() && !(words[i].len() > 0 && words[i][0] == '#')
        invariant
            1 <= i <= words@.len(),
            text::slices(words@) == list,
            first@ == list[0],
            usable == (|h: Seq<char>| is_usable_host(h)),
            make == (|h: Seq<char>| host_rule(list[0], ip, h)),
            seen.len() == i - 1,
            seen + before_comment(list.skip(i as int)) == hosts,
            rule::build_views(rules@) == seen.filter(usable).map_values(make),
        decreases words@.len() - i,
    {
        let host: &[char] = words[i];
        let ghost before = rules@;
        assert(text::slices(words@)[i as int] == host@);
        let domain: Vec<char> = norm_domain(host);
        if domain.len() > 0 && !is_hosts_noise(domain.as_slice()) {
            rules.push(make_host_rule(first, ip, host, domain.as_slice()));
        }
        proof {
            reveal(Seq::filter);
            let rest = list.skip(i as int);
            assert(rest[0] == host@);
            assert(rest.drop_first() =~= list.skip(i + 1));
            assert(seen + (seq![host@] + before_comment(list.skip(i + 1))) =~= seen.push(host@)
                + before_comment(list.skip(i + 1)));
            assert(seen.push(host@).drop_last() =~= seen);
            let kept = seen.push(host@).filter(usable);
            if usable(host@) {
                assert(kept == seen.filter(usable).push(host@));
                assert(rule::build_views(rules@) =~= rule::build_views(before).push(make(host@)));
            } else {
                assert(kept == seen.filter(usable));
                assert(rules@ == before);
            }
            assert(rule::build_views(rules@) =~= kept.map_values(make));
            seen = seen.push(host@);
        }
        i = i + 1;
    }
    proof {
        let rest = list.skip(i as int);
        if i < words@.len() {
            assert(text::slices(words@)[i as int] == words@[i as int]@);
            assert(rest[0] == words@[i as int]@);
        }
        assert(before_comment(rest) =~= Seq::empty());
        assert(seen + Seq::empty() =~= seen);
    }
    if i == 1 {
        return None;
    }
    Some(rules)
}

/// Split a rule into its pattern part and optional modifier string.
fn split_modifiers<'a>(s: &'a [char]) -> (r: (&'a [char], Option<&'a [char]>))
    ensures
        modifiers_of(s@).0 == r.0@,
        match r.1 {
            Some(m) => modifiers_of(s@).1 == Some(m@),
            None => modifiers_of(s@).1 is None,
        },
{
    let n: usize = s.len();
    if n > 0 && s[0] == '/' {
        let mut i: usize = 0;
        while i < n && n - i > 1
            invariant
                i <= n,
                n == s@.len(),
                n > 0,
                s@[0] == '/',
                find_slash_dollar(s@, 0) == find_slash_dollar(s@, i as int),
            decreases n - i,
        {
            if s[i] == '/' && s[i + 1] == '$' {
                let body: &'a [char] = part(s, 0, i + 1);
                let mods: &'a [char] = part(s, i + 2, n);
                assert(body@ =~= s@.take(i + 1));
                assert(mods@ =~= s@.skip(i + 2));
                return (body, Some(mods));
            }
            i = i + 1;
        }
        return (s, None);
    }
    let i: usize = find_char(s, '$', 0);
    if i < n {
        let body: &'a [char] = part(s, 0, i);
        let mods: &'a [char] = part(s, i + 1, n);
        assert(body@ =~= s@.take(i as int));
        assert(mods@ =~= s@.skip(i + 1));
        (body, Some(mods))
    } else {
        (s, None)
    }
}

/// The trimmed, non-empty modifiers of a modifier string.
fn split_modifier_list<'a>(mods: Option<&'a [char]>) -> (r: Vec<&'a [char]>)
    ensures
        text::slices(r@) == modifier_list(
            match mods {
                Some(m) => Some(m@),
                None => None,
            },
        ),
{
    let mut r: Vec<&'a [char]> = Vec::new();
    match mods {
        Some(m) => {
            let pieces: Vec<&'a [char]> = split_chars(m, ',');
            let ghost trimmed = text::split(m@, ',').map_values(|t: Seq<char>| text::trim(t));
            let ghost keep = |t: Seq<char>| t.len() > 0;
            let mut i: usize = 0;
            proof {
                reveal(Seq::filter);
                assert(text::slices(r@) =~= trimmed.take(0).filter(keep));
            }
            while i < pieces.len()
                invariant
                    i <= pieces@.len(),
                    keep == (|t: Seq<char>| t.len() > 0),
                    trimmed == text::slices(pieces@).map_values(|t: Seq<char>| text::trim(t)),
                    text::slices(r@) == trimmed.take(i as int).filter(keep),
                decreases pieces@.len() - i,
            {
                let t: &'a [char] = trim_chars(pieces[i]);
                let ghost before = r@;
                if t.len() > 0 {
                    r.push(t);
                }
                proof {
                    reveal(Seq::filter);
                    assert(trimmed.take(i + 1).drop_last() =~= trimmed.take(i as int));
                    assert(trimmed[i as int] == t@);
                    assert(text::slices(r@) =~= trimmed.take(i + 1).filter(keep));
                }
                i = i + 1;
            }
            assert(trimmed.take(i as int) =~= trimmed);
        },
        None => {
            assert(text::slices(r@) =~= Seq::empty());
        },
    }
    r
}

/// Canonical signature: `@@`? + lowercased pattern + sorted modifiers (minus
/// `badfilter`). A `$badfilter` rule shares its signature with the rule it cancels.
pub fn make_signature(action: Action, pattern: &[char], mods: Option<&[char]>) -> (r: String)
    ensures
        r@ == signature_of(
            action == Action::Allow,
            pattern@,
            match mods {
                Some(m) => Some(m@),
                None => None,
            },
        ),
{
    let allow: bool = action == Action::Allow;
    let mods: Vec<&[char]> = split_modifier_list(mods);
    let ghost keep = |t: Seq<char>| t != "badfilter"@;
    let ghost list = text::slices(mods@);
    let mut parts: Vec<&[char]> = Vec::new();
    let mut i: usize = 0;
    proof {
        reveal(Seq::filter);
        assert(text::slices(parts@) =~= list.take(0).filter(keep));
    }
    while i < mods.len()
        invariant
            i <= mods@.len(),
            list == text::slices(mods@),
            keep == (|t: Seq<char>| t != "badfilter"@),
            text::slices(parts@) == list.take(i as int).filter(keep),
        decreases mods@.len() - i,
    {
        let ghost before = parts@;
        let t: &[char] = mods[i];
        if !is_text(t, "badfilter") {
            parts.push(t);
        }
        proof {
            reveal(Seq::filter);
            assert(list.take(i + 1).drop_last() =~= list.take(i as int));
            assert(list[i as int] == t@);
            assert(text::slices(parts@) =~= list.take(i + 1).filter(keep));
        }
        i = i + 1;
    }
    assert(list.take(i as int) =~= list);
    let sorted: Vec<&[char]> = sort_slices(&parts);
    let mut out: String = String::new();
    if allow {
        out.append("@@");
    }
    let lower: Vec<char> = lower_chars(pattern);
    append_chars(&mut out, lower.as_slice());
    out.append("|$");
    append_joined(&mut out, &sorted, ',');
    assert(out@ =~= (if allow { "@@"@ } else { Seq::empty() }) + text::lowered(pattern@) + "|$"@
        + text::join(text::sorted_texts(list.filter(keep)), ','));
    out
}

/// Compile `src` (which already carries any needed flags like `(?i)`) with the
/// shared size cap.
fn compile_regex(src: &str) -> (r: Result<CompiledRegex, ParseError>)
    ensures
        match r {
            Ok(re) => regex_error(src@) is None && re@ == src@,
            Err(e) => regex_error(src@) matches Some(t) && e@ == ErrorView::Regex(t),
        },
{
    match regexes::build(src, REGEX_SIZE_LIMIT) {
        Ok(re) => Ok(re),
        Err(e) => Err(ParseError::Regex(e)),
    }
}

/// Convert a wildcard pattern into an anchored, case-insensitive regex matched
/// against the (lowercased) query hostname.
fn build_wildcard_regex(
    body: &[char],
    subdomain_anchor: bool,
    start_anchor: bool,
    end_anchor: bool,
) -> (r: Result<CompiledRegex, ParseError>)
    ensures
        ({
            let src = wildcard_source(body@, subdomain_anchor, start_anchor, end_anchor);
            match r {
                Ok(re) => regex_error(src) is None && re@ == src,
                Err(e) => regex_error(src) matches Some(t) && e@ == ErrorView::Regex(t),
            }
        }),
{
    let mut re: String = "(?i)".to_owned();
    if subdomain_anchor {
        // Start of hostname or at a label boundary.
        re.append("(?:^|\\.)");
    } else if start_anchor {
        re.append("^");
    }
    let ghost head = re@;
    let mut i: usize = 0;
    assert(head + wildcard_body(body@.take(0)) =~= head);
    while i < body.len()
        invariant
            i <= body@.len(),
            re@ == head + wildcard_body(body@.take(i as int)),
        decreases body@.len() - i,
    {
        let c: char = body[i];
        let ghost before = re@;
        if c == '*' {
            re.append(".*");
        } else if c == '^' {
            // A domain-name separator or end of string.
            re.append("(?:[^a-z0-9._-]|$)");
        } else {
            if c == '\\' || c == '.' || c == '+' || c == '?' || c == '(' || c == ')' || c == '['
                || c == ']' || c == '{' || c == '}' || c == '|' || c == '$' {
                re.push('\\');
            }
            re.push(c);
        }
        proof {
            assert(body@.take(i + 1).drop_last() =~= body@.take(i as int));
            assert(re@ =~= before + wildcard_piece(c));
            assert(re@ =~= head + wildcard_body(body@.take(i + 1)));
        }
        i = i + 1;
    }
    assert(body@.take(i as int) =~= body@);
    if end_anchor {
        re.append("$");
    }
    proof {
        assert(re@ =~= wildcard_source(body@, subdomain_anchor, start_anchor, end_anchor));
    }
    compile_regex(re.as_str())
}

/// Parse a pattern into a [`Pattern`] plus the safe reverse-index tokens (only
/// non-empty for wildcard patterns).
fn parse_pattern(p: &[char]) -> (r: Result<(Pattern, Vec<u32>), ParseError>)
    ensures
        match r {
            Ok((pattern, tokens)) => pattern_of(p@) == Ok::<_, ErrorView>((pattern@, tokens@)),
            Err(e) => pattern_of(p@) == Err::<(PatternView, Seq<u32>), _>(e@),
        },
{
    let n: usize = p.len();
    if n >= 2 && p[0] == '/' && p[n - 1] == '/' {
        let inner: &[char] = part(p, 1, n - 1);
        let inner_text: String = string_of(inner);
        let len: usize = inner_text.as_str().as_bytes().len();
        if len > MAX_REGEX_LEN {
            let mut e: String = "regex too long (".to_owned();
            append_decimal(&mut e, len as u64);
            e.append(" > 1000 chars)");
            return Err(ParseError::Regex(e));
        }
        let mut src: String = "(?i)".to_owned();
        append_chars(&mut src, inner);
        return match compile_regex(src.as_str()) {
            Ok(re) => Ok((Pattern::Regex(re), Vec::new())),
            Err(e) => Err(e),
        };
    }
    let subdomain_anchor: bool = starts_with(p, "||");
    let start_anchor: bool = !subdomain_anchor && n > 0 && p[0] == '|';
    proof {
        reveal_strlit("||");
    }
    let from: usize = if subdomain_anchor {
        2
    } else if start_anchor {
        1
    } else {
        0
    };
    let s: &[char] = part(p, from, n);
    assert(s@ =~= if subdomain_anchor {
        p@.skip(2)
    } else if start_anchor {
        p@.skip(1)
    } else {
        p@
    });
    let m: usize = s.len();
    let end_anchor: bool = m > 0 && (s[m - 1] == '^' || s[m - 1] == '|');
    let t: &[char] = part(s, 0, if end_anchor { m - 1 } else { m });
    assert(t@ =~= if end_anchor {
        s@.drop_last()
    } else {
        s@
    });
    // Tolerate stray separators.
    let body: &[char] = trim_end_char(t, '^');
    let ghost a = anchors_of(p@);
    assert(a == (Anchored {
        body: body@,
        subdomain: subdomain_anchor,
        start: start_anchor,
        end: end_anchor,
    }));
    if has_char(body, '*') || has_char(body, '^') {
        return match build_wildcard_regex(body, subdomain_anchor, start_anchor, end_anchor) {
            Ok(re) => {
                let lower: Vec<char> = lower_chars(body);
                let lower_text: String = string_of(lower.as_slice());
                Ok((Pattern::Wildcard(re), tokenize_pattern_safe(lower_text.as_str())))
            },
            Err(e) => Err(e),
        };
    }
    // An address is an exact-host rule, not a domain: block by resolved
    // address, with anchors ignored as meaningless. This comes before the
    // hostname test, which rejects the colons of v6.
    if let Some(ip) = ip_literal(body) {
        return Ok((Pattern::Exact(ip), Vec::new()));
    }
    let domain: Vec<char> = norm_domain(body);
    if domain.len() == 0 {
        return Err(ParseError::Invalid("empty domain".to_owned()));
    }
    if !is_dns_hostname(domain.as_slice()) {
        let mut e: String = "not a DNS hostname: ".to_owned();
        append_chars(&mut e, domain.as_slice());
        return Err(ParseError::Invalid(e));
    }
    if start_anchor {
        // `|example.com|`: exact host match.
        Ok((Pattern::Exact(string_of(domain.as_slice())), Vec::new()))
    } else {
        // `||example.com^` or bare `example.com`: domain and subdomains.
        Ok((Pattern::Subdomain(string_of(domain.as_slice())), Vec::new()))
    }
}

/// The non-empty entries of a `|`-separated value.
fn split_entries<'a>(value: &'a [char]) -> (r: Vec<&'a [char]>)
    ensures
        text::slices(r@) == entries(value@),
{
    let pieces: Vec<&'a [char]> = split_chars(value, '|');
    let ghost list = text::split(value@, '|');
    let ghost keep = |t: Seq<char>| t.len() > 0;
    let mut r: Vec<&'a [char]> = Vec::new();
    let mut i: usize = 0;
    proof {
        reveal(Seq::filter);
        assert(text::slices(r@) =~= list.take(0).filter(keep));
    }
    while i < pieces.len()
        invariant
            i <= pieces@.len(),
            list == text::slices(pieces@),
            keep == (|t: Seq<char>| t.len() > 0),
            text::slices(r@) == list.take(i as int).filter(keep),
        decreases pieces@.len() - i,
    {
        let ghost before = r@;
        let t: &'a [char] = pieces[i];
        if t.len() > 0 {
            r.push(t);
        }
        proof {
            reveal(Seq::filter);
            assert(list.take(i + 1).drop_last() =~= list.take(i as int));
            assert(list[i as int] == t@);
            assert(text::slices(r@) =~= list.take(i + 1).filter(keep));
        }
        i = i + 1;
    }
    assert(list.take(i as int) =~= list);
    r
}

/// One more entry goes to the one list or the other.
proof fn lemma_in_and_out_push(list: Seq<Seq<char>>, t: Seq<char>)
    ensures
        in_and_out(list.push(t)).included == if is_negated(t) {
            in_and_out(list).included
        } else {
            in_and_out(list).included.push(t)
        },
        in_and_out(list.push(t)).excluded == if is_negated(t) {
            in_and_out(list).excluded.push(t.drop_first())
        } else {
            in_and_out(list).excluded
        },
{
    reveal(Seq::filter);
    assert(list.push(t).drop_last() =~= list);
    let cut = |t: Seq<char>| t.drop_first();
    let neg = |t: Seq<char>| is_negated(t);
    assert(list.filter(neg).push(t).map_values(cut) =~= list.filter(neg).map_values(cut).push(
        t.drop_first(),
    ));
}

proof fn lemma_in_and_out_empty()
    ensures
        in_and_out(Seq::empty()).included == Seq::<Seq<char>>::empty(),
        in_and_out(Seq::empty()).excluded == Seq::<Seq<char>>::empty(),
{
    reveal(Seq::filter);
    let none = Seq::<Seq<char>>::empty();
    assert(in_and_out(none).included =~= none);
    assert(in_and_out(none).excluded =~= none);
}

/// Reads a `$dnstype=` value.
fn parse_dnstype(value: &[char]) -> (r: Result<DnsTypeFilter, ParseError>)
    ensures
        match r {
            Ok(f) => dnstype_of(value@) == Ok::<_, ErrorView>(f@),
            Err(e) => dnstype_of(value@) == Err::<ListsView, _>(e@),
        },
{
    let list: Vec<&[char]> = split_entries(value);
    if list.len() == 0 {
        return Err(ParseError::Invalid("$dnstype requires at least one record type".to_owned()));
    }
    let ghost all = text::slices(list@);
    let ghost up = |t: Seq<char>| text::uppered(t);
    let mut f: DnsTypeFilter = DnsTypeFilter::default();
    let mut i: usize = 0;
    proof {
        lemma_in_and_out_empty();
        assert(all.take(0) =~= Seq::empty());
        assert(f@.included =~= in_and_out(all.take(0)).included.map_values(up));
        assert(f@.excluded =~= in_and_out(all.take(0)).excluded.map_values(up));
    }
    while i < list.len()
        invariant
            i <= list@.len(),
            all == text::slices(list@),
            up == (|t: Seq<char>| text::uppered(t)),
            f@.included == in_and_out(all.take(i as int)).included.map_values(up),
            f@.excluded == in_and_out(all.take(i as int)).excluded.map_values(up),
        decreases list@.len() - i,
    {
        let t: &[char] = list[i];
        let ghost before = f@;
        assert(t@ == all[i as int]);
        proof {
            assert(all.take(i + 1) =~= all.take(i as int).push(t@));
            lemma_in_and_out_push(all.take(i as int), t@);
        }
        if t.len() > 0 && t[0] == '~' {
            let rest: &[char] = part(t, 1, t.len());
            assert(rest@ =~= t@.drop_first());
            f.excluded.push(string_of(upper_chars(rest).as_slice()));
            assert(f@.excluded =~= before.excluded.push(text::uppered(rest@)));
            assert(f@.excluded =~= in_and_out(all.take(i + 1)).excluded.map_values(up));
        } else {
            f.included.push(string_of(upper_chars(t).as_slice()));
            assert(f@.included =~= before.included.push(text::uppered(t@)));
            assert(f@.included =~= in_and_out(all.take(i + 1)).included.map_values(up));
        }
        i = i + 1;
    }
    assert(all.take(i as int) =~= all);
    Ok(f)
}

/// Reads a `$ctag=` value.
fn parse_ctag(value: &[char]) -> (r: Result<CtagFilter, ParseError>)
    ensures
        match r {
            Ok(f) => ctag_of(value@) == Ok::<_, ErrorView>(f@),
            Err(e) => ctag_of(value@) == Err::<ListsView, _>(e@),
        },
{
    let list: Vec<&[char]> = split_entries(value);
    if list.len() == 0 {
        return Err(ParseError::Invalid("$ctag requires at least one tag".to_owned()));
    }
    let ghost all = text::slices(list@);
    let mut f: CtagFilter = CtagFilter::default();
    let mut i: usize = 0;
    proof {
        lemma_in_and_out_empty();
        assert(all.take(0) =~= Seq::empty());
        assert(f@.included =~= in_and_out(all.take(0)).included);
        assert(f@.excluded =~= in_and_out(all.take(0)).excluded);
    }
    while i < list.len()
        invariant
            i <= list@.len(),
            all == text::slices(list@),
            f@.included == in_and_out(all.take(i as int)).included,
            f@.excluded == in_and_out(all.take(i as int)).excluded,
        decreases list@.len() - i,
    {
        let t: &[char] = list[i];
        let ghost before = f@;
        assert(t@ == all[i as int]);
        proof {
            assert(all.take(i + 1) =~= all.take(i as int).push(t@));
            lemma_in_and_out_push(all.take(i as int), t@);
        }
        if t.len() > 0 && t[0] == '~' {
            let rest: &[char] = part(t, 1, t.len());
            assert(rest@ =~= t@.drop_first());
            f.excluded.push(string_of(rest));
            assert(f@.excluded =~= before.excluded.push(rest@));
        } else {
            f.included.push(string_of(t));
            assert(f@.included =~= before.included.push(t@));
        }
        i = i + 1;
    }
    assert(all.take(i as int) =~= all);
    Ok(f)
}

/// Reads one client of a `$client=` value.
fn parse_client_entry(t: &[char]) -> (r: ClientMatch)
    ensures
        r@ == client_of_text(t@),
{
    // Strip surrounding quotes used for names with special chars.
    let a: &[char] = trim_end_char(trim_start_char(t, '"'), '"');
    let spec_chars: &[char] = trim_end_char(trim_start_char(a, '\''), '\'');
    let name: String = string_of(spec_chars);
    match IpNet::parse(name.as_str()) {
        Some(net) => ClientMatch::Net(net),
        None => match IpAddr::parse(name.as_str()) {
            Some(ip) => ClientMatch::Ip(ip),
            None => ClientMatch::Name(name),
        },
    }
}

/// Reads a `$client=` value.
fn parse_client(value: &[char]) -> (r: Result<ClientFilter, ParseError>)
    ensures
        match r {
            Ok(f) => client_filter_of(value@) == Ok::<_, ErrorView>(f@),
            Err(e) => client_filter_of(value@) == Err::<ClientFilterView, _>(e@),
        },
{
    let list: Vec<&[char]> = split_entries(value);
    if list.len() == 0 {
        return Err(ParseError::Invalid("$client requires at least one client".to_owned()));
    }
    let ghost all = text::slices(list@);
    let ghost read = |t: Seq<char>| client_of_text(t);
    let mut f: ClientFilter = ClientFilter::default();
    let mut i: usize = 0;
    proof {
        lemma_in_and_out_empty();
        assert(all.take(0) =~= Seq::empty());
        assert(f@.included =~= in_and_out(all.take(0)).included.map_values(read));
        assert(f@.excluded =~= in_and_out(all.take(0)).excluded.map_values(read));
    }
    while i < list.len()
        invariant
            i <= list@.len(),
            all == text::slices(list@),
            read == (|t: Seq<char>| client_of_text(t)),
            f@.included == in_and_out(all.take(i as int)).included.map_values(read),
            f@.excluded == in_and_out(all.take(i as int)).excluded.map_values(read),
        decreases list@.len() - i,
    {
        let t: &[char] = list[i];
        let ghost before = f@;
        assert(t@ == all[i as int]);
        proof {
            assert(all.take(i + 1) =~= all.take(i as int).push(t@));
            lemma_in_and_out_push(all.take(i as int), t@);
        }
        if t.len() > 0 && t[0] == '~' {
            let rest: &[char] = part(t, 1, t.len());
            assert(rest@ =~= t@.drop_first());
            f.excluded.push(parse_client_entry(rest));
            assert(f@.excluded =~= before.excluded.push(client_of_text(rest@)));
            assert(f@.excluded =~= in_and_out(all.take(i + 1)).excluded.map_values(read));
        } else {
            f.included.push(parse_client_entry(t));
            assert(f@.included =~= before.included.push(client_of_text(t@)));
            assert(f@.included =~= in_and_out(all.take(i + 1)).included.map_values(read));
        }
        i = i + 1;
    }
    assert(all.take(i as int) =~= all);
    Ok(f)
}

/// Reads a `$denyallow=` value. An empty one would silently change the rule's
/// meaning, so it is rejected.
fn parse_denyallow(value: &[char]) -> (r: Result<Vec<String>, ParseError>)
    ensures
        match r {
            Ok(d) => denyallow_of(value@) == Ok::<_, ErrorView>(text::texts(d@)),
            Err(e) => denyallow_of(value@) == Err::<Seq<Seq<char>>, _>(e@),
        },
{
    let list: Vec<&[char]> = split_entries(value);
    if list.len() == 0 {
        return Err(ParseError::Invalid("$denyallow requires at least one domain".to_owned()));
    }
    let ghost all = text::slices(list@);
    let ghost make = |t: Seq<char>| norm(t);
    let mut d: Vec<String> = Vec::new();
    let mut i: usize = 0;
    assert(text::texts(d@) =~= all.take(0).map_values(make));
    while i < list.len()
        invariant
            i <= list@.len(),
            all == text::slices(list@),
            make == (|t: Seq<char>| norm(t)),
            text::texts(d@) == all.take(i as int).map_values(make),
        decreases list@.len() - i,
    {
        let ghost before = d@;
        d.push(string_of(norm_domain(list[i]).as_slice()));
        assert(all[i as int] == list@[i as int]@);
        assert(text::texts(d@) =~= text::texts(before).push(norm(all[i as int])));
        assert(text::texts(d@) =~= all.take(i + 1).map_values(make));
        i = i + 1;
    }
    assert(all.take(i as int) =~= all);
    Ok(d)
}

/// An error that quotes the offending text.
fn invalid_with(what: &str, data: &[char]) -> (r: ParseError)
    ensures
        r@ == ErrorView::Invalid(what@ + data@),
{
    let mut e: String = what.to_owned();
    append_chars(&mut e, data);
    ParseError::Invalid(e)
}

/// Reads the value of a full-form rewrite; `None` for a record type that is
/// not synthesized.
fn parse_typed_rewrite(rtype: &[char], data: &[char]) -> (r: Option<
    Result<RewriteData, ParseError>,
>)
    ensures
        match r {
            Some(Ok(d)) => typed_rewrite(rtype@, data@) == Some(Ok::<_, ErrorView>(d@)),
            Some(Err(e)) => typed_rewrite(rtype@, data@) == Some(Err::<RewriteView, _>(e@)),
            None => typed_rewrite(rtype@, data@) is None,
        },
{
    let upper: Vec<char> = upper_chars(rtype);
    let t: &[char] = upper.as_slice();
    if is_text(t, "A") {
        return Some(
            match Ipv4Addr::parse(string_of(data).as_str()) {
                Some(ip) => Ok(RewriteData::A(ip)),
                None => Err(invalid_with("bad A in dnsrewrite: ", data)),
            },
        );
    }
    if is_text(t, "AAAA") {
        return Some(
            match Ipv6Addr::parse(string_of(data).as_str()) {
                Some(ip) => Ok(RewriteData::Aaaa(ip)),
                None => Err(invalid_with("bad AAAA in dnsrewrite: ", data)),
            },
        );
    }
    if is_text(t, "CNAME") {
        return Some(Ok(RewriteData::Cname(string_of(norm_domain(data).as_slice()))));
    }
    if is_text(t, "TXT") {
        let bare: &[char] = trim_end_char(trim_start_char(data, '"'), '"');
        return Some(Ok(RewriteData::Txt(string_of(bare))));
    }
    if is_text(t, "PTR") {
        return Some(Ok(RewriteData::Ptr(string_of(norm_domain(data).as_slice()))));
    }
    if is_text(t, "MX") {
        // `<preference> <exchange>`, e.g. `10 mail.example.com`.
        let words: Vec<&[char]> = split_words(data);
        assert(forall|i: int|
            0 <= i < words@.len() ==> #[trigger] text::slices(words@)[i] == words@[i]@);
        if words.len() < 2 {
            return Some(Err(invalid_with("bad MX in dnsrewrite: ", data)));
        }
        return Some(
            match parse_number(words[0], 65535) {
                Some(n) => Ok(
                    RewriteData::Mx {
                        preference: n as u16,
                        exchange: string_of(norm_domain(words[1]).as_slice()),
                    },
                ),
                None => Err(invalid_with("bad MX in dnsrewrite: ", data)),
            },
        );
    }
    None
}

/// Reads a response code keyword.
fn parse_rcode(v: &[char]) -> (r: Option<RewriteRcode>)
    ensures
        r == rcode_of(v@),
{
    let upper: Vec<char> = upper_chars(v);
    let u: &[char] = upper.as_slice();
    if is_text(u, "NOERROR") {
        Some(RewriteRcode::NoError)
    } else if is_text(u, "NXDOMAIN") {
        Some(RewriteRcode::NxDomain)
    } else if is_text(u, "REFUSED") {
        Some(RewriteRcode::Refused)
    } else if is_text(u, "SERVFAIL") {
        Some(RewriteRcode::ServFail)
    } else {
        None
    }
}

/// Reads a `$dnsrewrite=` value.
fn parse_dnsrewrite(value: &[char]) -> (r: Result<RewriteData, ParseError>)
    ensures
        match r {
            Ok(d) => rewrite_of(value@) == Ok::<_, ErrorView>(d@),
            Err(e) => rewrite_of(value@) == Err::<RewriteView, _>(e@),
        },
{
    let v: &[char] = trim_chars(value);
    // Keyword response codes (short form).
    if let Some(c) = parse_rcode(v) {
        return Ok(RewriteData::Rcode(c));
    }
    // Short-form bare address.
    if let Some(ip) = parse_ip(v) {
        return Ok(ip_rewrite(ip));
    }
    // Full form: `RCODE;TYPE;VALUE` (e.g. `NOERROR;A;1.2.3.4`).
    let n: usize = v.len();
    let i: usize = find_char(v, ';', 0);
    if i < n {
        let j: usize = find_char(v, ';', i + 1);
        if j < n {
            let rtype: &[char] = part(v, i + 1, j);
            let data: &[char] = part(v, j + 1, n);
            assert(data@ =~= v@.skip(j + 1));
            if let Some(r) = parse_typed_rewrite(rtype, data) {
                return r;
            }
        }
    }
    // Bare CNAME target (a hostname).
    if has_char(v, '.') && !has_char(v, ';') {
        return Ok(RewriteData::Cname(string_of(norm_domain(v).as_slice())));
    }
    Err(invalid_with("unsupported dnsrewrite: ", value))
}

/// The modifiers of a rule while they are read.
struct ReadMods {
    action: Action,
    badfilter: bool,
    mods: RuleMods,
}

impl ReadMods {
    spec fn state(self) -> ModsState {
        ModsState { action: self.action, badfilter: self.badfilter, mods: self.mods@ }
    }
}

/// Why the modifiers of a rule were not read to the end.
enum Stop {
    Unsupported,
    Failed(ParseError),
}

/// Reads one modifier.
fn read_modifier(st: &mut ReadMods, t: &[char]) -> (r: Result<(), Stop>)
    ensures
        match r {
            Ok(()) => apply_modifier(old(st).state(), t@) == ModsOutcome::Read(final(st).state()),
            Err(Stop::Unsupported) => apply_modifier(old(st).state(), t@) is Unsupported,
            Err(Stop::Failed(e)) => apply_modifier(old(st).state(), t@) == ModsOutcome::Failed(e@),
        },
{
    let n: usize = t.len();
    let eq: usize = find_char(t, '=', 0);
    let key: &[char] = part(t, 0, eq);
    let value: &[char] = part(t, if eq < n { eq + 1 } else { n }, n);
    assert(key@ =~= modifier_key(t@));
    assert(value@ =~= modifier_value(t@));
    if is_text(key, "important") {
        st.mods.important = true;
    } else if is_text(key, "badfilter") {
        st.badfilter = true;
    } else if is_text(key, "dnstype") {
        match parse_dnstype(value) {
            Ok(f) => {
                st.mods.dnstype = Some(f);
            },
            Err(e) => {
                return Err(Stop::Failed(e));
            },
        }
    } else if is_text(key, "client") {
        match parse_client(value) {
            Ok(f) => {
                st.mods.client = Some(f);
            },
            Err(e) => {
                return Err(Stop::Failed(e));
            },
        }
    } else if is_text(key, "ctag") {
        match parse_ctag(value) {
            Ok(f) => {
                st.mods.ctag = Some(f);
            },
            Err(e) => {
                return Err(Stop::Failed(e));
            },
        }
    } else if is_text(key, "denyallow") {
        match parse_denyallow(value) {
            Ok(d) => {
                st.mods.denyallow = d;
            },
            Err(e) => {
                return Err(Stop::Failed(e));
            },
        }
    } else if is_text(key, "dnsrewrite") {
        match parse_dnsrewrite(value) {
            Ok(d) => {
                st.mods.rewrite = Some(d);
                if st.action == Action::Block {
                    st.action = Action::Rewrite;
                }
            },
            Err(e) => {
                return Err(Stop::Failed(e));
            },
        }
    } else {
        // HTTP and cosmetic modifiers are irrelevant to DNS filtering; skip
        // the whole rule rather than match it incorrectly.
        return Err(Stop::Unsupported);
    }
    Ok(())
}

/// A failure among the first modifiers decides for the whole list.
proof fn lemma_modifiers_stop(st: ModsState, list: Seq<Seq<char>>, m: int)
    requires
        0 <= m <= list.len(),
        !(apply_modifiers(st, list.take(m)) is Read),
    ensures
        apply_modifiers(st, list) == apply_modifiers(st, list.take(m)),
    decreases list.len(),
{
    if m < list.len() {
        assert(list.drop_last().take(m) =~= list.take(m));
        lemma_modifiers_stop(st, list.drop_last(), m);
    } else {
        assert(list.take(m) =~= list);
    }
}

/// Parses an AdBlock-style line.
fn parse_adblock(line: &[char]) -> (r: Result<Parsed, ParseError>)
    ensures
        match r {
            Ok(p) => adblock_of(line@) == Ok::<_, ErrorView>(p@),
            Err(e) => adblock_of(line@) == Err::<ParsedView, _>(e@),
        },
{
    let allow: bool = starts_with(line, "@@");
    proof {
        reveal_strlit("@@");
    }
    let body: &[char] = part(line, if allow { 2 } else { 0 }, line.len());
    assert(body@ =~= if allow { line@.skip(2) } else { line@ });
    let (untrimmed, mods_chars): (&[char], Option<&[char]>) = split_modifiers(body);
    let ghost mods_text = modifiers_of(body@).1;
    let pattern_chars: &[char] = trim_chars(untrimmed);
    if pattern_chars.len() == 0 {
        return Err(ParseError::Invalid("empty pattern".to_owned()));
    }
    let list: Vec<&[char]> = split_modifier_list(mods_chars);
    let ghost all = text::slices(list@);
    assert(all == modifier_list(mods_text));
    // The canonical signature pairs the rule with `$badfilter` rules.
    let signature: String = make_signature(
        if allow {
            Action::Allow
        } else {
            Action::Block
        },
        pattern_chars,
        mods_chars,
    );
    assert(signature@ == signature_of(allow, pattern_chars@, mods_text));
    let (pattern, index_tokens): (Pattern, Vec<u32>) = match parse_pattern(pattern_chars) {
        Ok(x) => x,
        Err(e) => {
            return Err(e);
        },
    };
    let mut st: ReadMods = ReadMods {
        action: if allow { Action::Allow } else { Action::Block },
        badfilter: false,
        mods: RuleMods::default(),
    };
    let ghost start = st.state();
    let ghost view = pattern@;
    let ghost tokens = index_tokens@;
    let mut i: usize = 0;
    while i < list.len()
        invariant
            i <= list@.len(),
            all == text::slices(list@),
            apply_modifiers(start, all.take(i as int)) == ModsOutcome::Read(st.state()),
            start == (ModsState {
                action: if allow { Action::Allow } else { Action::Block },
                badfilter: false,
                mods: rule::no_mods(),
            }),
            all == modifier_list(mods_text),
            allow == text::has_prefix(line@, "@@"@),
            body@ == if allow { line@.skip(2) } else { line@ },
            mods_text == modifiers_of(body@).1,
            pattern_chars@ == text::trim(modifiers_of(body@).0),
            pattern_chars@.len() > 0,
            pattern_of(pattern_chars@) == Ok::<_, ErrorView>((view, tokens)),
        decreases list@.len() - i,
    {
        let t: &[char] = list[i];
        proof {
            assert(all.take(i + 1).drop_last() =~= all.take(i as int));
            assert(all.take(i + 1).last() == t@);
        }
        match read_modifier(&mut st, t) {
            Ok(()) => {},
            Err(Stop::Unsupported) => {
                proof {
                    lemma_modifiers_stop(start, all, i + 1);
                }
                return Ok(Parsed::Unsupported(string_of(line)));
            },
            Err(Stop::Failed(e)) => {
                proof {
                    lemma_modifiers_stop(start, all, i + 1);
                }
                return Err(e);
            },
        }
        i = i + 1;
    }
    assert(all.take(i as int) =~= all);
    let mods: Option<Box<RuleMods>> = if st.mods.is_empty() {
        None
    } else {
        Some(Box::new(st.mods))
    };
    let built: BuildRule = BuildRule {
        rule: Rule { raw: string_of(line), action: st.action, pattern, mods, list_id: 0 },
        badfilter: st.badfilter,
        signature,
        index_tokens,
    };
    let mut rules: Vec<BuildRule> = Vec::new();
    rules.push(built);
    assert(rule::build_views(rules@) =~= seq![built@]);
    Ok(Parsed::Rules(rules))
}

/// Parses one line, given as characters, into zero or more rules.
pub(crate) fn parse_chars(untrimmed: &[char]) -> (r: Result<Parsed, ParseError>)
    ensures
        match r {
            Ok(p) => parsed(untrimmed@) == Ok::<_, ErrorView>(p@),
            Err(e) => parsed(untrimmed@) == Err::<ParsedView, _>(e@),
        },
{
    let line: &[char] = trim_chars(untrimmed);
    // Blank lines, comments and list headers.
    if line.len() == 0 || line[0] == '!' || line[0] == '#' || line[0] == '[' {
        return Ok(Parsed::Ignored);
    }
    // Try the hosts-file format first (an address, white space, hosts).
    if let Some(rules) = try_parse_hosts(line) {
        return Ok(
            if rules.len() == 0 {
                Parsed::Ignored
            } else {
                Parsed::Rules(rules)
            },
        );
    }
    // Cosmetic and HTML-filtering rules act on page content, never on DNS
    // names. Checked after hosts parsing so that a `##` comment on a hosts line
    // isn't mistaken for a cosmetic marker.
    if is_cosmetic(line) {
        return Ok(Parsed::Unsupported(string_of(line)));
    }
    parse_adblock(line)
}

/// Parse one line into zero or more rules.
pub fn parse_line(line: &str) -> (r: Result<Parsed, ParseError>)
    ensures
        match r {
            Ok(p) => parsed(line@) == Ok::<_, ErrorView>(p@),
            Err(e) => parsed(line@) == Err::<ParsedView, _>(e@),
        },
{
    let chars: Vec<char> = chars_of(line);
    parse_chars(chars.as_slice())
}

/// Reading modifiers keeps a rewrite together with its answer.
proof fn lemma_modifiers_complete(st: ModsState, list: Seq<Seq<char>>)
    requires
        st.action == Action::Rewrite ==> st.mods.rewrite is Some,
    ensures
        apply_modifiers(st, list) matches ModsOutcome::Read(end) ==> (end.action == Action::Rewrite
            ==> end.mods.rewrite is Some),
    decreases list.len(),
{
    if list.len() > 0 {
        lemma_modifiers_complete(st, list.drop_last());
    }
}

/// Every rewrite rule that a line gives says what to answer.
pub proof fn lemma_parsed_complete(line: Seq<char>)
    ensures
        parsed(line) matches Ok(ParsedView::Rules(rules)) ==> forall|i: int|
            0 <= i < rules.len() ==> ((#[trigger] rules[i]).rule.action == Action::Rewrite ==> (
            rules[i].rule.mods matches Some(m) && m.rewrite is Some)),
{
    let l = text::trim(line);
    let allow = text::has_prefix(l, "@@"@);
    let (_, mods) = modifiers_of(if allow { l.skip(2) } else { l });
    lemma_modifiers_complete(
        ModsState {
            action: if allow { Action::Allow } else { Action::Block },
            badfilter: false,
            mods: rule::no_mods(),
        },
        modifier_list(mods),
    );
}

} // verus!
