//! The HTTP version of DNS-over-HTTPS.
//!
//! * `https://` negotiates HTTP/1.1 and HTTP/2, and upgrades to HTTP/3 once the
//!   server advertises it in an `Alt-Svc: h3=...` header. The advertisement is
//!   kept for its max-age (`ma=`), so that later queries go over HTTP/3 at once.
//! * `h3://` is HTTP/3 from the first packet, without discovery.

use vstd::prelude::*;

use crate::text;
use crate::text::{
    append_decimal, chars_of, find_char, is_text, lower_chars, parse_number, part, split_chars,
    starts_with, trim_chars,
};
use crate::upstream::spec;
use crate::upstream::spec::UpstreamSpec;

verus! {

/// Default Alt-Svc lifetime in seconds when the advertisement omits `ma=`
/// (RFC 7838 §3.1).
pub const DEFAULT_ALT_SVC_MA: u64 = 86_400;

/// What an `Alt-Svc` response header tells us about HTTP/3 availability.
#[derive(Debug, Clone, Copy, PartialEq, Eq, Structural)]
pub enum AltSvcH3 {
    /// An `h3` (or `h3-NN`) alternative is offered, valid for so many seconds.
    Found(u64),
    /// `Alt-Svc: clear`: drop any kept alternative.
    Clear,
    /// No HTTP/3 information; what is kept stays.
    Absent,
}

/// The protocol id of an entry: what stands before its first `=`.
pub open spec fn entry_id(entry: Seq<char>) -> Seq<char> {
    let proto = text::trim(text::split(entry, ';')[0]);
    text::trim(proto.take(text::find(proto, '=')))
}

/// Whether an entry offers HTTP/3, final or draft.
pub open spec fn offers_h3(entry: Seq<char>) -> bool {
    entry_id(entry) == "h3"@ || text::has_prefix(entry_id(entry), "h3-"@)
}

/// The value of the first `ma` among the parameters from the `i`-th on.
pub open spec fn first_ma(params: Seq<Seq<char>>, i: int) -> Option<Seq<char>>
    decreases params.len() - i,
{
    if i < 0 || i >= params.len() {
        None
    } else if text::has_prefix(text::trim(params[i]), "ma="@) {
        Some(text::trim(params[i]).skip(3))
    } else {
        first_ma(params, i + 1)
    }
}

/// How many seconds an entry is valid for.
pub open spec fn max_age(entry: Seq<char>) -> u64 {
    match first_ma(text::split(entry, ';'), 1) {
        None => DEFAULT_ALT_SVC_MA,
        Some(ma) => match text::number_of_text(text::trim(ma), u64::MAX as nat) {
            None => DEFAULT_ALT_SVC_MA,
            Some(secs) => secs as u64,
        },
    }
}

/// What the first entry that offers HTTP/3, from the `i`-th on, says.
pub open spec fn first_h3(entries: Seq<Seq<char>>, i: int) -> AltSvcH3
    decreases entries.len() - i,
{
    if i < 0 || i >= entries.len() {
        AltSvcH3::Absent
    } else if offers_h3(entries[i]) {
        AltSvcH3::Found(max_age(entries[i]))
    } else {
        first_h3(entries, i + 1)
    }
}

/// What a header value says: `clear` in any case retracts all alternatives,
/// otherwise the first of the comma-separated entries that offers HTTP/3 counts.
pub open spec fn alt_svc_of(value: Seq<char>) -> AltSvcH3 {
    let v = text::trim(value);
    if text::lowered(v) == "clear"@ {
        AltSvcH3::Clear
    } else {
        first_h3(text::split(v, ','), 0)
    }
}

fn id_is_h3(entry: &[char], params: &Vec<&[char]>) -> (r: bool)
    requires
        text::slices(params@) == text::split(entry@, ';'),
        params@.len() > 0,
    ensures
        r == offers_h3(entry@),
{
    assert(text::slices(params@)[0] == params@[0]@);
    let proto: &[char] = trim_chars(params[0]);
    let eq: usize = find_char(proto, '=', 0);
    let before: &[char] = part(proto, 0, eq);
    assert(before@ =~= proto@.take(eq as int));
    let id: &[char] = trim_chars(before);
    is_text(id, "h3") || starts_with(id, "h3-")
}

fn entry_max_age(entry: &[char], params: &Vec<&[char]>) -> (r: u64)
    requires
        text::slices(params@) == text::split(entry@, ';'),
        params@.len() > 0,
    ensures
        r == max_age(entry@),
{
    let mut i: usize = 1;
    while i < params.len()
        invariant
            1 <= i <= params@.len(),
            text::slices(params@) == text::split(entry@, ';'),
            first_ma(text::slices(params@), 1) == first_ma(text::slices(params@), i as int),
        decreases params@.len() - i,
    {
        assert(text::slices(params@)[i as int] == params@[i as int]@);
        let p: &[char] = trim_chars(params[i]);
        if starts_with(p, "ma=") {
            proof {
                reveal_strlit("ma=");
            }
            let ma: &[char] = part(p, 3, p.len());
            assert(ma@ =~= p@.skip(3));
            return match parse_number(trim_chars(ma), u64::MAX) {
                Some(secs) => secs,
                None => DEFAULT_ALT_SVC_MA,
            };
        }
        i = i + 1;
    }
    DEFAULT_ALT_SVC_MA
}

/// Parse an `Alt-Svc` header value for an HTTP/3 alternative.
///
/// Examples: `h3=":443"; ma=2592000,h3-29=":443"; ma=2592000` advertises HTTP/3;
/// `clear` retracts all alternatives.
pub fn parse_alt_svc_h3(value: &str) -> (r: AltSvcH3)
    ensures
        r == alt_svc_of(value@),
{
    let chars: Vec<char> = chars_of(value);
    let v: &[char] = trim_chars(chars.as_slice());
    let small: Vec<char> = lower_chars(v);
    if is_text(small.as_slice(), "clear") {
        return AltSvcH3::Clear;
    }
    let entries: Vec<&[char]> = split_chars(v, ',');
    let mut i: usize = 0;
    while i < entries.len()
        invariant
            i <= entries@.len(),
            v@ == text::trim(value@),
            text::lowered(v@) != "clear"@,
            text::slices(entries@) == text::split(v@, ','),
            first_h3(text::slices(entries@), 0) == first_h3(text::slices(entries@), i as int),
        decreases entries@.len() - i,
    {
        assert(text::slices(entries@)[i as int] == entries@[i as int]@);
        let entry: &[char] = entries[i];
        let params: Vec<&[char]> = split_chars(entry, ';');
        if id_is_h3(entry, &params) {
            return AltSvcH3::Found(entry_max_age(entry, &params));
        }
        i = i + 1;
    }
    AltSvcH3::Absent
}

/// HTTP/3 strategy for a DoH upstream. The discovery state only exists where it
/// can be used: forced HTTP/3 never negotiates.
#[derive(Debug, Clone, Copy, PartialEq, Eq, Structural)]
pub enum H3Mode {
    /// Pinned to HTTP/3: no Alt-Svc discovery, no fallback.
    Forced,
    /// Negotiated: when an advertised HTTP/3 alternative stops being trusted,
    /// in milliseconds. `None` means there is no current advertisement.
    Auto { until: Option<u64> },
}

/// The client that a DoH request goes through.
#[derive(Debug, Clone, Copy, PartialEq, Eq, Structural)]
pub enum Exchange {
    /// HTTP/1.1 and HTTP/2; also the discovery path for HTTP/3.
    Http12,
    Http3,
}

/// A point in time so many seconds after `now_ms`, as far as the clock goes.
pub open spec fn expiry(now_ms: u64, secs: u64) -> u64 {
    if now_ms + secs * 1000 > u64::MAX {
        u64::MAX
    } else {
        (now_ms + secs * 1000) as u64
    }
}

/// A strategy after what a response said.
pub open spec fn learned(mode: H3Mode, decision: AltSvcH3, now_ms: u64) -> H3Mode {
    match (mode, decision) {
        (H3Mode::Auto { .. }, AltSvcH3::Found(ma)) => H3Mode::Auto {
            until: Some(expiry(now_ms, ma)),
        },
        (H3Mode::Auto { .. }, AltSvcH3::Clear) => H3Mode::Auto { until: None },
        _ => mode,
    }
}

/// What a query goes through first.
pub open spec fn first_of(mode: H3Mode, now_ms: u64) -> Exchange {
    match mode {
        H3Mode::Forced => Exchange::Http3,
        H3Mode::Auto { until: Some(t) } => if t > now_ms {
            Exchange::Http3
        } else {
            Exchange::Http12
        },
        H3Mode::Auto { until: None } => Exchange::Http12,
    }
}

/// A strategy after a failed exchange, and what is tried next.
pub open spec fn failed_over(mode: H3Mode, tried: Exchange) -> (H3Mode, Option<Exchange>) {
    match (mode, tried) {
        (H3Mode::Auto { .. }, Exchange::Http3) => (
            H3Mode::Auto { until: None },
            Some(Exchange::Http12),
        ),
        _ => (mode, None),
    }
}

impl H3Mode {
    /// The strategy that a spec asks for.
    pub fn new(spec: &UpstreamSpec) -> (r: H3Mode)
        ensures
            r == (if spec@.force_http3 { H3Mode::Forced } else { H3Mode::Auto { until: None } }),
    {
        if spec.force_http3 {
            H3Mode::Forced
        } else {
            H3Mode::Auto { until: None }
        }
    }

    /// Whether a previously advertised HTTP/3 alternative is still within its
    /// max-age. Always false in forced mode (it never negotiates).
    pub fn h3_fresh(&self, now_ms: u64) -> (r: bool)
        ensures
            r == match *self {
                H3Mode::Auto { until: Some(t) } => t > now_ms,
                _ => false,
            },
    {
        match self {
            H3Mode::Auto { until: Some(t) } => *t > now_ms,
            _ => false,
        }
    }

    /// Record (or clear) an HTTP/3 alternative learned from a response. No-op in
    /// forced mode, which has no discovery state.
    pub fn learn_alt_svc(&mut self, decision: AltSvcH3, now_ms: u64)
        ensures
            *final(self) == learned(*old(self), decision, now_ms),
    {
        if let H3Mode::Auto { until: _ } = *self {
            match decision {
                AltSvcH3::Found(ma) => {
                    let end: u128 = now_ms as u128 + ma as u128 * 1000;
                    let t: u64 = if end > u64::MAX as u128 {
                        u64::MAX
                    } else {
                        end as u64
                    };
                    *self = H3Mode::Auto { until: Some(t) };
                },
                AltSvcH3::Clear => {
                    *self = H3Mode::Auto { until: None };
                },
                AltSvcH3::Absent => {},
            }
        }
    }

    /// The client that a query goes through first: HTTP/3 where it is forced or
    /// a fresh advertisement stands.
    pub fn first_exchange(&self, now_ms: u64) -> (r: Exchange)
        ensures
            r == first_of(*self, now_ms),
    {
        match self {
            H3Mode::Forced => Exchange::Http3,
            _ => if self.h3_fresh(now_ms) {
                Exchange::Http3
            } else {
                Exchange::Http12
            },
        }
    }

    /// What follows a failed exchange: after an HTTP/3 attempt that was not
    /// forced the advertisement is forgotten and HTTP/1.1 and HTTP/2 are tried;
    /// any other failure is the query's.
    pub fn after_failure(&mut self, tried: Exchange) -> (r: Option<Exchange>)
        ensures
            (*final(self), r) == failed_over(*old(self), tried),
    {
        match (*self, tried) {
            (H3Mode::Auto { until: _ }, Exchange::Http3) => {
                self.learn_alt_svc(AltSvcH3::Clear, 0);
                Some(Exchange::Http12)
            },
            _ => None,
        }
    }
}

impl Exchange {
    /// Whether a response to such a request is searched for an `Alt-Svc` header.
    pub fn learns(self) -> (r: bool)
        ensures
            r == (self == Exchange::Http12),
    {
        match self {
            Exchange::Http12 => true,
            Exchange::Http3 => false,
        }
    }
}

/// The URL that DNS queries are posted to.
pub open spec fn doh_url_text(v: spec::SpecView) -> Seq<char> {
    "https://"@ + spec::host_text(v.host) + ":"@ + text::decimal(v.port as nat) + v.path
}

/// The URL that DNS queries are posted to.
pub fn doh_url(spec: &UpstreamSpec) -> (r: String)
    ensures
        r@ == doh_url_text(spec@),
{
    let host: String = spec.server_name();
    let mut url: String = "https://".to_owned().concat(host.as_str()).concat(":");
    append_decimal(&mut url, spec.port as u64);
    url.concat(spec.path.as_str())
}

/// An advertisement is trusted from when it was learned on, for its max-age and
/// no longer.
pub proof fn law_advertisement_lasts(now_ms: u64, secs: u64, later_ms: u64)
    requires
        now_ms + secs * 1000 <= u64::MAX,
        now_ms <= later_ms,
    ensures
        later_ms < expiry(now_ms, secs) <==> later_ms - now_ms < secs * 1000,
{
}

} // verus!
