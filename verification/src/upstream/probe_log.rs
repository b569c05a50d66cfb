//! Upstream probe events, and which of them are offered to their writer.

use vstd::prelude::*;

use crate::text::same_text;
use crate::upstream::error::{ErrorView, UpstreamError};
use crate::upstream::spec::TransportKind;

verus! {

/// Outcome of one upstream probe.
#[derive(Debug, Clone, Copy, PartialEq, Eq, Structural)]
pub enum ProbeOutcome {
    /// A usable answer to `NS .`: counts as a latency success and feeds the
    /// routing latency.
    Answer,
    /// Reachable but refused the query (REFUSED/NOTIMP): an upstream-level fault.
    Reject,
    /// A SERVFAIL or FORMERR response.
    SoftFail,
    /// No response within the query timeout.
    Timeout,
    /// A transport-level error (connect/TLS/IO).
    Error,
    /// The first shot answered, the second one, which is timed, did not.
    MeasureFail,
}

/// The label under which an outcome is stored.
pub open spec fn outcome_label(o: ProbeOutcome) -> Seq<char> {
    match o {
        ProbeOutcome::Answer => "answer"@,
        ProbeOutcome::Reject => "reject"@,
        ProbeOutcome::SoftFail => "soft_fail"@,
        ProbeOutcome::Timeout => "timeout"@,
        ProbeOutcome::Error => "error"@,
        ProbeOutcome::MeasureFail => "measure_fail"@,
    }
}

/// The outcome that a label stands for; unknown labels stand for `Error`.
pub open spec fn outcome_of_label(s: Seq<char>) -> ProbeOutcome {
    if s == "answer"@ {
        ProbeOutcome::Answer
    } else if s == "reject"@ {
        ProbeOutcome::Reject
    } else if s == "soft_fail"@ {
        ProbeOutcome::SoftFail
    } else if s == "timeout"@ {
        ProbeOutcome::Timeout
    } else if s == "measure_fail"@ {
        ProbeOutcome::MeasureFail
    } else {
        ProbeOutcome::Error
    }
}

/// What is stored as a label is read back as the same outcome.
pub proof fn law_outcome_label_round_trip(o: ProbeOutcome)
    ensures
        outcome_of_label(outcome_label(o)) == o,
{
    reveal_strlit("answer");
    reveal_strlit("reject");
    reveal_strlit("soft_fail");
    reveal_strlit("timeout");
    reveal_strlit("error");
    reveal_strlit("measure_fail");
    let label = outcome_label(o);
    assert(label.len() > 0);
    let first = label[0];
    assert("answer"@[0] == 'a');
    assert("reject"@[0] == 'r');
    assert("soft_fail"@[0] == 's');
    assert("timeout"@[0] == 't');
    assert("error"@[0] == 'e');
    assert("measure_fail"@[0] == 'm');
}

impl ProbeOutcome {
    pub fn as_str(self) -> (r: &'static str)
        ensures
            r@ == outcome_label(self),
    {
        match self {
            ProbeOutcome::Answer => "answer",
            ProbeOutcome::Reject => "reject",
            ProbeOutcome::SoftFail => "soft_fail",
            ProbeOutcome::Timeout => "timeout",
            ProbeOutcome::Error => "error",
            ProbeOutcome::MeasureFail => "measure_fail",
        }
    }

    /// Parse back from the stored label; unknown strings fall back to `Error`.
    pub fn from_label(s: &str) -> (r: Self)
        ensures
            r == outcome_of_label(s@),
    {
        if same_text(s, "answer") {
            ProbeOutcome::Answer
        } else if same_text(s, "reject") {
            ProbeOutcome::Reject
        } else if same_text(s, "soft_fail") {
            ProbeOutcome::SoftFail
        } else if same_text(s, "timeout") {
            ProbeOutcome::Timeout
        } else if same_text(s, "measure_fail") {
            ProbeOutcome::MeasureFail
        } else {
            ProbeOutcome::Error
        }
    }
}

/// Structured failure category for a non-answer.
#[derive(Debug, Clone, Copy, PartialEq, Eq, Structural)]
pub enum ProbeErrorKind {
    /// No response within the query timeout.
    Timeout,
    /// The upstream answered with a non-OK rcode (REFUSED/NOTIMP/SERVFAIL/…).
    Rcode,
    /// Plain transport I/O error (connection refused, reset, unreachable).
    Io,
    Tls,
    Quic,
    Http,
    /// Malformed/invalid DNS on the wire.
    Proto,
    /// Bootstrap couldn't resolve the upstream's hostname.
    Bootstrap,
    Other,
}

/// The label under which a failure category is stored.
pub open spec fn kind_label(k: ProbeErrorKind) -> Seq<char> {
    match k {
        ProbeErrorKind::Timeout => "timeout"@,
        ProbeErrorKind::Rcode => "rcode"@,
        ProbeErrorKind::Io => "io"@,
        ProbeErrorKind::Tls => "tls"@,
        ProbeErrorKind::Quic => "quic"@,
        ProbeErrorKind::Http => "http"@,
        ProbeErrorKind::Proto => "proto"@,
        ProbeErrorKind::Bootstrap => "bootstrap"@,
        ProbeErrorKind::Other => "other"@,
    }
}

/// The category that a label stands for; unknown labels stand for `Other`.
pub open spec fn kind_of_label(s: Seq<char>) -> ProbeErrorKind {
    if s == "timeout"@ {
        ProbeErrorKind::Timeout
    } else if s == "rcode"@ {
        ProbeErrorKind::Rcode
    } else if s == "io"@ {
        ProbeErrorKind::Io
    } else if s == "tls"@ {
        ProbeErrorKind::Tls
    } else if s == "quic"@ {
        ProbeErrorKind::Quic
    } else if s == "http"@ {
        ProbeErrorKind::Http
    } else if s == "proto"@ {
        ProbeErrorKind::Proto
    } else if s == "bootstrap"@ {
        ProbeErrorKind::Bootstrap
    } else {
        ProbeErrorKind::Other
    }
}

/// The category of an error: for a failure of all upstreams, that of the last.
pub open spec fn kind_of_error(e: ErrorView) -> ProbeErrorKind
    decreases e,
{
    match e {
        ErrorView::Timeout => ProbeErrorKind::Timeout,
        ErrorView::Rcode(_) => ProbeErrorKind::Rcode,
        ErrorView::Io(_) => ProbeErrorKind::Io,
        ErrorView::Tls(_) => ProbeErrorKind::Tls,
        ErrorView::Quic(_) => ProbeErrorKind::Quic,
        ErrorView::Http(_) => ProbeErrorKind::Http,
        ErrorView::Proto(_) => ProbeErrorKind::Proto,
        ErrorView::Bootstrap(_) => ProbeErrorKind::Bootstrap,
        ErrorView::AllFailed(last) => kind_of_error(*last),
        ErrorView::NoUpstreams => ProbeErrorKind::Other,
        ErrorView::InvalidSpec(_) => ProbeErrorKind::Other,
    }
}

/// What is stored as a label is read back as the same category.
pub proof fn law_kind_label_round_trip(k: ProbeErrorKind)
    ensures
        kind_of_label(kind_label(k)) == k,
{
    reveal_strlit("timeout");
    reveal_strlit("rcode");
    reveal_strlit("io");
    reveal_strlit("tls");
    reveal_strlit("quic");
    reveal_strlit("http");
    reveal_strlit("proto");
    reveal_strlit("bootstrap");
    reveal_strlit("other");
    let label = kind_label(k);
    assert("timeout"@[1] == 'i');
    assert("rcode"@[0] == 'r');
    assert("io"@[0] == 'i');
    assert("tls"@[1] == 'l');
    assert("quic"@[0] == 'q');
    assert("http"@[0] == 'h');
    assert("proto"@[0] == 'p');
    assert("bootstrap"@[0] == 'b');
    assert("other"@[0] == 'o');
    assert("timeout"@[0] == 't');
    assert("tls"@[0] == 't');
}

impl ProbeErrorKind {
    pub fn as_str(self) -> (r: &'static str)
        ensures
            r@ == kind_label(self),
    {
        match self {
            ProbeErrorKind::Timeout => "timeout",
            ProbeErrorKind::Rcode => "rcode",
            ProbeErrorKind::Io => "io",
            ProbeErrorKind::Tls => "tls",
            ProbeErrorKind::Quic => "quic",
            ProbeErrorKind::Http => "http",
            ProbeErrorKind::Proto => "proto",
            ProbeErrorKind::Bootstrap => "bootstrap",
            ProbeErrorKind::Other => "other",
        }
    }

    /// Parse back from the stored label; unknown strings fall back to `Other`.
    pub fn from_label(s: &str) -> (r: Self)
        ensures
            r == kind_of_label(s@),
    {
        if same_text(s, "timeout") {
            ProbeErrorKind::Timeout
        } else if same_text(s, "rcode") {
            ProbeErrorKind::Rcode
        } else if same_text(s, "io") {
            ProbeErrorKind::Io
        } else if same_text(s, "tls") {
            ProbeErrorKind::Tls
        } else if same_text(s, "quic") {
            ProbeErrorKind::Quic
        } else if same_text(s, "http") {
            ProbeErrorKind::Http
        } else if same_text(s, "proto") {
            ProbeErrorKind::Proto
        } else if same_text(s, "bootstrap") {
            ProbeErrorKind::Bootstrap
        } else {
            ProbeErrorKind::Other
        }
    }

    /// Classify the error a failed probe surfaced.
    pub fn from_error(err: &UpstreamError) -> (r: Self)
        ensures
            r == kind_of_error(err@),
        decreases err,
    {
        match err {
            UpstreamError::Timeout => ProbeErrorKind::Timeout,
            UpstreamError::Rcode(_) => ProbeErrorKind::Rcode,
            UpstreamError::Io(_) => ProbeErrorKind::Io,
            UpstreamError::Tls(_) => ProbeErrorKind::Tls,
            UpstreamError::Quic(_) => ProbeErrorKind::Quic,
            UpstreamError::Http(_) => ProbeErrorKind::Http,
            UpstreamError::Proto(_) => ProbeErrorKind::Proto,
            UpstreamError::Bootstrap(_) => ProbeErrorKind::Bootstrap,
            UpstreamError::AllFailed(inner) => ProbeErrorKind::from_error(&**inner),
            UpstreamError::NoUpstreams => ProbeErrorKind::Other,
            UpstreamError::InvalidSpec(_) => ProbeErrorKind::Other,
        }
    }
}

/// Recorded probe measurement and resulting health state. Latencies are in
/// microseconds.
#[derive(Debug, Clone)]
pub struct ProbeEvent {
    /// Unix epoch milliseconds when the probe completed.
    pub time_ms: i64,
    /// The upstream's display spec (e.g. `udp://1.1.1.1:53`).
    pub upstream: String,
    /// Friendly name, if one is configured (else the display spec).
    pub name: String,
    /// Transport kind, so analysis can group by protocol.
    pub kind: TransportKind,
    pub outcome: ProbeOutcome,
    /// Warm probe round-trip used for routing.
    pub rtt_us: Option<u64>,
    /// First-shot round-trip, including setup when the connection was cold.
    pub first_rtt_us: Option<u64>,
    /// Smoothed routing latency after this probe.
    pub ewma_us: Option<u64>,
    /// Upstream liveness after this probe.
    pub up: bool,
    /// Consecutive failures after this probe (0 on success).
    pub consecutive_failures: u32,
    /// Response code or error text for a non-answer.
    pub detail: Option<String>,
    /// Structured failure class for a non-answer.
    pub error_kind: Option<ProbeErrorKind>,
    /// Smoothed live-query latency at probe time.
    pub live_ewma_us: Option<u64>,
    /// Cumulative live queries at probe time.
    pub live_queries: u64,
    /// Cumulative live-query failures this upstream has seen, at probe time.
    pub live_failures: u64,
    /// Most recent selection rank; 0 is the leader.
    pub rank: Option<u16>,
    /// Whether hysteresis is retaining this upstream as leader.
    pub lead_held: bool,
}

/// Every so many dropped events one warning is due.
pub const DROP_WARNING_EVERY: u64 = 256;

/// The sending side of probe telemetry: whether events are wanted, whether a
/// writer is attached, and how many events its full channel has cost.
#[derive(Debug, Clone, Copy, PartialEq, Eq, Structural)]
pub struct ProbeLog {
    pub enabled: bool,
    pub attached: bool,
    pub dropped: u64,
}

impl ProbeLog {
    pub fn new(enabled: bool) -> (r: Self)
        ensures
            r == (ProbeLog { enabled, attached: false, dropped: 0 }),
    {
        ProbeLog { enabled, attached: false, dropped: 0 }
    }

    /// A writer is attached.
    pub fn set_sink(&mut self)
        ensures
            *final(self) == (ProbeLog { attached: true, ..*old(self) }),
    {
        self.attached = true;
    }

    /// Flip the enable toggle (e.g. on config reload).
    pub fn reconfigure(&mut self, enabled: bool)
        ensures
            *final(self) == (ProbeLog { enabled, ..*old(self) }),
    {
        self.enabled = enabled;
    }

    /// Whether persistence is enabled.
    pub fn is_enabled(&self) -> (r: bool)
        ensures
            r == self.enabled,
    {
        self.enabled
    }

    /// The event as it is offered to the writer: nothing where the log is
    /// disabled or has no writer.
    pub fn push(&self, event: ProbeEvent) -> (r: Option<ProbeEvent>)
        ensures
            r == (if self.enabled && self.attached { Some(event) } else { None }),
    {
        if self.enabled && self.attached {
            Some(event)
        } else {
            None
        }
    }

    /// Counts an event that the writer's channel had no room for. The result is
    /// the number to warn with, on the first event and on each 256th after it;
    /// the count wraps at its type's limit.
    pub fn note_drop(&mut self) -> (r: Option<u64>)
        ensures
            *final(self) == (ProbeLog {
                dropped: if old(self).dropped == u64::MAX {
                    0
                } else {
                    (old(self).dropped + 1) as u64
                },
                ..*old(self)
            }),
            r == (if old(self).dropped % DROP_WARNING_EVERY == 0 {
                Some((old(self).dropped + 1) as u64)
            } else {
                None
            }),
    {
        let n: u64 = self.dropped;
        self.dropped = if n == u64::MAX {
            0
        } else {
            n + 1
        };
        if n % DROP_WARNING_EVERY == 0 {
            Some(n + 1)
        } else {
            None
        }
    }
}

} // verus!
