//! Probing an upstream: the first shot shows whether it is alive, the second,
//! on a connection that is up by then, how fast it is.

use vstd::prelude::*;

use crate::message;
use crate::upstream::error;
use crate::upstream::error::{ErrorView, UpstreamError};
use crate::upstream::failover;
use crate::upstream::failover::{classify, rcode_err, Reply, ReplyView, Usability};
use crate::upstream::health;
use crate::upstream::health::{roll, HealthView};
use crate::upstream::pool::{Upstream, UpstreamView};
use crate::upstream::probe_log;
use crate::upstream::probe_log::{ProbeErrorKind, ProbeEvent, ProbeOutcome};

verus! {

/// One shot of a probe.
#[derive(Debug)]
pub enum Shot {
    /// Answered, after so many microseconds.
    Answered(u64),
    Failed(ProbeOutcome, UpstreamError),
}

/// What a [`Shot`] says.
pub enum ShotView {
    Answered(u64),
    Failed(ProbeOutcome, ErrorView),
}

impl View for Shot {
    type V = ShotView;

    open spec fn view(&self) -> ShotView {
        match self {
            Shot::Answered(rtt) => ShotView::Answered(*rtt),
            Shot::Failed(outcome, e) => ShotView::Failed(*outcome, e@),
        }
    }
}

/// What a reply means for a probe.
pub open spec fn shot_view(reply: ReplyView, rtt_us: u64) -> ShotView {
    match reply {
        ReplyView::Response(m) => match failover::usability(m.response_code) {
            Usability::Answer => ShotView::Answered(rtt_us),
            Usability::Reject => ShotView::Failed(
                ProbeOutcome::Reject,
                ErrorView::Rcode(message::rcode_text(m.response_code)),
            ),
            Usability::SoftFail => ShotView::Failed(
                ProbeOutcome::SoftFail,
                ErrorView::Rcode(message::rcode_text(m.response_code)),
            ),
        },
        ReplyView::Failed(e) => ShotView::Failed(ProbeOutcome::Error, e),
        ReplyView::TimedOut => ShotView::Failed(ProbeOutcome::Timeout, ErrorView::Timeout),
    }
}

/// What a reply means for a probe.
pub fn probe_shot(reply: Reply, rtt_us: u64) -> (r: Shot)
    ensures
        r@ == shot_view(reply@, rtt_us),
{
    match reply {
        Reply::Response(m) => match classify(&m) {
            Usability::Answer => Shot::Answered(rtt_us),
            Usability::Reject => Shot::Failed(ProbeOutcome::Reject, rcode_err(&m)),
            Usability::SoftFail => Shot::Failed(ProbeOutcome::SoftFail, rcode_err(&m)),
        },
        Reply::Failed(e) => Shot::Failed(ProbeOutcome::Error, e),
        Reply::TimedOut => Shot::Failed(ProbeOutcome::Timeout, UpstreamError::Timeout),
    }
}

impl Shot {
    /// Whether a second shot follows this first one.
    pub fn wants_second(&self) -> (r: bool)
        ensures
            r == (self@ is Answered),
    {
        match self {
            Shot::Answered(_) => true,
            Shot::Failed(_, _) => false,
        }
    }
}

/// What a probe found.
#[derive(Debug)]
pub struct ProbeReport {
    pub outcome: ProbeOutcome,
    pub first_rtt_us: Option<u64>,
    pub rtt_us: Option<u64>,
    pub err: Option<UpstreamError>,
}

/// What a [`ProbeReport`] says.
pub struct ReportView {
    pub outcome: ProbeOutcome,
    pub first_rtt_us: Option<u64>,
    pub rtt_us: Option<u64>,
    pub err: Option<ErrorView>,
}

impl View for ProbeReport {
    type V = ReportView;

    open spec fn view(&self) -> ReportView {
        ReportView {
            outcome: self.outcome,
            first_rtt_us: self.first_rtt_us,
            rtt_us: self.rtt_us,
            err: match self.err {
                Some(e) => Some(e@),
                None => None,
            },
        }
    }
}

/// What two shots amount to, the second of which is only there where the first
/// was answered.
pub open spec fn report_of(first: ShotView, second: Option<ShotView>) -> ReportView {
    match (first, second) {
        (ShotView::Answered(cold), Some(ShotView::Answered(warm))) => ReportView {
            outcome: ProbeOutcome::Answer,
            first_rtt_us: Some(cold),
            rtt_us: Some(warm),
            err: None,
        },
        (ShotView::Answered(cold), Some(ShotView::Failed(_, e))) => ReportView {
            outcome: ProbeOutcome::MeasureFail,
            first_rtt_us: Some(cold),
            rtt_us: None,
            err: Some(e),
        },
        (ShotView::Answered(cold), None) => ReportView {
            outcome: ProbeOutcome::MeasureFail,
            first_rtt_us: Some(cold),
            rtt_us: None,
            err: Some(ErrorView::Timeout),
        },
        (ShotView::Failed(outcome, e), _) => ReportView {
            outcome,
            first_rtt_us: None,
            rtt_us: None,
            err: Some(e),
        },
    }
}

/// What a probe does to an upstream's health: an answered second shot is a
/// sample, an answered first shot alone shows that it is reachable, and a failed
/// first shot is a failure.
pub open spec fn health_after_probe(
    h: HealthView,
    report: ReportView,
    blend_us: u64,
    threshold: u32,
    now: u64,
    roll: u32,
) -> HealthView {
    match (report.first_rtt_us, report.rtt_us, report.err) {
        (Some(_), Some(warm), _) => h.after_probe_success(warm, blend_us, now, roll),
        (Some(_), None, Some(e)) => h.after_probe_alive(error::error_text(e), now, roll),
        (_, _, Some(e)) => h.after_failure(error::error_text(e), threshold, now, roll),
        _ => h,
    }
}

pub open spec fn shot_in(s: Option<Shot>) -> Option<ShotView> {
    match s {
        Some(x) => Some(x@),
        None => None,
    }
}

/// Records a probe in an upstream's health.
pub fn note_probe(
    up: &mut Upstream,
    first: Shot,
    second: Option<Shot>,
    blend_us: u64,
    threshold: u32,
    now: u64,
    roll: u32,
) -> (r: ProbeReport)
    ensures
        r@ == report_of(first@, shot_in(second)),
        final(up)@ == (UpstreamView {
            health: health_after_probe(old(up)@.health, r@, blend_us, threshold, now, roll),
            ..old(up)@
        }),
{
    match first {
        Shot::Answered(cold) => match second {
            Some(Shot::Answered(warm)) => {
                up.health.record_probe_success(warm, blend_us, now, roll);
                ProbeReport {
                    outcome: ProbeOutcome::Answer,
                    first_rtt_us: Some(cold),
                    rtt_us: Some(warm),
                    err: None,
                }
            },
            other => {
                let e: UpstreamError = match other {
                    Some(Shot::Failed(_, e)) => e,
                    _ => UpstreamError::Timeout,
                };
                up.health.record_probe_alive(&e, now, roll);
                ProbeReport {
                    outcome: ProbeOutcome::MeasureFail,
                    first_rtt_us: Some(cold),
                    rtt_us: None,
                    err: Some(e),
                }
            },
        },
        Shot::Failed(outcome, e) => {
            up.health.record_probe_failure(&e, threshold, now, roll);
            ProbeReport { outcome, first_rtt_us: None, rtt_us: None, err: Some(e) }
        },
    }
}

/// Records a probe in an upstream's health, with a random part in when the next
/// one is due.
pub fn finish_probe(
    up: &mut Upstream,
    first: Shot,
    second: Option<Shot>,
    blend_us: u64,
    threshold: u32,
    now: u64,
) -> (r: ProbeReport)
    ensures
        r@ == report_of(first@, shot_in(second)),
        exists|n: u32|
            final(up)@ == (UpstreamView {
                health: #[trigger] health_after_probe(
                    old(up)@.health,
                    r@,
                    blend_us,
                    threshold,
                    now,
                    n,
                ),
                ..old(up)@
            }),
{
    let n: u32 = roll();
    note_probe(up, first, second, blend_us, threshold, now, n)
}

/// Whether an event tells of a report and of the upstream as it is after it.
pub open spec fn tells(ev: ProbeEvent, up: UpstreamView, report: ReportView, time_ms: i64) -> bool {
    &&& ev.time_ms == time_ms
    &&& ev.upstream@ == up.spec.display
    &&& ev.name@ == up.name
    &&& ev.kind == up.spec.kind
    &&& ev.outcome == report.outcome
    &&& ev.rtt_us == report.rtt_us
    &&& ev.first_rtt_us == report.first_rtt_us
    &&& ev.ewma_us == up.health.routing_latency()
    &&& ev.up == up.health.up
    &&& ev.consecutive_failures == up.health.consecutive_failures
    &&& health::text_in(ev.detail) == match report.err {
        Some(e) => Some(error::error_text(e)),
        None => None,
    }
    &&& ev.error_kind == match report.err {
        Some(e) => Some(probe_log::kind_of_error(e)),
        None => None,
    }
    &&& ev.live_ewma_us == up.health.live_latency()
    &&& ev.live_queries == up.health.total_queries
    &&& ev.live_failures == up.health.total_failures
    &&& ev.rank == up.health.last_rank
    &&& ev.lead_held == up.health.lead_held
}

/// The event that is logged of a probe.
pub fn probe_event(up: &Upstream, report: &ProbeReport, time_ms: i64) -> (r: ProbeEvent)
    ensures
        tells(r, up@, report@, time_ms),
{
    let (detail, error_kind): (Option<String>, Option<ProbeErrorKind>) = match &report.err {
        Some(e) => (Some(e.message()), Some(ProbeErrorKind::from_error(e))),
        None => (None, None),
    };
    ProbeEvent {
        time_ms,
        upstream: up.spec.display.as_str().to_owned(),
        name: up.name.as_str().to_owned(),
        kind: up.spec.kind,
        outcome: report.outcome,
        rtt_us: report.rtt_us,
        first_rtt_us: report.first_rtt_us,
        ewma_us: up.health.routing_latency_us(),
        up: up.health.up,
        consecutive_failures: up.health.consecutive_failures,
        detail,
        error_kind,
        live_ewma_us: up.health.live_latency_us(),
        live_queries: up.health.total_queries,
        live_failures: up.health.total_failures,
        rank: up.health.last_rank,
        lead_held: up.health.lead_held,
    }
}

/// An answered first shot leaves an upstream up and without failures, whatever
/// becomes of the second: warm-shot failures alone never demote it, and they
/// give no sample.
pub proof fn law_reachable_stays_up(
    h: HealthView,
    cold: u64,
    outcome: ProbeOutcome,
    e: ErrorView,
    blend_us: u64,
    threshold: u32,
    now: u64,
    roll: u32,
)
    ensures
        ({
            let report = report_of(ShotView::Answered(cold), Some(ShotView::Failed(outcome, e)));
            let after = health_after_probe(h, report, blend_us, threshold, now, roll);
            &&& after.up
            &&& after.consecutive_failures == 0
            &&& after.routing_latency() == h.routing_latency()
        }),
{
}

/// The routing latency of a new upstream is that of the second shot of its first
/// probe, not of the first, which pays for the connection.
pub proof fn law_second_shot_routes(
    h: HealthView,
    cold: u64,
    warm: u64,
    blend_us: u64,
    threshold: u32,
    now: u64,
    roll: u32,
)
    requires
        h.probe_samples == 0,
    ensures
        ({
            let report = report_of(ShotView::Answered(cold), Some(ShotView::Answered(warm)));
            health_after_probe(h, report, blend_us, threshold, now, roll).routing_latency() == Some(
                warm,
            )
        }),
{
}

/// Probes never change the counters of live queries.
pub proof fn law_probes_are_not_traffic(
    h: HealthView,
    report: ReportView,
    blend_us: u64,
    threshold: u32,
    now: u64,
    roll: u32,
)
    ensures
        ({
            let after = health_after_probe(h, report, blend_us, threshold, now, roll);
            &&& after.total_queries == h.total_queries
            &&& after.total_failures == h.total_failures
            &&& after.live_latency() == h.live_latency()
        }),
{
}

} // verus!
