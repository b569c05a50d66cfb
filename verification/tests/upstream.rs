//! Upstream specs, probes, and transports.

use bulwark::upstream::alt_svc::{parse_alt_svc_h3, AltSvcH3, DEFAULT_ALT_SVC_MA};
use bulwark::upstream::health::{
    healthy_probe_window, jitter, retry_backoff, Health, BENCH_PROBE_WINDOW, DOWN_PROBE_BASE,
    DOWN_PROBE_MAX, LEAD_PROBE_WINDOW,
};
use bulwark::upstream::probe_log::{ProbeErrorKind, ProbeOutcome};

#[test]
fn alt_svc_advertises_h3() {
    assert_eq!(
        parse_alt_svc_h3("h3=\":443\"; ma=2592000"),
        AltSvcH3::Found(2_592_000)
    );
}

#[test]
fn alt_svc_h3_among_others() {
    assert_eq!(
        parse_alt_svc_h3("h2=\":443\"; ma=3600, h3-29=\":443\"; ma=600"),
        AltSvcH3::Found(600)
    );
}

#[test]
fn alt_svc_h3_default_ma() {
    assert_eq!(
        parse_alt_svc_h3("h3=\":443\""),
        AltSvcH3::Found(DEFAULT_ALT_SVC_MA)
    );
}

#[test]
fn alt_svc_clear() {
    assert_eq!(parse_alt_svc_h3("clear"), AltSvcH3::Clear);
}

#[test]
fn alt_svc_no_h3() {
    assert_eq!(parse_alt_svc_h3("h2=\":443\"; ma=3600"), AltSvcH3::Absent);
}

#[test]
fn retry_backoff_doubles_then_caps() {
    assert_eq!(retry_backoff(1), DOWN_PROBE_BASE);
    assert_eq!(retry_backoff(2), DOWN_PROBE_BASE * 2);
    assert_eq!(retry_backoff(3), DOWN_PROBE_BASE * 4);
    assert_eq!(retry_backoff(100), DOWN_PROBE_MAX);
    assert!(retry_backoff(u32::MAX) <= DOWN_PROBE_MAX);
}

#[test]
fn jitter_stays_within_25_percent() {
    let base = 100_000;
    for _ in 0..1000 {
        let j = jitter(base);
        assert!(j >= 75_000 && j <= 125_000, "{j:?}");
    }
}

#[test]
fn recovery_is_always_more_eager_than_resampling() {
    assert!(
        DOWN_PROBE_MAX < LEAD_PROBE_WINDOW,
        "a down upstream must be retried sooner than a healthy one is resampled"
    );
}

#[test]
fn cadence_follows_rank() {
    assert_eq!(healthy_probe_window(Some(0)), LEAD_PROBE_WINDOW);
    assert_eq!(healthy_probe_window(Some(1)), LEAD_PROBE_WINDOW);
    assert_eq!(healthy_probe_window(Some(2)), BENCH_PROBE_WINDOW);
    assert_eq!(healthy_probe_window(Some(7)), BENCH_PROBE_WINDOW);
    assert_eq!(
        healthy_probe_window(None),
        LEAD_PROBE_WINDOW,
        "an unranked upstream converges at the leader cadence"
    );
}

#[test]
fn routing_latency_is_probe_only() {
    let h = Health {
        probe_ewma_us: 19_000,
        probe_samples: 1,
        probe_at: Some(1),
        last_rtt_us: Some(120_000),
        ..Health::default()
    };
    assert_eq!(h.routing_latency_us(), Some(19_000));
    assert_eq!(Health::default().routing_latency_us(), None);
}

#[test]
fn outcome_label_round_trips() {
    for o in [
        ProbeOutcome::Answer,
        ProbeOutcome::Reject,
        ProbeOutcome::SoftFail,
        ProbeOutcome::Timeout,
        ProbeOutcome::Error,
        ProbeOutcome::MeasureFail,
    ] {
        assert_eq!(ProbeOutcome::from_label(o.as_str()), o);
    }
}

#[test]
fn error_kind_label_round_trips() {
    for k in [
        ProbeErrorKind::Timeout,
        ProbeErrorKind::Rcode,
        ProbeErrorKind::Io,
        ProbeErrorKind::Tls,
        ProbeErrorKind::Quic,
        ProbeErrorKind::Http,
        ProbeErrorKind::Proto,
        ProbeErrorKind::Bootstrap,
        ProbeErrorKind::Other,
    ] {
        assert_eq!(ProbeErrorKind::from_label(k.as_str()), k);
    }
}
