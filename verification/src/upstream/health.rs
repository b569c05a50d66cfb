//! Upstream health: what is recorded of queries and probes, and when the next
//! probe is due.
//!
//! Times are in milliseconds of a clock that never goes back, latencies in
//! microseconds.

use vstd::prelude::*;

use crate::upstream::error;
use crate::upstream::error::UpstreamError;

verus! {

/// Probe cadence for routing candidates.
pub const LEAD_PROBE_WINDOW: u64 = 180_000;

/// Probe cadence for failover candidates.
pub const BENCH_PROBE_WINDOW: u64 = 900_000;

/// Ranks probed at the leader cadence.
pub const LEAD_PROBE_RANKS: u16 = 2;

/// Initial recovery probe delay.
pub const DOWN_PROBE_BASE: u64 = 5_000;

/// Maximum recovery probe delay.
pub const DOWN_PROBE_MAX: u64 = 60_000;

/// Maximum delay before an upstream's first probe.
pub const STARTUP_PROBE_SPREAD: u64 = 2_000;

/// The probe cadence for a rank.
pub open spec fn probe_window(rank: Option<u16>) -> u64 {
    match rank {
        Some(r) => if r >= LEAD_PROBE_RANKS {
            BENCH_PROBE_WINDOW
        } else {
            LEAD_PROBE_WINDOW
        },
        None => LEAD_PROBE_WINDOW,
    }
}

/// Returns the probe cadence for a rank.
pub fn healthy_probe_window(rank: Option<u16>) -> (r: u64)
    ensures
        r == probe_window(rank),
{
    match rank {
        Some(k) => if k >= LEAD_PROBE_RANKS {
            BENCH_PROBE_WINDOW
        } else {
            LEAD_PROBE_WINDOW
        },
        None => LEAD_PROBE_WINDOW,
    }
}

/// `base` doubled so many times.
pub open spec fn doubled(base: nat, times: nat) -> nat
    decreases times,
{
    if times == 0 {
        base
    } else {
        2 * doubled(base, (times - 1) as nat)
    }
}

/// The recovery delay after so many failures in a row: it doubles with each
/// failure after the first, up to the maximum.
pub open spec fn backoff(consecutive_failures: u32) -> u64 {
    let steps = if consecutive_failures <= 1 { 0 } else { (consecutive_failures - 1) as nat };
    if doubled(DOWN_PROBE_BASE as nat, steps) <= DOWN_PROBE_MAX {
        doubled(DOWN_PROBE_BASE as nat, steps) as u64
    } else {
        DOWN_PROBE_MAX
    }
}

proof fn lemma_doubled_grows(base: nat, a: nat, b: nat)
    requires
        a <= b,
    ensures
        doubled(base, a) <= doubled(base, b),
    decreases b,
{
    if a < b {
        lemma_doubled_grows(base, a, (b - 1) as nat);
    }
}

/// Calculates the capped exponential recovery delay.
pub fn retry_backoff(consecutive_failures: u32) -> (r: u64)
    ensures
        r == backoff(consecutive_failures),
{
    let steps: u32 = if consecutive_failures <= 1 {
        0
    } else {
        consecutive_failures - 1
    };
    let mut delay: u64 = DOWN_PROBE_BASE;
    let mut i: u32 = 0;
    while i < steps
        invariant
            i <= steps,
            delay == doubled(DOWN_PROBE_BASE as nat, i as nat),
            delay <= DOWN_PROBE_MAX,
            steps == (if consecutive_failures <= 1 { 0int } else { consecutive_failures - 1 }),
        decreases steps - i,
    {
        delay = delay * 2;
        i = i + 1;
        if delay > DOWN_PROBE_MAX {
            proof {
                lemma_doubled_grows(DOWN_PROBE_BASE as nat, i as nat, steps as nat);
            }
            return DOWN_PROBE_MAX;
        }
    }
    delay
}

/// `delay` moved by up to a quarter either way: from three quarters of it, at
/// the roll 0, to just under five quarters.
pub open spec fn jittered_by(delay: u64, roll: u32) -> u64 {
    (delay * (0x1_8000_0000 + roll) / 0x2_0000_0000) as u64
}

proof fn lemma_jitter(delay: u64, roll: u32)
    ensures
        0 <= delay * (0x1_8000_0000 + roll) / 0x2_0000_0000,
        4 * (delay * (0x1_8000_0000 + roll) / 0x2_0000_0000) <= 5 * delay,
        4 * (delay * (0x1_8000_0000 + roll) / 0x2_0000_0000) + 3 >= 3 * delay,
{
    let product = delay * (0x1_8000_0000 + roll);
    assert(product >= delay * 0x1_8000_0000) by (nonlinear_arith)
        requires
            product == delay * (0x1_8000_0000 + roll),
            delay >= 0,
            roll >= 0,
    ;
    assert(product <= delay * 0x2_8000_0000) by (nonlinear_arith)
        requires
            product == delay * (0x1_8000_0000 + roll),
            delay >= 0,
            roll <= 0xffff_ffff,
    ;
}

/// Applies ±25% scheduling jitter, as the roll has it.
pub fn jittered(delay: u64, roll: u32) -> (r: u64)
    requires
        5 * delay <= 4 * u64::MAX,
    ensures
        r == jittered_by(delay, roll),
        4 * r <= 5 * delay,
        4 * r + 3 >= 3 * delay,
{
    proof {
        lemma_jitter(delay, roll);
    }
    assert(delay * (0x1_8000_0000 + roll) <= u64::MAX * 0x2_8000_0000) by (nonlinear_arith)
        requires
            0 <= delay <= u64::MAX,
            0 <= roll <= 0xffff_ffff,
    ;
    (delay as u128 * (0x1_8000_0000u128 + roll as u128) / 0x2_0000_0000u128) as u64
}

/// `rand::random` for 32 bits: any number can come.
#[verifier::external_body]
pub(crate) fn roll() -> u32 {
    rand::random()
}

/// Applies ±25% scheduling jitter.
pub fn jitter(delay: u64) -> (r: u64)
    requires
        5 * delay <= 4 * u64::MAX,
    ensures
        4 * r <= 5 * delay,
        4 * r + 3 >= 3 * delay,
{
    jittered(delay, roll())
}

/// A part of `max`, from nothing at the roll 0 to just under all of it.
pub open spec fn startup_delay_by(max: u64, roll: u32) -> u64 {
    (max * roll / 0x1_0000_0000) as u64
}

/// The delay before an upstream's first probe, as the roll has it.
pub fn startup_delay(max: u64, roll: u32) -> (r: u64)
    ensures
        r == startup_delay_by(max, roll),
        r <= max,
{
    assert(0 <= max * roll <= max * 0x1_0000_0000) by (nonlinear_arith)
        requires
            0 <= max,
            0 <= roll <= 0xffff_ffff,
    ;
    (max as u128 * roll as u128 / 0x1_0000_0000u128) as u64
}

/// A down upstream is retried sooner than a healthy one is resampled, whatever
/// the jitter on either side.
pub proof fn law_recovery_is_eager(failures: u32, roll: u32, rank: Option<u16>, other: u32)
    ensures
        DOWN_PROBE_BASE <= backoff(failures) <= DOWN_PROBE_MAX,
        DOWN_PROBE_MAX < LEAD_PROBE_WINDOW,
        jittered_by(backoff(failures), roll) < jittered_by(probe_window(rank), other),
{
    lemma_jitter(backoff(failures), roll);
    lemma_jitter(probe_window(rank), other);
    let steps = if failures <= 1 { 0 } else { (failures - 1) as nat };
    lemma_doubled_grows(DOWN_PROBE_BASE as nat, 0, steps);
}

/// The recovery delay never shrinks as failures add up.
pub proof fn law_backoff_grows(a: u32, b: u32)
    requires
        a <= b,
    ensures
        backoff(a) <= backoff(b),
{
    let sa = if a <= 1 { 0 } else { (a - 1) as nat };
    let sb = if b <= 1 { 0 } else { (b - 1) as nat };
    lemma_doubled_grows(DOWN_PROBE_BASE as nat, sa, sb);
}

/// How an upstream has been doing.
#[derive(Debug, Clone)]
pub struct Health {
    /// Smoothed probe latency used for routing.
    pub probe_ewma_us: u64,
    pub probe_samples: u64,
    pub probe_at: Option<u64>,
    /// New upstreams remain eligible until they cross the failure threshold.
    pub up: bool,
    pub consecutive_failures: u32,
    /// Live query counters; probes are excluded.
    pub total_queries: u64,
    pub total_failures: u64,
    /// Most recent live-query latency.
    pub last_rtt_us: Option<u64>,
    /// Smoothed live-query latency for telemetry only.
    pub live_ewma_us: u64,
    pub live_samples: u64,
    /// Last selection rank and whether hysteresis retained the lead.
    pub last_rank: Option<u16>,
    pub lead_held: bool,
    pub last_error: Option<String>,
    /// Next scheduled probe; `None` means immediately due.
    pub next_probe_at: Option<u64>,
}

/// What a [`Health`] says.
pub struct HealthView {
    pub probe_ewma_us: u64,
    pub probe_samples: u64,
    pub probe_at: Option<u64>,
    pub up: bool,
    pub consecutive_failures: u32,
    pub total_queries: u64,
    pub total_failures: u64,
    pub last_rtt_us: Option<u64>,
    pub live_ewma_us: u64,
    pub live_samples: u64,
    pub last_rank: Option<u16>,
    pub lead_held: bool,
    pub last_error: Option<Seq<char>>,
    pub next_probe_at: Option<u64>,
}

/// The text in an optional string.
pub open spec fn text_in(s: Option<String>) -> Option<Seq<char>> {
    match s {
        Some(t) => Some(t@),
        None => None,
    }
}

pub fn copy_text(s: &Option<String>) -> (r: Option<String>)
    ensures
        text_in(r) == text_in(*s),
{
    match s {
        Some(t) => Some(t.as_str().to_owned()),
        None => None,
    }
}

impl View for Health {
    type V = HealthView;

    open spec fn view(&self) -> HealthView {
        HealthView {
            probe_ewma_us: self.probe_ewma_us,
            probe_samples: self.probe_samples,
            probe_at: self.probe_at,
            up: self.up,
            consecutive_failures: self.consecutive_failures,
            total_queries: self.total_queries,
            total_failures: self.total_failures,
            last_rtt_us: self.last_rtt_us,
            live_ewma_us: self.live_ewma_us,
            live_samples: self.live_samples,
            last_rank: self.last_rank,
            lead_held: self.lead_held,
            last_error: text_in(self.last_error),
            next_probe_at: self.next_probe_at,
        }
    }
}

/// The health of an upstream of which nothing is known.
pub open spec fn unknown_health() -> HealthView {
    HealthView {
        probe_ewma_us: 0,
        probe_samples: 0,
        probe_at: None,
        up: true,
        consecutive_failures: 0,
        total_queries: 0,
        total_failures: 0,
        last_rtt_us: None,
        live_ewma_us: 0,
        live_samples: 0,
        last_rank: None,
        lead_held: false,
        last_error: None,
        next_probe_at: None,
    }
}

/// One more, as far as the counter goes.
pub open spec fn one_more(n: u64) -> u64 {
    if n == u64::MAX {
        n
    } else {
        (n + 1) as u64
    }
}

fn count_up(n: u64) -> (r: u64)
    ensures
        r == one_more(n),
{
    if n == u64::MAX {
        n
    } else {
        n + 1
    }
}

/// One more failure, as far as the counter goes.
pub open spec fn one_more_failure(n: u32) -> u32 {
    if n == u32::MAX {
        n
    } else {
        (n + 1) as u32
    }
}

/// A point in time `delay` after `now`, as far as the clock goes.
pub open spec fn later(now: u64, delay: u64) -> u64 {
    if now + delay > u64::MAX {
        u64::MAX
    } else {
        (now + delay) as u64
    }
}

fn time_after(now: u64, delay: u64) -> (r: u64)
    ensures
        r == later(now, delay),
{
    if delay > u64::MAX - now {
        u64::MAX
    } else {
        now + delay
    }
}

/// A smoothed latency after a sample: the first sample itself, later on the
/// blend of the previous value and the sample.
pub open spec fn smoothed(samples: u64, sample: u64, blend: u64) -> u64 {
    if samples == 0 {
        sample
    } else {
        blend
    }
}

impl HealthView {
    /// The comparable probe latency used for routing.
    pub open spec fn routing_latency(self) -> Option<u64> {
        if self.probe_samples > 0 {
            Some(self.probe_ewma_us)
        } else {
            None
        }
    }

    /// The live-query latency, for telemetry only.
    pub open spec fn live_latency(self) -> Option<u64> {
        if self.live_samples > 0 {
            Some(self.live_ewma_us)
        } else {
            None
        }
    }

    /// The latency of a healthy, sampled upstream without a recent failure.
    pub open spec fn eligible_latency(self) -> Option<u64> {
        if self.up && self.consecutive_failures == 0 {
            self.routing_latency()
        } else {
            None
        }
    }

    /// The class in which an upstream ranks: clean sampled ones come first, then
    /// sampled ones on probation, unsampled ones, and at last those that are
    /// down.
    pub open spec fn class(self) -> int {
        (if self.up { 0int } else { 4 }) + (if self.probe_samples > 0 { 0int } else { 2 }) + (
        if self.consecutive_failures > 0 { 1int } else { 0 })
    }

    /// The routing latency in whole milliseconds, to the nearest.
    pub open spec fn rounded_ms(self) -> int {
        match self.routing_latency() {
            Some(us) => (us + 500) / 1000,
            None => 0,
        }
    }

    /// After a live query that was answered: the latency of live queries and
    /// the liveness change, the probes' latency does not.
    pub open spec fn after_live_success(self, rtt_us: u64, blend_us: u64) -> HealthView {
        HealthView {
            total_queries: one_more(self.total_queries),
            last_rtt_us: Some(rtt_us),
            live_ewma_us: smoothed(self.live_samples, rtt_us, blend_us),
            live_samples: one_more(self.live_samples),
            consecutive_failures: 0,
            up: true,
            last_error: None,
            ..self
        }
    }

    /// Reachable: the next probe is due after the window of the upstream's rank.
    pub open spec fn alive(self, now: u64, roll: u32) -> HealthView {
        HealthView {
            consecutive_failures: 0,
            up: true,
            last_error: None,
            next_probe_at: Some(later(now, jittered_by(probe_window(self.last_rank), roll))),
            ..self
        }
    }

    /// After a probe that measured a latency.
    pub open spec fn after_probe_success(self, rtt_us: u64, blend_us: u64, now: u64, roll: u32) -> HealthView {
        HealthView {
            probe_ewma_us: smoothed(self.probe_samples, rtt_us, blend_us),
            probe_samples: one_more(self.probe_samples),
            probe_at: Some(now),
            ..self.alive(now, roll)
        }
    }

    /// After a probe that showed reachability alone.
    pub open spec fn after_probe_alive(self, why: Seq<char>, now: u64, roll: u32) -> HealthView {
        HealthView { last_error: Some(why), ..self.alive(now, roll) }
    }

    /// After a failure that counts against liveness: at the threshold the
    /// upstream is down. The next probe comes after the recovery delay.
    pub open spec fn after_failure(self, why: Seq<char>, threshold: u32, now: u64, roll: u32) -> HealthView {
        let failures = one_more_failure(self.consecutive_failures);
        HealthView {
            consecutive_failures: failures,
            last_error: Some(why),
            up: self.up && failures < threshold,
            next_probe_at: Some(later(now, jittered_by(backoff(failures), roll))),
            ..self
        }
    }

    /// After a live query that failed hard.
    pub open spec fn after_live_failure(self, why: Seq<char>, threshold: u32, now: u64, roll: u32) -> HealthView {
        HealthView {
            total_queries: one_more(self.total_queries),
            total_failures: one_more(self.total_failures),
            ..self.after_failure(why, threshold, now, roll)
        }
    }

    /// After a live query whose failure is the query's, not the upstream's.
    pub open spec fn after_soft_failure(self, why: Seq<char>) -> HealthView {
        HealthView {
            total_queries: one_more(self.total_queries),
            total_failures: one_more(self.total_failures),
            last_error: Some(why),
            ..self
        }
    }
}

impl Default for Health {
    fn default() -> (r: Health)
        ensures
            r@ == unknown_health(),
    {
        Health {
            probe_ewma_us: 0,
            probe_samples: 0,
            probe_at: None,
            up: true,
            consecutive_failures: 0,
            total_queries: 0,
            total_failures: 0,
            last_rtt_us: None,
            live_ewma_us: 0,
            live_samples: 0,
            last_rank: None,
            lead_held: false,
            last_error: None,
            next_probe_at: None,
        }
    }
}

impl Health {
    /// Returns the comparable probe latency used for routing.
    pub fn routing_latency_us(&self) -> (r: Option<u64>)
        ensures
            r == self@.routing_latency(),
    {
        if self.probe_samples > 0 {
            Some(self.probe_ewma_us)
        } else {
            None
        }
    }

    /// Returns telemetry-only live-query latency.
    pub fn live_latency_us(&self) -> (r: Option<u64>)
        ensures
            r == self@.live_latency(),
    {
        if self.live_samples > 0 {
            Some(self.live_ewma_us)
        } else {
            None
        }
    }

    /// Returns latency only for healthy, sampled, non-probationary upstreams.
    pub fn routing_latency_if_eligible(&self) -> (r: Option<u64>)
        ensures
            r == self@.eligible_latency(),
    {
        if self.up && self.consecutive_failures == 0 {
            self.routing_latency_us()
        } else {
            None
        }
    }

    /// Records a successful live query without changing probe-based routing
    /// data. `blend_us` is the smoothed value of the previous latency and this.
    pub fn record_live_success(&mut self, rtt_us: u64, blend_us: u64)
        ensures
            final(self)@ == old(self)@.after_live_success(rtt_us, blend_us),
    {
        self.total_queries = count_up(self.total_queries);
        self.last_rtt_us = Some(rtt_us);
        self.live_ewma_us = if self.live_samples == 0 {
            rtt_us
        } else {
            blend_us
        };
        self.live_samples = count_up(self.live_samples);
        self.consecutive_failures = 0;
        self.up = true;
        self.last_error = None;
    }

    fn fold_probe_alive(&mut self, now: u64, roll: u32)
        ensures
            final(self)@ == old(self)@.alive(now, roll),
    {
        self.consecutive_failures = 0;
        self.up = true;
        self.last_error = None;
        let delay: u64 = jittered(healthy_probe_window(self.last_rank), roll);
        self.next_probe_at = Some(time_after(now, delay));
    }

    /// Records a successful probe and schedules the next one.
    pub fn record_probe_success(&mut self, rtt_us: u64, blend_us: u64, now: u64, roll: u32)
        ensures
            final(self)@ == old(self)@.after_probe_success(rtt_us, blend_us, now, roll),
    {
        self.probe_ewma_us = if self.probe_samples == 0 {
            rtt_us
        } else {
            blend_us
        };
        self.probe_samples = count_up(self.probe_samples);
        self.probe_at = Some(now);
        self.fold_probe_alive(now, roll);
    }

    /// Records reachability without updating latency.
    pub fn record_probe_alive(&mut self, err: &UpstreamError, now: u64, roll: u32)
        ensures
            final(self)@ == old(self)@.after_probe_alive(error::error_text(err@), now, roll),
    {
        self.fold_probe_alive(now, roll);
        self.last_error = Some(err.message());
    }

    /// Records a probe failure without changing live-query counters.
    pub fn record_probe_failure(&mut self, err: &UpstreamError, threshold: u32, now: u64, roll: u32)
        ensures
            final(self)@ == old(self)@.after_failure(error::error_text(err@), threshold, now, roll),
    {
        let failures: u32 = if self.consecutive_failures == u32::MAX {
            u32::MAX
        } else {
            self.consecutive_failures + 1
        };
        self.consecutive_failures = failures;
        self.last_error = Some(err.message());
        if failures >= threshold {
            self.up = false;
        }
        proof {
            law_recovery_is_eager(failures, roll, None, 0);
        }
        let delay: u64 = jittered(retry_backoff(failures), roll);
        self.next_probe_at = Some(time_after(now, delay));
    }

    /// Records a hard live-query failure.
    pub fn record_live_failure(&mut self, err: &UpstreamError, threshold: u32, now: u64, roll: u32)
        ensures
            final(self)@ == old(self)@.after_live_failure(
                error::error_text(err@),
                threshold,
                now,
                roll,
            ),
    {
        self.total_queries = count_up(self.total_queries);
        self.total_failures = count_up(self.total_failures);
        self.record_probe_failure(err, threshold, now, roll);
    }

    /// Records a query-level failure without penalizing upstream health.
    pub fn record_soft_failure(&mut self, err: &UpstreamError)
        ensures
            final(self)@ == old(self)@.after_soft_failure(error::error_text(err@)),
    {
        self.total_queries = count_up(self.total_queries);
        self.total_failures = count_up(self.total_failures);
        self.last_error = Some(err.message());
    }

    /// Schedules a new upstream's first probe with startup jitter. A probe that
    /// is scheduled already stays.
    pub fn schedule_initial_probe(&mut self, now: u64, roll: u32)
        ensures
            final(self)@ == (if old(self)@.next_probe_at is None {
                HealthView {
                    next_probe_at: Some(later(now, startup_delay_by(STARTUP_PROBE_SPREAD, roll))),
                    ..old(self)@
                }
            } else {
                old(self)@
            }),
    {
        if self.next_probe_at.is_none() {
            let delay: u64 = startup_delay(STARTUP_PROBE_SPREAD, roll);
            self.next_probe_at = Some(time_after(now, delay));
        }
    }

    /// Schedules a new upstream's first probe at random within the startup
    /// spread. A probe that is scheduled already stays.
    pub fn schedule_first_probe(&mut self, now: u64)
        ensures
            final(self)@ == (HealthView {
                next_probe_at: final(self)@.next_probe_at,
                ..old(self)@
            }),
            match old(self)@.next_probe_at {
                Some(at) => final(self)@.next_probe_at == Some(at),
                None => final(self)@.next_probe_at matches Some(at) && (at == u64::MAX || now <= at
                    <= now + STARTUP_PROBE_SPREAD),
            },
    {
        let n: u32 = roll();
        assert(startup_delay_by(STARTUP_PROBE_SPREAD, n) <= STARTUP_PROBE_SPREAD) by {
            assert(0 <= STARTUP_PROBE_SPREAD * n <= STARTUP_PROBE_SPREAD * 0x1_0000_0000)
                by (nonlinear_arith)
                requires
                    0 <= n <= 0xffff_ffff,
                    STARTUP_PROBE_SPREAD == 2_000,
            ;
        }
        self.schedule_initial_probe(now, n);
    }

    /// Returns the remaining delay, or `None` when due.
    pub fn probe_due_in(&self, now: u64) -> (r: Option<u64>)
        ensures
            r == match self@.next_probe_at {
                Some(at) => if at > now {
                    Some((at - now) as u64)
                } else {
                    None
                },
                None => None,
            },
    {
        match self.next_probe_at {
            Some(at) => if at > now {
                Some(at - now)
            } else {
                None
            },
            None => None,
        }
    }

    /// An equal record.
    pub fn copied(&self) -> (r: Health)
        ensures
            r@ == self@,
    {
        Health {
            probe_ewma_us: self.probe_ewma_us,
            probe_samples: self.probe_samples,
            probe_at: self.probe_at,
            up: self.up,
            consecutive_failures: self.consecutive_failures,
            total_queries: self.total_queries,
            total_failures: self.total_failures,
            last_rtt_us: self.last_rtt_us,
            live_ewma_us: self.live_ewma_us,
            live_samples: self.live_samples,
            last_rank: self.last_rank,
            lead_held: self.lead_held,
            last_error: copy_text(&self.last_error),
            next_probe_at: self.next_probe_at,
        }
    }
}

/// Live traffic, whatever becomes of it, leaves the latency by which upstreams
/// are routed alone.
pub proof fn law_live_keeps_routing(
    h: HealthView,
    rtt_us: u64,
    blend_us: u64,
    why: Seq<char>,
    threshold: u32,
    now: u64,
    roll: u32,
)
    ensures
        h.after_live_success(rtt_us, blend_us).routing_latency() == h.routing_latency(),
        h.after_live_failure(why, threshold, now, roll).routing_latency() == h.routing_latency(),
        h.after_soft_failure(why).routing_latency() == h.routing_latency(),
{
}

/// A soft failure never takes an upstream down or puts it on probation.
pub proof fn law_soft_failure_keeps_liveness(h: HealthView, why: Seq<char>)
    ensures
        h.after_soft_failure(why).class() == h.class(),
        h.after_soft_failure(why).up == h.up,
{
}

} // verus!
