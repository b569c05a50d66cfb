//! What holds of the health of upstreams and of the search for an answer among them.

use vstd::prelude::*;

use crate::upstream::failover;
use crate::upstream::failover::{FailoverView, ProgressView, ReplyView, TryView};
use crate::upstream::health;
use crate::upstream::health::HealthView;
use crate::upstream::pool;
use crate::upstream::pool::{EntryView, PoolView};
use crate::upstream::spec;
use crate::upstream::spec::SpecView;

verus! {

/// The recovery delay is five seconds after the first failure, and ten, twenty and forty
/// after the next ones; then it stays at one minute.
pub proof fn law_recovery_delays(failures: u32)
    ensures
        failures <= 1 ==> health::backoff(failures) == 5000,
        failures == 2 ==> health::backoff(failures) == 10000,
        failures == 3 ==> health::backoff(failures) == 20000,
        failures == 4 ==> health::backoff(failures) == 40000,
        failures >= 5 ==> health::backoff(failures) == 60000,
{
    reveal_with_fuel(health::doubled, 5);
    assert(health::doubled(5000, 4) == 80000);
    if failures >= 5 {
        health::law_backoff_grows(5, failures);
    }
}

/// Whether a time is so many milliseconds after another, give or take a quarter, as far
/// as the clock goes.
pub open spec fn is_about_after(at: u64, now: u64, delay: int) -> bool {
    at == u64::MAX || 4 * (at - now) <= 5 * delay && 4 * (at - now) + 3 >= 3 * delay
}

proof fn lemma_jittered(delay: u64, roll: u32, now: u64)
    requires
        delay <= 0x1_0000_0000,
    ensures
        is_about_after(health::later(now, health::jittered_by(delay, roll)), now, delay as int),
{
    let moved = delay * (0x1_8000_0000 + roll) / 0x2_0000_0000;
    let product = delay * (0x1_8000_0000 + roll);
    assert(delay * 0x1_8000_0000 <= product <= delay * 0x2_8000_0000) by (nonlinear_arith)
        requires
            product == delay * (0x1_8000_0000 + roll),
            delay >= 0,
            0 <= roll <= 0xffff_ffff,
    ;
    assert(health::jittered_by(delay, roll) == moved);
}

/// The next probe comes about three minutes after one that reached an upstream of the
/// first two ranks, or of none yet, and about a quarter of an hour after one that reached
/// any other. After a failure it comes about as late as the recovery delay says.
pub proof fn law_next_probe(
    h: HealthView,
    rtt_us: u64,
    blend_us: u64,
    why: Seq<char>,
    threshold: u32,
    now: u64,
    roll: u32,
)
    ensures
        ({
            let reached = h.after_probe_success(rtt_us, blend_us, now, roll);
            let alive = h.after_probe_alive(why, now, roll);
            let window = match h.last_rank {
                Some(r) => if r >= 2 {
                    900_000int
                } else {
                    180_000int
                },
                None => 180_000int,
            };
            let failed = h.after_failure(why, threshold, now, roll);
            let delay = if h.consecutive_failures == 0 {
                5_000int
            } else if h.consecutive_failures == 1 {
                10_000
            } else if h.consecutive_failures == 2 {
                20_000
            } else if h.consecutive_failures == 3 {
                40_000
            } else {
                60_000
            };
            &&& reached.next_probe_at matches Some(at) && is_about_after(at, now, window)
            &&& alive.next_probe_at == reached.next_probe_at
            &&& failed.next_probe_at matches Some(at) && is_about_after(at, now, delay)
        }),
{
    lemma_jittered(health::probe_window(h.last_rank), roll, now);
    let failures = health::one_more_failure(h.consecutive_failures);
    law_recovery_delays(failures);
    lemma_jittered(health::backoff(failures), roll, now);
}

/// The health of an upstream after so many failures in a row, whatever the errors, the
/// times and the jitter.
pub open spec fn failed_on(
    h: HealthView,
    why: Seq<Seq<char>>,
    threshold: u32,
    now: Seq<u64>,
    roll: Seq<u32>,
) -> HealthView
    decreases why.len(),
{
    if why.len() == 0 {
        h
    } else {
        failed_on(h, why.drop_last(), threshold, now, roll).after_live_failure(
            why.last(),
            threshold,
            now[why.len() - 1],
            roll[why.len() - 1],
        )
    }
}

/// An upstream goes down with the failure that makes it as many in a row as the
/// threshold asks for, and not before; one answer brings it up again with none counted.
pub proof fn law_threshold(
    h: HealthView,
    why: Seq<Seq<char>>,
    threshold: u32,
    now: Seq<u64>,
    roll: Seq<u32>,
    rtt_us: u64,
    blend_us: u64,
)
    requires
        h.up,
        h.consecutive_failures < threshold,
        h.consecutive_failures + why.len() <= u32::MAX,
        h.total_queries + why.len() < u64::MAX,
        h.total_failures + why.len() < u64::MAX,
    ensures
        ({
            let down = failed_on(h, why, threshold, now, roll);
            let back = down.after_live_success(rtt_us, blend_us);
            &&& down.up <==> h.consecutive_failures + why.len() < threshold
            &&& down.consecutive_failures == h.consecutive_failures + why.len()
            &&& down.total_queries == h.total_queries + why.len()
            &&& down.total_failures == h.total_failures + why.len()
            &&& why.len() > 0 ==> down.last_error == Some(why.last())
            &&& down.probe_ewma_us == h.probe_ewma_us && down.probe_samples == h.probe_samples
            &&& back.up && back.consecutive_failures == 0 && back.last_error is None
            &&& back.total_queries == down.total_queries + 1
            &&& back.total_failures == down.total_failures
            &&& back.last_rtt_us == Some(rtt_us)
        }),
    decreases why.len(),
{
    if why.len() > 0 {
        law_threshold(h, why.drop_last(), threshold, now, roll, rtt_us, blend_us);
    }
}

/// The first probe of an upstream is its latency; later ones are blended in. Live
/// queries have a latency of their own that works the same way.
pub proof fn law_first_sample(h: HealthView, rtt_us: u64, blend_us: u64, now: u64, roll: u32)
    ensures
        ({
            let probed = h.after_probe_success(rtt_us, blend_us, now, roll);
            let asked = h.after_live_success(rtt_us, blend_us);
            &&& probed.probe_ewma_us == (if h.probe_samples == 0 {
                rtt_us
            } else {
                blend_us
            })
            &&& probed.probe_samples > 0 && probed.probe_at == Some(now)
            &&& probed.up && probed.consecutive_failures == 0
            &&& probed.live_ewma_us == h.live_ewma_us && probed.total_queries == h.total_queries
            &&& asked.live_ewma_us == (if h.live_samples == 0 {
                rtt_us
            } else {
                blend_us
            })
            &&& asked.live_samples > 0
            &&& asked.probe_ewma_us == h.probe_ewma_us && asked.probe_samples == h.probe_samples
        }),
{
}

/// Whether a response code leaves the search for an answer open: FORMERR, SERVFAIL,
/// NOTIMP or REFUSED.
pub open spec fn leaves_open(code: u16) -> bool {
    code == 1 || code == 2 || code == 4 || code == 5
}

/// Whether a reply is an answer, be it that there is no such name.
pub open spec fn answers(t: TryView) -> bool {
    t.reply matches ReplyView::Response(m) && !leaves_open(m.response_code)
}

/// What a reply does to an upstream. An answer counts for it. A refusal or a notice that
/// it cannot, an error and silence count against it. A failure or a malformed query is
/// noted and does not.
pub proof fn law_reply_and_health(
    h: HealthView,
    t: TryView,
    blend_us: u64,
    threshold: u32,
    now: u64,
    roll: u32,
)
    requires
        h.consecutive_failures < u32::MAX,
        h.total_queries < u64::MAX,
        h.total_failures < u64::MAX,
    ensures
        ({
            let after = failover::health_after(h, t, blend_us, threshold, now, roll);
            let blamed = match t.reply {
                ReplyView::Response(m) => m.response_code == 5 || m.response_code == 4,
                _ => true,
            };
            &&& after.total_queries == h.total_queries + 1
            &&& after.total_failures == h.total_failures + (if answers(t) {
                0int
            } else {
                1
            })
            &&& answers(t) ==> after.up && after.consecutive_failures == 0 && after.last_rtt_us
                == Some(t.rtt_us)
            &&& blamed ==> after.consecutive_failures == h.consecutive_failures + 1 && after.up == (
            h.up && h.consecutive_failures + 1 < threshold)
            &&& !blamed && !answers(t) ==> after.up == h.up && after.consecutive_failures
                == h.consecutive_failures
            &&& t.reply is TimedOut ==> after.last_error == Some("timed out"@)
        }),
{
}

/// The first upstream that answers is the one whose answer the caller gets, just as it
/// came. Where none answers, the caller gets the first response there was; and where
/// there was none, that all failed.
pub proof fn law_search(order: Seq<int>, tries: Seq<TryView>, i: int)
    requires
        0 <= i < tries.len(),
    ensures
        answers(tries[i]) && (forall|j: int| 0 <= j < i ==> !answers(#[trigger] tries[j])) ==> (
        failover::run(failover::fresh(order), tries) matches Ok(r) && r.message
            == tries[i].reply->Response_0 && r.upstream == tries[i].upstream && r.rtt_us
            == tries[i].rtt_us),
        tries[i].reply is Response && (forall|j: int|
            0 <= j < tries.len() ==> !answers(#[trigger] tries[j])) && (forall|j: int|
            0 <= j < i ==> !((#[trigger] tries[j]).reply is Response)) ==> (failover::run(
            failover::fresh(order),
            tries,
        ) matches Ok(r) && r.message == tries[i].reply->Response_0 && r.upstream
            == tries[i].upstream && r.rtt_us == tries[i].rtt_us),
        (forall|j: int| 0 <= j < tries.len() ==> !((#[trigger] tries[j]).reply is Response))
            ==> failover::run(failover::fresh(order), tries) is Err,
{
    failover::law_failover(order, tries);
    lemma_firsts(tries);
    let a = failover::first_answer(tries);
    let b = failover::first_response(tries);
    if a < tries.len() {
        assert(answers(tries[a]));
    }
    if answers(tries[i]) && (forall|j: int| 0 <= j < i ==> !answers(#[trigger] tries[j])) {
        assert(a == i);
    }
    if b < tries.len() {
        assert(tries[b].reply is Response);
    }
    if tries[i].reply is Response && (forall|j: int|
        0 <= j < i ==> !((#[trigger] tries[j]).reply is Response)) {
        assert(b == i);
    }
}

/// Where the first answer and the first response stand.
proof fn lemma_firsts(tries: Seq<TryView>)
    ensures
        ({
            let a = failover::first_answer(tries);
            let b = failover::first_response(tries);
            &&& 0 <= a <= tries.len() && 0 <= b <= tries.len()
            &&& a < tries.len() ==> answers(tries[a])
            &&& b < tries.len() ==> tries[b].reply is Response
            &&& forall|j: int| 0 <= j < a ==> !answers(#[trigger] tries[j])
            &&& forall|j: int| 0 <= j < b ==> !((#[trigger] tries[j]).reply is Response)
        }),
    decreases tries.len(),
{
    if tries.len() > 0 {
        let rest = tries.drop_first();
        lemma_firsts(rest);
        assert forall|j: int| 0 <= j < failover::first_answer(tries) implies !answers(
            #[trigger] tries[j],
        ) by {
            if j > 0 {
                assert(rest[j - 1] == tries[j]);
            }
        }
        assert forall|j: int| 0 <= j < failover::first_response(tries) implies !((
        #[trigger] tries[j]).reply is Response) by {
            if j > 0 {
                assert(rest[j - 1] == tries[j]);
            }
        }
    }
}

/// One step of the search: an answer settles it; anything else moves it on to the next
/// upstream in the same order.
pub proof fn law_step(f: FailoverView, t: TryView)
    ensures
        answers(t) ==> (failover::after_reply(f, t) matches ProgressView::Settled(r) && r.message
            == t.reply->Response_0 && r.upstream == t.upstream && r.rtt_us == t.rtt_us),
        !answers(t) ==> (failover::after_reply(f, t) matches ProgressView::Going(g) && g.next
            == f.next + 1 && g.order == f.order && (f.fallback is Some ==> g.fallback
            == f.fallback)),
{
}

/// Putting upstreams in order makes the first one the leader and tells each its place,
/// beginning with 0; nothing else changes.
pub proof fn law_put_in_order(p: PoolView, i: int)
    requires
        0 <= i < p.upstreams.len() <= 65535,
    ensures
        ({
            let order = pool::selection(pool::healths(p.upstreams), p.leader);
            let after = pool::put_in_order(p);
            let (was, now) = (p.upstreams[order[i]], after.upstreams[order[i]]);
            &&& order.len() == p.upstreams.len() && 0 <= order[i] < p.upstreams.len()
            &&& after.leader == Some(order[0])
            &&& after.upstreams.len() == p.upstreams.len() && after.settings == p.settings
            &&& now.health.last_rank == Some(i as u16)
            &&& now.name == was.name && now.spec == was.spec
            &&& now.health.up == was.health.up && now.health.probe_ewma_us
                == was.health.probe_ewma_us && now.health.consecutive_failures
                == was.health.consecutive_failures && now.health.total_queries
                == was.health.total_queries && now.health.probe_samples == was.health.probe_samples
            &&& i > 0 ==> !now.health.lead_held
        }),
{
    let hs = pool::healths(p.upstreams);
    let order = pool::selection(hs, p.leader);
    pool::law_selection_is_complete(hs, p.leader);
    assert(order[i] == order[i]);
    let k = order[i];
    assert(order.contains(k));
    let at = order.index_of(k);
    assert(order[at] == k);
    assert(at == i);
}

/// A pool has one upstream for each configured entry, in their order: as its spec says,
/// under its own name or else as its spec is shown, taken to be up, and with nothing
/// measured yet. One entry that cannot be read is an error.
pub proof fn law_pool_is_as_configured(entries: Seq<EntryView>)
    ensures
        match pool::upstreams_of(entries) {
            Ok(ups) => ups.len() == entries.len() && forall|i: int|
                0 <= i < ups.len() ==> spec::spec_of_text((#[trigger] entries[i]).spec) == Ok::<
                    SpecView,
                    Seq<char>,
                >(ups[i].spec) && ups[i].name == (match entries[i].name {
                    Some(n) => n,
                    None => ups[i].spec.display,
                }) && ups[i].health.up && ups[i].health.consecutive_failures == 0
                    && ups[i].health.probe_samples == 0 && ups[i].health.total_queries == 0,
            Err(e) => exists|i: int|
                0 <= i < entries.len() && spec::spec_of_text((#[trigger] entries[i]).spec) == Err::<
                    SpecView,
                    Seq<char>,
                >(e),
        },
    decreases entries.len(),
{
    if entries.len() > 0 {
        let rest = entries.drop_last();
        law_pool_is_as_configured(rest);
        let n = entries.len() - 1;
        assert(entries[n] == entries.last());
        match pool::upstreams_of(rest) {
            Ok(before) => {
                if let Ok(ups) = pool::upstreams_of(entries) {
                    assert forall|i: int| 0 <= i < ups.len() implies spec::spec_of_text(
                        (#[trigger] entries[i]).spec,
                    ) == Ok::<SpecView, Seq<char>>(ups[i].spec) && ups[i].name == (
                    match entries[i].name {
                        Some(n) => n,
                        None => ups[i].spec.display,
                    }) && ups[i].health.up && ups[i].health.consecutive_failures == 0
                        && ups[i].health.probe_samples == 0 && ups[i].health.total_queries == 0 by {
                        if i < n {
                            assert(rest[i] == entries[i]);
                            assert(ups[i] == before[i]);
                        }
                    }
                }
            },
            Err(e) => {
                let i = choose|i: int|
                    0 <= i < rest.len() && spec::spec_of_text((#[trigger] rest[i]).spec) == Err::<
                        SpecView,
                        Seq<char>,
                    >(e);
                assert(entries[i] == rest[i]);
            },
        }
    }
}

} // verus!
