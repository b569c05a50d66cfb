//! What holds of the figures that are kept of queries.

use vstd::prelude::*;

use crate::engine::clients;
use crate::engine::clients::MatcherView;
use crate::engine::counts::Counts;
use crate::engine::histogram;
use crate::engine::querylog;
use crate::engine::querylog::ActionView;
use crate::engine::ranking;
use crate::engine::ranking::TopView;
use crate::engine::series;
use crate::engine::series::SeriesPoint;
use crate::engine::stats;
use crate::engine::stats::{StatsSummary, StatsView};
use crate::net;
use crate::text;

verus! {

/// A recorded query counts once among all, and once among the blocked, the cached, the
/// rewritten and the failed ones where it was that. A block that an exception lifted is
/// none.
pub proof fn law_query_is_counted(
    s: StatsView,
    after: StatsView,
    e: querylog::EntryView,
    rtt_us: Option<u64>,
    cap: usize,
    max: usize,
    anonymize: bool,
)
    requires
        stats::recorded(s, after, e, rtt_us, cap, max, anonymize),
        s.total < u64::MAX && s.blocked < u64::MAX && s.cached < u64::MAX && s.rewritten < u64::MAX
            && s.errors < u64::MAX,
    ensures
        after.total == s.total + 1,
        after.blocked == s.blocked + (if e.action is Blocked && !e.allowlisted {
            1int
        } else {
            0
        }),
        after.cached == s.cached + (if e.action is Cached {
            1int
        } else {
            0
        }),
        after.rewritten == s.rewritten + (if e.action is Rewritten {
            1int
        } else {
            0
        }),
        after.errors == s.errors + (if e.action is Error {
            1int
        } else {
            0
        }),
        after.cache == s.cache,
{
}

/// While there is room, the name that was asked for counts among the blocked ones where
/// the query was blocked, and among the others where it was not; the client counts where
/// clients are recorded at all.
pub proof fn law_names_are_counted(
    s: StatsView,
    after: StatsView,
    e: querylog::EntryView,
    rtt_us: Option<u64>,
    cap: usize,
    max: usize,
    anonymize: bool,
    domain: Seq<char>,
)
    requires
        stats::recorded(s, after, e, rtt_us, cap, max, anonymize),
        e.question == domain || e.question == domain.push('.'),
        domain.len() > 0 && domain.last() != '.',
        s.blocked_domains.dom().len() < cap && s.resolved_domains.dom().len() < cap
            && s.clients.dom().len() < cap,
        forall|k: Seq<char>| #[trigger]
            s.blocked_domains.contains_key(k) ==> s.blocked_domains[k] < u64::MAX,
        forall|k: Seq<char>| #[trigger]
            s.resolved_domains.contains_key(k) ==> s.resolved_domains[k] < u64::MAX,
        forall|k: Seq<char>| #[trigger] s.clients.contains_key(k) ==> s.clients[k] < u64::MAX,
    ensures
        ({
            let blocked = e.action is Blocked && !e.allowlisted;
            &&& blocked ==> after.resolved_domains == s.resolved_domains && one_more(
                s.blocked_domains,
                after.blocked_domains,
                domain,
            )
            &&& !blocked ==> after.blocked_domains == s.blocked_domains && one_more(
                s.resolved_domains,
                after.resolved_domains,
                domain,
            )
            &&& anonymize ==> after.clients == s.clients
            &&& !anonymize ==> one_more(s.clients, after.clients, e.client_ip)
        }),
{
    assert(domain.push('.').drop_last() =~= domain);
    assert(text::strip_end(domain, '.') == domain);
    assert(text::strip_end(e.question, '.') == domain);
}

/// Whether counts differ by one of a name.
pub open spec fn one_more(
    m: Map<Seq<char>, u64>,
    after: Map<Seq<char>, u64>,
    name: Seq<char>,
) -> bool {
    &&& after.contains_key(name)
    &&& after[name] == 1 + (if m.contains_key(name) {
        m[name] as int
    } else {
        0
    })
    &&& forall|k: Seq<char>|
        k != name ==> (#[trigger] after.contains_key(k) <==> m.contains_key(k)) && (
        m.contains_key(k) ==> after[k] == m[k])
}

/// A forwarded query counts for the upstream that answered it, with the upstream's own
/// time where it is known and the query's where it is not.
pub proof fn law_upstream_is_counted(
    s: StatsView,
    after: StatsView,
    e: querylog::EntryView,
    rtt_us: Option<u64>,
    cap: usize,
    max: usize,
    anonymize: bool,
    up: Seq<char>,
)
    requires
        stats::recorded(s, after, e, rtt_us, cap, max, anonymize),
        s.upstreams.dom().len() < cap,
        s.upstreams.contains_key(up) ==> s.upstreams[up] < u64::MAX,
        s.upstream_rtt_count.contains_key(up) ==> s.upstream_rtt_count[up] < u64::MAX,
        s.upstream_rtt_sum.contains_key(up) ==> s.upstream_rtt_sum[up] + (match rtt_us {
            Some(us) => us,
            None => e.elapsed_us,
        }) <= u64::MAX,
    ensures
        e.action == ActionView::Forwarded(up) ==> {
            &&& one_more(s.upstreams, after.upstreams, up)
            &&& one_more(s.upstream_rtt_count, after.upstream_rtt_count, up)
            &&& after.upstream_rtt_sum.contains_key(up)
            &&& after.upstream_rtt_sum[up] == (if s.upstream_rtt_sum.contains_key(up) {
                s.upstream_rtt_sum[up] as int
            } else {
                0
            }) + (match rtt_us {
                Some(us) => us,
                None => e.elapsed_us,
            })
        },
        !(e.action is Forwarded) ==> after.upstreams == s.upstreams && after.upstream_rtt_sum
            == s.upstream_rtt_sum && after.upstream_rtt_count == s.upstream_rtt_count,
{
}

/// The hour of a time, and how many hours are kept.
pub proof fn law_hours(time_ms: i64, days: u32)
    requires
        time_ms >= 0,
    ensures
        3_600_000 * stats::hour_of(time_ms) <= time_ms < 3_600_000 * (stats::hour_of(time_ms) + 1),
        days > 0 ==> stats::points_for(days) == 24 * days,
        days == 0 ==> stats::points_for(days) == 24,
{
}

/// A query counts in the point of its hour: in the last one where that is its hour's, or
/// else in a new one behind it; with no more points kept than there is to be.
pub proof fn law_series(s: Seq<SeriesPoint>, e: querylog::EntryView, max: usize)
    requires
        max > 0,
        s.len() > 0 ==> s.last().total < u64::MAX && s.last().blocked < u64::MAX && s.last().cached
            < u64::MAX,
    ensures
        ({
            let after = series::with_query(s, stats::point_of(e), max);
            let hour = stats::hour_of(e.time_ms);
            let was = if s.len() > 0 && s.last().hour == hour {
                s.last()
            } else {
                SeriesPoint { hour, total: 0, blocked: 0, cached: 0 }
            };
            &&& after.len() > 0
            &&& after.last().hour == hour
            &&& after.last().total == was.total + 1
            &&& after.last().blocked == was.blocked + (if e.action is Blocked && !e.allowlisted {
                1int
            } else {
                0
            })
            &&& after.last().cached == was.cached + (if e.action is Cached {
                1int
            } else {
                0
            })
            &&& s.len() <= max ==> after.len() <= max
            &&& forall|i: int|
                1 <= i < after.len() ==> s.contains(#[trigger] after[after.len() - 1 - i])
        }),
{
    let q = stats::point_of(e);
    let after = series::with_query(s, q, max);
    if s.len() > 0 && s.last().hour == q.hour {
        assert forall|i: int| 1 <= i < after.len() implies s.contains(
            #[trigger] after[after.len() - 1 - i],
        ) by {
            assert(after[after.len() - 1 - i] == s[after.len() - 1 - i]);
        }
    } else {
        let long = s.push(q);
        assert(after.last() == q);
        assert forall|i: int| 1 <= i < after.len() implies s.contains(
            #[trigger] after[after.len() - 1 - i],
        ) by {
            let k = long.len() - 1 - i;
            assert(after[after.len() - 1 - i] == long[k]);
            assert(long[k] == s[k]);
        }
    }
}

/// The bucket of a latency: up to 1, 2, 5, 10, 20, 50, 100, 200 and 500 milliseconds, up to
/// one second, and beyond.
pub proof fn law_buckets(us: u64)
    ensures
        ({
            let b = histogram::bucket_of(us);
            &&& us <= 1_000 <==> b == 0
            &&& 1_000 < us <= 2_000 <==> b == 1
            &&& 2_000 < us <= 5_000 <==> b == 2
            &&& 5_000 < us <= 10_000 <==> b == 3
            &&& 10_000 < us <= 20_000 <==> b == 4
            &&& 20_000 < us <= 50_000 <==> b == 5
            &&& 50_000 < us <= 100_000 <==> b == 6
            &&& 100_000 < us <= 200_000 <==> b == 7
            &&& 200_000 < us <= 500_000 <==> b == 8
            &&& 500_000 < us <= 1_000_000 <==> b == 9
            &&& 1_000_000 < us <==> b == 10
        }),
{
    reveal_with_fuel(histogram::bucket_from, 11);
}

/// The upper end of a bucket; the last one ends where it begins.
pub open spec fn upper_end(i: int) -> int {
    if i < 10 {
        histogram::bounds()[i] as int
    } else {
        histogram::bounds()[9] as int
    }
}

/// So many hundredths of the latencies do not pass a quantile: it lies in the bucket with
/// the latency of that rank, where fewer than that are in the buckets before and no fewer
/// in those up to it.
pub proof fn law_quantile(h: Seq<u64>, percent: nat)
    requires
        h.len() == 11,
        1 <= percent <= 100,
        histogram::total_upto(h, 11) > 0,
    ensures
        exists|i: int|
            #![trigger upper_end(i)]
            0 <= i <= 10 && h[i] > 0 && histogram::lower_bound(i) <= histogram::quantile_of(
                h,
                percent,
            ) <= upper_end(i) && 100 * histogram::total_upto(h, i as nat) < percent
                * histogram::total_upto(h, 11) <= 100 * histogram::total_upto(h, (i + 1) as nat),
{
    let total = histogram::total_upto(h, 11);
    assert(percent * total > 0) by (nonlinear_arith)
        requires
            percent >= 1,
            total > 0,
    ;
    lemma_quantile(h, total, percent, 0);
}

proof fn lemma_quantile(h: Seq<u64>, total: nat, percent: nat, from: int)
    requires
        h.len() == 11,
        1 <= percent <= 100,
        total == histogram::total_upto(h, 11),
        0 <= from <= 11,
        100 * histogram::total_upto(h, from as nat) < percent * total,
    ensures
        exists|i: int|
            #![trigger upper_end(i)]
            0 <= i <= 10 && h[i] > 0 && histogram::lower_bound(i) <= histogram::quantile_from(
                h,
                total,
                percent,
                from,
            ) <= upper_end(i) && 100 * histogram::total_upto(h, i as nat) < percent * total <= 100
                * histogram::total_upto(h, (i + 1) as nat),
    decreases 11 - from,
{
    if from == 11 {
        assert(percent * total <= 100 * total) by (nonlinear_arith)
            requires
                percent <= 100,
        ;
        assert(false);
    } else {
        let cum = histogram::total_upto(h, from as nat);
        assert(histogram::total_upto(h, (from + 1) as nat) == cum + h[from] as nat);
        if h[from] != 0 && (cum + h[from]) * 100 >= percent * total {
            let low = histogram::lower_bound(from);
            let high = upper_end(from);
            assert(low <= high);
            if from < 10 {
                let part = percent * total - 100 * cum;
                let whole = 100 * h[from];
                let width = high - low;
                assert(0 <= width * part / whole <= width) by {
                    assert(0 <= width * part <= width * whole) by (nonlinear_arith)
                        requires
                            0 <= part <= whole,
                            0 <= width,
                    ;
                    assert(0 <= width * part / whole <= width) by (nonlinear_arith)
                        requires
                            0 <= width * part <= width * whole,
                            whole > 0,
                    ;
                }
            }
            assert(low <= histogram::quantile_from(h, total, percent, from) <= upper_end(from));
        } else {
            lemma_quantile(h, total, percent, from + 1);
        }
    }
}

/// The list of the highest counts: so many or all there are, each with its count, no lower
/// one before a higher one, and none left out that is higher than one in it.
pub proof fn law_top(v: Seq<TopView>, m: Map<Seq<char>, u64>, n: nat)
    requires
        ranking::is_top(v, m, n),
    ensures
        v.len() <= n && v.len() <= m.dom().len(),
        v.len() == n || v.len() == m.dom().len(),
        forall|i: int| 0 <= i < v.len() ==> m.contains_key((#[trigger] v[i]).name) && m[v[i].name]
            == v[i].count,
        forall|i: int, j: int|
            0 <= i < j < v.len() ==> (#[trigger] v[i]).count >= (#[trigger] v[j]).count && v[i].name
                != v[j].name,
        forall|name: Seq<char>, i: int|
            m.contains_key(name) && 0 <= i < v.len() && (forall|j: int|
                0 <= j < v.len() ==> (#[trigger] v[j]).name != name) ==> (#[trigger] v[i]).count
                >= #[trigger] m[name],
{
    assert forall|i: int, j: int| 0 <= i < j < v.len() implies (#[trigger] v[i]).count >= (
    #[trigger] v[j]).count && v[i].name != v[j].name by {
        assert(ranking::ranks_before(v[i], v[j]));
        if v[i].name == v[j].name {
            assert(v[i].count == v[j].count);
        }
    }
    assert forall|name: Seq<char>, i: int|
        m.contains_key(name) && 0 <= i < v.len() && (forall|j: int|
            0 <= j < v.len() ==> (#[trigger] v[j]).name != name) implies (#[trigger] v[i]).count
        >= #[trigger] m[name] by {
        assert(!ranking::names_it(v, name));
        assert(ranking::ranks_before(v[i], TopView { name, count: m[name] }));
    }
}

/// The average time of an upstream is the sum of its times by how many there were, in whole
/// microseconds.
pub proof fn law_average(names: Seq<Seq<char>>, sums: Counts, counts: Counts, up: Seq<char>)
    requires
        names.contains(up),
        sums.contains_key(up),
        counts[up] > 0,
    ensures
        ({
            let avg = stats::averages(names, sums, counts);
            &&& avg.contains_key(up)
            &&& avg[up] * counts[up] <= sums[up] < (avg[up] + 1) * counts[up]
        }),
{
    let (s, c) = (sums[up] as int, counts[up] as int);
    vstd::arithmetic::div_mod::lemma_fundamental_div_mod(s, c);
    assert(0 <= s % c < c);
    let q = s / c;
    assert(0 <= q <= s) by (nonlinear_arith)
        requires
            s >= 0,
            c > 0,
            q == s / c,
    ;
    assert(q * c <= s < (q + 1) * c) by (nonlinear_arith)
        requires
            s == c * q + s % c,
            0 <= s % c < c,
    ;
}

/// The figures of two shards add up, name by name and bucket by bucket.
pub proof fn law_shards_add_up(a: StatsView, b: StatsView, name: Seq<char>, i: int)
    requires
        a.total + b.total <= u64::MAX,
        a.blocked + b.blocked <= u64::MAX,
        a.cached + b.cached <= u64::MAX,
        a.rewritten + b.rewritten <= u64::MAX,
        a.errors + b.errors <= u64::MAX,
        0 <= i < 11,
        a.proc_time_hist[i] + b.proc_time_hist[i] <= u64::MAX,
        count_in(a.blocked_domains, name) + count_in(b.blocked_domains, name) <= u64::MAX,
        count_in(a.resolved_domains, name) + count_in(b.resolved_domains, name) <= u64::MAX,
        count_in(a.clients, name) + count_in(b.clients, name) <= u64::MAX,
        count_in(a.upstreams, name) + count_in(b.upstreams, name) <= u64::MAX,
    ensures
        ({
            let m = stats::merged_stats(a, b);
            &&& m.total == a.total + b.total && m.blocked == a.blocked + b.blocked
            &&& m.cached == a.cached + b.cached && m.rewritten == a.rewritten + b.rewritten
            &&& m.errors == a.errors + b.errors
            &&& m.proc_time_hist[i] == a.proc_time_hist[i] + b.proc_time_hist[i]
            &&& count_in(m.blocked_domains, name) == count_in(a.blocked_domains, name) + count_in(
                b.blocked_domains,
                name,
            )
            &&& count_in(m.resolved_domains, name) == count_in(a.resolved_domains, name)
                + count_in(b.resolved_domains, name)
            &&& count_in(m.clients, name) == count_in(a.clients, name) + count_in(b.clients, name)
            &&& count_in(m.upstreams, name) == count_in(a.upstreams, name) + count_in(
                b.upstreams,
                name,
            )
        }),
{
}

/// How often a name was counted.
pub open spec fn count_in(m: Counts, name: Seq<char>) -> int {
    if m.contains_key(name) {
        m[name] as int
    } else {
        0
    }
}

/// What the counts of these addresses come to, of those that are shown under a name.
pub open spec fn sum_for(
    ips: Seq<Seq<char>>,
    counts: Counts,
    m: MatcherView,
    name: Seq<char>,
) -> int
    decreases ips.len(),
{
    if ips.len() == 0 {
        0
    } else {
        sum_for(ips.drop_last(), counts, m, name) + if stats::label_of(m, ips.last()) == name {
            counts[ips.last()] as int
        } else {
            0
        }
    }
}

/// The queries of a client are those of all its addresses together.
pub proof fn law_clients_by_name(
    ips: Seq<Seq<char>>,
    counts: Counts,
    m: MatcherView,
    name: Seq<char>,
)
    requires
        sum_for(ips, counts, m, name) <= u64::MAX,
    ensures
        count_in(stats::by_label(ips, counts, m), name) == sum_for(ips, counts, m, name),
        0 <= sum_for(ips, counts, m, name),
    decreases ips.len(),
{
    if ips.len() > 0 {
        let rest = ips.drop_last();
        lemma_sum(rest, counts, m, name);
        law_clients_by_name(rest, counts, m, name);
    }
}

proof fn lemma_sum(ips: Seq<Seq<char>>, counts: Counts, m: MatcherView, name: Seq<char>)
    ensures
        0 <= sum_for(ips, counts, m, name),
    decreases ips.len(),
{
    if ips.len() > 0 {
        lemma_sum(ips.drop_last(), counts, m, name);
    }
}

/// An address is shown under the name of the client behind it, or as it is where there is
/// none.
pub proof fn law_labels(m: MatcherView, ip: Seq<char>)
    ensures
        match net::ip_of_text(ip) {
            Some(a) => match clients::resolved(m, a).name {
                Some(n) => stats::label_of(m, ip) == n,
                None => stats::label_of(m, ip) == ip,
            },
            None => stats::label_of(m, ip) == ip,
        },
{
}

/// The shards of the statistics: a power of two, no fewer than processors up to 64 and
/// less than twice as many; each holds 4096 names by their number, and 256 at least.
pub proof fn law_stats_shards(cpus: usize, shards: nat)
    requires
        shards > 0,
    ensures
        ({
            let n = stats::shards_for(cpus, 1);
            &&& n == 1 || n == 2 || n == 4 || n == 8 || n == 16 || n == 32 || n == 64
            &&& cpus <= 64 ==> cpus <= n
            &&& n > 1 ==> n < 2 * cpus
        }),
        stats::keys_for(shards) >= 256,
        shards <= 16 ==> stats::keys_for(shards) == 4096int / shards as int,
        shards > 16 ==> stats::keys_for(shards) == 256,
{
    reveal_with_fuel(stats::shards_for, 8);
    let q = 4096int / shards as int;
    if shards <= 16 {
        assert(q >= 256) by (nonlinear_arith)
            requires
                0 < shards <= 16,
                q == 4096int / shards as int,
        ;
    } else {
        assert(q <= 256) by (nonlinear_arith)
            requires
                shards > 16,
                q == 4096int / shards as int,
        ;
    }
}

/// What is shown of the statistics is what they hold.
pub proof fn law_summary(
    r: StatsSummary,
    s: StatsView,
    n: nat,
    m: MatcherView,
    ips: Seq<Seq<char>>,
)
    requires
        stats::summarizes(r, s, n, m, ips),
    ensures
        r.total == s.total && r.blocked == s.blocked && r.cached == s.cached,
        r.rewritten == s.rewritten && r.errors == s.errors,
        forall|i: int|
            0 <= i < r.top_blocked_domains@.len() ==> ({
                let e = #[trigger] ranking::top_views(r.top_blocked_domains@)[i];
                s.blocked_domains.contains_key(e.name) && s.blocked_domains[e.name] == e.count
            }),
        forall|i: int|
            0 <= i < r.top_resolved_domains@.len() ==> ({
                let e = #[trigger] ranking::top_views(r.top_resolved_domains@)[i];
                s.resolved_domains.contains_key(e.name) && s.resolved_domains[e.name] == e.count
            }),
{
}

/// The time of a query counts in its bucket, unless the query failed; that of a forwarded
/// one counts for its upstream, too.
pub proof fn law_times_are_counted(
    s: StatsView,
    after: StatsView,
    e: querylog::EntryView,
    rtt_us: Option<u64>,
    cap: usize,
    max: usize,
    anonymize: bool,
    i: int,
    up: Seq<char>,
)
    requires
        stats::recorded(s, after, e, rtt_us, cap, max, anonymize),
        s.proc_time_hist.len() == 11,
        0 <= i < 11,
        s.proc_time_hist[i] < u64::MAX,
        s.upstream_latency_hist.contains_key(up),
        s.upstream_latency_hist[up].len() == 11,
        s.upstream_latency_hist[up][i] < u64::MAX,
    ensures
        e.action is Error ==> after.proc_time_hist == s.proc_time_hist,
        !(e.action is Error) ==> after.proc_time_hist[i] == s.proc_time_hist[i] + (if i
            == histogram::bucket_of(e.elapsed_us) {
            1int
        } else {
            0
        }),
        e.action == ActionView::Forwarded(up) ==> after.upstream_latency_hist.contains_key(up)
            && after.upstream_latency_hist[up][i] == s.upstream_latency_hist[up][i] + (if i
            == histogram::bucket_of(
            match rtt_us {
                Some(us) => us,
                None => e.elapsed_us,
            },
        ) {
            1int
        } else {
            0
        }),
{
    law_buckets(e.elapsed_us);
    law_buckets(
        match rtt_us {
            Some(us) => us,
            None => e.elapsed_us,
        },
    );
}

/// What points come to for an hour.
pub open spec fn total_at(s: Seq<SeriesPoint>, hour: i64) -> int
    decreases s.len(),
{
    if s.len() == 0 {
        0
    } else {
        total_at(s.drop_last(), hour) + if s.last().hour == hour {
            s.last().total as int
        } else {
            0
        }
    }
}

/// Points that are put together count for their hours as they did apart.
pub proof fn law_points_add_up(s: Seq<SeriesPoint>, b: SeriesPoint, hour: i64)
    requires
        forall|i: int| 0 <= i < s.len() ==> (#[trigger] s[i]).total + b.total <= u64::MAX,
    ensures
        total_at(series::with_point(s, b), hour) == total_at(s, hour) + (if b.hour == hour {
            b.total as int
        } else {
            0
        }),
    decreases s.len(),
{
    let after = series::with_point(s, b);
    if s.len() == 0 || s.last().hour < b.hour {
        assert(after.drop_last() =~= s);
    } else if s.last().hour == b.hour {
        assert(after.drop_last() =~= s.drop_last());
        assert(s[s.len() - 1].total + b.total <= u64::MAX);
    } else {
        let rest = s.drop_last();
        assert forall|i: int| 0 <= i < rest.len() implies (#[trigger] rest[i]).total + b.total
            <= u64::MAX by {
            assert(rest[i] == s[i]);
        }
        law_points_add_up(rest, b, hour);
        assert(after.drop_last() =~= series::with_point(rest, b));
    }
}

/// Of two names with the same count, the one that comes first in the alphabet stands first
/// in the list.
pub proof fn law_top_ties(v: Seq<TopView>, m: Map<Seq<char>, u64>, n: nat, i: int, j: int, k: int)
    requires
        ranking::is_top(v, m, n),
        0 <= i < j < v.len(),
        v[i].count == v[j].count,
        0 <= k < v[i].name.len(),
        k < v[j].name.len(),
        v[i].name.take(k) == v[j].name.take(k),
        v[i].name[k] != v[j].name[k],
    ensures
        v[i].name[k] < v[j].name[k],
{
    assert(ranking::ranks_before(v[i], v[j]));
    lemma_lex(v[i].name, v[j].name, k);
}

/// Where two texts first differ, the lesser has the lesser character.
proof fn lemma_lex(a: Seq<char>, b: Seq<char>, k: int)
    requires
        text::lex_le(a, b),
        0 <= k < a.len(),
        k < b.len(),
        a.take(k) == b.take(k),
        a[k] != b[k],
    ensures
        a[k] < b[k],
    decreases k,
{
    if k > 0 {
        assert(a.take(k)[0] == a[0]);
        assert(b.take(k)[0] == b[0]);
        let (x, y) = (a.drop_first(), b.drop_first());
        assert(x.take(k - 1) =~= a.take(k).drop_first());
        assert(y.take(k - 1) =~= b.take(k).drop_first());
        lemma_lex(x, y, k - 1);
    }
}

} // verus!
