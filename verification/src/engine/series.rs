//! The hourly time series of queries.

use vstd::prelude::*;

use crate::engine::histogram;
use crate::engine::histogram::plus;

verus! {

/// A point in the hourly time series.
#[derive(Debug, Clone, Copy, PartialEq, Eq, Structural)]
pub struct SeriesPoint {
    /// Unix epoch hour (seconds / 3600).
    pub hour: i64,
    pub total: u64,
    pub blocked: u64,
    pub cached: u64,
}

/// The sums of two points for one hour.
pub open spec fn both_points(a: SeriesPoint, b: SeriesPoint) -> SeriesPoint {
    SeriesPoint {
        hour: a.hour,
        total: histogram::sum64(a.total, b.total),
        blocked: histogram::sum64(a.blocked, b.blocked),
        cached: histogram::sum64(a.cached, b.cached),
    }
}

/// With a point added, in the order of hours.
pub open spec fn with_point(s: Seq<SeriesPoint>, b: SeriesPoint) -> Seq<SeriesPoint>
    decreases s.len(),
{
    if s.len() == 0 || s.last().hour < b.hour {
        s.push(b)
    } else if s.last().hour == b.hour {
        s.drop_last().push(both_points(s.last(), b))
    } else {
        with_point(s.drop_last(), b).push(s.last())
    }
}

/// With points added, in the order of hours.
pub open spec fn with_points(s: Seq<SeriesPoint>, more: Seq<SeriesPoint>) -> Seq<SeriesPoint>
    decreases more.len(),
{
    if more.len() == 0 {
        s
    } else {
        with_point(with_points(s, more.drop_last()), more.last())
    }
}

/// The last so many points.
pub open spec fn latest(s: Seq<SeriesPoint>, max: usize) -> Seq<SeriesPoint> {
    if s.len() > max {
        s.skip(s.len() - max)
    } else {
        s
    }
}

/// With a query of an hour: it counts in the last point, if that is for the hour,
/// or else starts another, and no more than so many are kept.
pub open spec fn with_query(s: Seq<SeriesPoint>, q: SeriesPoint, max: usize) -> Seq<SeriesPoint> {
    if s.len() > 0 && s.last().hour == q.hour {
        s.drop_last().push(both_points(s.last(), q))
    } else {
        latest(s.push(q), max)
    }
}

pub fn sum_points(a: SeriesPoint, b: SeriesPoint) -> (r: SeriesPoint)
    ensures
        r == both_points(a, b),
{
    SeriesPoint {
        hour: a.hour,
        total: plus(a.total, b.total),
        blocked: plus(a.blocked, b.blocked),
        cached: plus(a.cached, b.cached),
    }
}

/// What adding a point makes of a prefix, with what follows it.
proof fn lemma_point_in_prefix(s: Seq<SeriesPoint>, b: SeriesPoint, at: int)
    requires
        0 <= at <= s.len(),
        forall|i: int| at <= i < s.len() ==> (#[trigger] s[i]).hour > b.hour,
    ensures
        with_point(s, b) == with_point(s.take(at), b) + s.skip(at),
    decreases s.len() - at,
{
    if at == s.len() {
        assert(s.take(at) =~= s);
        assert(with_point(s, b) + s.skip(at) =~= with_point(s, b));
    } else {
        let init = s.drop_last();
        assert forall|i: int| at <= i < init.len() implies (#[trigger] init[i]).hour > b.hour by {
            assert(init[i] == s[i]);
        }
        lemma_point_in_prefix(init, b, at);
        assert(init.take(at) =~= s.take(at));
        assert(s.last() == s[s.len() - 1]);
        assert((with_point(s.take(at), b) + init.skip(at)).push(s.last()) =~= with_point(
            s.take(at),
            b,
        ) + s.skip(at));
    }
}

pub fn add_point(s: &mut Vec<SeriesPoint>, b: SeriesPoint)
    ensures
        final(s)@ == with_point(old(s)@, b),
{
    let ghost before = s@;
    let mut at: usize = s.len();
    while at > 0 && s[at - 1].hour > b.hour
        invariant
            at <= s@.len(),
            s@ == before,
            forall|i: int| at <= i < s@.len() ==> (#[trigger] s@[i]).hour > b.hour,
        decreases at,
    {
        at = at - 1;
    }
    proof {
        lemma_point_in_prefix(before, b, at as int);
        assert(at > 0 ==> before.take(at as int).last() == before[at - 1]);
    }
    if at > 0 && s[at - 1].hour == b.hour {
        let sum: SeriesPoint = sum_points(s[at - 1], b);
        s[at - 1] = sum;
        assert(s@ =~= with_point(before.take(at as int), b) + before.skip(at as int));
    } else {
        s.insert(at, b);
        assert(s@ =~= with_point(before.take(at as int), b) + before.skip(at as int));
    }
}

pub fn add_points(s: &mut Vec<SeriesPoint>, more: &Vec<SeriesPoint>)
    ensures
        final(s)@ == with_points(old(s)@, more@),
{
    let ghost start = s@;
    let mut i: usize = 0;
    assert(more@.take(0) =~= Seq::empty());
    while i < more.len()
        invariant
            i <= more@.len(),
            s@ == with_points(start, more@.take(i as int)),
        decreases more@.len() - i,
    {
        assert(more@.take(i + 1).drop_last() =~= more@.take(i as int));
        add_point(s, more[i]);
        i = i + 1;
    }
    assert(more@.take(i as int) =~= more@);
}

/// Keeps the last so many points.
pub fn keep_latest(s: &mut Vec<SeriesPoint>, max: usize)
    ensures
        final(s)@ == latest(old(s)@, max),
{
    let ghost start = s@;
    assert(start.skip(0) =~= start);
    let ghost mut gone: int = 0;
    while s.len() > max
        invariant
            0 <= gone <= start.len(),
            s@ == start.skip(gone),
            gone > 0 ==> s@.len() >= max,
        decreases s@.len(),
    {
        let _ = s.remove(0);
        proof {
            assert(s@ =~= start.skip(gone + 1));
            gone = gone + 1;
        }
    }
}

/// Points are in the order of hours, one for each.
pub open spec fn in_order(s: Seq<SeriesPoint>) -> bool {
    forall|i: int, j: int| 0 <= i < j < s.len() ==> (#[trigger] s[i]).hour < (#[trigger] s[j]).hour
}

/// Merged points stay in the order of hours, one for each.
pub proof fn law_series_in_order(s: Seq<SeriesPoint>, more: Seq<SeriesPoint>)
    requires
        in_order(s),
    ensures
        in_order(with_points(s, more)),
    decreases more.len(),
{
    if more.len() > 0 {
        law_series_in_order(s, more.drop_last());
        lemma_point_in_order(with_points(s, more.drop_last()), more.last());
    }
}

proof fn lemma_point_in_order(s: Seq<SeriesPoint>, b: SeriesPoint)
    requires
        in_order(s),
    ensures
        in_order(with_point(s, b)),
        forall|i: int|
            0 <= i < with_point(s, b).len() ==> (#[trigger] with_point(s, b)[i]).hour == b.hour || (
            s.len() > 0 && with_point(s, b)[i].hour <= s.last().hour),
    decreases s.len(),
{
    if s.len() > 0 && s.last().hour > b.hour {
        lemma_point_in_order(s.drop_last(), b);
        let t = with_point(s.drop_last(), b);
        assert forall|i: int| 0 <= i < t.len() implies (#[trigger] t[i]).hour < s.last().hour by {
            if s.len() > 1 {
                assert(s.drop_last().last() == s[s.len() - 2]);
                assert(s[s.len() - 2].hour < s[s.len() - 1].hour);
            }
        }
    } else {
        assert forall|i: int| 0 <= i < s.len() implies (#[trigger] s[i]).hour <= s.last().hour by {
            if i < s.len() - 1 {
                assert(s[i].hour < s[s.len() - 1].hour);
            }
        }
    }
}

} // verus!
