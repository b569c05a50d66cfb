//! Latency histograms, in microseconds.

use vstd::prelude::*;

verus! {

/// How many latency buckets there are.
pub const BUCKETS: usize = 11;

/// A sum that wraps at its type's limit.
pub open spec fn sum64(a: u64, b: u64) -> u64 {
    if a + b > u64::MAX {
        (a + b - u64::MAX - 1) as u64
    } else {
        (a + b) as u64
    }
}

pub fn plus(a: u64, b: u64) -> (r: u64)
    ensures
        r == sum64(a, b),
{
    if a > u64::MAX - b {
        a - (u64::MAX - b) - 1
    } else {
        a + b
    }
}

/// Latency histogram bucket upper bounds in microseconds; the last bucket has
/// none.
pub open spec fn bounds() -> Seq<u64> {
    seq![
        1_000u64,
        2_000u64,
        5_000u64,
        10_000u64,
        20_000u64,
        50_000u64,
        100_000u64,
        200_000u64,
        500_000u64,
        1_000_000u64,
    ]
}

/// The bucket of a latency: the first whose upper bound it does not pass.
pub open spec fn bucket_of(us: u64) -> int {
    bucket_from(us, 0)
}

pub open spec fn bucket_from(us: u64, i: int) -> int
    decreases 10 - i,
{
    if i >= 10 {
        10
    } else if us <= bounds()[i] {
        i
    } else {
        bucket_from(us, i + 1)
    }
}

/// The upper bound of a bucket that has one.
fn bound(i: usize) -> (r: u64)
    requires
        i < 10,
    ensures
        r == bounds()[i as int],
{
    if i == 0 {
        1_000
    } else if i == 1 {
        2_000
    } else if i == 2 {
        5_000
    } else if i == 3 {
        10_000
    } else if i == 4 {
        20_000
    } else if i == 5 {
        50_000
    } else if i == 6 {
        100_000
    } else if i == 7 {
        200_000
    } else if i == 8 {
        500_000
    } else {
        1_000_000
    }
}

pub fn hist_index(us: u64) -> (r: usize)
    ensures
        r == bucket_of(us),
        r < BUCKETS,
{
    let mut i: usize = 0;
    while i < 10
        invariant
            i <= 10,
            bucket_of(us) == bucket_from(us, i as int),
        decreases 10 - i,
    {
        if us <= bound(i) {
            return i;
        }
        i = i + 1;
    }
    10
}

/// A latency histogram.
#[derive(Debug)]
pub struct Histogram {
    counts: Vec<u64>,
}

impl View for Histogram {
    type V = Seq<u64>;

    closed spec fn view(&self) -> Seq<u64> {
        self.counts@
    }
}

/// A histogram of nothing.
pub open spec fn no_latencies() -> Seq<u64> {
    Seq::new(BUCKETS as nat, |i: int| 0u64)
}

/// With one more in a bucket.
pub open spec fn counted(h: Seq<u64>, at: int) -> Seq<u64> {
    h.update(at, sum64(h[at], 1))
}

/// The sums of two histograms.
pub open spec fn both(a: Seq<u64>, b: Seq<u64>) -> Seq<u64> {
    Seq::new(BUCKETS as nat, |i: int| sum64(a[i], b[i]))
}

/// Counts as a histogram: padded with zeros, and cut.
pub open spec fn fitted(v: Seq<u64>) -> Seq<u64> {
    Seq::new(
        BUCKETS as nat,
        |i: int|
            if i < v.len() {
                v[i]
            } else {
                0
            },
    )
}

/// Counts as a histogram where they are one, or else a histogram of nothing.
pub open spec fn matching(v: Seq<u64>) -> Seq<u64> {
    if v.len() == BUCKETS {
        v
    } else {
        no_latencies()
    }
}

impl Histogram {
    #[verifier::type_invariant]
    closed spec fn wf(self) -> bool {
        self.counts@.len() == BUCKETS
    }

    pub fn new() -> (r: Histogram)
        ensures
            r@ == no_latencies(),
    {
        let mut counts: Vec<u64> = Vec::new();
        let mut i: usize = 0;
        while i < BUCKETS
            invariant
                i <= BUCKETS,
                counts@ =~= Seq::new(i as nat, |k: int| 0u64),
            decreases BUCKETS - i,
        {
            counts.push(0);
            i = i + 1;
        }
        let r = Histogram { counts };
        assert(r@ =~= no_latencies());
        r
    }

    /// A histogram from counts that were kept elsewhere. Those that have another
    /// number of buckets are left out.
    pub fn from_matching_counts(v: &Vec<u64>) -> (r: Histogram)
        ensures
            r@ == matching(v@),
    {
        if v.len() != BUCKETS {
            return Histogram::new();
        }
        let r: Histogram = Histogram::from_counts(v);
        assert(r@ =~= v@);
        r
    }

    /// A histogram from counts that were kept elsewhere, padded with zeros and cut.
    pub fn from_counts(v: &Vec<u64>) -> (r: Histogram)
        ensures
            r@ == fitted(v@),
    {
        let mut counts: Vec<u64> = Vec::new();
        let mut i: usize = 0;
        while i < BUCKETS
            invariant
                i <= BUCKETS,
                counts@.len() == i,
                forall|k: int| 0 <= k < i ==> #[trigger] counts@[k] == fitted(v@)[k],
            decreases BUCKETS - i,
        {
            counts.push(
                if i < v.len() {
                    v[i]
                } else {
                    0
                },
            );
            i = i + 1;
        }
        let r = Histogram { counts };
        assert(r@ =~= fitted(v@));
        r
    }

    /// How many latencies a bucket holds.
    pub fn count(&self, i: usize) -> (r: u64)
        requires
            i < BUCKETS,
        ensures
            r == self@[i as int],
    {
        proof {
            use_type_invariant(self);
        }
        self.counts[i]
    }

    /// An equal histogram.
    pub fn copied(&self) -> (r: Histogram)
        ensures
            r@ == self@,
    {
        proof {
            use_type_invariant(self);
        }
        let r: Histogram = Histogram::from_counts(&self.counts);
        assert(r@ =~= self@);
        r
    }

    pub fn record(&mut self, us: u64)
        ensures
            final(self)@ == counted(old(self)@, bucket_of(us)),
    {
        proof {
            use_type_invariant(&*self);
        }
        let at: usize = hist_index(us);
        let mut counts: Vec<u64> = Histogram::from_counts(&self.counts).counts;
        assert(counts@ =~= self.counts@) by {
            assert(fitted(self.counts@) =~= self.counts@);
        }
        let n: u64 = plus(counts[at], 1);
        counts[at] = n;
        self.counts = counts;
    }

    pub fn merge_from(&mut self, other: &Histogram)
        ensures
            final(self)@ == both(old(self)@, other@),
    {
        proof {
            use_type_invariant(&*self);
            use_type_invariant(other);
        }
        let mut counts: Vec<u64> = Vec::new();
        let mut i: usize = 0;
        while i < BUCKETS
            invariant
                i <= BUCKETS,
                counts@.len() == i,
                self.counts@.len() == BUCKETS,
                other.counts@.len() == BUCKETS,
                forall|k: int|
                    0 <= k < i ==> #[trigger] counts@[k] == sum64(self.counts@[k], other.counts@[k]),
            decreases BUCKETS - i,
        {
            counts.push(plus(self.counts[i], other.counts[i]));
            i = i + 1;
        }
        assert(counts@ =~= both(self.counts@, other.counts@));
        self.counts = counts;
    }
}

/// The total of the first buckets.
pub open spec fn total_upto(h: Seq<u64>, n: nat) -> nat
    decreases n,
{
    if n == 0 {
        0
    } else {
        total_upto(h, (n - 1) as nat) + h[n - 1] as nat
    }
}

/// The lower bound of a bucket.
pub open spec fn lower_bound(i: int) -> int {
    if i == 0 {
        0
    } else {
        bounds()[i - 1] as int
    }
}

/// The latency at a rank, in hundredths of all: by linear interpolation within the
/// bucket that holds it. The last bucket pins to its lower bound.
pub open spec fn quantile_from(h: Seq<u64>, total: nat, percent: nat, i: int) -> int
    decreases BUCKETS - i,
{
    if i >= BUCKETS {
        bounds()[9] as int
    } else {
        let cum = total_upto(h, i as nat);
        if h[i] != 0 && (cum + h[i]) * 100 >= percent * total {
            if i == 10 {
                lower_bound(i)
            } else {
                lower_bound(i) + (bounds()[i] - lower_bound(i)) * (percent * total - 100 * cum) / (100
                    * h[i])
            }
        } else {
            quantile_from(h, total, percent, i + 1)
        }
    }
}

/// The latency that so many hundredths of a histogram do not pass; zero where it
/// holds none.
pub open spec fn quantile_of(h: Seq<u64>, percent: nat) -> int {
    if total_upto(h, BUCKETS as nat) == 0 {
        0
    } else {
        quantile_from(h, total_upto(h, BUCKETS as nat), percent, 0)
    }
}

impl Histogram {
    /// How many latencies there are.
    fn total(&self) -> (r: u128)
        ensures
            r == total_upto(self@, BUCKETS as nat),
            r <= 11 * 0x1_0000_0000_0000_0000,
    {
        proof {
            use_type_invariant(self);
        }
        let mut sum: u128 = 0;
        let mut i: usize = 0;
        while i < BUCKETS
            invariant
                i <= BUCKETS,
                self.counts@.len() == BUCKETS,
                sum == total_upto(self.counts@, i as nat),
                sum <= i * 0x1_0000_0000_0000_0000,
            decreases BUCKETS - i,
        {
            sum = sum + self.counts[i] as u128;
            i = i + 1;
        }
        sum
    }

    /// Approximates the latency that so many hundredths do not pass by linear
    /// interpolation within the bucket that holds the target rank. Samples in the
    /// unbounded final bucket pin to its lower bound.
    pub fn quantile(&self, percent: u64) -> (r: u64)
        requires
            percent <= 100,
        ensures
            r == quantile_of(self@, percent as nat),
    {
        proof {
            use_type_invariant(self);
        }
        let total: u128 = self.total();
        if total == 0 {
            return 0;
        }
        let ghost h = self.counts@;
        assert(percent * total <= 100 * (11 * 0x1_0000_0000_0000_0000)) by (nonlinear_arith)
            requires
                percent <= 100,
                total <= 11 * 0x1_0000_0000_0000_0000,
        ;
        let target: u128 = percent as u128 * total;
        let mut cum: u128 = 0;
        let mut i: usize = 0;
        while i < BUCKETS
            invariant
                i <= BUCKETS,
                h == self.counts@,
                h.len() == BUCKETS,
                0 < total == total_upto(h, BUCKETS as nat),
                target == percent as nat * total,
                target <= 100 * (11 * 0x1_0000_0000_0000_0000),
                cum == total_upto(h, i as nat),
                cum <= i * 0x1_0000_0000_0000_0000,
                cum == 0 || cum * 100 < target,
                quantile_from(h, total as nat, percent as nat, 0) == quantile_from(
                    h,
                    total as nat,
                    percent as nat,
                    i as int,
                ),
            decreases BUCKETS - i,
        {
            let c: u128 = self.counts[i] as u128;
            if c != 0 && (cum + c) * 100 >= target {
                let lower: u64 = if i == 0 {
                    0
                } else {
                    bound(i - 1)
                };
                if i == 10 {
                    return lower;
                }
                let upper: u64 = bound(i);
                let width: u128 = (upper - lower) as u128;
                let into: u128 = target - 100 * cum;
                let ghost most: int = 100 * c;
                assert(into <= most);
                assert(width * into <= width * most) by (nonlinear_arith)
                    requires
                        into <= most,
                        width >= 0,
                ;
                assert(width * into <= 500_000 * (100 * (11 * 0x1_0000_0000_0000_0000)))
                    by (nonlinear_arith)
                    requires
                        0 <= width <= 500_000,
                        0 <= into <= 100 * (11 * 0x1_0000_0000_0000_0000),
                ;
                let share: u128 = width * into / (100 * c);
                assert(share <= width) by (nonlinear_arith)
                    requires
                        share == (width * into) as int / most,
                        most > 0,
                        width * into <= width * most,
                ;
                proof {
                    let wide = bounds()[i as int] - lower_bound(i as int);
                    let deep = percent as nat * total as nat - 100 * total_upto(h, i as nat);
                    assert(wide == width);
                    assert(deep == into);
                    assert(share == wide * deep / (100 * h[i as int]));
                    assert(quantile_from(h, total as nat, percent as nat, i as int) == lower + share);
                }
                return lower + share as u64;
            }
            cum = cum + c;
            i = i + 1;
        }
        1_000_000
    }
}

/// Approximate latency percentiles (microseconds) derived from a bucketed
/// histogram. Accuracy is bounded by the histogram bucket widths.
#[derive(Debug, Clone, Copy, PartialEq, Eq, Structural)]
pub struct LatencyPercentiles {
    pub p50: u64,
    pub p90: u64,
    pub p99: u64,
}

impl View for LatencyPercentiles {
    type V = LatencyPercentiles;

    open spec fn view(&self) -> LatencyPercentiles {
        *self
    }
}

pub open spec fn percentiles_of(h: Seq<u64>) -> LatencyPercentiles {
    LatencyPercentiles {
        p50: quantile_of(h, 50) as u64,
        p90: quantile_of(h, 90) as u64,
        p99: quantile_of(h, 99) as u64,
    }
}

impl Histogram {
    pub fn percentiles(&self) -> (r: LatencyPercentiles)
        ensures
            r == percentiles_of(self@),
    {
        LatencyPercentiles {
            p50: self.quantile(50),
            p90: self.quantile(90),
            p99: self.quantile(99),
        }
    }
}

} // verus!
