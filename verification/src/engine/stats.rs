//! Statistics of the stages of the run loop.
use crate::text;
use vstd::prelude::*;
use vstd::string::StringExecFns;

verus! {

/// What is known of one stage once the run loop has ended.
#[derive(Debug, Clone, Copy, Default)]
pub struct StageStats {
    pub name: &'static str,
    pub unit: &'static str,
    pub count: u64,
    pub total: u64,
    pub avg: u64,
    pub p50: u64,
    pub p95: u64,
    pub max: u64,
}

impl StageStats {
    /// What is said of a stage.
    pub open spec fn text(self) -> Seq<char> {
        "runloop stage stats: stage="@ + self.name@ + " unit="@ + self.unit@ + " count="@
            + text::decimal(self.count as nat) + " total="@ + text::decimal(self.total as nat)
            + " avg="@ + text::decimal(self.avg as nat) + " p50="@ + text::decimal(self.p50 as nat)
            + " p95="@ + text::decimal(self.p95 as nat) + " max="@ + text::decimal(self.max as nat)
    }

    /// The line to log for a stage.
    pub fn info(&self) -> (r: String)
        ensures
            r@ == self.text(),
    {
        let mut r = String::from_str("runloop stage stats: stage=");
        r.append(self.name);
        r.append(" unit=");
        r.append(self.unit);
        r.append(" count=");
        text::push_decimal(&mut r, self.count as u128);
        r.append(" total=");
        text::push_decimal(&mut r, self.total as u128);
        r.append(" avg=");
        text::push_decimal(&mut r, self.avg as u128);
        r.append(" p50=");
        text::push_decimal(&mut r, self.p50 as u128);
        r.append(" p95=");
        text::push_decimal(&mut r, self.p95 as u128);
        r.append(" max=");
        text::push_decimal(&mut r, self.max as u128);
        r
    }
}

/// Number of buckets: one for each power of two of a `u64`.
pub const BUCKETS: usize = 64;

/// `2^n`.
pub open spec fn two_to(n: int) -> int
    decreases n,
{
    if n <= 0 {
        1
    } else {
        2 * two_to(n - 1)
    }
}

/// The bucket of a value: the number of times that it can be halved before it is 1. Zero
/// shares the first bucket with one.
pub open spec fn bucket_of(v: int) -> int
    decreases v,
{
    if v <= 1 {
        0
    } else {
        1 + bucket_of(v / 2)
    }
}

proof fn lemma_two_to(n: int)
    requires
        0 <= n,
    ensures
        two_to(n) >= 1,
        n <= 63 ==> two_to(n) <= 0x8000_0000_0000_0000,
        n >= 64 ==> two_to(n) >= 0x1_0000_0000_0000_0000,
    decreases n,
{
    if n > 0 {
        lemma_two_to(n - 1);
        if n == 64 {
            lemma_two_to_63();
        } else if n < 64 {
            lemma_two_to_monotonic(n, 63);
            lemma_two_to_63();
        }
    }
}

proof fn lemma_two_to_63()
    ensures
        two_to(63) == 0x8000_0000_0000_0000,
{
    reveal_with_fuel(two_to, 64);
}

proof fn lemma_two_to_monotonic(a: int, b: int)
    requires
        0 <= a <= b,
    ensures
        1 <= two_to(a) <= two_to(b),
    decreases b,
{
    if b > 0 {
        if a < b {
            lemma_two_to_monotonic(a, b - 1);
        } else {
            lemma_two_to_monotonic(a - 1, b - 1);
        }
    }
}

/// Bucket `b` holds the values from `2^b` up to `2^(b+1)`, the first one zero as well.
pub proof fn lemma_bucket_range(v: int)
    requires
        0 <= v,
    ensures
        0 <= bucket_of(v),
        v >= 1 ==> two_to(bucket_of(v)) <= v,
        v < two_to(bucket_of(v) + 1),
        v <= u64::MAX ==> bucket_of(v) < BUCKETS,
    decreases v,
{
    if v > 1 {
        lemma_bucket_range(v / 2);
    } else {
        reveal_with_fuel(two_to, 2);
    }
    if bucket_of(v) >= 64 {
        lemma_two_to(bucket_of(v));
    }
}

/// How many samples fall in bucket `b`.
pub open spec fn in_bucket(samples: Seq<u64>, b: int) -> int
    decreases samples.len(),
{
    if samples.len() == 0 {
        0
    } else {
        in_bucket(samples.drop_last(), b) + if bucket_of(samples.last() as int) == b {
            1int
        } else {
            0
        }
    }
}

/// How many samples fall in a bucket before `b`.
pub open spec fn below(samples: Seq<u64>, b: int) -> int
    decreases samples.len(),
{
    if samples.len() == 0 {
        0
    } else {
        below(samples.drop_last(), b) + if bucket_of(samples.last() as int) < b {
            1int
        } else {
            0
        }
    }
}

/// The sum of samples.
pub open spec fn sum(samples: Seq<u64>) -> int
    decreases samples.len(),
{
    if samples.len() == 0 {
        0
    } else {
        sum(samples.drop_last()) + samples.last()
    }
}

/// The largest sample, or zero.
pub open spec fn largest(samples: Seq<u64>) -> u64
    decreases samples.len(),
{
    if samples.len() == 0 {
        0
    } else if samples.last() > largest(samples.drop_last()) {
        samples.last()
    } else {
        largest(samples.drop_last())
    }
}

/// The middle of bucket `b`.
pub open spec fn middle(b: int) -> int {
    let lo = if b == 0 {
        0
    } else {
        two_to(b)
    };
    let hi = if b == 63 {
        u64::MAX as int
    } else {
        two_to(b + 1)
    };
    lo + (hi - lo) / 2
}

/// A rank among the samples that is nearest to `target`.
pub open spec fn rank(samples: Seq<u64>, target: u64) -> int {
    if target < 1 {
        1
    } else if target > samples.len() {
        samples.len() as int
    } else {
        target as int
    }
}

/// Whether the `k`th smallest sample falls in bucket `b`.
pub open spec fn ranks_in(samples: Seq<u64>, k: int, b: int) -> bool {
    0 <= b < BUCKETS && below(samples, b) < k <= below(samples, b + 1)
}

/// Whether `r` is the middle of the bucket of the sample with the rank `target`; zero
/// where there are no samples.
pub open spec fn is_percentile(samples: Seq<u64>, target: u64, r: u64) -> bool {
    if samples.len() == 0 {
        r == 0
    } else {
        exists|b: int| #[trigger] ranks_in(samples, rank(samples, target), b) && r == middle(b)
    }
}

/// Whether `r` says what is known of samples: their number, their sum as far as it fits a
/// `u64`, their mean, two percentiles and the largest.
pub open spec fn sums_up(
    samples: Seq<u64>,
    name: Seq<char>,
    unit: Seq<char>,
    rank50: u64,
    rank95: u64,
    r: StageStats,
) -> bool {
    &&& r.name@ == name
    &&& r.unit@ == unit
    &&& r.count == samples.len()
    &&& r.total == if sum(samples) > u64::MAX {
        u64::MAX as int
    } else {
        sum(samples)
    }
    &&& r.avg == if samples.len() == 0 {
        0
    } else {
        sum(samples) / samples.len() as int
    }
    &&& is_percentile(samples, rank50, r.p50)
    &&& is_percentile(samples, rank95, r.p95)
    &&& r.max == largest(samples)
}

proof fn lemma_below(samples: Seq<u64>, b: int)
    requires
        0 <= b,
    ensures
        below(samples, 0) == 0,
        below(samples, b + 1) == below(samples, b) + in_bucket(samples, b),
        0 <= in_bucket(samples, b),
        0 <= below(samples, b) <= samples.len(),
        b >= 64 ==> below(samples, b) == samples.len(),
    decreases samples.len(),
{
    if samples.len() > 0 {
        lemma_below(samples.drop_last(), b);
        lemma_bucket_range(samples.last() as int);
    }
}

/// The sample with a given rank falls in one bucket only.
pub proof fn lemma_one_bucket(samples: Seq<u64>, k: int, a: int, b: int)
    requires
        ranks_in(samples, k, a),
        ranks_in(samples, k, b),
    ensures
        a == b,
{
    if a < b {
        lemma_below_monotonic(samples, a + 1, b);
    } else if b < a {
        lemma_below_monotonic(samples, b + 1, a);
    }
}

proof fn lemma_below_monotonic(samples: Seq<u64>, a: int, b: int)
    requires
        0 <= a <= b,
    ensures
        below(samples, a) <= below(samples, b),
    decreases b - a,
{
    if a < b {
        lemma_below_monotonic(samples, a, b - 1);
        lemma_below(samples, b - 1);
    }
}

proof fn lemma_sum_fits(samples: Seq<u64>)
    ensures
        0 <= sum(samples) <= samples.len() * u64::MAX,
    decreases samples.len(),
{
    if samples.len() > 0 {
        lemma_sum_fits(samples.drop_last());
    }
}

proof fn lemma_leading_zeros(v: u64)
    requires
        v > 0,
    ensures
        vstd::std_specs::bits::u64_leading_zeros(v) == 63 - bucket_of(v as int),
    decreases v,
{
    reveal(vstd::std_specs::bits::u64_leading_zeros);
    if v == 1 {
        assert(vstd::std_specs::bits::u64_leading_zeros(0) == 64);
    } else {
        lemma_leading_zeros(v / 2);
    }
}

/// Counts of samples by power of two, with their sum and the largest.
pub struct Histogram {
    buckets: [u64; 64],
    total_ns: u128,
    count: u64,
    max_ns: u64,
    samples: Ghost<Seq<u64>>,
}

impl View for Histogram {
    type V = Seq<u64>;

    /// The samples, in the order in which they were recorded.
    closed spec fn view(&self) -> Seq<u64> {
        self.samples@
    }
}

impl Histogram {
    /// Whether the counts are those of the samples.
    pub closed spec fn wf(self) -> bool {
        &&& self.samples@.len() == self.count
        &&& forall|b: int|
            0 <= b < 64 ==> #[trigger] self.buckets@[b] == in_bucket(self.samples@, b)
        &&& self.total_ns == sum(self.samples@)
        &&& self.max_ns == largest(self.samples@)
    }

    pub fn new() -> (r: Self)
        ensures
            r.wf(),
            r@ == Seq::<u64>::empty(),
    {
        Histogram {
            buckets: [0u64;64],
            total_ns: 0,
            count: 0,
            max_ns: 0,
            samples: Ghost(Seq::empty()),
        }
    }

    /// The number of samples.
    pub fn count(&self) -> (r: u64)
        requires
            self.wf(),
        ensures
            r == self@.len(),
    {
        self.count
    }

    /// Adds a sample.
    pub fn record(&mut self, value_ns: u64)
        requires
            old(self).wf(),
            old(self)@.len() < u64::MAX,
        ensures
            final(self).wf(),
            final(self)@ == old(self)@.push(value_ns),
    {
        let ghost before = self.samples@;
        let ghost after = before.push(value_ns);
        proof {
            lemma_bucket_range(value_ns as int);
            if value_ns > 0 {
                lemma_leading_zeros(value_ns);
            }
            assert(after.drop_last() =~= before);
            lemma_below(before, bucket_of(value_ns as int));
            lemma_below(before, bucket_of(value_ns as int) + 1);
            lemma_sum_fits(before);
            assert(before.len() * u64::MAX + u64::MAX <= u128::MAX) by (nonlinear_arith)
                requires
                    before.len() < u64::MAX,
            ;
        }
        let bucket: usize = if value_ns == 0 {
            0
        } else {
            (63 - value_ns.leading_zeros()) as usize
        };
        assert(bucket == bucket_of(value_ns as int));
        let ghost counts = self.buckets@;
        self.buckets[bucket] = self.buckets[bucket] + 1;
        self.total_ns = self.total_ns.saturating_add(value_ns as u128);
        self.count = self.count + 1;
        if value_ns > self.max_ns {
            self.max_ns = value_ns;
        }
        self.samples = Ghost(after);
        assert forall|b: int| 0 <= b < 64 implies #[trigger] self.buckets@[b] == in_bucket(
            after,
            b,
        ) by {
            assert(counts[b] == in_bucket(before, b));
        }
    }

    /// The middle of the bucket of the sample with the rank `target`.
    fn percentile(&self, target: u64) -> (r: u64)
        requires
            self.wf(),
        ensures
            is_percentile(self@, target, r),
    {
        if self.count == 0 {
            return 0;
        }
        let due: u64 = if target < 1 {
            1
        } else if target > self.count {
            self.count
        } else {
            target
        };
        let ghost samples = self.samples@;
        let mut running: u64 = 0;
        let mut start: u64 = 1;
        let mut i: usize = 0;
        proof {
            lemma_below(samples, 0);
        }
        while i < 64
            invariant
                i <= 64,
                self.wf(),
                samples == self.samples@,
                1 <= due <= samples.len(),
                due == rank(samples, target),
                running == below(samples, i as int),
                running < due,
                i < 64 ==> start == two_to(i as int),
            decreases 64 - i,
        {
            proof {
                lemma_below(samples, i as int);
                lemma_below(samples, i + 1);
                lemma_two_to(i as int);
                lemma_two_to(i + 1);
                lemma_two_to_63();
                assert(self.buckets@[i as int] == in_bucket(samples, i as int));
            }
            running = running + self.buckets[i];
            if running >= due {
                let lo: u64 = if i == 0 {
                    0
                } else {
                    start
                };
                let hi: u64 = if i == 63 {
                    u64::MAX
                } else {
                    2 * start
                };
                assert(ranks_in(samples, due as int, i as int));
                return lo + (hi - lo) / 2;
            }
            if i < 63 {
                start = 2 * start;
            }
            i = i + 1;
        }
        proof {
            lemma_below(samples, 64);
        }
        self.max_ns
    }

    /// What is known of the samples, with the ranks of two percentiles.
    pub fn stats(
        self,
        name: &'static str,
        unit: &'static str,
        rank50: u64,
        rank95: u64,
    ) -> (r: StageStats)
        requires
            self.wf(),
        ensures
            sums_up(self@, name@, unit@, rank50, rank95, r),
    {
        if self.count == 0 {
            return StageStats { name, unit, count: 0, total: 0, avg: 0, p50: 0, p95: 0, max: 0 };
        }
        proof {
            lemma_sum_fits(self.samples@);
            let n = self.samples@.len() as int;
            let s = sum(self.samples@);
            assert(s / n <= u64::MAX) by (nonlinear_arith)
                requires
                    n > 0,
                    0 <= s <= n * u64::MAX,
            ;
        }
        let total: u64 = if self.total_ns > u64::MAX as u128 {
            u64::MAX
        } else {
            self.total_ns as u64
        };
        let avg: u64 = (self.total_ns / self.count as u128) as u64;
        StageStats {
            name,
            unit,
            count: self.count,
            total,
            avg,
            p50: self.percentile(rank50),
            p95: self.percentile(rank95),
            max: self.max_ns,
        }
    }
}

} // verus!
