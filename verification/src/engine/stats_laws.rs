//! What the statistics of a stage say of its samples.
use super::stats;
use super::stats::StageStats;
use vstd::arithmetic::power::pow;
use vstd::prelude::*;

verus! {

/// The samples below a limit.
pub open spec fn smaller(samples: Seq<u64>, limit: int) -> Seq<u64> {
    samples.filter(|v: u64| v < limit)
}

proof fn lemma_two_to_is(n: int)
    requires
        0 <= n,
    ensures
        stats::two_to(n) == pow(2, n as nat),
        stats::two_to(n) >= 1,
    decreases n,
{
    reveal(pow);
    if n > 0 {
        lemma_two_to_is(n - 1);
    }
}

proof fn lemma_pow2_grows(a: int, b: int)
    requires
        0 <= a <= b,
    ensures
        1 <= pow(2, a as nat) <= pow(2, b as nat),
    decreases b - a,
{
    reveal(pow);
    vstd::arithmetic::power::lemma_pow_positive(2, a as nat);
    if a < b {
        lemma_pow2_grows(a, b - 1);
    }
}

/// A value lies before bucket `b` exactly where it is less than `2^b`; none lies before the
/// first.
proof fn lemma_bucket_before(v: u64, b: int)
    requires
        0 <= b,
    ensures
        stats::bucket_of(v as int) < b <==> b > 0 && v < pow(2, b as nat),
{
    let own = stats::bucket_of(v as int);
    stats::lemma_bucket_range(v as int);
    lemma_two_to_is(own);
    lemma_two_to_is(own + 1);
    if own < b {
        lemma_pow2_grows(own + 1, b);
    } else {
        lemma_pow2_grows(b, own);
        if v == 0 {
            assert(own == 0);
        }
    }
}

/// The samples before bucket `b` are those below `2^b`.
proof fn lemma_below_is(samples: Seq<u64>, b: int)
    requires
        0 < b,
    ensures
        stats::below(samples, b) == smaller(samples, pow(2, b as nat)).len(),
        stats::below(samples, 0) == 0,
    decreases samples.len(),
{
    reveal(Seq::filter);
    if samples.len() > 0 {
        lemma_below_is(samples.drop_last(), b);
        lemma_bucket_before(samples.last(), b);
        lemma_bucket_before(samples.last(), 0);
    }
}

/// A percentile names the bucket of the sample with its rank: fewer samples than the rank lie
/// below the power of two that the bucket starts with, and at least as many below the next.
/// It gives the middle between the two.
pub proof fn lemma_percentile_is(samples: Seq<u64>, target: u64, r: u64)
    requires
        samples.len() > 0,
        stats::is_percentile(samples, target, r),
    ensures
        ({
            let rank = if target == 0 {
                1
            } else if target > samples.len() {
                samples.len() as int
            } else {
                target as int
            };
            exists|b: int|
                {
                    &&& 0 <= b <= 63
                    &&& b > 0 ==> smaller(samples, pow(2, b as nat)).len() < rank
                    &&& rank <= #[trigger] smaller(samples, pow(2, (b + 1) as nat)).len()
                    &&& b == 0 ==> r == 1
                    &&& 0 < b < 63 ==> 2 * r == 3 * pow(2, b as nat)
                    &&& b == 63 ==> r == 0xbfff_ffff_ffff_ffff
                }
        }),
{
    let k = stats::rank(samples, target);
    let b = choose|b: int| #[trigger] stats::ranks_in(samples, k, b) && r == stats::middle(b);
    lemma_below_is(samples, b + 1);
    lemma_two_to_is(b);
    lemma_two_to_is(b + 1);
    reveal(pow);
    if b > 0 {
        lemma_below_is(samples, b);
        lemma_two_to_is(b - 1);
    }
    if b == 63 {
        assert(stats::two_to(63) == 0x8000_0000_0000_0000) by {
            reveal_with_fuel(stats::two_to, 64);
        }
    }
    if b == 0 {
        assert(stats::two_to(1) == 2) by {
            reveal_with_fuel(stats::two_to, 2);
        }
    }
    assert(k <= smaller(samples, pow(2, (b + 1) as nat)).len());
}

/// Sums add up sample by sample; the largest sample is one of them, and none is larger.
pub proof fn lemma_sum_and_largest_are(samples: Seq<u64>, v: u64)
    ensures
        stats::sum(Seq::empty()) == 0,
        stats::sum(samples.push(v)) == stats::sum(samples) + v,
        samples.len() == 0 ==> stats::largest(samples) == 0,
        forall|i: int| 0 <= i < samples.len() ==> #[trigger] samples[i] <= stats::largest(samples),
        samples.len() > 0 ==> samples.contains(stats::largest(samples)),
    decreases samples.len(),
{
    assert(samples.push(v).drop_last() =~= samples);
    if samples.len() > 0 {
        let rest = samples.drop_last();
        lemma_sum_and_largest_are(rest, v);
        assert forall|i: int| 0 <= i < samples.len() implies #[trigger] samples[i]
            <= stats::largest(samples) by {
            if i < samples.len() - 1 {
                assert(rest[i] == samples[i]);
            }
        }
        if stats::largest(samples) == samples.last() {
            assert(samples[samples.len() - 1] == stats::largest(samples));
        } else {
            let i = choose|i: int| 0 <= i < rest.len() && rest[i] == stats::largest(rest);
            assert(samples[i] == stats::largest(samples));
        }
    }
}

/// What is said of a stage: the number of its samples, their sum as far as it fits, their mean
/// rounded down, and the largest.
pub proof fn lemma_summary_is(
    samples: Seq<u64>,
    name: Seq<char>,
    unit: Seq<char>,
    rank50: u64,
    rank95: u64,
    r: StageStats,
)
    requires
        stats::sums_up(samples, name, unit, rank50, rank95, r),
    ensures
        r.name@ == name,
        r.unit@ == unit,
        r.count == samples.len(),
        stats::sum(samples) <= u64::MAX ==> r.total == stats::sum(samples),
        stats::sum(samples) > u64::MAX ==> r.total == u64::MAX,
        samples.len() > 0 ==> r.avg * r.count <= stats::sum(samples) < (r.avg + 1) * r.count,
        samples.len() > 0 ==> samples.contains(r.max),
        forall|i: int| 0 <= i < samples.len() ==> #[trigger] samples[i] <= r.max,
        samples.len() == 0 ==> r.total == 0 && r.avg == 0 && r.p50 == 0 && r.p95 == 0 && r.max == 0,
        stats::is_percentile(samples, rank50, r.p50),
        stats::is_percentile(samples, rank95, r.p95),
{
    lemma_sum_and_largest_are(samples, 0);
    if samples.len() > 0 {
        let n = samples.len() as int;
        let s = stats::sum(samples);
        vstd::arithmetic::div_mod::lemma_fundamental_div_mod(s, n);
        assert((s / n) * n == n * (s / n)) by (nonlinear_arith);
        assert((s / n + 1) * n == n * (s / n) + n) by (nonlinear_arith);
    }
}

} // verus!
