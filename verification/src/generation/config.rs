use super::math;
use crate::text;
use vstd::prelude::*;
use vstd::string::StringExecFns;

verus! {

/// An inclusive range.
#[derive(Debug, Clone, Copy, PartialEq, Eq, Structural)]
pub struct Range {
    pub min: u64,
    pub max: u64,
}

#[derive(Debug, Clone, Copy, PartialEq, Eq, Structural)]
pub struct GenerationConfig {
    /// Inclusive range of decimals each non-USD token may use during market generation.
    pub decimals: Range,
    /// Decimals for token id 0 (USD).
    pub usd_decimals: u64,
    /// Inclusive range, in whole USD, for the price of any non-USD token at any given moment.
    pub price_usd: Range,
    /// Inclusive range, in whole USD, for the volume of any pair at any given moment.
    pub volume_usd: Range,
    /// Total number of tokens, including USD at id 0.
    pub token_count: u64,
    /// Total number of pairs. The first `token_count - 1` are USD pairs (every non-USD
    /// token paired against USD). There are no mirror pairs (T1/T2 and T2/T1).
    pub pair_count: u64,
    /// Flat fee charged per leg, in atomic-USD. Volume-independent.
    pub static_fee_atomic_usd: u64,
    /// Volume-proportional fee per leg, in basis points (1 bps = 0.01%).
    pub variable_fee_bps: u64,
    /// Number of original mispricings (arbs) to generate over the simulation.
    pub arb_count: u64,
    /// Number of new mispricings per 1 ms window.
    pub updates_per_ms: u64,
    /// Delay range (us) between a mispricing and its rebalancing update on a connected pair.
    pub rebalance_delay_us: Range,
    /// Magnitude of the perturbation that a mispricing applies to a token's USD price, in
    /// basis points. The sign is random.
    pub price_perturb_bps: Range,
    /// Magnitude of the perturbation that each emitted tick applies to the pair's volume,
    /// in basis points. The sign is random; the result is clamped to the pair's range.
    pub volume_perturb_bps: Range,
}

/// Why a configuration is not sane.
#[derive(Debug, Clone, Copy, PartialEq, Eq, Structural)]
pub enum ConfigError {
    PriceMinZero,
    DecimalsRange,
    PriceRange,
    VolumeRange,
    ExponentTooLarge,
    /// `10^exp` does not fit a `u128`.
    FactorOverflow { exp: u32 },
    /// `volume_usd.max * 10^exp` does not fit a `u128`.
    NumeratorOverflow { exp: u32 },
    /// The worst-case `base_atomic * price` does not fit an `i64`.
    WorstCaseTooLarge { bound: u128 },
    UpdatesPerMsZero,
    RebalanceDelayMinZero,
    RebalanceDelayRange,
    RebalanceDelayMaxTooLarge,
    PricePerturbMinZero,
    PricePerturbRange,
    PricePerturbMaxTooLarge,
    VolumePerturbMinZero,
    VolumePerturbRange,
    VolumePerturbMaxTooLarge,
}

impl ConfigError {
    /// What the error says.
    pub open spec fn text(self) -> Seq<char> {
        match self {
            ConfigError::PriceMinZero => "price_usd.min must be > 0"@,
            ConfigError::DecimalsRange => "decimals: min > max"@,
            ConfigError::PriceRange => "price_usd: min > max"@,
            ConfigError::VolumeRange => "volume_usd: min > max"@,
            ConfigError::ExponentTooLarge => "2 × max_decimals overflows u32"@,
            ConfigError::UpdatesPerMsZero => "updates_per_ms must be >= 1"@,
            ConfigError::RebalanceDelayMinZero => "rebalance_delay_us.min must be >= 1"@,
            ConfigError::RebalanceDelayRange => "rebalance_delay_us: min > max"@,
            ConfigError::RebalanceDelayMaxTooLarge => "rebalance_delay_us.max must be < 1000 (tail must close within 1 ms of mispricing)"@,
            ConfigError::PricePerturbMinZero => "price_perturb_bps.min must be >= 1"@,
            ConfigError::PricePerturbRange => "price_perturb_bps: min > max"@,
            ConfigError::PricePerturbMaxTooLarge => "price_perturb_bps.max must be < 10000 (delta < 100%)"@,
            ConfigError::VolumePerturbMinZero => "volume_perturb_bps.min must be >= 1"@,
            ConfigError::VolumePerturbRange => "volume_perturb_bps: min > max"@,
            ConfigError::VolumePerturbMaxTooLarge => "volume_perturb_bps.max must be < 10000 (delta < 100%)"@,
            ConfigError::FactorOverflow { exp } => "10^"@ + text::decimal(exp as nat)
                + " overflows u128"@,
            ConfigError::NumeratorOverflow { exp } => "volume_usd.max × 10^"@ + text::decimal(
                exp as nat,
            ) + " overflows u128"@,
            ConfigError::WorstCaseTooLarge { bound } => "worst-case `base_atomic × price` = "@
                + text::decimal(bound as nat) + " exceeds i64::MAX = "@ + text::decimal(
                i64::MAX as nat,
            ) + " (lower volume_usd.max, raise price_usd.min, or reduce decimals)"@,
        }
    }

    /// The error in words.
    pub fn message(&self) -> (r: String)
        ensures
            r@ == self.text(),
    {
        match self {
            ConfigError::PriceMinZero => String::from_str("price_usd.min must be > 0"),
            ConfigError::DecimalsRange => String::from_str("decimals: min > max"),
            ConfigError::PriceRange => String::from_str("price_usd: min > max"),
            ConfigError::VolumeRange => String::from_str("volume_usd: min > max"),
            ConfigError::ExponentTooLarge => String::from_str("2 × max_decimals overflows u32"),
            ConfigError::UpdatesPerMsZero => String::from_str("updates_per_ms must be >= 1"),
            ConfigError::RebalanceDelayMinZero => String::from_str("rebalance_delay_us.min must be >= 1"),
            ConfigError::RebalanceDelayRange => String::from_str("rebalance_delay_us: min > max"),
            ConfigError::RebalanceDelayMaxTooLarge => String::from_str("rebalance_delay_us.max must be < 1000 (tail must close within 1 ms of mispricing)"),
            ConfigError::PricePerturbMinZero => String::from_str("price_perturb_bps.min must be >= 1"),
            ConfigError::PricePerturbRange => String::from_str("price_perturb_bps: min > max"),
            ConfigError::PricePerturbMaxTooLarge => String::from_str("price_perturb_bps.max must be < 10000 (delta < 100%)"),
            ConfigError::VolumePerturbMinZero => String::from_str("volume_perturb_bps.min must be >= 1"),
            ConfigError::VolumePerturbRange => String::from_str("volume_perturb_bps: min > max"),
            ConfigError::VolumePerturbMaxTooLarge => String::from_str("volume_perturb_bps.max must be < 10000 (delta < 100%)"),
            ConfigError::FactorOverflow { exp } => {
                let mut r = String::from_str("10^");
                text::push_decimal(&mut r, *exp as u128);
                r.append(" overflows u128");
                r
            },
            ConfigError::NumeratorOverflow { exp } => {
                let mut r = String::from_str("volume_usd.max × 10^");
                text::push_decimal(&mut r, *exp as u128);
                r.append(" overflows u128");
                r
            },
            ConfigError::WorstCaseTooLarge { bound } => {
                let mut r = String::from_str("worst-case `base_atomic × price` = ");
                text::push_decimal(&mut r, *bound);
                r.append(" exceeds i64::MAX = ");
                text::push_decimal(&mut r, i64::MAX as u128);
                r.append(" (lower volume_usd.max, raise price_usd.min, or reduce decimals)");
                r
            },
        }
    }
}

/// The larger of two numbers.
pub open spec fn larger(a: u64, b: u64) -> u64 {
    if a >= b {
        a
    } else {
        b
    }
}

impl GenerationConfig {
    /// The most decimals that any token can have.
    pub open spec fn max_decimals(self) -> u64 {
        larger(self.decimals.max, self.usd_decimals)
    }

    /// A bound on `base_atomic * price`: the largest volume with both sides' decimals,
    /// over the lowest price of a quote token, which is that of USD itself.
    pub open spec fn worst_case_fill(self) -> int {
        self.volume_usd.max * math::ten_to(2 * self.max_decimals())
    }

    /// What is wrong with the arithmetic of the worst case, if anything.
    pub open spec fn worst_case_error(self) -> Option<ConfigError> {
        let exp = 2 * self.max_decimals();
        if exp > u32::MAX {
            Some(ConfigError::ExponentTooLarge)
        } else if math::ten_to(exp) > u128::MAX {
            Some(ConfigError::FactorOverflow { exp: exp as u32 })
        } else if self.worst_case_fill() > u128::MAX {
            Some(ConfigError::NumeratorOverflow { exp: exp as u32 })
        } else if self.worst_case_fill() > i64::MAX {
            Some(ConfigError::WorstCaseTooLarge { bound: self.worst_case_fill() as u128 })
        } else {
            None
        }
    }

    /// What is wrong with the parameters of the feed, if anything.
    pub open spec fn feed_error(self) -> Option<ConfigError> {
        if self.updates_per_ms < 1 {
            Some(ConfigError::UpdatesPerMsZero)
        } else if self.rebalance_delay_us.min < 1 {
            Some(ConfigError::RebalanceDelayMinZero)
        } else if self.rebalance_delay_us.min > self.rebalance_delay_us.max {
            Some(ConfigError::RebalanceDelayRange)
        } else if self.rebalance_delay_us.max >= 1_000 {
            Some(ConfigError::RebalanceDelayMaxTooLarge)
        } else if self.price_perturb_bps.min < 1 {
            Some(ConfigError::PricePerturbMinZero)
        } else if self.price_perturb_bps.min > self.price_perturb_bps.max {
            Some(ConfigError::PricePerturbRange)
        } else if self.price_perturb_bps.max >= 10_000 {
            Some(ConfigError::PricePerturbMaxTooLarge)
        } else if self.volume_perturb_bps.min < 1 {
            Some(ConfigError::VolumePerturbMinZero)
        } else if self.volume_perturb_bps.min > self.volume_perturb_bps.max {
            Some(ConfigError::VolumePerturbRange)
        } else if self.volume_perturb_bps.max >= 10_000 {
            Some(ConfigError::VolumePerturbMaxTooLarge)
        } else {
            None
        }
    }

    /// The first thing that is wrong with the configuration, if anything.
    pub open spec fn sanity_error(self) -> Option<ConfigError> {
        if self.price_usd.min == 0 {
            Some(ConfigError::PriceMinZero)
        } else if self.decimals.min > self.decimals.max {
            Some(ConfigError::DecimalsRange)
        } else if self.price_usd.min > self.price_usd.max {
            Some(ConfigError::PriceRange)
        } else if self.volume_usd.min > self.volume_usd.max {
            Some(ConfigError::VolumeRange)
        } else if self.worst_case_error() is Some {
            self.worst_case_error()
        } else {
            self.feed_error()
        }
    }

    fn check_worst_case(&self) -> (r: Result<(), ConfigError>)
        ensures
            match self.worst_case_error() {
                Some(e) => r == Err::<(), _>(e),
                None => r is Ok,
            },
    {
        let max_decimals: u64 = if self.decimals.max >= self.usd_decimals {
            self.decimals.max
        } else {
            self.usd_decimals
        };
        if max_decimals > 0x7fff_ffff {
            return Err(ConfigError::ExponentTooLarge);
        }
        let exp: u32 = (2 * max_decimals) as u32;
        if exp > 38 {
            proof {
                lemma_ten_to_39();
                math::lemma_ten_to_monotonic(39, exp as int);
            }
            return Err(ConfigError::FactorOverflow { exp });
        }
        let mut factor: u128 = 1;
        let mut i: u32 = 0;
        proof {
            math::lemma_ten_to_step(0);
        }
        while i < exp
            invariant
                i <= exp <= 38,
                factor == math::ten_to(i as int),
            decreases exp - i,
        {
            proof {
                lemma_ten_to_39();
                math::lemma_ten_to_step(i as int);
                math::lemma_ten_to_monotonic(i + 1, 38);
            }
            factor = factor * 10;
            i = i + 1;
        }
        let numerator: u128 = match (self.volume_usd.max as u128).checked_mul(factor) {
            Some(v) => v,
            None => return Err(ConfigError::NumeratorOverflow { exp }),
        };
        if numerator > i64::MAX as u128 {
            return Err(ConfigError::WorstCaseTooLarge { bound: numerator });
        }
        Ok(())
    }

    fn check_feed(&self) -> (r: Result<(), ConfigError>)
        ensures
            match self.feed_error() {
                Some(e) => r == Err::<(), _>(e),
                None => r is Ok,
            },
    {
        if self.updates_per_ms < 1 {
            return Err(ConfigError::UpdatesPerMsZero);
        }
        if self.rebalance_delay_us.min < 1 {
            return Err(ConfigError::RebalanceDelayMinZero);
        }
        if self.rebalance_delay_us.min > self.rebalance_delay_us.max {
            return Err(ConfigError::RebalanceDelayRange);
        }
        if self.rebalance_delay_us.max >= 1_000 {
            return Err(ConfigError::RebalanceDelayMaxTooLarge);
        }
        if self.price_perturb_bps.min < 1 {
            return Err(ConfigError::PricePerturbMinZero);
        }
        if self.price_perturb_bps.min > self.price_perturb_bps.max {
            return Err(ConfigError::PricePerturbRange);
        }
        if self.price_perturb_bps.max >= 10_000 {
            return Err(ConfigError::PricePerturbMaxTooLarge);
        }
        if self.volume_perturb_bps.min < 1 {
            return Err(ConfigError::VolumePerturbMinZero);
        }
        if self.volume_perturb_bps.min > self.volume_perturb_bps.max {
            return Err(ConfigError::VolumePerturbRange);
        }
        if self.volume_perturb_bps.max >= 10_000 {
            return Err(ConfigError::VolumePerturbMaxTooLarge);
        }
        Ok(())
    }

    /// Validates that the ranges are well-formed, that the worst-case
    /// `base_atomic * price` fits an `i64`, and that the parameters of the feed lie
    /// in the ranges its generator assumes.
    pub fn sanity_check(&self) -> (r: Result<(), ConfigError>)
        ensures
            match self.sanity_error() {
                Some(e) => r == Err::<(), _>(e),
                None => r is Ok,
            },
    {
        if self.price_usd.min == 0 {
            return Err(ConfigError::PriceMinZero);
        }
        if self.decimals.min > self.decimals.max {
            return Err(ConfigError::DecimalsRange);
        }
        if self.price_usd.min > self.price_usd.max {
            return Err(ConfigError::PriceRange);
        }
        if self.volume_usd.min > self.volume_usd.max {
            return Err(ConfigError::VolumeRange);
        }
        match self.check_worst_case() {
            Err(e) => Err(e),
            Ok(()) => self.check_feed(),
        }
    }
}

/// A configuration is sane exactly where every range holds something, no price is zero, the
/// largest fill fits an `i64`, there is a mispricing in each window, the pairs of a mispriced
/// token follow within 1 ms, and no change is as large as the whole.
pub proof fn lemma_sane_is(cfg: GenerationConfig)
    ensures
        ({
            let most: u64 = if cfg.decimals.max >= cfg.usd_decimals {
                cfg.decimals.max
            } else {
                cfg.usd_decimals
            };
            let scale = vstd::arithmetic::power::pow(10, (2 * most) as nat);
            cfg.sanity_error() is None <==> {
                &&& 1 <= cfg.price_usd.min <= cfg.price_usd.max
                &&& cfg.decimals.min <= cfg.decimals.max
                &&& cfg.volume_usd.min <= cfg.volume_usd.max
                &&& 2 * most <= 0xffff_ffff
                &&& scale <= u128::MAX
                &&& cfg.volume_usd.max * scale <= 0x7fff_ffff_ffff_ffff
                &&& cfg.updates_per_ms >= 1
                &&& 1 <= cfg.rebalance_delay_us.min <= cfg.rebalance_delay_us.max <= 999
                &&& 1 <= cfg.price_perturb_bps.min <= cfg.price_perturb_bps.max <= 9_999
                &&& 1 <= cfg.volume_perturb_bps.min <= cfg.volume_perturb_bps.max <= 9_999
            }
        }),
{
}

/// Every complaint about a configuration has its cause.
pub proof fn lemma_complaint_has_cause(cfg: GenerationConfig)
    ensures
        ({
            let most: u64 = if cfg.decimals.max >= cfg.usd_decimals {
                cfg.decimals.max
            } else {
                cfg.usd_decimals
            };
            let scale = vstd::arithmetic::power::pow(10, (2 * most) as nat);
            match cfg.sanity_error() {
                None => true,
                Some(ConfigError::PriceMinZero) => cfg.price_usd.min == 0,
                Some(ConfigError::DecimalsRange) => cfg.decimals.min > cfg.decimals.max,
                Some(ConfigError::PriceRange) => cfg.price_usd.min > cfg.price_usd.max,
                Some(ConfigError::VolumeRange) => cfg.volume_usd.min > cfg.volume_usd.max,
                Some(ConfigError::ExponentTooLarge) => 2 * most > 0xffff_ffff,
                Some(ConfigError::FactorOverflow { exp }) => exp == 2 * most && scale > u128::MAX,
                Some(ConfigError::NumeratorOverflow { exp }) => exp == 2 * most
                    && cfg.volume_usd.max * scale > u128::MAX,
                Some(ConfigError::WorstCaseTooLarge { bound }) => bound == cfg.volume_usd.max
                    * scale && bound > 0x7fff_ffff_ffff_ffff,
                Some(ConfigError::UpdatesPerMsZero) => cfg.updates_per_ms == 0,
                Some(ConfigError::RebalanceDelayMinZero) => cfg.rebalance_delay_us.min == 0,
                Some(ConfigError::RebalanceDelayRange) => cfg.rebalance_delay_us.min
                    > cfg.rebalance_delay_us.max,
                Some(ConfigError::RebalanceDelayMaxTooLarge) => cfg.rebalance_delay_us.max
                    >= 1_000,
                Some(ConfigError::PricePerturbMinZero) => cfg.price_perturb_bps.min == 0,
                Some(ConfigError::PricePerturbRange) => cfg.price_perturb_bps.min
                    > cfg.price_perturb_bps.max,
                Some(ConfigError::PricePerturbMaxTooLarge) => cfg.price_perturb_bps.max >= 10_000,
                Some(ConfigError::VolumePerturbMinZero) => cfg.volume_perturb_bps.min == 0,
                Some(ConfigError::VolumePerturbRange) => cfg.volume_perturb_bps.min
                    > cfg.volume_perturb_bps.max,
                Some(ConfigError::VolumePerturbMaxTooLarge) => cfg.volume_perturb_bps.max
                    >= 10_000,
            }
        }),
        cfg.price_usd.min == 0 ==> cfg.sanity_error() == Some(ConfigError::PriceMinZero),
        cfg.price_usd.min > 0 && cfg.decimals.min > cfg.decimals.max ==> cfg.sanity_error()
            == Some(ConfigError::DecimalsRange),
        cfg.decimals.min <= cfg.decimals.max && 0 < cfg.price_usd.min && cfg.price_usd.min
            > cfg.price_usd.max ==> cfg.sanity_error() == Some(ConfigError::PriceRange),
{
    if cfg.worst_case_fill() > i64::MAX && cfg.worst_case_fill() <= u128::MAX {
        math::lemma_ten_to_step(2 * cfg.max_decimals());
    }
}

proof fn lemma_ten_to_39()
    ensures
        math::ten_to(38) <= u128::MAX < math::ten_to(39),
{
    reveal(vstd::arithmetic::power::pow);
    reveal_with_fuel(vstd::arithmetic::power::pow, 40);
    assert(math::ten_to(38) == 100_000_000_000_000_000_000_000_000_000_000_000_000int);
}

} // verus!
