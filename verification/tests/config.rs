use arbitrage_arena::generation::config::{ConfigError, GenerationConfig, Range};

/// The settings that the tests start from.
fn load_config() -> GenerationConfig {
    GenerationConfig {
        decimals: Range { min: 2, max: 6 },
        usd_decimals: 6,
        price_usd: Range { min: 1, max: 1_000 },
        volume_usd: Range { min: 100, max: 10_000 },
        token_count: 1_000,
        pair_count: 10_000,
        static_fee_atomic_usd: 10_000,
        variable_fee_bps: 5,
        arb_count: 1_000,
        updates_per_ms: 2,
        rebalance_delay_us: Range { min: 50, max: 900 },
        price_perturb_bps: Range { min: 10, max: 100 },
        volume_perturb_bps: Range { min: 10, max: 500 },
    }
}

#[test]
fn real_config_passes() {
    load_config().sanity_check().unwrap();
}

#[test]
fn zero_price_min_rejected() {
    let mut c = load_config();
    c.price_usd.min = 0;
    let err = c.sanity_check().unwrap_err();
    assert!(
        err.message().contains("price_usd.min must be > 0"),
        "{err:?}"
    );
}

#[test]
fn huge_volume_overflows() {
    // 10^16 fits, 10^20 doesn't (i64::MAX ≈ 9.2e18)
    let mut c = load_config();
    c.volume_usd.max = 10u64.pow(8);
    let err = c.sanity_check().unwrap_err();
    assert!(err.message().contains("exceeds i64::MAX"), "{err:?}");
}

#[test]
fn too_many_decimals_overflows() {
    let mut c = load_config();
    c.decimals.max = 12;
    c.usd_decimals = 12;
    let err = c.sanity_check().unwrap_err();
    assert!(err.message().contains("exceeds i64::MAX"), "{err:?}");
}

#[test]
fn zero_updates_per_ms_rejected() {
    let mut c = load_config();
    c.updates_per_ms = 0;
    let err = c.sanity_check().unwrap_err();
    assert!(err.message().contains("updates_per_ms"), "{err:?}");
}

#[test]
fn rebalance_delay_max_too_large_rejected() {
    let mut c = load_config();
    c.rebalance_delay_us.max = 1_000;
    let err = c.sanity_check().unwrap_err();
    assert!(err.message().contains("rebalance_delay_us.max"), "{err:?}");
}

#[test]
fn volume_perturb_max_too_large_rejected() {
    let mut c = load_config();
    c.volume_perturb_bps.max = 10_000;
    let err = c.sanity_check().unwrap_err();
    assert!(err.message().contains("volume_perturb_bps.max"), "{err:?}");
}

#[test]
fn price_perturb_max_too_large_rejected() {
    let mut c = load_config();
    c.price_perturb_bps.max = 10_000;
    let err = c.sanity_check().unwrap_err();
    assert!(err.message().contains("price_perturb_bps.max"), "{err:?}");
}

fn error_of(change: fn(&mut GenerationConfig)) -> ConfigError {
    let mut c = load_config();
    change(&mut c);
    c.sanity_check().unwrap_err()
}

#[test]
fn each_bad_range_is_named() {
    let e = error_of(|c| c.decimals = Range { min: 7, max: 6 });
    assert_eq!(e, ConfigError::DecimalsRange);
    assert_eq!(e.message(), "decimals: min > max");

    let e = error_of(|c| c.price_usd = Range { min: 11, max: 10 });
    assert_eq!(e, ConfigError::PriceRange);
    assert_eq!(e.message(), "price_usd: min > max");

    let e = error_of(|c| c.volume_usd = Range { min: 2, max: 1 });
    assert_eq!(e, ConfigError::VolumeRange);
    assert_eq!(e.message(), "volume_usd: min > max");

    let e = error_of(|c| c.rebalance_delay_us = Range { min: 0, max: 10 });
    assert_eq!(e, ConfigError::RebalanceDelayMinZero);
    assert_eq!(e.message(), "rebalance_delay_us.min must be >= 1");

    let e = error_of(|c| c.rebalance_delay_us = Range { min: 11, max: 10 });
    assert_eq!(e, ConfigError::RebalanceDelayRange);
    assert_eq!(e.message(), "rebalance_delay_us: min > max");

    let e = error_of(|c| c.price_perturb_bps = Range { min: 0, max: 10 });
    assert_eq!(e, ConfigError::PricePerturbMinZero);
    assert_eq!(e.message(), "price_perturb_bps.min must be >= 1");

    let e = error_of(|c| c.price_perturb_bps = Range { min: 11, max: 10 });
    assert_eq!(e, ConfigError::PricePerturbRange);
    assert_eq!(e.message(), "price_perturb_bps: min > max");

    let e = error_of(|c| c.volume_perturb_bps = Range { min: 0, max: 10 });
    assert_eq!(e, ConfigError::VolumePerturbMinZero);
    assert_eq!(e.message(), "volume_perturb_bps.min must be >= 1");

    let e = error_of(|c| c.volume_perturb_bps = Range { min: 11, max: 10 });
    assert_eq!(e, ConfigError::VolumePerturbRange);
    assert_eq!(e.message(), "volume_perturb_bps: min > max");
}

#[test]
fn whole_messages_of_limits() {
    assert_eq!(
        error_of(|c| c.rebalance_delay_us.max = 1_000).message(),
        "rebalance_delay_us.max must be < 1000 (tail must close within 1 ms of mispricing)"
    );
    assert_eq!(
        error_of(|c| c.price_perturb_bps.max = 10_000).message(),
        "price_perturb_bps.max must be < 10000 (delta < 100%)"
    );
    assert_eq!(
        error_of(|c| c.volume_perturb_bps.max = 10_000).message(),
        "volume_perturb_bps.max must be < 10000 (delta < 100%)"
    );
    assert_eq!(error_of(|c| c.updates_per_ms = 0).message(), "updates_per_ms must be >= 1");
}

#[test]
fn worst_case_errors_in_order_of_size() {
    let e = error_of(|c| c.decimals.max = 1 << 31);
    assert_eq!(e, ConfigError::ExponentTooLarge);
    assert_eq!(e.message(), "2 × max_decimals overflows u32");

    let e = error_of(|c| c.decimals.max = 20);
    assert_eq!(e, ConfigError::FactorOverflow { exp: 40 });
    assert_eq!(e.message(), "10^40 overflows u128");

    let e = error_of(|c| c.decimals.max = 19);
    assert_eq!(e, ConfigError::NumeratorOverflow { exp: 38 });
    assert_eq!(e.message(), "volume_usd.max × 10^38 overflows u128");

    let e = error_of(|c| c.volume_usd.max = 100_000_000);
    assert_eq!(e, ConfigError::WorstCaseTooLarge { bound: 100_000_000_000_000_000_000 });
    assert_eq!(
        e.message(),
        "worst-case `base_atomic × price` = 100000000000000000000 exceeds i64::MAX = 9223372036854775807 \
         (lower volume_usd.max, raise price_usd.min, or reduce decimals)"
    );
}

#[test]
fn largest_volume_that_is_sane() {
    let mut c = load_config();
    c.volume_usd.max = 9_223_372;
    assert!(c.sanity_check().is_ok());
    c.volume_usd.max = 9_223_373;
    assert!(c.sanity_check().is_err());
}
