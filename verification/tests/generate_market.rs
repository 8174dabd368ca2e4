use rand::{Rng, SeedableRng};

use arbitrage_arena::generation::config::{GenerationConfig, Range};
use arbitrage_arena::generation::generate_market::{generate_market, GenerateError};
use arbitrage_arena::generation::limits::can_generate_market;
use arbitrage_arena::generation::math::{cross_pair_price, pow10, volume_atomic};

/// The settings that the tests start from.
fn load_config() -> GenerationConfig {
    GenerationConfig {
        decimals: Range { min: 2, max: 6 },
        usd_decimals: 6,
        price_usd: Range { min: 1, max: 1_000 },
        volume_usd: Range { min: 100, max: 10_000 },
        token_count: 1_000,
        pair_count: 10_000,
        static_fee_atomic_usd: 10_000,
        variable_fee_bps: 5,
        arb_count: 1_000,
        updates_per_ms: 2,
        rebalance_delay_us: Range { min: 50, max: 900 },
        price_perturb_bps: Range { min: 10, max: 100 },
        volume_perturb_bps: Range { min: 10, max: 500 },
    }
}

#[test]
fn real_config_generates_expected_counts() {
    let cfg = load_config();
    let market = generate_market(&cfg, 42).unwrap();
    assert_eq!(market.tokens.len() as u64, cfg.token_count);
    assert_eq!(market.pairs.len() as u64, cfg.pair_count);
}

#[test]
fn token_0_is_usd() {
    let cfg = load_config();
    let market = generate_market(&cfg, 42).unwrap();
    assert_eq!(market.tokens[0].id, 0);
    assert_eq!(market.tokens[0].decimals, cfg.usd_decimals);
}

#[test]
fn all_non_usd_tokens_have_usd_pair_first() {
    let cfg = load_config();
    let market = generate_market(&cfg, 42).unwrap();
    // first (token_count - 1) pairs are USD pairs (quote = 0)
    for i in 0..(cfg.token_count - 1) as usize {
        assert_eq!(market.pairs[i].quote, 0, "pair {i} should be USD quote");
        assert_eq!(
            market.pairs[i].base,
            (i as u64) + 1,
            "pair {i} base mismatch"
        );
    }
    // every non-USD token is covered
    let usd_bases: std::collections::HashSet<u64> = market
        .pairs
        .iter()
        .take((cfg.token_count - 1) as usize)
        .map(|p| p.base)
        .collect();
    assert_eq!(usd_bases.len() as u64, cfg.token_count - 1);
}

#[test]
fn cross_pair_price_derived_from_usd_prices() {
    let cfg = load_config();
    let market = generate_market(&cfg, 42).unwrap();

    // USD pair prices ARE the token's atomic-USD price.
    let mut pu_atomic = vec![pow10(cfg.usd_decimals); cfg.token_count as usize];
    let usd_pair_count = (cfg.token_count - 1) as usize;
    for p in market.pairs.iter().take(usd_pair_count) {
        pu_atomic[p.base as usize] = p.price;
    }
    for p in market.pairs.iter().skip(usd_pair_count) {
        let quote_d = market.tokens[p.quote as usize].decimals;
        let expected = cross_pair_price(
            pu_atomic[p.base as usize],
            pu_atomic[p.quote as usize],
            quote_d,
        );
        assert_eq!(p.price, expected, "cross pair {:?} price mismatch", p.id);
    }
}

#[test]
fn usd_pair_price_is_within_atomic_usd_range() {
    let cfg = load_config();
    let market = generate_market(&cfg, 42).unwrap();
    let scale = pow10(cfg.usd_decimals);
    let lo = cfg.price_usd.min * scale;
    let hi = cfg.price_usd.max * scale;
    for p in market.pairs.iter().take((cfg.token_count - 1) as usize) {
        assert!(
            p.price >= lo && p.price <= hi,
            "USD pair price {} out of [{lo}, {hi}]",
            p.price,
        );
    }
}

#[test]
fn generate_market_deterministic_for_same_seed() {
    let cfg = load_config();
    let a = generate_market(&cfg, 7).unwrap();
    let b = generate_market(&cfg, 7).unwrap();
    assert_eq!(a.tokens.len(), b.tokens.len());
    assert_eq!(a.pairs.len(), b.pairs.len());
    for (p1, p2) in a.pairs.iter().zip(b.pairs.iter()) {
        assert_eq!(
            (p1.id, p1.base, p1.quote, p1.price, p1.volume),
            (p2.id, p2.base, p2.quote, p2.price, p2.volume)
        );
    }
}

#[test]
fn pair_count_too_low_rejected() {
    let mut cfg = load_config();
    cfg.token_count = 10;
    cfg.pair_count = 5; // less than 9 (USD pairs needed)
    let err = generate_market(&cfg, 0).unwrap_err();
    assert!(err.message().contains("at least"), "{err:?}");
}

#[test]
fn pair_count_too_high_rejected() {
    let mut cfg = load_config();
    cfg.token_count = 5;
    // max = 4 USD pairs + C(4,2)=6 cross = 10. request 11.
    cfg.pair_count = 11;
    let err = generate_market(&cfg, 0).unwrap_err();
    assert!(err.message().contains("exceeds"), "{err:?}");
}

#[test]
fn one_token_is_too_few() {
    let mut cfg = load_config();
    cfg.token_count = 1;
    let err = generate_market(&cfg, 0).unwrap_err();
    assert_eq!(err, GenerateError::TooFewTokens);
    assert_eq!(err.message(), "token_count must be at least 2 (USD + 1)");
}

#[test]
fn messages_give_the_counts() {
    let mut cfg = load_config();
    cfg.token_count = 10;
    cfg.pair_count = 5;
    assert_eq!(
        generate_market(&cfg, 0).unwrap_err().message(),
        "pair_count=5 must be at least token_count-1=9 (room for all USD pairs)"
    );
    cfg.token_count = 5;
    cfg.pair_count = 11;
    assert_eq!(
        generate_market(&cfg, 0).unwrap_err().message(),
        "pair_count=11 exceeds available pairs (USD=4 + max cross=6)"
    );
    assert_eq!(
        GenerateError::Stalled.message(),
        "ran out of attempts to place pairs or of time for mispricings"
    );
}

#[test]
fn every_possible_pair_is_found() {
    let mut cfg = load_config();
    cfg.token_count = 5;
    cfg.pair_count = 10;
    let market = generate_market(&cfg, 3).unwrap();
    let mut joined = std::collections::HashSet::new();
    for p in &market.pairs {
        assert!(joined.insert((p.base.min(p.quote), p.base.max(p.quote))), "mirror of pair {}", p.id);
    }
    assert_eq!(joined.len(), 10);
}

#[test]
fn cross_pairs_go_both_ways() {
    let market = generate_market(&load_config(), 42).unwrap();
    let up = market.pairs.iter().skip(999).filter(|p| p.base < p.quote).count();
    let down = market.pairs.iter().skip(999).filter(|p| p.base > p.quote).count();
    assert_eq!(up + down, 9_001);
    assert!(up > 4_000 && down > 4_000, "{up} up, {down} down");
}

#[test]
fn draws_are_those_of_the_seeded_generator() {
    let cfg = load_config();
    let market = generate_market(&cfg, 42).unwrap();
    let mut rng = rand_pcg::Pcg64Mcg::seed_from_u64(42);
    for t in &market.tokens[1..] {
        assert_eq!(t.decimals, rng.gen_range(2..=6));
    }
    for p in &market.pairs[..999] {
        assert_eq!(p.price, rng.gen_range(1_000_000..=1_000_000_000));
    }
    for p in &market.pairs[..999] {
        let vol: u64 = rng.gen_range(100..=10_000);
        let factor = 10u64.pow(market.tokens[p.base as usize].decimals as u32);
        assert_eq!(p.volume, vol * 1_000_000 * factor / p.price);
    }
    let mut at = 999;
    while at < 1_050 {
        let a: u64 = rng.gen_range(1..1_000);
        let b: u64 = rng.gen_range(1..1_000);
        let known = market.pairs[999..at].iter().any(|p| (p.base, p.quote) == (a, b) || (p.base, p.quote) == (b, a));
        if a == b || known {
            continue;
        }
        let (base, quote) = if rng.gen_bool(0.5) { (a, b) } else { (b, a) };
        let vol: u64 = rng.gen_range(100..=10_000);
        let p = market.pairs[at];
        let pu = market.pairs[base as usize - 1].price;
        let factor = 10u64.pow(market.tokens[base as usize].decimals as u32);
        assert_eq!((p.id, p.base, p.quote), (at as u64, base, quote));
        assert_eq!(p.volume, vol * 1_000_000 * factor / pu);
        at += 1;
    }
}

#[test]
fn fees_come_from_the_settings() {
    let market = generate_market(&load_config(), 1).unwrap();
    assert_eq!(market.fee.static_atomic_usd, 10_000);
    assert_eq!(market.fee.variable_bps, 5);
}

#[test]
fn full_fills_fit() {
    let market = generate_market(&load_config(), 9).unwrap();
    for p in &market.pairs {
        assert!(p.volume as u128 * p.price as u128 <= i64::MAX as u128);
    }
}

#[test]
fn volumes_start_in_range() {
    let cfg = load_config();
    let market = generate_market(&cfg, 5).unwrap();
    for p in &market.pairs {
        let decimals = market.tokens[p.base as usize].decimals;
        let pu = market.pairs[p.base as usize - 1].price;
        assert!(p.volume >= volume_atomic(100_000_000, decimals, pu));
        assert!(p.volume <= volume_atomic(10_000_000_000, decimals, pu));
    }
}

#[test]
fn formulas() {
    assert_eq!(pow10(0), 1);
    assert_eq!(pow10(19), 10_000_000_000_000_000_000);
    assert_eq!(cross_pair_price(2_000_000, 3_000_000, 6), 666_666);
    assert_eq!(cross_pair_price(3_000_000, 2_000_000, 2), 150);
    assert_eq!(volume_atomic(500_000_000, 4, 3_000_000), 1_666_666);
}

#[test]
fn settings_that_overflow_are_told() {
    let cfg = load_config();
    assert!(can_generate_market(&cfg));
    let mut c = cfg;
    c.usd_decimals = 20;
    assert!(!can_generate_market(&c));
    let mut c = cfg;
    c.price_usd.max = 20_000_000_000_000;
    assert!(!can_generate_market(&c));
    let mut c = cfg;
    c.volume_usd.max = 20_000_000;
    assert!(!can_generate_market(&c));
    let mut c = cfg;
    c.price_usd.min = 0;
    assert!(!can_generate_market(&c));
    let mut c = cfg;
    c.decimals.max = 20;
    assert!(!can_generate_market(&c));
    let mut c = cfg;
    c.price_usd.max = 20_000_000;
    assert!(!can_generate_market(&c));
    c.pair_count = 999;
    assert!(can_generate_market(&c));
}

#[test]
fn pools_are_those_of_whole_usd_amounts() {
    let cfg = load_config();
    let market = generate_market(&cfg, 5).unwrap();
    let n = market.pairs.len();
    for p in market.pairs[..40].iter().chain(&market.pairs[n - 40..]) {
        let decimals = market.tokens[p.base as usize].decimals;
        let pu = market.pairs[p.base as usize - 1].price;
        assert!((100..=10_000).any(|v| p.volume == volume_atomic(v * 1_000_000, decimals, pu)));
    }
}

#[test]
fn a_common_scale_cancels_in_a_cross_price() {
    assert_eq!(cross_pair_price(2, 3, 6), 666_666);
    for k in [1, 7, 1_000, 1_000_000] {
        assert_eq!(cross_pair_price(2 * k, 3 * k, 6), 666_666);
    }
}
