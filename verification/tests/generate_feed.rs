use rand::{Rng, RngCore, SeedableRng};

use arbitrage_arena::generation::config::{GenerationConfig, Range};
use arbitrage_arena::generation::feed_stats::feed_stats;
use arbitrage_arena::generation::generate_feed::generate_feed;
use arbitrage_arena::generation::generate_market::{generate_market, GenerateError};
use arbitrage_arena::generation::limits::can_generate_feed;
use arbitrage_arena::generation::math::{cross_pair_price, pow10};
use arbitrage_arena::protocol::feed::{FeedTick, PriceUpdate};
use arbitrage_arena::protocol::market::{Fee, Market, Token, TokenPair};

/// The settings that the tests start from.
fn load_config() -> GenerationConfig {
    GenerationConfig {
        decimals: Range { min: 2, max: 6 },
        usd_decimals: 6,
        price_usd: Range { min: 1, max: 1_000 },
        volume_usd: Range { min: 100, max: 10_000 },
        token_count: 1_000,
        pair_count: 10_000,
        static_fee_atomic_usd: 10_000,
        variable_fee_bps: 5,
        arb_count: 1_000,
        updates_per_ms: 2,
        rebalance_delay_us: Range { min: 50, max: 900 },
        price_perturb_bps: Range { min: 10, max: 100 },
        volume_perturb_bps: Range { min: 10, max: 500 },
    }
}

/// Cheaper config for full-feed tests: same shape, fewer arbs.
fn test_config(arb_count: u64) -> GenerationConfig {
    let mut c = load_config();
    c.arb_count = arb_count;
    c
}

#[test]
fn generate_feed_deterministic_for_same_seed() {
    let cfg = test_config(500);
    let market = generate_market(&cfg, 0).unwrap();
    let a = generate_feed(&market, &cfg, 42).unwrap();
    let b = generate_feed(&market, &cfg, 42).unwrap();
    assert_eq!(a.len(), b.len());
    for (x, y) in a.iter().zip(b.iter()) {
        assert_eq!(x.delay_us, y.delay_us);
        assert_eq!(x.update.token_pair_id, y.update.token_pair_id);
        assert_eq!(x.update.price, y.update.price);
        assert_eq!(x.update.volume, y.update.volume);
    }
}

#[test]
fn absolute_times_non_decreasing() {
    let cfg = test_config(500);
    let market = generate_market(&cfg, 0).unwrap();
    let feed = generate_feed(&market, &cfg, 7).unwrap();
    let mut t: u64 = 0;
    for tick in &feed {
        t = t.checked_add(tick.delay_us).expect("absolute time overflow");
        let _ = t;
    }
}

#[test]
fn replay_yields_equilibrium() {
    // After replaying every tick, each cross pair's `price` should equal
    // the recomputed price from the final pu vector. Dedupe preserves
    // this because the last event in any rebalance cluster is at or
    // after the keep, so it always carries the equilibrium price.
    let cfg = test_config(2_000);
    let market = generate_market(&cfg, 0).unwrap();
    let feed = generate_feed(&market, &cfg, 11).unwrap();

    let mut live: Vec<u64> = market.pairs.iter().map(|p| p.price).collect();
    let id_to_idx: std::collections::HashMap<u64, usize> = market.pairs.iter().enumerate().map(|(i, p)| (p.id, i)).collect();
    for tick in &feed {
        let idx = id_to_idx[&tick.update.token_pair_id];
        live[idx] = tick.update.price;
    }

    let usd_scale = pow10(cfg.usd_decimals);
    let mut pu: Vec<u64> = vec![usd_scale; market.tokens.len()];
    let usd_pair_count = market.tokens.len() - 1;
    for (i, p) in market.pairs.iter().take(usd_pair_count).enumerate() {
        pu[p.base as usize] = live[i];
    }

    for (i, p) in market.pairs.iter().enumerate().skip(usd_pair_count) {
        let expected = cross_pair_price(pu[p.base as usize], pu[p.quote as usize], market.tokens[p.quote as usize].decimals);
        assert_eq!(
            live[i], expected,
            "cross pair {} not in equilibrium: live={} expected={}",
            p.id, live[i], expected
        );
    }
}

#[test]
fn clamping_keeps_usd_prices_in_range() {
    let mut cfg = test_config(500);
    cfg.price_usd.min = 1;
    cfg.price_usd.max = 2;
    cfg.price_perturb_bps.min = 5_000;
    cfg.price_perturb_bps.max = 9_999;
    cfg.sanity_check().unwrap();
    let market = generate_market(&cfg, 0).unwrap();
    let feed = generate_feed(&market, &cfg, 13).unwrap();

    let scale = pow10(cfg.usd_decimals);
    let usd_pair_ids: std::collections::HashSet<u64> = market.pairs.iter().filter(|p| p.quote == 0).map(|p| p.id).collect();
    let lo = cfg.price_usd.min * scale;
    let hi = cfg.price_usd.max * scale;
    for tick in &feed {
        if usd_pair_ids.contains(&tick.update.token_pair_id) {
            assert!(
                tick.update.price >= lo && tick.update.price <= hi,
                "USD pair price {} outside clamp [{lo}, {hi}]",
                tick.update.price,
            );
        }
    }
}

#[test]
fn empty_feed_for_zero_arbs() {
    let cfg = test_config(0);
    let market = generate_market(&cfg, 0).unwrap();
    let feed = generate_feed(&market, &cfg, 1).unwrap();
    assert!(feed.is_empty());
}

#[test]
fn different_seeds_produce_different_feeds() {
    let cfg = test_config(500);
    let market = generate_market(&cfg, 0).unwrap();
    let a = generate_feed(&market, &cfg, 1).unwrap();
    let b = generate_feed(&market, &cfg, 2).unwrap();
    // At least some tick must differ in price or pair id.
    let any_diff = a
        .iter()
        .zip(b.iter())
        .any(|(x, y)| x.update.price != y.update.price || x.update.token_pair_id != y.update.token_pair_id);
    assert!(any_diff, "feeds for distinct seeds should differ in content");
}

#[test]
fn different_market_seeds_produce_different_feeds() {
    let cfg = test_config(500);
    let m1 = generate_market(&cfg, 0).unwrap();
    let m2 = generate_market(&cfg, 1).unwrap();
    let a = generate_feed(&m1, &cfg, 99).unwrap();
    let b = generate_feed(&m2, &cfg, 99).unwrap();
    let any_diff = a
        .iter()
        .zip(b.iter())
        .any(|(x, y)| x.update.price != y.update.price || x.update.token_pair_id != y.update.token_pair_id);
    assert!(any_diff, "feeds for distinct markets should differ in content");
}

#[test]
fn all_pair_ids_in_feed_are_valid() {
    let cfg = test_config(500);
    let market = generate_market(&cfg, 0).unwrap();
    let feed = generate_feed(&market, &cfg, 5).unwrap();
    let valid: std::collections::HashSet<u64> = market.pairs.iter().map(|p| p.id).collect();
    for tick in &feed {
        assert!(
            valid.contains(&tick.update.token_pair_id),
            "feed references unknown pair id {}",
            tick.update.token_pair_id
        );
    }
}

#[test]
fn single_arb_touches_only_pairs_of_one_token() {
    // With arb_count = 1, all emitted ticks should land on pairs that
    // share at least one token (the mispriced one).
    let cfg = test_config(1);
    let market = generate_market(&cfg, 0).unwrap();
    let feed = generate_feed(&market, &cfg, 7).unwrap();
    assert!(!feed.is_empty(), "single arb should still emit ticks");

    let by_id: std::collections::HashMap<u64, (u64, u64)> = market.pairs.iter().map(|p| (p.id, (p.base, p.quote))).collect();

    let mut common: Option<std::collections::HashSet<u64>> = None;
    for tick in &feed {
        let (b, q) = by_id[&tick.update.token_pair_id];
        let mut tokens = std::collections::HashSet::new();
        // We never mispriceto USD (id 0), so exclude it from the candidate
        // intersection set.
        if b != 0 {
            tokens.insert(b);
        }
        if q != 0 {
            tokens.insert(q);
        }
        common = Some(match common {
            None => tokens,
            Some(c) => c.intersection(&tokens).copied().collect(),
        });
    }
    let intersection = common.unwrap();
    assert!(
        !intersection.is_empty(),
        "all single-arb ticks should share at least one (non-USD) token"
    );
}

#[test]
fn single_arb_rebalance_delays_within_bounds() {
    // First emitted tick is the main (fired at the mispricing's offset).
    // Every subsequent tick is a rebalance whose offset relative to the
    // main must lie in [rebalance_delay_us.min, rebalance_delay_us.max].
    let cfg = test_config(1);
    let market = generate_market(&cfg, 0).unwrap();
    let feed = generate_feed(&market, &cfg, 13).unwrap();
    assert!(feed.len() >= 2, "single arb on a connected token should have ≥2 ticks");

    // Reconstruct absolute timestamps.
    let mut abs: Vec<u64> = Vec::with_capacity(feed.len());
    let mut t = 0u64;
    for tick in &feed {
        t += tick.delay_us;
        abs.push(t);
    }

    let t_main = abs[0];
    assert!(t_main < 1_000, "main should fire within the first 1 ms window, got {t_main} µs");
    for &t_rebalance in &abs[1..] {
        let off = t_rebalance - t_main;
        assert!(
            off >= cfg.rebalance_delay_us.min,
            "rebalance fired {off} µs after main, below min {}",
            cfg.rebalance_delay_us.min
        );
        assert!(
            off <= cfg.rebalance_delay_us.max,
            "rebalance fired {off} µs after main, above max {}",
            cfg.rebalance_delay_us.max
        );
    }
}

#[test]
fn mispricings_distributed_across_many_tokens() {
    // Over a few hundred arbs, we should be touching well more than a
    // handful of distinct tokens — otherwise the random token selection
    // is broken.
    let cfg = test_config(500);
    let market = generate_market(&cfg, 0).unwrap();
    let feed = generate_feed(&market, &cfg, 23).unwrap();

    // For each emitted pair, the set of tokens it involves is a
    // superset of the mispriced tokens that touched it. Collecting all
    // non-USD tokens across the feed underestimates "distinct mispriced
    // tokens" but bounds it from above. With 500 arbs and uniform
    // sampling over ~999 tokens, expect well over 100 distinct.
    let by_id: std::collections::HashMap<u64, (u64, u64)> = market.pairs.iter().map(|p| (p.id, (p.base, p.quote))).collect();
    let mut tokens = std::collections::HashSet::new();
    for tick in &feed {
        let (b, q) = by_id[&tick.update.token_pair_id];
        if b != 0 {
            tokens.insert(b);
        }
        if q != 0 {
            tokens.insert(q);
        }
    }
    assert!(
        tokens.len() > 100,
        "expected >100 distinct non-USD tokens touched; got {}",
        tokens.len()
    );
}

#[test]
fn volumes_evolve_per_pair() {
    // For any pair that gets touched many times, its emitted volumes
    // should not all be identical — the random walk must move things.
    let cfg = test_config(5_000);
    let market = generate_market(&cfg, 0).unwrap();
    let feed = generate_feed(&market, &cfg, 17).unwrap();

    let mut by_pair: std::collections::HashMap<u64, Vec<u64>> = std::collections::HashMap::new();
    for tick in &feed {
        by_pair.entry(tick.update.token_pair_id).or_default().push(tick.update.volume);
    }

    let busiest = by_pair.values().max_by_key(|v| v.len()).expect("at least one pair must be touched");
    assert!(busiest.len() >= 10, "expected a pair with ≥10 ticks; got max {}", busiest.len());
    let min = busiest.iter().min().unwrap();
    let max = busiest.iter().max().unwrap();
    assert!(min != max, "volumes for the busiest pair should vary; min == max == {min}");
}

#[test]
fn feed_length_matches_event_counts() {
    // total ticks = 1 main + adj_size - 1 rebalances summed over each
    // chosen mispricing's token. Since we can't easily reconstruct
    // which tokens were chosen without re-running the RNG, just bound
    // total length: arb_count ≤ len ≤ arb_count × max_adj.
    let cfg = test_config(200);
    let market = generate_market(&cfg, 0).unwrap();
    let feed = generate_feed(&market, &cfg, 31).unwrap();

    let max_adj = {
        let mut adj_counts = vec![0usize; market.tokens.len()];
        for p in &market.pairs {
            adj_counts[p.base as usize] += 1;
            if p.quote != 0 {
                adj_counts[p.quote as usize] += 1;
            }
        }
        *adj_counts.iter().max().unwrap()
    };
    assert!(feed.len() as u64 >= cfg.arb_count);
    assert!(feed.len() <= cfg.arb_count as usize * max_adj);
}

#[test]
fn volumes_stay_in_range() {
    let cfg = test_config(2_000);
    let market = generate_market(&cfg, 0).unwrap();
    let feed = generate_feed(&market, &cfg, 19).unwrap();

    let usd_scale = pow10(cfg.usd_decimals);
    // Recompute the same per-pair range and compare.
    let mut pu: Vec<u64> = vec![usd_scale; market.tokens.len()];
    let usd_pair_count = market.tokens.len() - 1;
    for p in market.pairs.iter().take(usd_pair_count) {
        pu[p.base as usize] = p.price;
    }
    let id_to_idx: std::collections::HashMap<u64, usize> = market.pairs.iter().enumerate().map(|(i, p)| (p.id, i)).collect();
    for tick in &feed {
        let idx = id_to_idx[&tick.update.token_pair_id];
        let p = &market.pairs[idx];
        let base_factor = pow10(market.tokens[p.base as usize].decimals);
        let pu_base = pu[p.base as usize];
        let lo = cfg.volume_usd.min * usd_scale * base_factor / pu_base;
        let hi = cfg.volume_usd.max * usd_scale * base_factor / pu_base;
        assert!(
            tick.update.volume >= lo && tick.update.volume <= hi,
            "pair {} volume {} outside range [{lo}, {hi}]",
            p.id,
            tick.update.volume,
        );
    }
}

/// Three tokens: USD, one with a pair and one without any.
fn sparse_market() -> Market {
    Market {
        fee: Fee { static_atomic_usd: 1, variable_bps: 1 },
        tokens: vec![
            Token { id: 0, decimals: 6 },
            Token { id: 1, decimals: 6 },
            Token { id: 2, decimals: 6 },
        ],
        pairs: vec![TokenPair { id: 0, base: 1, quote: 0, price: 5_000_000, volume: 200_000_000 }],
    }
}

#[test]
fn a_token_without_pairs_is_passed_over() {
    let mut cfg = test_config(50);
    cfg.updates_per_ms = 1;
    let feed = generate_feed(&sparse_market(), &cfg, 4).unwrap();
    assert_eq!(feed.len(), 50);
    assert!(feed.iter().all(|t| t.update.token_pair_id == 0));
    // Empty slots take time: fifty ticks need more than fifty windows.
    assert!(feed_stats(&feed).duration_us > 50_000);
}

#[test]
fn long_delays_that_are_not_drawn_do_no_harm() {
    let mut cfg = test_config(3);
    cfg.updates_per_ms = 1;
    cfg.rebalance_delay_us = Range { min: 1, max: u64::MAX };
    for seed in 0..40 {
        // No other pair of the token follows, so no delay is drawn.
        assert_eq!(generate_feed(&sparse_market(), &cfg, seed).unwrap().len(), 3);
    }
}

#[test]
fn a_schedule_whose_times_do_not_fit_stalls() {
    let mut market = sparse_market();
    market.pairs.push(TokenPair { id: 1, ..market.pairs[0] });
    let mut cfg = test_config(1);
    cfg.updates_per_ms = 1;
    // The delay fits in the first window only, and then only just.
    cfg.rebalance_delay_us = Range { min: u64::MAX - 999, max: u64::MAX - 999 };
    assert!(can_generate_feed(&market, &cfg));
    let mut stalled = 0;
    let mut done = 0;
    for seed in 0..40 {
        match generate_feed(&market, &cfg, seed) {
            Ok(feed) => {
                assert_eq!(feed.len(), 2);
                assert!(feed[0].delay_us < 1_000);
                done += 1;
            }
            Err(e) => {
                assert_eq!(e, GenerateError::Stalled);
                stalled += 1;
            }
        }
    }
    assert!(stalled > 0 && done > 0, "{stalled} stalled, {done} done");
}

#[test]
fn one_mispricing_ticks_each_pair_of_its_token_once() {
    let cfg = test_config(1);
    let market = generate_market(&cfg, 0).unwrap();
    for seed in 0..10 {
        let feed = generate_feed(&market, &cfg, seed).unwrap();
        let mut ids: Vec<u64> = feed.iter().map(|t| t.update.token_pair_id).collect();
        ids.sort_unstable();
        let row_of = |t: u64| -> Vec<u64> {
            market.pairs.iter().filter(|p| p.base == t || p.quote == t).map(|p| p.id).collect()
        };
        let first = market.pairs[ids[0] as usize];
        assert!([first.base, first.quote].iter().any(|t| *t != 0 && row_of(*t) == ids));
    }
}

#[test]
fn pools_move_in_small_steps() {
    let cfg = test_config(300);
    let market = generate_market(&cfg, 2).unwrap();
    let feed = generate_feed(&market, &cfg, 8).unwrap();
    let mut pools: Vec<u64> = market.pairs.iter().map(|p| p.volume).collect();
    let mut moved = 0;
    for t in &feed {
        let x = t.update.token_pair_id as usize;
        let (v, w) = (pools[x], t.update.volume);
        assert!(v * 9_500 / 10_000 <= w && w <= v * 10_500 / 10_000, "{v} to {w}");
        moved += (v != w) as usize;
        pools[x] = w;
    }
    assert!(moved > feed.len() / 2);
}

#[test]
fn updates_are_numbered() {
    let cfg = test_config(100);
    let market = generate_market(&cfg, 0).unwrap();
    let feed = generate_feed(&market, &cfg, 6).unwrap();
    for (i, tick) in feed.iter().enumerate() {
        assert_eq!(tick.update.seq, i as u64);
    }
}

#[test]
fn first_draws_are_those_of_the_seeded_generator() {
    let mut cfg = test_config(1);
    cfg.updates_per_ms = 3;
    let market = generate_market(&cfg, 0).unwrap();
    let feed = generate_feed(&market, &cfg, 21).unwrap();

    let mut rng = rand_pcg::Pcg64Mcg::seed_from_u64(21);
    let mut offsets: Vec<u64> = (0..3).map(|_| rng.gen_range(0..1_000)).collect();
    offsets.sort_unstable();
    let token: u64 = rng.gen_range(1..1_000);
    let row: Vec<TokenPair> = market.pairs.iter().copied().filter(|p| p.base == token || p.quote == token).collect();
    let main = row[rng.gen_range(0..row.len())];
    let delta: u64 = rng.gen_range(10..=100);
    let up = rng.gen_bool(0.5);

    assert_eq!(feed.len(), row.len());
    assert_eq!(feed[0].delay_us, offsets[0]);
    assert_eq!(feed[0].update.token_pair_id, main.id);
    let old = market.pairs[token as usize - 1].price;
    let factor = if up { 10_000 + delta } else { 10_000 - delta };
    let new = (old * factor / 10_000).clamp(1_000_000, 1_000_000_000);
    let price_of = |t: u64| if t == token { new } else { market.pairs[t as usize - 1].price };
    for tick in &feed {
        let p = market.pairs[tick.update.token_pair_id as usize];
        let expected = if p.quote == 0 {
            price_of(p.base)
        } else {
            cross_pair_price(price_of(p.base), price_of(p.quote), market.tokens[p.quote as usize].decimals)
        };
        assert_eq!(tick.update.price, expected);
    }
}

#[test]
fn the_two_ways_to_toss_a_coin_agree() {
    let mut a = rand_pcg::Pcg64Mcg::seed_from_u64(3);
    let mut b = rand_pcg::Pcg64Mcg::seed_from_u64(3);
    let mut heads = 0;
    for _ in 0..2_000 {
        let toss = a.gen_bool(0.5);
        assert_eq!(toss, b.gen_ratio(1, 2));
        heads += toss as u32;
    }
    assert!(heads > 900 && heads < 1_100);
    assert_eq!(a.next_u64(), b.next_u64());
}

fn tick(delay_us: u64, pair: u64) -> FeedTick {
    FeedTick { delay_us, update: PriceUpdate { seq: 0, token_pair_id: pair, price: 1, volume: 1 } }
}

#[test]
fn stats_of_a_small_feed() {
    // Times 900, 950, 1000, 1100, 3500: two ticks in window 0, two in window 1, one in 3.
    let feed = vec![tick(900, 7), tick(50, 8), tick(50, 7), tick(100, 7), tick(2_400, 9)];
    let s = feed_stats(&feed);
    assert_eq!(s.total_ticks, 5);
    assert_eq!(s.duration_us, 3_500);
    assert_eq!(s.windows, 4);
    assert!(s.total_ticks as u64 <= s.peak_ticks_per_ms * s.windows);
    assert_eq!(s.peak_ticks_per_ms, 2);
    assert_eq!(s.distinct_pairs_touched, 3);
    assert_eq!(s.min_ticks_per_touched_pair, 1);
    assert_eq!(s.max_ticks_per_touched_pair, 3);
}

#[test]
fn stats_of_an_empty_and_of_a_short_feed() {
    let s = feed_stats(&[]);
    assert_eq!(
        (s.total_ticks, s.duration_us, s.windows, s.peak_ticks_per_ms, s.distinct_pairs_touched),
        (0, 0, 0, 0, 0)
    );
    assert_eq!((s.min_ticks_per_touched_pair, s.max_ticks_per_touched_pair), (0, 0));
    let s = feed_stats(&[tick(5, 1)]);
    assert_eq!((s.windows, s.peak_ticks_per_ms, s.min_ticks_per_touched_pair), (1, 1, 1));
    // The last window counts though it is not over: one tick in each of two windows.
    let s = feed_stats(&[tick(0, 1), tick(1_500, 1)]);
    assert_eq!((s.total_ticks, s.windows, s.peak_ticks_per_ms), (2, 2, 1));
    assert_eq!(feed_stats(&[tick(1_000, 1)]).windows, 2);
}

#[test]
fn feeds_that_overflow_are_told() {
    let cfg = test_config(10);
    let market = generate_market(&cfg, 0).unwrap();
    assert!(can_generate_feed(&market, &cfg));
    let mut c = cfg;
    c.updates_per_ms = 0;
    assert!(!can_generate_feed(&market, &c));
    let mut c = cfg;
    c.price_perturb_bps.max = 10_001;
    assert!(!can_generate_feed(&market, &c));
    let mut c = cfg;
    c.rebalance_delay_us = Range { min: u64::MAX, max: u64::MAX };
    assert!(can_generate_feed(&market, &c));
    assert_eq!(generate_feed(&market, &c, 0), Err(GenerateError::Stalled));
    let mut c = cfg;
    c.rebalance_delay_us.min = c.rebalance_delay_us.max + 1;
    assert!(!can_generate_feed(&market, &c));
    let mut m = market.clone();
    m.pairs[5].quote = 1_000;
    assert!(!can_generate_feed(&m, &cfg));
    let mut m = market.clone();
    m.pairs[5].price = 0;
    assert!(!can_generate_feed(&m, &cfg));
    let mut m = market.clone();
    m.pairs[5].volume = u64::MAX;
    assert!(!can_generate_feed(&m, &cfg));
    assert!(can_generate_feed(&m, &test_config(0)));
}
