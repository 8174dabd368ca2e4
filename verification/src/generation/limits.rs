//! Whether all numbers that generation meets stay within machine words.
use super::config::GenerationConfig;
use super::emission;
use super::emission::BPS;
use super::generate_feed;
use super::generate_market;
use super::math;
use super::schedule;
use super::volumes;
use crate::protocol::market::{Market, Token, TokenPair, USD_TOKEN_ID};
use vstd::prelude::*;

verus! {

/// Whether a product of two numbers fits a `u64`.
fn product_fits(a: u64, b: u64) -> (r: bool)
    ensures
        r == (a * b <= u64::MAX),
{
    a.checked_mul(b).is_some()
}

/// Whether a product of three numbers fits a `u64`.
fn products_fit(a: u64, b: u64, c: u64) -> (r: bool)
    ensures
        r == (a * b * c <= u64::MAX),
{
    assert(0 <= a * b <= 0xffff_ffff_ffff_ffff * 0xffff_ffff_ffff_ffff) by (nonlinear_arith)
        requires
            0 <= a <= 0xffff_ffff_ffff_ffff,
            0 <= b <= 0xffff_ffff_ffff_ffff,
    ;
    let ab: u128 = a as u128 * b as u128;
    match ab.checked_mul(c as u128) {
        Some(abc) => abc <= u64::MAX as u128,
        None => false,
    }
}

/// Tells whether a market can be generated whatever is drawn.
pub fn can_generate_market(cfg: &GenerationConfig) -> (r: bool)
    ensures
        r == generate_market::generable(*cfg),
{
    if cfg.token_count > usize::MAX as u64 || cfg.pair_count > usize::MAX as u64
        || cfg.usd_decimals > math::MAX_DECIMALS || cfg.decimals.min > cfg.decimals.max
        || cfg.decimals.max > math::MAX_DECIMALS || cfg.price_usd.min == 0 || cfg.price_usd.min
        > cfg.price_usd.max || cfg.volume_usd.min > cfg.volume_usd.max {
        return false;
    }
    let usd_scale: u64 = math::pow10(cfg.usd_decimals);
    let base_scale: u64 = math::pow10(cfg.decimals.max);
    product_fits(cfg.price_usd.max, usd_scale) && products_fit(
        cfg.volume_usd.max,
        usd_scale,
        base_scale,
    ) && (cfg.pair_count < cfg.token_count || products_fit(
        cfg.price_usd.max,
        usd_scale,
        base_scale,
    ))
}

fn can_schedule(cfg: &GenerationConfig, token_count: usize) -> (r: bool)
    requires
        cfg.arb_count > 0,
    ensures
        forall|adj: Seq<Seq<usize>>|
            adj.len() == token_count ==> r == #[trigger] schedule::schedulable(*cfg, adj),
{
    token_count >= 2 && cfg.updates_per_ms >= 1 && cfg.updates_per_ms <= usize::MAX as u64
        && cfg.rebalance_delay_us.min <= cfg.rebalance_delay_us.max && cfg.price_perturb_bps.min
        <= cfg.price_perturb_bps.max
}

/// Whether a pair's pool has bounds.
fn can_bound(
    cfg: &GenerationConfig,
    usd_scale: u64,
    tokens: &Vec<Token>,
    pu: &Vec<u64>,
    pair: TokenPair,
) -> (r: bool)
    requires
        usd_scale == generate_market::usd_scale(*cfg),
        pu@.len() == tokens@.len(),
        pair.base < tokens@.len(),
    ensures
        r == volumes::boundable(*cfg, tokens@, pu@, pair),
{
    let n: usize = tokens.len();
    assert(pair.base < n);
    let base: usize = pair.base as usize;
    let decimals: u64 = tokens[base].decimals;
    if pu[base] == 0 || decimals > math::MAX_DECIMALS {
        return false;
    }
    let factor: u64 = math::pow10(decimals);
    products_fit(cfg.volume_usd.min, usd_scale, factor) && products_fit(
        cfg.volume_usd.max,
        usd_scale,
        factor,
    )
}

/// Whether a pair can be priced with its base at the highest price.
spec fn priceable_at_cap(cfg: GenerationConfig, tokens: Seq<Token>, pair: TokenPair) -> bool {
    pair.quote != USD_TOKEN_ID ==> generate_market::price_cap(cfg) * math::ten_to(
        tokens[pair.quote as int].decimals as int,
    ) <= u64::MAX
}

/// Whether a pair can be priced, now and at any price in the configured range.
fn can_price(
    cfg: &GenerationConfig,
    usd_scale: u64,
    tokens: &Vec<Token>,
    pu: &Vec<u64>,
    pair: TokenPair,
) -> (r: bool)
    requires
        usd_scale == generate_market::usd_scale(*cfg),
        pu@.len() == tokens@.len(),
        pair.base < tokens@.len(),
        pair.quote < tokens@.len(),
    ensures
        r == (emission::priceable(pair, pu@, tokens@) && priceable_at_cap(*cfg, tokens@, pair)),
{
    let n: usize = tokens.len();
    assert(pair.base < n && pair.quote < n);
    if pair.quote == USD_TOKEN_ID {
        return true;
    }
    let quote: usize = pair.quote as usize;
    let decimals: u64 = tokens[quote].decimals;
    if pu[quote] == 0 || decimals > math::MAX_DECIMALS {
        return false;
    }
    let factor: u64 = math::pow10(decimals);
    product_fits(pu[pair.base as usize], factor) && products_fit(
        cfg.price_usd.max,
        usd_scale,
        factor,
    )
}

/// Whether prices can move.
fn can_move(
    cfg: &GenerationConfig,
    usd_scale: u64,
    tokens: &Vec<Token>,
    pairs: &Vec<TokenPair>,
    pu: &Vec<u64>,
) -> (r: bool)
    requires
        usd_scale == generate_market::usd_scale(*cfg),
        generate_market::price_floor(*cfg) <= u64::MAX,
        generate_market::price_cap(*cfg) <= u64::MAX,
        pu@.len() == tokens@.len(),
        emission::pairs_known(tokens@.len() as int, pairs@),
    ensures
        r == emission::movable(*cfg, tokens@, pairs@, pu@),
{
    let floor: u64 = cfg.price_usd.min * usd_scale;
    let cap: u64 = cfg.price_usd.max * usd_scale;
    if floor == 0 || floor > cap || cfg.price_perturb_bps.max > BPS {
        return false;
    }
    let most: u64 = BPS + cfg.price_perturb_bps.max;
    if !product_fits(cap, most) {
        return false;
    }
    let mut t: usize = 1;
    while t < pu.len()
        invariant
            1 <= t,
            pu@.len() >= 1 ==> t <= pu@.len(),
            most == BPS + cfg.price_perturb_bps.max,
            forall|i: int|
                1 <= i < t && i < pu@.len() ==> 0 < #[trigger] pu@[i] && pu@[i] * most <= u64::MAX,
        decreases pu@.len() - t,
    {
        if pu[t] == 0 || !product_fits(pu[t], most) {
            assert(!(0 < pu@[t as int] && pu@[t as int] * (BPS + cfg.price_perturb_bps.max)
                <= u64::MAX));
            return false;
        }
        t = t + 1;
    }
    let mut i: usize = 0;
    while i < pairs.len()
        invariant
            i <= pairs@.len(),
            usd_scale == generate_market::usd_scale(*cfg),
            pu@.len() == tokens@.len(),
            emission::pairs_known(tokens@.len() as int, pairs@),
            forall|j: int| 0 <= j < i ==> emission::priceable(#[trigger] pairs@[j], pu@, tokens@),
            forall|j: int| 0 <= j < i ==> priceable_at_cap(*cfg, tokens@, #[trigger] pairs@[j]),
        decreases pairs@.len() - i,
    {
        assert(pairs@[i as int].base < tokens@.len());
        let pair = pairs[i];
        assert(pair == pairs@[i as int]);
        if !can_price(cfg, usd_scale, tokens, pu, pair) {
            assert(!emission::priceable(pairs@[i as int], pu@, tokens@) || !priceable_at_cap(
                *cfg,
                tokens@,
                pairs@[i as int],
            ));
            return false;
        }
        i = i + 1;
    }
    assert forall|j: int|
        0 <= j < pairs@.len() && (#[trigger] pairs@[j]).quote
            != USD_TOKEN_ID implies generate_market::price_cap(*cfg) * math::ten_to(
        tokens@[pairs@[j].quote as int].decimals as int,
    ) <= u64::MAX by {
        assert(emission::priceable(pairs@[j], pu@, tokens@));
        assert(priceable_at_cap(*cfg, tokens@, pairs@[j]));
    }
    true
}

/// Tells whether a feed can be generated whatever is drawn, as long as its times fit.
#[verifier::loop_isolation(false)]
pub fn can_generate_feed(market: &Market, cfg: &GenerationConfig) -> (r: bool)
    ensures
        r == generate_feed::feedable(*cfg, market@),
{
    let tokens = &market.tokens;
    let pairs = &market.pairs;
    if tokens.len() < 1 || cfg.usd_decimals > math::MAX_DECIMALS {
        return false;
    }
    let usd_scale: u64 = math::pow10(cfg.usd_decimals);
    if !product_fits(cfg.price_usd.min, usd_scale) || !product_fits(cfg.price_usd.max, usd_scale) {
        return false;
    }
    let n: usize = tokens.len();
    let mut i: usize = 0;
    while i < pairs.len()
        invariant
            i <= pairs@.len(),
            n == tokens@.len(),
            forall|j: int|
                0 <= j < i ==> (#[trigger] pairs@[j]).base < n && pairs@[j].quote < n,
        decreases pairs@.len() - i,
    {
        if pairs[i].base >= n as u64 || pairs[i].quote >= n as u64 {
            assert(!(pairs@[i as int].base < n && pairs@[i as int].quote < n));
            return false;
        }
        i = i + 1;
    }
    let pu = emission::read_prices(cfg, tokens, pairs);
    let mut i: usize = 0;
    while i < pairs.len()
        invariant
            i <= pairs@.len(),
            pu@.len() == tokens@.len(),
            usd_scale == generate_market::usd_scale(*cfg),
            emission::pairs_known(tokens@.len() as int, pairs@),
            forall|j: int|
                0 <= j < i ==> volumes::boundable(*cfg, tokens@, pu@, #[trigger] pairs@[j]),
        decreases pairs@.len() - i,
    {
        assert(pairs@[i as int].base < tokens@.len());
        if !can_bound(cfg, usd_scale, tokens, &pu, pairs[i]) {
            assert(!volumes::boundable(*cfg, tokens@, pu@, pairs@[i as int]));
            return false;
        }
        i = i + 1;
    }
    if cfg.arb_count == 0 {
        return true;
    }
    assert(generate_feed::adjacency_of(market@).len() == n);
    if !can_schedule(cfg, n) || !can_move(cfg, usd_scale, tokens, pairs, &pu) || cfg.volume_usd.min
        > cfg.volume_usd.max || cfg.volume_perturb_bps.min > cfg.volume_perturb_bps.max
        || cfg.volume_perturb_bps.max > BPS {
        return false;
    }
    let most: u64 = BPS + cfg.volume_perturb_bps.max;
    let (lo, hi) = volumes::volume_bounds(cfg, tokens, pairs, &pu);
    let mut i: usize = 0;
    while i < pairs.len()
        invariant
            i <= pairs@.len(),
            hi@.len() == pairs@.len(),
            most == BPS + cfg.volume_perturb_bps.max,
            forall|j: int| 0 <= j < i ==> volumes::roomy(*cfg, (#[trigger] pairs@[j]).volume),
            forall|j: int| 0 <= j < i ==> volumes::roomy(*cfg, #[trigger] hi@[j]),
        decreases pairs@.len() - i,
    {
        if !product_fits(pairs[i].volume, most) || !product_fits(hi[i], most) {
            assert(!volumes::roomy(*cfg, pairs@[i as int].volume) || !volumes::roomy(
                *cfg,
                hi@[i as int],
            ));
            return false;
        }
        i = i + 1;
    }
    true
}

} // verus!
