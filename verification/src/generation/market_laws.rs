//! What the sanity check promises of generated markets.
use super::config::GenerationConfig;
use super::generate_market;
use super::math;
use crate::protocol::market::MarketView;
use vstd::prelude::*;

verus! {

proof fn lemma_cross_fill(v: int, vol: int, s: int, f: int, g: int, pa: int, pb: int, price: int)
    requires
        0 <= vol,
        0 <= v,
        0 < s <= pb,
        1 <= f,
        1 <= g,
        0 < pa,
        vol <= v * s * f / pa,
        price == pa * g / pb,
    ensures
        vol * price <= v * f * g,
{
    let full = v * s * f / pa;
    vstd::arithmetic::div_mod::lemma_fundamental_div_mod(v * s * f, pa);
    vstd::arithmetic::div_mod::lemma_fundamental_div_mod(pa * g, pb);
    assert(0 <= (v * s * f) % pa && 0 <= (pa * g) % pb) by (nonlinear_arith)
        requires
            pa > 0,
            pb > 0,
    ;
    assert(price >= 0) by {
        assert(pa * g >= 0) by (nonlinear_arith)
            requires
                pa > 0,
                g >= 1,
        ;
        vstd::arithmetic::div_mod::lemma_div_pos_is_pos(pa * g, pb);
    }
    assert(vol * pa <= v * s * f) by (nonlinear_arith)
        requires
            vol <= full,
            v * s * f == pa * full + (v * s * f) % pa,
            (v * s * f) % pa >= 0,
            pa > 0,
    ;
    assert(price * pb <= pa * g) by (nonlinear_arith)
        requires
            pa * g == pb * price + (pa * g) % pb,
            (pa * g) % pb >= 0,
    ;
    assert(vol * (price * pb) <= vol * (pa * g)) by (nonlinear_arith)
        requires
            price * pb <= pa * g,
            vol >= 0,
    ;
    assert(vol * pa * g <= v * s * f * g) by (nonlinear_arith)
        requires
            vol * pa <= v * s * f,
            g >= 1,
    ;
    assert(vol * price * s <= vol * price * pb) by (nonlinear_arith)
        requires
            vol >= 0,
            price >= 0,
            s <= pb,
    ;
    assert(vol * (price * pb) == vol * price * pb) by (nonlinear_arith);
    assert(vol * (pa * g) == vol * pa * g) by (nonlinear_arith);
    assert(v * s * f * g == v * f * g * s) by (nonlinear_arith);
    assert(vol * price <= v * f * g) by (nonlinear_arith)
        requires
            vol * price * s <= v * f * g * s,
            s > 0,
    ;
}

/// On a market generated from a sane configuration, filling the whole pool of any pair at
/// its price keeps the product of volume and price within an `i64`.
pub proof fn lemma_full_fill_fits(cfg: GenerationConfig, market: MarketView, i: int)
    requires
        cfg.sanity_error() is None,
        generate_market::sound_market(cfg, market),
        0 <= i < market.pairs.len(),
    ensures
        market.pairs[i].volume * market.pairs[i].price <= i64::MAX,
{
    let tokens = market.tokens;
    let pairs = market.pairs;
    let pair = pairs[i];
    let most = cfg.max_decimals() as int;
    let v = cfg.volume_usd.max as int;
    let ud = cfg.usd_decimals as int;
    let s = generate_market::usd_scale(cfg);
    let base = pair.base as int;
    assert(1 <= base < tokens.len());
    let bd = tokens[base].decimals as int;
    let f = math::ten_to(bd);
    let pa = pairs[base - 1].price as int;
    math::lemma_ten_to_monotonic(0, ud);
    math::lemma_ten_to_monotonic(0, bd);
    assert(pa >= s) by {
        assert(cfg.price_usd.min * s >= s) by (nonlinear_arith)
            requires
                cfg.price_usd.min >= 1,
                s >= 1,
        ;
    }
    if i < tokens.len() - 1 {
        assert(pair.base == i + 1);
        let full = v * s * f / pa;
        vstd::arithmetic::div_mod::lemma_fundamental_div_mod(v * s * f, pa);
        assert(0 <= (v * s * f) % pa) by (nonlinear_arith)
            requires
                pa > 0,
        ;
        assert(pair.volume * pa <= v * s * f) by (nonlinear_arith)
            requires
                pair.volume <= full,
                v * s * f == pa * full + (v * s * f) % pa,
                (v * s * f) % pa >= 0,
                pa > 0,
        ;
        math::lemma_ten_to_adds(ud, bd);
        math::lemma_ten_to_monotonic(ud + bd, 2 * most);
        let both = math::ten_to(ud + bd);
        let top = math::ten_to(2 * most);
        assert(v * s * f == v * (s * f)) by (nonlinear_arith);
        assert(v * both <= v * top) by (nonlinear_arith)
            requires
                both <= top,
                v >= 0,
        ;
    } else {
        let quote = pair.quote as int;
        let qd = tokens[quote].decimals as int;
        let g = math::ten_to(qd);
        let pb = pairs[quote - 1].price as int;
        math::lemma_ten_to_monotonic(0, qd);
        assert(pb >= s) by {
            assert(pairs[quote - 1].price >= generate_market::price_floor(cfg));
            assert(cfg.price_usd.min * s >= s) by (nonlinear_arith)
                requires
                    cfg.price_usd.min >= 1,
                    s >= 1,
            ;
        }
        lemma_cross_fill(v, pair.volume as int, s, f, g, pa, pb, pair.price as int);
        math::lemma_ten_to_adds(bd, qd);
        math::lemma_ten_to_monotonic(bd + qd, 2 * most);
        let both = math::ten_to(bd + qd);
        let top = math::ten_to(2 * most);
        assert(v * f * g == v * (f * g)) by (nonlinear_arith);
        assert(v * both <= v * top) by (nonlinear_arith)
            requires
                both <= top,
                v >= 0,
        ;
    }
}

} // verus!
