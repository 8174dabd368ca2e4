//! The random walk of pool sizes.
use super::config::GenerationConfig;
use super::emission;
use super::emission::{perturb, Tick, BPS};
use super::generate_market;
use super::math;
use super::rng;
use crate::protocol::market::{Token, TokenPair};
use rand_pcg::Mcg128Xsl64;
use vstd::prelude::*;

verus! {

/// The least pool of each pair, given the USD prices of the tokens.
pub open spec fn floors(
    cfg: GenerationConfig,
    tokens: Seq<Token>,
    pairs: Seq<TokenPair>,
    pu: Seq<u64>,
) -> Seq<u64> {
    Seq::new(
        pairs.len(),
        |i: int|
            generate_market::volume_floor(
                cfg,
                tokens[pairs[i].base as int].decimals as int,
                pu[pairs[i].base as int] as int,
            ) as u64,
    )
}

/// The largest pool of each pair, given the USD prices of the tokens.
pub open spec fn caps(
    cfg: GenerationConfig,
    tokens: Seq<Token>,
    pairs: Seq<TokenPair>,
    pu: Seq<u64>,
) -> Seq<u64> {
    Seq::new(
        pairs.len(),
        |i: int|
            generate_market::volume_cap(
                cfg,
                tokens[pairs[i].base as int].decimals as int,
                pu[pairs[i].base as int] as int,
            ) as u64,
    )
}

/// The pool of each pair.
pub open spec fn pools(pairs: Seq<TokenPair>) -> Seq<u64> {
    Seq::new(pairs.len(), |i: int| pairs[i].volume)
}

/// Whether the bounds on a pair's pool can be computed.
pub open spec fn boundable(
    cfg: GenerationConfig,
    tokens: Seq<Token>,
    pu: Seq<u64>,
    pair: TokenPair,
) -> bool {
    let scale = generate_market::usd_scale(cfg);
    let factor = math::ten_to(tokens[pair.base as int].decimals as int);
    &&& pair.base < tokens.len() == pu.len()
    &&& pu[pair.base as int] > 0
    &&& tokens[pair.base as int].decimals <= math::MAX_DECIMALS
    &&& cfg.volume_usd.min * scale * factor <= u64::MAX
    &&& cfg.volume_usd.max * scale * factor <= u64::MAX
}

/// Computes the least and the largest pool of each pair.
pub fn volume_bounds(
    cfg: &GenerationConfig,
    tokens: &Vec<Token>,
    pairs: &Vec<TokenPair>,
    pu: &Vec<u64>,
) -> (r: (Vec<u64>, Vec<u64>))
    requires
        cfg.usd_decimals <= math::MAX_DECIMALS,
        forall|i: int| 0 <= i < pairs@.len() ==> boundable(*cfg, tokens@, pu@, #[trigger] pairs@[i]),
    ensures
        r.0@ == floors(*cfg, tokens@, pairs@, pu@),
        r.1@ == caps(*cfg, tokens@, pairs@, pu@),
        cfg.volume_usd.min <= cfg.volume_usd.max ==> forall|i: int|
            0 <= i < pairs@.len() ==> #[trigger] r.0@[i] <= r.1@[i],
{
    let scale: u64 = math::pow10(cfg.usd_decimals);
    let mut lo: Vec<u64> = Vec::new();
    let mut hi: Vec<u64> = Vec::new();
    let n: usize = tokens.len();
    let mut i: usize = 0;
    while i < pairs.len()
        invariant
            i <= pairs@.len(),
            n == tokens@.len(),
            scale == generate_market::usd_scale(*cfg),
            forall|i: int|
                0 <= i < pairs@.len() ==> boundable(*cfg, tokens@, pu@, #[trigger] pairs@[i]),
            lo@.len() == i,
            hi@.len() == i,
            forall|j: int| 0 <= j < i ==> #[trigger] lo@[j] == floors(*cfg, tokens@, pairs@, pu@)[j],
            forall|j: int| 0 <= j < i ==> #[trigger] hi@[j] == caps(*cfg, tokens@, pairs@, pu@)[j],
            cfg.volume_usd.min <= cfg.volume_usd.max ==> forall|j: int|
                0 <= j < i ==> #[trigger] lo@[j] <= hi@[j],
        decreases pairs@.len() - i,
    {
        assert(boundable(*cfg, tokens@, pu@, pairs@[i as int]));
        let base: usize = pairs[i].base as usize;
        let decimals: u64 = tokens[base].decimals;
        lo.push(generate_market::pool_volume(cfg.volume_usd.min, scale, decimals, pu[base]));
        hi.push(generate_market::pool_volume(cfg.volume_usd.max, scale, decimals, pu[base]));
        proof {
            if cfg.volume_usd.min <= cfg.volume_usd.max {
                let f = math::ten_to(decimals as int);
                math::lemma_ten_to_fits(decimals as int);
                let a = cfg.volume_usd.min as int;
                let b = cfg.volume_usd.max as int;
                let s = scale as int;
                assert(a * s * f <= b * s * f) by (nonlinear_arith)
                    requires
                        a <= b,
                        s >= 0,
                        f >= 1,
                ;
                vstd::arithmetic::div_mod::lemma_div_is_ordered(
                    a * s * f,
                    b * s * f,
                    pu@[base as int] as int,
                );
            }
        }
        i = i + 1;
    }
    assert(lo@ =~= floors(*cfg, tokens@, pairs@, pu@));
    assert(hi@ =~= caps(*cfg, tokens@, pairs@, pu@));
    (lo, hi)
}

/// The walk after `k` ticks: the pool that each tick shows, the pool of each pair, and the
/// state of the generator.
pub open spec fn walked(
    cfg: GenerationConfig,
    ticks: Seq<Tick>,
    lo: Seq<u64>,
    hi: Seq<u64>,
    pools: Seq<u64>,
    state: u128,
    k: int,
) -> (Seq<u64>, Seq<u64>, u128)
    decreases k,
{
    if k <= 0 {
        (Seq::empty(), pools, state)
    } else {
        let (shown, before, mid) = walked(cfg, ticks, lo, hi, pools, state, k - 1);
        let x = ticks[k - 1].pair_idx as int;
        let (delta_bps, s1) = rng::range_draw(
            mid,
            cfg.volume_perturb_bps.min,
            cfg.volume_perturb_bps.max,
        );
        let (up, s2) = rng::coin_draw(s1);
        let volume = emission::perturbed(
            before[x] as int,
            delta_bps as int,
            up,
            lo[x] as int,
            hi[x] as int,
        ) as u64;
        (shown.push(volume), before.update(x, volume), s2)
    }
}

/// The pool of each pair after the first `k` ticks, given the pool that each tick shows.
pub open spec fn pools_after(ticks: Seq<Tick>, shown: Seq<u64>, pools: Seq<u64>, k: int) -> Seq<u64>
    decreases k,
{
    if k <= 0 {
        pools
    } else {
        pools_after(ticks, shown, pools, k - 1).update(ticks[k - 1].pair_idx as int, shown[k - 1])
    }
}

/// Whether a pool moves from `before` to `after` by a number of basis points in the
/// configured range, up or down, and is kept between two bounds.
pub open spec fn steps(
    cfg: GenerationConfig,
    before: u64,
    lo: int,
    hi: int,
    after: u64,
) -> bool {
    exists|d: u64, up: bool|
        cfg.volume_perturb_bps.min <= d <= cfg.volume_perturb_bps.max && after
            == #[trigger] emission::perturbed(before as int, d as int, up, lo, hi)
}

/// Whether tick number `p` shows a step of its pair's pool from where the ticks before left it.
pub open spec fn steps_at(
    cfg: GenerationConfig,
    ticks: Seq<Tick>,
    lo: Seq<u64>,
    hi: Seq<u64>,
    pools: Seq<u64>,
    shown: Seq<u64>,
    p: int,
) -> bool {
    let x = ticks[p].pair_idx as int;
    steps(cfg, pools_after(ticks, shown, pools, p)[x], lo[x] as int, hi[x] as int, shown[p])
}

/// A step of a pool that starts between its bounds changes it by no more than the largest
/// configured number of basis points, and keeps it between its bounds.
pub proof fn lemma_step_is_small(
    cfg: GenerationConfig,
    before: u64,
    lo: int,
    hi: int,
    after: u64,
)
    requires
        steps(cfg, before, lo, hi, after),
        lo <= before <= hi,
        cfg.volume_perturb_bps.max <= BPS,
    ensures
        lo <= after <= hi,
        before * (BPS - cfg.volume_perturb_bps.max) / BPS as int <= after <= before * (BPS
            + cfg.volume_perturb_bps.max) / BPS as int,
{
    let (d, up) = choose|d: u64, up: bool|
        cfg.volume_perturb_bps.min <= d <= cfg.volume_perturb_bps.max && after
            == #[trigger] emission::perturbed(before as int, d as int, up, lo, hi);
    let most = cfg.volume_perturb_bps.max as int;
    let factor = if up {
        BPS + d
    } else {
        BPS - d
    };
    let b = before as int;
    let one = BPS as int;
    assert(b * (one - most) <= b * factor <= b * (one + most)) by (nonlinear_arith)
        requires
            b >= 0,
            one - most <= factor <= one + most,
    ;
    assert(b * (one - most) <= b * one <= b * (one + most)) by (nonlinear_arith)
        requires
            b >= 0,
            most >= 0,
    ;
    vstd::arithmetic::div_mod::lemma_div_is_ordered(b * (one - most), b * factor, one);
    vstd::arithmetic::div_mod::lemma_div_is_ordered(b * factor, b * (one + most), one);
    vstd::arithmetic::div_mod::lemma_div_is_ordered(b * (one - most), b * one, one);
    vstd::arithmetic::div_mod::lemma_div_is_ordered(b * one, b * (one + most), one);
    assert(b * one / one == b);
}

/// The pools after `k` ticks depend on what those ticks show only.
proof fn lemma_pools_after_prefix(
    ticks: Seq<Tick>,
    a: Seq<u64>,
    b: Seq<u64>,
    pools: Seq<u64>,
    k: int,
)
    requires
        forall|i: int| 0 <= i < k ==> #[trigger] a[i] == b[i],
    ensures
        pools_after(ticks, a, pools, k) == pools_after(ticks, b, pools, k),
    decreases k,
{
    if k > 0 {
        lemma_pools_after_prefix(ticks, a, b, pools, k - 1);
        assert(a[k - 1] == b[k - 1]);
    }
}

/// Whether a pool can move by any drawn amount.
pub open spec fn roomy(cfg: GenerationConfig, pool: u64) -> bool {
    pool * (BPS + cfg.volume_perturb_bps.max) <= u64::MAX
}

/// Walks the pools, one step for each tick.
pub fn walk_volumes(
    cfg: &GenerationConfig,
    ticks: &Vec<Tick>,
    lo: &Vec<u64>,
    hi: &Vec<u64>,
    pairs: &Vec<TokenPair>,
    rng: &mut Mcg128Xsl64,
) -> (r: Vec<u64>)
    requires
        lo@.len() == pairs@.len(),
        hi@.len() == pairs@.len(),
        forall|p: int| 0 <= p < ticks@.len() ==> (#[trigger] ticks@[p]).pair_idx < pairs@.len(),
        ticks@.len() > 0 ==> {
            &&& cfg.volume_perturb_bps.min <= cfg.volume_perturb_bps.max <= BPS
            &&& forall|i: int| 0 <= i < pairs@.len() ==> #[trigger] lo@[i] <= hi@[i]
            &&& forall|i: int| 0 <= i < pairs@.len() ==> roomy(*cfg, #[trigger] hi@[i])
            &&& forall|i: int| 0 <= i < pairs@.len() ==> roomy(*cfg, (#[trigger] pairs@[i]).volume)
        },
    ensures
        r@ == walked(
            *cfg,
            ticks@,
            lo@,
            hi@,
            pools(pairs@),
            rng::rng_state(*old(rng)),
            ticks@.len() as int,
        ).0,
        r@.len() == ticks@.len(),
        forall|p: int|
            0 <= p < ticks@.len() ==> lo@[ticks@[p].pair_idx as int] <= #[trigger] r@[p]
                <= hi@[ticks@[p].pair_idx as int],
        forall|p: int|
            0 <= p < ticks@.len() ==> #[trigger] steps_at(
                *cfg,
                ticks@,
                lo@,
                hi@,
                pools(pairs@),
                r@,
                p,
            ),
{
    let ghost state = rng::rng_state(*rng);
    let mut pool: Vec<u64> = Vec::new();
    let mut x: usize = 0;
    while x < pairs.len()
        invariant
            x <= pairs@.len(),
            pool@ == pools(pairs@).take(x as int),
        decreases pairs@.len() - x,
    {
        pool.push(pairs[x].volume);
        x = x + 1;
        assert(pool@ =~= pools(pairs@).take(x as int));
    }
    assert(pool@ =~= pools(pairs@));
    let mut shown: Vec<u64> = Vec::new();
    let mut k: usize = 0;
    assert forall|i: int| ticks@.len() > 0 && 0 <= i < pool@.len() implies roomy(
        *cfg,
        #[trigger] pool@[i],
    ) by {
        assert(roomy(*cfg, pairs@[i].volume));
    }
    while k < ticks.len()
        invariant
            k <= ticks@.len(),
            lo@.len() == pairs@.len(),
            hi@.len() == pairs@.len(),
            pool@.len() == pairs@.len(),
            forall|p: int|
                0 <= p < ticks@.len() ==> (#[trigger] ticks@[p]).pair_idx < pairs@.len(),
            ticks@.len() > 0 ==> {
                &&& cfg.volume_perturb_bps.min <= cfg.volume_perturb_bps.max <= BPS
                &&& forall|i: int| 0 <= i < pairs@.len() ==> #[trigger] lo@[i] <= hi@[i]
                &&& forall|i: int| 0 <= i < pairs@.len() ==> roomy(*cfg, #[trigger] hi@[i])
                &&& forall|i: int| 0 <= i < pool@.len() ==> roomy(*cfg, #[trigger] pool@[i])
            },
            (shown@, pool@, rng::rng_state(*rng)) == walked(
                *cfg,
                ticks@,
                lo@,
                hi@,
                pools(pairs@),
                state,
                k as int,
            ),
            shown@.len() == k,
            forall|p: int|
                0 <= p < k ==> lo@[ticks@[p].pair_idx as int] <= #[trigger] shown@[p]
                    <= hi@[ticks@[p].pair_idx as int],
            pool@ == pools_after(ticks@, shown@, pools(pairs@), k as int),
            forall|p: int|
                0 <= p < k ==> #[trigger] steps_at(
                    *cfg,
                    ticks@,
                    lo@,
                    hi@,
                    pools(pairs@),
                    shown@,
                    p,
                ),
        decreases ticks@.len() - k,
    {
        let x: usize = ticks[k].pair_idx;
        let delta_bps: u64 = rng::draw_range(
            rng,
            cfg.volume_perturb_bps.min,
            cfg.volume_perturb_bps.max,
        );
        let up: bool = rng::draw_coin(rng);
        proof {
            assert(roomy(*cfg, pool@[x as int]));
            assert(roomy(*cfg, hi@[x as int]));
            assert(lo@[x as int] <= hi@[x as int]);
            assert(pool@[x as int] * (BPS + delta_bps) <= pool@[x as int] * (BPS
                + cfg.volume_perturb_bps.max)) by (nonlinear_arith)
                requires
                    delta_bps <= cfg.volume_perturb_bps.max,
                    pool@[x as int] >= 0,
            ;
        }
        let volume: u64 = perturb(pool[x], delta_bps, up, lo[x], hi[x]);
        assert(roomy(*cfg, volume)) by {
            let most = BPS + cfg.volume_perturb_bps.max;
            assert(volume * most <= hi@[x as int] * most) by (nonlinear_arith)
                requires
                    volume <= hi@[x as int],
                    most >= 0,
            ;
        }
        let ghost earlier = shown@;
        let ghost left = pool@;
        pool.set(x, volume);
        shown.push(volume);
        proof {
            assert(steps(
                *cfg,
                left[x as int],
                lo@[x as int] as int,
                hi@[x as int] as int,
                volume,
            ));
            assert forall|p: int| 0 <= p <= k implies #[trigger] steps_at(
                *cfg,
                ticks@,
                lo@,
                hi@,
                pools(pairs@),
                shown@,
                p,
            ) by {
                lemma_pools_after_prefix(ticks@, earlier, shown@, pools(pairs@), p);
                if p < k {
                    assert(steps_at(*cfg, ticks@, lo@, hi@, pools(pairs@), earlier, p));
                }
            }
            lemma_pools_after_prefix(ticks@, earlier, shown@, pools(pairs@), k as int);
        }
        k = k + 1;
    }
    shown
}

} // verus!
