//! Which configurations a market can be generated from.
use super::config::GenerationConfig;
use super::generate_market;
use super::generate_market::GenerateError;
use vstd::arithmetic::power::pow;
use vstd::prelude::*;

verus! {

/// There are `n * (n - 1) / 2` ways to join two of `n` tokens, while twice as many can be
/// counted in 64 bits.
pub proof fn lemma_max_cross_is(n: int)
    requires
        n >= 1,
    ensures
        n * (n - 1) <= 0xffff_ffff_ffff_ffff ==> 2 * generate_market::max_cross(n) == n * (n - 1),
        n * (n - 1) > 0xffff_ffff_ffff_ffff ==> generate_market::max_cross(n)
            == 0x7fff_ffff_ffff_ffff,
{
    let m = n / 2;
    if n == 2 * m {
        assert(n * (n - 1) == 2 * (m * (n - 1))) by (nonlinear_arith)
            requires
                n == 2 * m,
        ;
    } else {
        assert(n * (n - 1) == 2 * (n * m)) by (nonlinear_arith)
            requires
                n == 2 * m + 1,
        ;
    }
}

/// A market needs USD and another token, a USD pair for every other token, and no more cross
/// pairs than there are ways to join two of those. What is wrong is said in that order, with
/// the numbers.
pub proof fn lemma_shape_is(cfg: GenerationConfig)
    ensures
        ({
            let others = cfg.token_count - 1;
            let most = generate_market::max_cross(others);
            let error = generate_market::shape_error(cfg);
            &&& error is None <==> 2 <= cfg.token_count && others <= cfg.pair_count <= others + most
            &&& error == Some(GenerateError::TooFewTokens) <==> cfg.token_count <= 1
            &&& cfg.token_count >= 2 && cfg.pair_count < others ==> error == Some(
                GenerateError::PairCountTooLow {
                    pair_count: cfg.pair_count,
                    non_usd: others as u64,
                },
            )
            &&& cfg.token_count >= 2 && cfg.pair_count > others + most ==> error == Some(
                GenerateError::PairCountTooHigh {
                    pair_count: cfg.pair_count,
                    non_usd: others as u64,
                    max_cross: most as u64,
                },
            )
        }),
{
    if cfg.token_count >= 2 {
        lemma_max_cross_is(cfg.token_count - 1);
    }
}

/// A market can be generated exactly where the ranges of its configuration are ranges, prices
/// are not zero, powers of ten and the highest price and volume fit 64 bits in atomic units,
/// and, where there are cross pairs, so does the highest price scaled by the most decimals.
pub proof fn lemma_generable_is(cfg: GenerationConfig)
    ensures
        ({
            let usd = pow(10, cfg.usd_decimals as nat);
            let token = pow(10, cfg.decimals.max as nat);
            generate_market::generable(cfg) <==> {
                &&& cfg.token_count <= usize::MAX
                &&& cfg.pair_count <= usize::MAX
                &&& cfg.usd_decimals <= 19
                &&& cfg.decimals.min <= cfg.decimals.max <= 19
                &&& 1 <= cfg.price_usd.min <= cfg.price_usd.max
                &&& cfg.volume_usd.min <= cfg.volume_usd.max
                &&& cfg.price_usd.max * usd <= u64::MAX
                &&& cfg.volume_usd.max * usd * token <= u64::MAX
                &&& cfg.pair_count >= cfg.token_count ==> cfg.price_usd.max * usd * token
                    <= u64::MAX
            }
        }),
{
}

} // verus!
