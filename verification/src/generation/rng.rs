//! The seeded generator that the market, the feed and the contestant ids are drawn from.
//!
//! What is drawn is a function of the generator's state alone. The names below stand
//! for those functions; only the few facts stated beside them are used in proofs.
use rand::{Rng, RngCore, SeedableRng};
use rand_pcg::Mcg128Xsl64;
use vstd::prelude::*;

verus! {

/// The generator `rand_pcg::Mcg128Xsl64`. All that is said of one is the state it holds.
#[verifier::external_type_specification]
#[verifier::external_body]
pub struct ExMcg128Xsl64(Mcg128Xsl64);

/// The 128-bit state that a generator holds.
pub uninterp spec fn rng_state(rng: Mcg128Xsl64) -> u128;

/// The state that `SeedableRng::seed_from_u64` starts a generator in.
pub uninterp spec fn seeded_state(seed: u64) -> u128;

/// What `Rng::gen_range` draws from `lo..=hi` in a state, and the state it leaves.
pub uninterp spec fn range_draw(state: u128, lo: u64, hi: u64) -> (u64, u128);

/// What `RngCore::next_u64` draws in a state, and the state it leaves.
pub uninterp spec fn word_draw(state: u128) -> (u64, u128);

/// Half of the `u64` values lie below this one.
pub open spec fn coin_threshold() -> int {
    0x8000_0000_0000_0000
}

/// What a fair coin shows in a state, and the state it leaves.
pub open spec fn coin_draw(state: u128) -> (bool, u128) {
    let (word, next) = word_draw(state);
    (word < coin_threshold(), next)
}

/// `Mcg128Xsl64::seed_from_u64`: a generator whose state is a function of the seed.
#[verifier::external_body]
pub(crate) fn seed_rng(seed: u64) -> (rng: Mcg128Xsl64)
    ensures
        rng_state(rng) == seeded_state(seed),
{
    Mcg128Xsl64::seed_from_u64(seed)
}

/// `Rng::gen_range` over an inclusive range of `u64`: a value of the range, which is,
/// with the state that the generator is left in, a function of the range and the
/// state before. The call panics on an empty range.
#[verifier::external_body]
pub(crate) fn draw_range(rng: &mut Mcg128Xsl64, lo: u64, hi: u64) -> (v: u64)
    requires
        lo <= hi,
    ensures
        lo <= v <= hi,
        (v, rng_state(*final(rng))) == range_draw(rng_state(*old(rng)), lo, hi),
{
    rng.gen_range(lo..=hi)
}

/// `Rng::gen_ratio` at one in two: one `next_u64`, compared with the half-way value.
#[verifier::external_body]
pub(crate) fn draw_coin(rng: &mut Mcg128Xsl64) -> (heads: bool)
    ensures
        (heads, rng_state(*final(rng))) == coin_draw(rng_state(*old(rng))),
{
    rng.gen_ratio(1, 2)
}

/// `RngCore::next_u64`: a word which is, with the state that the generator is left in,
/// a function of the state before.
#[verifier::external_body]
pub(crate) fn draw_word(rng: &mut Mcg128Xsl64) -> (word: u64)
    ensures
        (word, rng_state(*final(rng))) == word_draw(rng_state(*old(rng))),
{
    rng.next_u64()
}

/// `n` successive draws from `lo..=hi`, and the state they leave.
pub open spec fn range_draws(state: u128, lo: u64, hi: u64, n: nat) -> (Seq<u64>, u128)
    decreases n,
{
    if n == 0 {
        (Seq::empty(), state)
    } else {
        let (values, mid) = range_draws(state, lo, hi, (n - 1) as nat);
        let (value, next) = range_draw(mid, lo, hi);
        (values.push(value), next)
    }
}

/// Draws `n` values from `lo..=hi`.
pub(crate) fn draw_many(rng: &mut Mcg128Xsl64, lo: u64, hi: u64, n: usize) -> (r: Vec<u64>)
    requires
        lo <= hi,
    ensures
        (r@, rng_state(*final(rng))) == range_draws(rng_state(*old(rng)), lo, hi, n as nat),
        r@.len() == n,
        forall|i: int| 0 <= i < n ==> lo <= #[trigger] r@[i] <= hi,
{
    let mut r: Vec<u64> = Vec::new();
    let mut i: usize = 0;
    while i < n
        invariant
            i <= n,
            lo <= hi,
            r@.len() == i,
            (r@, rng_state(*rng)) == range_draws(rng_state(*old(rng)), lo, hi, i as nat),
            forall|j: int| 0 <= j < i ==> lo <= #[trigger] r@[j] <= hi,
        decreases n - i,
    {
        let v: u64 = draw_range(rng, lo, hi);
        r.push(v);
        i = i + 1;
    }
    r
}

} // verus!
