use vstd::arithmetic::power::*;
use vstd::prelude::*;

verus! {

/// The number of atomic units in one whole token with `n` decimals.
pub open spec fn ten_to(n: int) -> int {
    pow(10, n as nat)
}

/// The largest exponent whose power of ten fits a `u64`.
pub const MAX_DECIMALS: u64 = 19;

/// One more decimal multiplies the scale by ten.
pub proof fn lemma_ten_to_step(n: int)
    requires
        n >= 0,
    ensures
        ten_to(n + 1) == 10 * ten_to(n),
        ten_to(0) == 1,
        ten_to(n) >= 1,
{
    lemma_pow0(10);
    lemma_pow_positive(10, n as nat);
    reveal(pow);
    assert(((n + 1) as nat - 1) as nat == n as nat);
}

/// The scale grows with the number of decimals.
pub proof fn lemma_ten_to_monotonic(a: int, b: int)
    requires
        0 <= a <= b,
    ensures
        1 <= ten_to(a) <= ten_to(b),
    decreases b - a,
{
    lemma_ten_to_step(a);
    if a < b {
        lemma_ten_to_step(b - 1);
        lemma_ten_to_monotonic(a, b - 1);
    }
}

/// Scales multiply by adding their decimals.
pub proof fn lemma_ten_to_adds(a: int, b: int)
    requires
        0 <= a,
        0 <= b,
    ensures
        ten_to(a) * ten_to(b) == ten_to(a + b),
{
    lemma_pow_adds(10, a as nat, b as nat);
    assert((a as nat + b as nat) as nat == (a + b) as nat);
}

/// `10^19` fits a `u64`.
pub proof fn lemma_ten_to_fits(n: int)
    requires
        0 <= n <= MAX_DECIMALS,
    ensures
        1 <= ten_to(n) <= 10_000_000_000_000_000_000,
{
    lemma_ten_to_monotonic(n, 19);
    assert(ten_to(19) == 10_000_000_000_000_000_000) by {
        reveal(pow);
        reveal_with_fuel(pow, 20);
    }
}

/// `10^n`.
pub fn pow10(n: u64) -> (r: u64)
    requires
        n <= MAX_DECIMALS,
    ensures
        r == ten_to(n as int),
{
    let mut r: u64 = 1;
    let mut i: u64 = 0;
    proof {
        lemma_ten_to_step(0);
    }
    while i < n
        invariant
            i <= n <= MAX_DECIMALS,
            r == ten_to(i as int),
        decreases n - i,
    {
        proof {
            lemma_ten_to_step(i as int);
            lemma_ten_to_fits(i + 1);
        }
        r = r * 10;
        i = i + 1;
    }
    r
}

/// Price of a cross pair, from the USD prices of its base and its quote.
pub open spec fn cross_price(pu_base: int, pu_quote: int, quote_decimals: int) -> int {
    pu_base * ten_to(quote_decimals) / pu_quote
}

/// A factor that both USD prices share cancels: the price of a cross pair does not depend on
/// the scale that they are given in.
pub proof fn lemma_cross_price_scales(k: int, pu_base: int, pu_quote: int, quote_decimals: int)
    requires
        k > 0,
        pu_quote > 0,
    ensures
        cross_price(k * pu_base, k * pu_quote, quote_decimals) == cross_price(
            pu_base,
            pu_quote,
            quote_decimals,
        ),
{
    let a = pu_base * ten_to(quote_decimals);
    let q = a / pu_quote;
    let r = a % pu_quote;
    vstd::arithmetic::div_mod::lemma_fundamental_div_mod(a, pu_quote);
    assert(k * pu_base * ten_to(quote_decimals) == k * a) by (nonlinear_arith)
        requires
            a == pu_base * ten_to(quote_decimals),
    ;
    assert(k * a == q * (k * pu_quote) + k * r) by (nonlinear_arith)
        requires
            a == pu_quote * q + r,
    ;
    assert(0 <= k * r < k * pu_quote) by (nonlinear_arith)
        requires
            k > 0,
            0 <= r < pu_quote,
    ;
    vstd::arithmetic::div_mod::lemma_fundamental_div_mod_converse(k * a, k * pu_quote, q, k * r);
}

/// A pool of `vol_usd_atomic` atomic-USD in atomic units of the base.
pub open spec fn base_volume(vol_usd_atomic: int, base_decimals: int, pu_atomic: int) -> int {
    vol_usd_atomic * ten_to(base_decimals) / pu_atomic
}

/// The price of a cross pair is the largest number of atomic quote units that are worth no
/// more than one whole base.
pub proof fn lemma_cross_price_is(pu_base: int, pu_quote: int, quote_decimals: int)
    requires
        0 <= pu_base,
        0 < pu_quote,
        0 <= quote_decimals,
    ensures
        ({
            let price = cross_price(pu_base, pu_quote, quote_decimals);
            let worth = pu_base * pow(10, quote_decimals as nat);
            0 <= price && price * pu_quote <= worth < (price + 1) * pu_quote
        }),
{
    lemma_ten_to_step(quote_decimals);
    let worth = pu_base * pow(10, quote_decimals as nat);
    assert(worth >= 0) by (nonlinear_arith)
        requires
            worth == pu_base * pow(10, quote_decimals as nat),
            pu_base >= 0,
            pow(10, quote_decimals as nat) >= 1,
    ;
    lemma_rounded_down(worth, pu_quote);
}

/// A pool is the largest number of atomic base units that are worth no more than its USD.
pub proof fn lemma_base_volume_is(vol_usd_atomic: int, base_decimals: int, pu_atomic: int)
    requires
        0 <= vol_usd_atomic,
        0 <= base_decimals,
        0 < pu_atomic,
    ensures
        ({
            let volume = base_volume(vol_usd_atomic, base_decimals, pu_atomic);
            let bought = vol_usd_atomic * pow(10, base_decimals as nat);
            0 <= volume && volume * pu_atomic <= bought < (volume + 1) * pu_atomic
        }),
{
    lemma_ten_to_step(base_decimals);
    let bought = vol_usd_atomic * pow(10, base_decimals as nat);
    assert(bought >= 0) by (nonlinear_arith)
        requires
            bought == vol_usd_atomic * pow(10, base_decimals as nat),
            vol_usd_atomic >= 0,
            pow(10, base_decimals as nat) >= 1,
    ;
    lemma_rounded_down(bought, pu_atomic);
}

proof fn lemma_rounded_down(a: int, d: int)
    requires
        0 <= a,
        0 < d,
    ensures
        0 <= a / d,
        (a / d) * d <= a < (a / d + 1) * d,
{
    vstd::arithmetic::div_mod::lemma_div_pos_is_pos(a, d);
    vstd::arithmetic::div_mod::lemma_fundamental_div_mod(a, d);
    assert((a / d) * d == d * (a / d)) by (nonlinear_arith);
    assert((a / d + 1) * d == d * (a / d) + d) by (nonlinear_arith);
}

proof fn lemma_quotient_fits(a: int, b: int, d: int)
    requires
        0 <= a,
        0 <= b,
        0 < d,
    ensures
        0 <= a * b / d <= a * b,
{
    assert(0 <= a * b) by (nonlinear_arith)
        requires
            0 <= a,
            0 <= b,
    ;
    vstd::arithmetic::div_mod::lemma_div_pos_is_pos(a * b, d);
    vstd::arithmetic::div_mod::lemma_div_nonincreasing(a * b, d);
}

/// Price of a cross pair `(base, quote)`, derived from each side's USD price:
/// `pu_base * 10^quote_decimals / pu_quote`. The `10^usd_decimals` factor inside both
/// prices cancels.
pub fn cross_pair_price(pu_base: u64, pu_quote: u64, quote_decimals: u64) -> (r: u64)
    requires
        pu_quote > 0,
        quote_decimals <= MAX_DECIMALS,
        pu_base * ten_to(quote_decimals as int) <= u64::MAX,
    ensures
        r == cross_price(pu_base as int, pu_quote as int, quote_decimals as int),
{
    let scale: u64 = pow10(quote_decimals);
    proof {
        lemma_quotient_fits(pu_base as int, scale as int, pu_quote as int);
    }
    pu_base * scale / pu_quote
}

/// Converts a USD-denominated pool size into atomic units of the pair's base:
/// `vol_usd_atomic * 10^base_decimals / pu_atomic`, where `pu_atomic` is the base
/// token's price in atomic-USD per whole base.
pub fn volume_atomic(vol_usd_atomic: u64, base_decimals: u64, pu_atomic: u64) -> (r: u64)
    requires
        pu_atomic > 0,
        base_decimals <= MAX_DECIMALS,
        vol_usd_atomic * ten_to(base_decimals as int) <= u64::MAX,
    ensures
        r == base_volume(vol_usd_atomic as int, base_decimals as int, pu_atomic as int),
{
    let scale: u64 = pow10(base_decimals);
    proof {
        lemma_quotient_fits(vol_usd_atomic as int, scale as int, pu_atomic as int);
    }
    vol_usd_atomic * scale / pu_atomic
}

} // verus!
