//! Generation of the initial market.
use super::config::GenerationConfig;
use super::math;
use super::rng;
use crate::protocol::market::{Fee, Market, MarketView, Token, TokenPair, USD_TOKEN_ID};
use crate::text;
use rand_pcg::Mcg128Xsl64;
use std::collections::HashSet;
use vstd::prelude::*;
use vstd::string::StringExecFns;

verus! {

/// Candidate cross pairs drawn before generation gives up.
pub const MAX_ATTEMPTS: u64 = 0xffff_ffff_ffff_ffff;

/// Why no market or no feed comes of a configuration.
#[derive(Debug, Clone, Copy, PartialEq, Eq, Structural)]
pub enum GenerateError {
    /// There must be USD and at least one more token.
    TooFewTokens,
    /// There is no room for all USD pairs.
    PairCountTooLow { pair_count: u64, non_usd: u64 },
    /// There are not that many different pairs.
    PairCountTooHigh { pair_count: u64, non_usd: u64, max_cross: u64 },
    /// A market lacks cross pairs after [`MAX_ATTEMPTS`] candidates; or a feed lacks
    /// mispricings when its times no longer fit a `u64`.
    Stalled,
}

impl GenerateError {
    /// What the error says.
    pub open spec fn text(self) -> Seq<char> {
        match self {
            GenerateError::TooFewTokens => "token_count must be at least 2 (USD + 1)"@,
            GenerateError::PairCountTooLow { pair_count, non_usd } => "pair_count="@
                + text::decimal(pair_count as nat) + " must be at least token_count-1="@
                + text::decimal(non_usd as nat) + " (room for all USD pairs)"@,
            GenerateError::PairCountTooHigh { pair_count, non_usd, max_cross } => "pair_count="@
                + text::decimal(pair_count as nat) + " exceeds available pairs (USD="@
                + text::decimal(non_usd as nat) + " + max cross="@ + text::decimal(
                max_cross as nat,
            ) + ")"@,
            GenerateError::Stalled => "ran out of attempts to place pairs or of time for mispricings"@,
        }
    }

    /// The error in words.
    pub fn message(&self) -> (r: String)
        ensures
            r@ == self.text(),
    {
        match self {
            GenerateError::TooFewTokens => String::from_str(
                "token_count must be at least 2 (USD + 1)",
            ),
            GenerateError::PairCountTooLow { pair_count, non_usd } => {
                let mut r = String::from_str("pair_count=");
                text::push_decimal(&mut r, *pair_count as u128);
                r.append(" must be at least token_count-1=");
                text::push_decimal(&mut r, *non_usd as u128);
                r.append(" (room for all USD pairs)");
                r
            },
            GenerateError::PairCountTooHigh { pair_count, non_usd, max_cross } => {
                let mut r = String::from_str("pair_count=");
                text::push_decimal(&mut r, *pair_count as u128);
                r.append(" exceeds available pairs (USD=");
                text::push_decimal(&mut r, *non_usd as u128);
                r.append(" + max cross=");
                text::push_decimal(&mut r, *max_cross as u128);
                r.append(")");
                r
            },
            GenerateError::Stalled => String::from_str(
                "ran out of attempts to place pairs or of time for mispricings",
            ),
        }
    }
}

/// The number of different cross pairs between `non_usd` tokens, as far as it is counted.
pub open spec fn max_cross(non_usd: int) -> int {
    let ordered = non_usd * (non_usd - 1);
    (if ordered > u64::MAX {
        u64::MAX as int
    } else {
        ordered
    }) / 2
}

/// What is wrong with the counts of tokens and pairs, if anything.
pub open spec fn shape_error(cfg: GenerationConfig) -> Option<GenerateError> {
    let non_usd = cfg.token_count - 1;
    if cfg.token_count < 2 {
        Some(GenerateError::TooFewTokens)
    } else if cfg.pair_count < non_usd {
        Some(
            GenerateError::PairCountTooLow {
                pair_count: cfg.pair_count,
                non_usd: non_usd as u64,
            },
        )
    } else if cfg.pair_count - non_usd > max_cross(non_usd) {
        Some(
            GenerateError::PairCountTooHigh {
                pair_count: cfg.pair_count,
                non_usd: non_usd as u64,
                max_cross: max_cross(non_usd) as u64,
            },
        )
    } else {
        None
    }
}

/// Atomic-USD in one USD.
pub open spec fn usd_scale(cfg: GenerationConfig) -> int {
    math::ten_to(cfg.usd_decimals as int)
}

/// Lowest price of a token, in atomic-USD.
pub open spec fn price_floor(cfg: GenerationConfig) -> int {
    cfg.price_usd.min * usd_scale(cfg)
}

/// Highest price of a token, in atomic-USD.
pub open spec fn price_cap(cfg: GenerationConfig) -> int {
    cfg.price_usd.max * usd_scale(cfg)
}

/// Whether a market can be generated whatever is drawn: the ranges hold something,
/// no price is zero, and every product that the generator takes fits a `u64`.
pub open spec fn generable(cfg: GenerationConfig) -> bool {
    &&& cfg.token_count <= usize::MAX
    &&& cfg.pair_count <= usize::MAX
    &&& cfg.usd_decimals <= math::MAX_DECIMALS
    &&& cfg.decimals.min <= cfg.decimals.max <= math::MAX_DECIMALS
    &&& 0 < cfg.price_usd.min <= cfg.price_usd.max
    &&& cfg.volume_usd.min <= cfg.volume_usd.max
    &&& price_cap(cfg) <= u64::MAX
    &&& cfg.volume_usd.max * usd_scale(cfg) * math::ten_to(cfg.decimals.max as int) <= u64::MAX
    &&& cfg.pair_count >= cfg.token_count ==> price_cap(cfg) * math::ten_to(
        cfg.decimals.max as int,
    ) <= u64::MAX
}

/// The tokens: USD, then one for each of the drawn decimals.
pub open spec fn tokens_of(cfg: GenerationConfig, decimals: Seq<u64>) -> Seq<Token> {
    Seq::new(
        cfg.token_count as nat,
        |i: int|
            Token {
                id: i as u64,
                decimals: if i == 0 {
                    cfg.usd_decimals
                } else {
                    decimals[i - 1]
                },
            },
    )
}

/// The price of each token in atomic-USD: one USD, then the drawn prices.
pub open spec fn usd_prices_of(cfg: GenerationConfig, prices: Seq<u64>) -> Seq<u64> {
    Seq::new(
        cfg.token_count as nat,
        |i: int|
            if i == 0 {
                usd_scale(cfg) as u64
            } else {
                prices[i - 1]
            },
    )
}

/// The pair of token `base` with USD, at its price and with a pool of `vol_usd` USD.
pub open spec fn usd_pair_of(
    cfg: GenerationConfig,
    tokens: Seq<Token>,
    pu: Seq<u64>,
    base: int,
    vol_usd: u64,
) -> TokenPair {
    TokenPair {
        id: (base - 1) as u64,
        base: base as u64,
        quote: USD_TOKEN_ID,
        price: pu[base],
        volume: math::base_volume(
            vol_usd * usd_scale(cfg),
            tokens[base].decimals as int,
            pu[base] as int,
        ) as u64,
    }
}

/// The cross pair of `base` and `quote`, at the price that their USD prices give.
pub open spec fn cross_pair_of(
    cfg: GenerationConfig,
    tokens: Seq<Token>,
    pu: Seq<u64>,
    id: u64,
    base: u64,
    quote: u64,
    vol_usd: u64,
) -> TokenPair {
    TokenPair {
        id,
        base,
        quote,
        price: math::cross_price(
            pu[base as int] as int,
            pu[quote as int] as int,
            tokens[quote as int].decimals as int,
        ) as u64,
        volume: math::base_volume(
            vol_usd * usd_scale(cfg),
            tokens[base as int].decimals as int,
            pu[base as int] as int,
        ) as u64,
    }
}

/// The USD pairs, one for each non-USD token, in the order of the tokens.
pub open spec fn usd_pairs_of(
    cfg: GenerationConfig,
    tokens: Seq<Token>,
    pu: Seq<u64>,
    volumes: Seq<u64>,
) -> Seq<TokenPair> {
    Seq::new(
        (cfg.token_count - 1) as nat,
        |i: int| usd_pair_of(cfg, tokens, pu, i + 1, volumes[i]),
    )
}

/// Whether two tokens are the two sides of a pair, either way round.
pub open spec fn joins(pair: TokenPair, a: u64, b: u64) -> bool {
    (pair.base == a && pair.quote == b) || (pair.base == b && pair.quote == a)
}

/// Whether some pair joins the two tokens.
pub open spec fn joined(pairs: Seq<TokenPair>, a: u64, b: u64) -> bool {
    exists|i: int| 0 <= i < pairs.len() && joins(#[trigger] pairs[i], a, b)
}

/// One attempt at a cross pair: two tokens are drawn, and where they differ and are not
/// joined yet, which of them is the base, and the pool.
pub open spec fn cross_attempt(
    cfg: GenerationConfig,
    tokens: Seq<Token>,
    pu: Seq<u64>,
    pairs: Seq<TokenPair>,
    state: u128,
) -> (Seq<TokenPair>, u128) {
    let (a, s1) = rng::range_draw(state, 1, (cfg.token_count - 1) as u64);
    let (b, s2) = rng::range_draw(s1, 1, (cfg.token_count - 1) as u64);
    if a == b || joined(pairs, a, b) {
        (pairs, s2)
    } else {
        let (heads, s3) = rng::coin_draw(s2);
        let (base, quote) = if heads {
            (a, b)
        } else {
            (b, a)
        };
        let (vol_usd, s4) = rng::range_draw(s3, cfg.volume_usd.min, cfg.volume_usd.max);
        (
            pairs.push(
                cross_pair_of(cfg, tokens, pu, pairs.len() as u64, base, quote, vol_usd),
            ),
            s4,
        )
    }
}

/// The pairs and the state after at most `k` attempts, which end when there are enough pairs.
pub open spec fn cross_attempts(
    cfg: GenerationConfig,
    tokens: Seq<Token>,
    pu: Seq<u64>,
    pairs: Seq<TokenPair>,
    state: u128,
    k: nat,
) -> (Seq<TokenPair>, u128)
    decreases k,
{
    if k == 0 {
        (pairs, state)
    } else {
        let (before, mid) = cross_attempts(cfg, tokens, pu, pairs, state, (k - 1) as nat);
        if before.len() >= cfg.pair_count {
            (before, mid)
        } else {
            cross_attempt(cfg, tokens, pu, before, mid)
        }
    }
}

/// The market that a seed gives, unless generation stalls: then it lacks pairs.
pub open spec fn market_of(cfg: GenerationConfig, seed: u64) -> MarketView {
    let n = (cfg.token_count - 1) as nat;
    let (decimals, s1) = rng::range_draws(
        rng::seeded_state(seed),
        cfg.decimals.min,
        cfg.decimals.max,
        n,
    );
    let (prices, s2) = rng::range_draws(
        s1,
        price_floor(cfg) as u64,
        price_cap(cfg) as u64,
        n,
    );
    let (volumes, s3) = rng::range_draws(s2, cfg.volume_usd.min, cfg.volume_usd.max, n);
    let tokens = tokens_of(cfg, decimals);
    let pu = usd_prices_of(cfg, prices);
    let (pairs, _) = cross_attempts(
        cfg,
        tokens,
        pu,
        usd_pairs_of(cfg, tokens, pu, volumes),
        s3,
        MAX_ATTEMPTS as nat,
    );
    MarketView {
        fee: Fee {
            static_atomic_usd: cfg.static_fee_atomic_usd,
            variable_bps: cfg.variable_fee_bps,
        },
        tokens,
        pairs,
    }
}

/// The least pool of a pair with base price `pu`, in atomic units of base.
pub open spec fn volume_floor(cfg: GenerationConfig, base_decimals: int, pu: int) -> int {
    math::base_volume(cfg.volume_usd.min * usd_scale(cfg), base_decimals, pu)
}

/// The largest pool of a pair with base price `pu`, in atomic units of base.
pub open spec fn volume_cap(cfg: GenerationConfig, base_decimals: int, pu: int) -> int {
    math::base_volume(cfg.volume_usd.max * usd_scale(cfg), base_decimals, pu)
}

/// The pool of `vol_usd` whole USD, for a base token at price `pu`.
pub open spec fn pool_of(cfg: GenerationConfig, vol_usd: u64, base_decimals: int, pu: int) -> int {
    math::base_volume(vol_usd * usd_scale(cfg), base_decimals, pu)
}

/// Whether a pool is that of a whole number of USD in the configured range, for a base
/// token at price `pu`.
pub open spec fn is_whole_pool(
    cfg: GenerationConfig,
    base_decimals: int,
    pu: int,
    volume: u64,
) -> bool {
    exists|v: u64|
        cfg.volume_usd.min <= v <= cfg.volume_usd.max && volume == #[trigger] pool_of(
            cfg,
            v,
            base_decimals,
            pu,
        )
}

/// The layout that markets have: tokens and pairs are numbered in order; token 0 is USD;
/// the first pairs are those of each other token with USD, in the order of the tokens;
/// the rest join two different non-USD tokens.
pub open spec fn laid_out(tokens: Seq<Token>, pairs: Seq<TokenPair>) -> bool {
    &&& tokens.len() >= 1
    &&& pairs.len() >= tokens.len() - 1
    &&& forall|i: int| 0 <= i < tokens.len() ==> (#[trigger] tokens[i]).id == i
    &&& forall|i: int| 0 <= i < pairs.len() ==> (#[trigger] pairs[i]).id == i
    &&& forall|i: int|
        0 <= i < tokens.len() - 1 ==> (#[trigger] pairs[i]).base == i + 1 && pairs[i].quote
            == USD_TOKEN_ID
    &&& forall|i: int|
        tokens.len() - 1 <= i < pairs.len() ==> {
            &&& 1 <= (#[trigger] pairs[i]).base < tokens.len()
            &&& 1 <= pairs[i].quote < tokens.len()
            &&& pairs[i].base != pairs[i].quote
        }
}

/// Whether no two pairs join the same two tokens.
pub open spec fn no_mirrors(pairs: Seq<TokenPair>) -> bool {
    forall|i: int, j: int|
        0 <= i < j < pairs.len() ==> !joins(
            #[trigger] pairs[j],
            (#[trigger] pairs[i]).base,
            pairs[i].quote,
        )
}

/// Whether every cross pair is priced as the USD pairs of its two tokens are: no loop
/// of trades gains anything.
pub open spec fn in_equilibrium(tokens: Seq<Token>, pairs: Seq<TokenPair>) -> bool {
    forall|i: int|
        tokens.len() - 1 <= i < pairs.len() ==> (#[trigger] pairs[i]).price == math::cross_price(
            pairs[pairs[i].base - 1].price as int,
            pairs[pairs[i].quote - 1].price as int,
            tokens[pairs[i].quote as int].decimals as int,
        )
}

/// Whether the prices of the USD pairs lie in the configured range.
pub open spec fn usd_prices_in_range(
    cfg: GenerationConfig,
    tokens: Seq<Token>,
    pairs: Seq<TokenPair>,
) -> bool {
    forall|i: int|
        0 <= i < tokens.len() - 1 ==> price_floor(cfg) <= (#[trigger] pairs[i]).price <= price_cap(
            cfg,
        )
}

/// Whether every pool lies in the range that the configuration gives for the price of
/// its base token.
pub open spec fn volumes_in_range(
    cfg: GenerationConfig,
    tokens: Seq<Token>,
    pairs: Seq<TokenPair>,
) -> bool {
    forall|i: int|
        0 <= i < pairs.len() ==> volume_floor(
            cfg,
            tokens[(#[trigger] pairs[i]).base as int].decimals as int,
            pairs[pairs[i].base - 1].price as int,
        ) <= pairs[i].volume <= volume_cap(
            cfg,
            tokens[pairs[i].base as int].decimals as int,
            pairs[pairs[i].base - 1].price as int,
        )
}

/// Whether every pool is that of a whole number of USD in the configured range, at the
/// price of its base token.
pub open spec fn volumes_whole(
    cfg: GenerationConfig,
    tokens: Seq<Token>,
    pairs: Seq<TokenPair>,
) -> bool {
    forall|i: int|
        0 <= i < pairs.len() ==> is_whole_pool(
            cfg,
            tokens[(#[trigger] pairs[i]).base as int].decimals as int,
            pairs[pairs[i].base - 1].price as int,
            pairs[i].volume,
        )
}

/// Whether every token has the decimals that the configuration allows it.
pub open spec fn decimals_in_range(cfg: GenerationConfig, tokens: Seq<Token>) -> bool {
    &&& tokens[0].decimals == cfg.usd_decimals
    &&& forall|i: int|
        1 <= i < tokens.len() ==> cfg.decimals.min <= (#[trigger] tokens[i]).decimals
            <= cfg.decimals.max
}

/// What holds of every generated market, whatever was drawn.
pub open spec fn sound_market(cfg: GenerationConfig, market: MarketView) -> bool {
    &&& market.tokens.len() == cfg.token_count
    &&& market.pairs.len() == cfg.pair_count
    &&& laid_out(market.tokens, market.pairs)
    &&& decimals_in_range(cfg, market.tokens)
    &&& no_mirrors(market.pairs)
    &&& in_equilibrium(market.tokens, market.pairs)
    &&& usd_prices_in_range(cfg, market.tokens, market.pairs)
    &&& volumes_in_range(cfg, market.tokens, market.pairs)
    &&& volumes_whole(cfg, market.tokens, market.pairs)
    &&& market.fee.static_atomic_usd == cfg.static_fee_atomic_usd
    &&& market.fee.variable_bps == cfg.variable_fee_bps
}

/// A USD pool of `vol_usd` whole USD in atomic units of a base token at price `pu`.
pub fn pool_volume(vol_usd: u64, usd_scale: u64, base_decimals: u64, pu: u64) -> (r: u64)
    requires
        pu > 0,
        base_decimals <= math::MAX_DECIMALS,
        vol_usd * usd_scale * math::ten_to(base_decimals as int) <= u64::MAX,
    ensures
        r == math::base_volume(vol_usd * usd_scale, base_decimals as int, pu as int),
{
    proof {
        math::lemma_ten_to_fits(base_decimals as int);
        let v = vol_usd * usd_scale;
        let f = math::ten_to(base_decimals as int);
        assert(0 <= vol_usd * usd_scale) by (nonlinear_arith);
        assert(v <= v * f) by (nonlinear_arith)
            requires
                v >= 0,
                f >= 1,
        ;
    }
    math::volume_atomic(vol_usd * usd_scale, base_decimals, pu)
}

/// The pair of a token with USD. Its price is the token's price in atomic-USD, since the
/// quote is USD itself.
pub fn usd_pair(
    id: u64,
    base: u64,
    base_decimals: u64,
    pu: u64,
    vol_usd: u64,
    usd_scale: u64,
) -> (r: TokenPair)
    requires
        pu > 0,
        base_decimals <= math::MAX_DECIMALS,
        vol_usd * usd_scale * math::ten_to(base_decimals as int) <= u64::MAX,
    ensures
        r.id == id,
        r.base == base,
        r.quote == USD_TOKEN_ID,
        r.price == pu,
        r.volume == math::base_volume(vol_usd * usd_scale, base_decimals as int, pu as int),
{
    TokenPair {
        id,
        base,
        quote: USD_TOKEN_ID,
        price: pu,
        volume: pool_volume(vol_usd, usd_scale, base_decimals, pu),
    }
}

/// A pair of two non-USD tokens, at the price that their USD prices give.
pub fn cross_pair(
    id: u64,
    base: Token,
    quote: Token,
    pu_base: u64,
    pu_quote: u64,
    vol_usd: u64,
    usd_scale: u64,
) -> (r: TokenPair)
    requires
        pu_base > 0,
        pu_quote > 0,
        base.decimals <= math::MAX_DECIMALS,
        quote.decimals <= math::MAX_DECIMALS,
        pu_base * math::ten_to(quote.decimals as int) <= u64::MAX,
        vol_usd * usd_scale * math::ten_to(base.decimals as int) <= u64::MAX,
    ensures
        r.id == id,
        r.base == base.id,
        r.quote == quote.id,
        r.price == math::cross_price(pu_base as int, pu_quote as int, quote.decimals as int),
        r.volume == math::base_volume(
            vol_usd * usd_scale,
            base.decimals as int,
            pu_base as int,
        ),
{
    TokenPair {
        id,
        base: base.id,
        quote: quote.id,
        price: math::cross_pair_price(pu_base, pu_quote, quote.decimals),
        volume: pool_volume(vol_usd, usd_scale, base.decimals, pu_base),
    }
}

/// Two token ids as one number, the same for both orders.
pub open spec fn join_key(a: u64, b: u64) -> u128 {
    (if a < b {
        a * 0x1_0000_0000_0000_0000 + b
    } else {
        b * 0x1_0000_0000_0000_0000 + a
    }) as u128
}

fn key_of(a: u64, b: u64) -> (r: u128)
    ensures
        r == join_key(a, b),
{
    if a < b {
        a as u128 * 0x1_0000_0000_0000_0000 + b as u128
    } else {
        b as u128 * 0x1_0000_0000_0000_0000 + a as u128
    }
}

proof fn lemma_join_key(a: u64, b: u64, c: u64, d: u64)
    ensures
        join_key(a, b) == join_key(c, d) <==> (a == c && b == d) || (a == d && b == c),
{
}

/// What is drawn for a token keeps its products within a `u64` and its pool in range.
pub(crate) proof fn lemma_draws_fit(cfg: GenerationConfig, decimals: u64, pu: u64, vol_usd: u64)
    requires
        generable(cfg),
        decimals <= cfg.decimals.max,
        price_floor(cfg) <= pu <= price_cap(cfg),
        cfg.volume_usd.min <= vol_usd <= cfg.volume_usd.max,
    ensures
        pu > 0,
        vol_usd * usd_scale(cfg) * math::ten_to(decimals as int) <= u64::MAX,
        volume_floor(cfg, decimals as int, pu as int) <= math::base_volume(
            vol_usd * usd_scale(cfg),
            decimals as int,
            pu as int,
        ) <= volume_cap(cfg, decimals as int, pu as int),
        math::base_volume(vol_usd * usd_scale(cfg), decimals as int, pu as int) <= u64::MAX,
        math::base_volume(vol_usd * usd_scale(cfg), decimals as int, pu as int) >= 0,
        cfg.pair_count >= cfg.token_count ==> pu * math::ten_to(decimals as int) <= u64::MAX,
{
    let s = usd_scale(cfg);
    let f = math::ten_to(decimals as int);
    let g = math::ten_to(cfg.decimals.max as int);
    let lo = cfg.volume_usd.min as int;
    let v = vol_usd as int;
    let hi = cfg.volume_usd.max as int;
    let p = pu as int;
    let cap = price_cap(cfg);
    math::lemma_ten_to_monotonic(decimals as int, cfg.decimals.max as int);
    math::lemma_ten_to_fits(cfg.usd_decimals as int);
    assert(cfg.price_usd.min * s >= 1) by (nonlinear_arith)
        requires
            cfg.price_usd.min >= 1,
            s >= 1,
    ;
    assert(0 <= lo * s * f <= v * s * f <= hi * s * f && hi * s * f <= hi * s * g) by (
        nonlinear_arith)
        requires
            0 <= lo <= v <= hi,
            s >= 1,
            1 <= f <= g,
    ;
    vstd::arithmetic::div_mod::lemma_div_is_ordered(lo * s * f, v * s * f, p);
    vstd::arithmetic::div_mod::lemma_div_is_ordered(v * s * f, hi * s * f, p);
    vstd::arithmetic::div_mod::lemma_div_nonincreasing(v * s * f, p);
    vstd::arithmetic::div_mod::lemma_div_pos_is_pos(v * s * f, p);
    assert(p * f <= cap * g) by (nonlinear_arith)
        requires
            0 <= p <= cap,
            1 <= f <= g,
    ;
}

/// A cross pair that joins two tokens for the first time keeps the market sound.
proof fn lemma_push_cross(
    cfg: GenerationConfig,
    tokens: Seq<Token>,
    pu: Seq<u64>,
    pairs: Seq<TokenPair>,
    pair: TokenPair,
)
    requires
        laid_out(tokens, pairs),
        no_mirrors(pairs),
        in_equilibrium(tokens, pairs),
        usd_prices_in_range(cfg, tokens, pairs),
        volumes_in_range(cfg, tokens, pairs),
        volumes_whole(cfg, tokens, pairs),
        pu.len() == tokens.len(),
        forall|t: int| 1 <= t < tokens.len() ==> #[trigger] pu[t] == pairs[t - 1].price,
        pair.id == pairs.len(),
        1 <= pair.base < tokens.len(),
        1 <= pair.quote < tokens.len(),
        pair.base != pair.quote,
        !joined(pairs, pair.base, pair.quote),
        pair.price == math::cross_price(
            pu[pair.base as int] as int,
            pu[pair.quote as int] as int,
            tokens[pair.quote as int].decimals as int,
        ),
        volume_floor(
            cfg,
            tokens[pair.base as int].decimals as int,
            pu[pair.base as int] as int,
        ) <= pair.volume <= volume_cap(
            cfg,
            tokens[pair.base as int].decimals as int,
            pu[pair.base as int] as int,
        ),
        is_whole_pool(
            cfg,
            tokens[pair.base as int].decimals as int,
            pu[pair.base as int] as int,
            pair.volume,
        ),
    ensures
        laid_out(tokens, pairs.push(pair)),
        no_mirrors(pairs.push(pair)),
        in_equilibrium(tokens, pairs.push(pair)),
        usd_prices_in_range(cfg, tokens, pairs.push(pair)),
        volumes_in_range(cfg, tokens, pairs.push(pair)),
        volumes_whole(cfg, tokens, pairs.push(pair)),
        forall|t: int|
            1 <= t < tokens.len() ==> #[trigger] pu[t] == pairs.push(pair)[t - 1].price,
{
    let after = pairs.push(pair);
    let n = tokens.len() - 1;
    assert(pu[pair.base as int] == pairs[pair.base - 1].price);
    assert(pu[pair.quote as int] == pairs[pair.quote - 1].price);
    assert forall|i: int, j: int| 0 <= i < j < after.len() implies !joins(
        #[trigger] after[j],
        (#[trigger] after[i]).base,
        after[i].quote,
    ) by {
        if j == pairs.len() {
            assert(after[i] == pairs[i]);
            assert(!joins(pairs[i], pair.base, pair.quote));
        } else {
            assert(after[i] == pairs[i] && after[j] == pairs[j]);
        }
    }
    assert forall|i: int| n <= i < after.len() implies (#[trigger] after[i]).price
        == math::cross_price(
        after[after[i].base - 1].price as int,
        after[after[i].quote - 1].price as int,
        tokens[after[i].quote as int].decimals as int,
    ) by {
        if i < pairs.len() {
            assert(after[i] == pairs[i]);
        }
    }
    assert forall|i: int| 0 <= i < after.len() implies volume_floor(
        cfg,
        tokens[(#[trigger] after[i]).base as int].decimals as int,
        after[after[i].base - 1].price as int,
    ) <= after[i].volume <= volume_cap(
        cfg,
        tokens[after[i].base as int].decimals as int,
        after[after[i].base - 1].price as int,
    ) by {
        if i < pairs.len() {
            assert(after[i] == pairs[i]);
        }
    }
    assert forall|i: int| 0 <= i < after.len() implies is_whole_pool(
        cfg,
        tokens[(#[trigger] after[i]).base as int].decimals as int,
        after[after[i].base - 1].price as int,
        after[i].volume,
    ) by {
        if i < pairs.len() {
            assert(after[i] == pairs[i]);
            assert(is_whole_pool(
                cfg,
                tokens[pairs[i].base as int].decimals as int,
                pairs[pairs[i].base - 1].price as int,
                pairs[i].volume,
            ));
        }
    }
}

proof fn lemma_attempts_done(
    cfg: GenerationConfig,
    tokens: Seq<Token>,
    pu: Seq<u64>,
    pairs: Seq<TokenPair>,
    state: u128,
    k: nat,
    m: nat,
)
    requires
        k <= m,
        cross_attempts(cfg, tokens, pu, pairs, state, k).0.len() >= cfg.pair_count,
    ensures
        cross_attempts(cfg, tokens, pu, pairs, state, m) == cross_attempts(
            cfg,
            tokens,
            pu,
            pairs,
            state,
            k,
        ),
    decreases m - k,
{
    if k < m {
        lemma_attempts_done(cfg, tokens, pu, pairs, state, k, (m - 1) as nat);
    }
}

/// Checks the counts of tokens and pairs.
pub fn check_shape(cfg: &GenerationConfig) -> (r: Result<(), GenerateError>)
    ensures
        match shape_error(*cfg) {
            Some(e) => r == Err::<(), _>(e),
            None => r is Ok,
        },
{
    if cfg.token_count < 2 {
        return Err(GenerateError::TooFewTokens);
    }
    let non_usd: u64 = cfg.token_count - 1;
    if cfg.pair_count < non_usd {
        return Err(GenerateError::PairCountTooLow { pair_count: cfg.pair_count, non_usd });
    }
    assert(0 <= non_usd * (non_usd - 1) <= 0xffff_ffff_ffff_ffff * 0xffff_ffff_ffff_ffff) by (
        nonlinear_arith)
        requires
            1 <= non_usd <= 0xffff_ffff_ffff_ffff,
    ;
    let ordered: u128 = non_usd as u128 * (non_usd - 1) as u128;
    let max_cross: u64 = if ordered > u64::MAX as u128 {
        u64::MAX / 2
    } else {
        ordered as u64 / 2
    };
    if cfg.pair_count - non_usd > max_cross {
        return Err(
            GenerateError::PairCountTooHigh { pair_count: cfg.pair_count, non_usd, max_cross },
        );
    }
    Ok(())
}

/// The tokens that the drawn decimals give.
fn build_tokens(cfg: &GenerationConfig, decimals: &Vec<u64>) -> (r: Vec<Token>)
    requires
        2 <= cfg.token_count <= usize::MAX,
        decimals@.len() == cfg.token_count - 1,
    ensures
        r@ == tokens_of(*cfg, decimals@),
{
    let mut tokens: Vec<Token> = Vec::new();
    tokens.push(Token { id: USD_TOKEN_ID, decimals: cfg.usd_decimals });
    let mut id: u64 = 1;
    while id < cfg.token_count
        invariant
            1 <= id <= cfg.token_count <= usize::MAX,
            decimals@.len() == cfg.token_count - 1,
            tokens@.len() == id,
            forall|i: int| 0 <= i < id ==> #[trigger] tokens@[i] == tokens_of(*cfg, decimals@)[i],
        decreases cfg.token_count - id,
    {
        tokens.push(Token { id, decimals: decimals[(id - 1) as usize] });
        id = id + 1;
    }
    assert(tokens@ =~= tokens_of(*cfg, decimals@));
    tokens
}

/// The prices of all tokens, USD first.
fn build_usd_prices(cfg: &GenerationConfig, usd_scale: u64, prices: &Vec<u64>) -> (r: Vec<u64>)
    requires
        2 <= cfg.token_count <= usize::MAX,
        usd_scale == self::usd_scale(*cfg),
        prices@.len() == cfg.token_count - 1,
    ensures
        r@ == usd_prices_of(*cfg, prices@),
{
    let mut pu: Vec<u64> = Vec::new();
    pu.push(usd_scale);
    let mut i: usize = 0;
    while i < prices.len()
        invariant
            i <= prices@.len() == cfg.token_count - 1,
            cfg.token_count <= usize::MAX,
            pu@.len() == i + 1,
            usd_scale == self::usd_scale(*cfg),
            forall|j: int| 0 <= j <= i ==> #[trigger] pu@[j] == usd_prices_of(*cfg, prices@)[j],
        decreases prices@.len() - i,
    {
        pu.push(prices[i]);
        i = i + 1;
    }
    assert(pu@ =~= usd_prices_of(*cfg, prices@));
    pu
}

/// What the draws for the tokens have to be for the pairs to be built from them.
spec fn priced(cfg: GenerationConfig, tokens: Seq<Token>, pu: Seq<u64>) -> bool {
    &&& generable(cfg)
    &&& cfg.token_count >= 2
    &&& tokens.len() == cfg.token_count
    &&& pu.len() == cfg.token_count
    &&& forall|i: int| 0 <= i < tokens.len() ==> (#[trigger] tokens[i]).id == i
    &&& decimals_in_range(cfg, tokens)
    &&& forall|i: int|
        1 <= i < pu.len() ==> price_floor(cfg) <= #[trigger] pu[i] <= price_cap(cfg)
}

/// The USD pairs that the drawn volumes give.
fn build_usd_pairs(
    cfg: &GenerationConfig,
    usd_scale: u64,
    tokens: &Vec<Token>,
    pu: &Vec<u64>,
    volumes: &Vec<u64>,
) -> (r: Vec<TokenPair>)
    requires
        priced(*cfg, tokens@, pu@),
        usd_scale == self::usd_scale(*cfg),
        volumes@.len() == cfg.token_count - 1,
        forall|i: int|
            0 <= i < volumes@.len() ==> cfg.volume_usd.min <= #[trigger] volumes@[i]
                <= cfg.volume_usd.max,
    ensures
        r@ == usd_pairs_of(*cfg, tokens@, pu@, volumes@),
        laid_out(tokens@, r@),
        no_mirrors(r@),
        in_equilibrium(tokens@, r@),
        usd_prices_in_range(*cfg, tokens@, r@),
        volumes_in_range(*cfg, tokens@, r@),
        volumes_whole(*cfg, tokens@, r@),
        forall|t: int| 1 <= t < tokens@.len() ==> #[trigger] pu@[t] == r@[t - 1].price,
{
    let mut pairs: Vec<TokenPair> = Vec::new();
    let n: usize = volumes.len();
    let mut i: usize = 0;
    while i < n
        invariant
            i <= n == volumes@.len() == cfg.token_count - 1,
            priced(*cfg, tokens@, pu@),
            usd_scale == self::usd_scale(*cfg),
            forall|i: int|
                0 <= i < volumes@.len() ==> cfg.volume_usd.min <= #[trigger] volumes@[i]
                    <= cfg.volume_usd.max,
            pairs@.len() == i,
            forall|j: int|
                0 <= j < i ==> #[trigger] pairs@[j] == usd_pairs_of(
                    *cfg,
                    tokens@,
                    pu@,
                    volumes@,
                )[j],
            forall|j: int|
                0 <= j < i ==> volume_floor(
                    *cfg,
                    tokens@[j + 1].decimals as int,
                    pu@[j + 1] as int,
                ) <= (#[trigger] pairs@[j]).volume <= volume_cap(
                    *cfg,
                    tokens@[j + 1].decimals as int,
                    pu@[j + 1] as int,
                ),
            forall|j: int|
                0 <= j < i ==> is_whole_pool(
                    *cfg,
                    tokens@[j + 1].decimals as int,
                    pu@[j + 1] as int,
                    (#[trigger] pairs@[j]).volume,
                ),
        decreases n - i,
    {
        let t: usize = i + 1;
        proof {
            assert(tokens@[t as int].decimals <= cfg.decimals.max);
            assert(volumes@[i as int] <= cfg.volume_usd.max);
            lemma_draws_fit(
                *cfg,
                tokens@[t as int].decimals,
                pu@[t as int],
                volumes@[i as int],
            );
        }
        let pair = usd_pair(i as u64, t as u64, tokens[t].decimals, pu[t], volumes[i], usd_scale);
        assert(pair.volume == pool_of(
            *cfg,
            volumes@[i as int],
            tokens@[t as int].decimals as int,
            pu@[t as int] as int,
        ));
        pairs.push(pair);
        i = i + 1;
    }
    assert(pairs@ =~= usd_pairs_of(*cfg, tokens@, pu@, volumes@));
    assert forall|t: int| 1 <= t < tokens@.len() implies #[trigger] pu@[t] == pairs@[t
        - 1].price by {
        assert(pairs@[t - 1] == usd_pairs_of(*cfg, tokens@, pu@, volumes@)[t - 1]);
    }
    assert forall|j: int| 0 <= j < tokens@.len() - 1 implies price_floor(*cfg) <= (
    #[trigger] pairs@[j]).price <= price_cap(*cfg) by {
        assert(pairs@[j].price == pu@[j + 1]);
    }
    pairs
}

/// Draws cross pairs until there are enough pairs, unless the attempts run out.
#[verifier::spinoff_prover]
#[verifier::rlimit(50)]
fn add_cross_pairs(
    cfg: &GenerationConfig,
    usd_scale: u64,
    tokens: &Vec<Token>,
    pu: &Vec<u64>,
    pairs: &mut Vec<TokenPair>,
    rng: &mut Mcg128Xsl64,
)
    requires
        priced(*cfg, tokens@, pu@),
        usd_scale == self::usd_scale(*cfg),
        old(pairs)@.len() == cfg.token_count - 1 <= cfg.pair_count,
        laid_out(tokens@, old(pairs)@),
        no_mirrors(old(pairs)@),
        in_equilibrium(tokens@, old(pairs)@),
        usd_prices_in_range(*cfg, tokens@, old(pairs)@),
        volumes_in_range(*cfg, tokens@, old(pairs)@),
        volumes_whole(*cfg, tokens@, old(pairs)@),
        forall|t: int| 1 <= t < tokens@.len() ==> #[trigger] pu@[t] == old(pairs)@[t - 1].price,
    ensures
        final(pairs)@ == cross_attempts(
            *cfg,
            tokens@,
            pu@,
            old(pairs)@,
            rng::rng_state(*old(rng)),
            MAX_ATTEMPTS as nat,
        ).0,
        final(pairs)@.len() <= cfg.pair_count,
        laid_out(tokens@, final(pairs)@),
        no_mirrors(final(pairs)@),
        in_equilibrium(tokens@, final(pairs)@),
        usd_prices_in_range(*cfg, tokens@, final(pairs)@),
        volumes_in_range(*cfg, tokens@, final(pairs)@),
        volumes_whole(*cfg, tokens@, final(pairs)@),
{
    broadcast use vstd::std_specs::hash::group_hash_axioms;

    let ghost start = pairs@;
    let ghost state = rng::rng_state(*rng);
    let mut seen: HashSet<u128> = HashSet::new();
    let mut attempts: u64 = 0;
    assert forall|a: u64, b: u64| a >= 1 && b >= 1 implies !(#[trigger] joined(
        pairs@,
        a,
        b,
    )) by {
        if joined(pairs@, a, b) {
            let i = choose|i: int| 0 <= i < pairs@.len() && joins(#[trigger] pairs@[i], a, b);
            assert(pairs@[i].quote == 0);
        }
    }
    while attempts < MAX_ATTEMPTS && (pairs.len() as u64) < cfg.pair_count
        invariant
            attempts <= MAX_ATTEMPTS,
            priced(*cfg, tokens@, pu@),
            usd_scale == self::usd_scale(*cfg),
            cfg.token_count - 1 <= pairs@.len() <= cfg.pair_count,
            laid_out(tokens@, pairs@),
            no_mirrors(pairs@),
            in_equilibrium(tokens@, pairs@),
            usd_prices_in_range(*cfg, tokens@, pairs@),
            volumes_in_range(*cfg, tokens@, pairs@),
            volumes_whole(*cfg, tokens@, pairs@),
            forall|t: int| 1 <= t < tokens@.len() ==> #[trigger] pu@[t] == pairs@[t - 1].price,
            (pairs@, rng::rng_state(*rng)) == cross_attempts(
                *cfg,
                tokens@,
                pu@,
                start,
                state,
                attempts as nat,
            ),
            forall|a: u64, b: u64|
                a >= 1 && b >= 1 ==> #[trigger] joined(pairs@, a, b) == seen@.contains(
                    join_key(a, b),
                ),
        decreases MAX_ATTEMPTS - attempts,
    {
        broadcast use vstd::std_specs::hash::group_hash_axioms;

        let ghost before = pairs@;
        let ghost seen_before = seen@;
        let a: u64 = rng::draw_range(rng, 1, cfg.token_count - 1);
        let b: u64 = rng::draw_range(rng, 1, cfg.token_count - 1);
        attempts = attempts + 1;
        if a != b {
            let key: u128 = key_of(a, b);
            if seen.insert(key) {
                assert(!joined(before, a, b));
                let heads: bool = rng::draw_coin(rng);
                let (base, quote): (u64, u64) = if heads {
                    (a, b)
                } else {
                    (b, a)
                };
                let vol_usd: u64 = rng::draw_range(rng, cfg.volume_usd.min, cfg.volume_usd.max);
                let at_base: usize = base as usize;
                let at_quote: usize = quote as usize;
                proof {
                    assert(cfg.pair_count >= cfg.token_count);
                    assert(tokens@[base as int].decimals <= cfg.decimals.max);
                    assert(tokens@[quote as int].decimals <= cfg.decimals.max);
                    assert(pu@[base as int] <= price_cap(*cfg));
                    assert(pu@[quote as int] <= price_cap(*cfg));
                    lemma_draws_fit(
                        *cfg,
                        tokens@[base as int].decimals,
                        pu@[base as int],
                        vol_usd,
                    );
                    lemma_draws_fit(
                        *cfg,
                        tokens@[quote as int].decimals,
                        pu@[base as int],
                        vol_usd,
                    );
                    lemma_draws_fit(
                        *cfg,
                        tokens@[quote as int].decimals,
                        pu@[quote as int],
                        vol_usd,
                    );
                }
                let pair = cross_pair(
                    pairs.len() as u64,
                    tokens[at_base],
                    tokens[at_quote],
                    pu[at_base],
                    pu[at_quote],
                    vol_usd,
                    usd_scale,
                );
                assert(pair == cross_pair_of(
                    *cfg,
                    tokens@,
                    pu@,
                    before.len() as u64,
                    base,
                    quote,
                    vol_usd,
                ));
                proof {
                    assert(pair.volume == pool_of(
                        *cfg,
                        vol_usd,
                        tokens@[base as int].decimals as int,
                        pu@[base as int] as int,
                    ));
                    assert(!joined(before, base, quote)) by {
                        assert(joined(before, base, quote) == joined(before, a, b)) by {
                            lemma_joined_symmetric(before, a, b);
                        }
                    }
                    lemma_push_cross(*cfg, tokens@, pu@, before, pair);
                }
                pairs.push(pair);
                assert forall|c: u64, d: u64| c >= 1 && d >= 1 implies #[trigger] joined(
                    pairs@,
                    c,
                    d,
                ) == seen@.contains(join_key(c, d)) by {
                    lemma_joined_push(before, pair, c, d);
                    lemma_join_key(a, b, c, d);
                    assert(joined(before, c, d) == seen_before.contains(join_key(c, d)));
                }
            } else {
                assert(joined(before, a, b));
                assert(seen@ =~= seen_before);
            }
        }
    }
    proof {
        if pairs@.len() >= cfg.pair_count {
            lemma_attempts_done(
                *cfg,
                tokens@,
                pu@,
                start,
                state,
                attempts as nat,
                MAX_ATTEMPTS as nat,
            );
        }
    }
}

proof fn lemma_joined_symmetric(pairs: Seq<TokenPair>, a: u64, b: u64)
    ensures
        joined(pairs, a, b) == joined(pairs, b, a),
{
    if joined(pairs, a, b) {
        let i = choose|i: int| 0 <= i < pairs.len() && joins(#[trigger] pairs[i], a, b);
        assert(joins(pairs[i], b, a));
    }
    if joined(pairs, b, a) {
        let i = choose|i: int| 0 <= i < pairs.len() && joins(#[trigger] pairs[i], b, a);
        assert(joins(pairs[i], a, b));
    }
}

proof fn lemma_joined_push(pairs: Seq<TokenPair>, pair: TokenPair, a: u64, b: u64)
    ensures
        joined(pairs.push(pair), a, b) == (joined(pairs, a, b) || joins(pair, a, b)),
{
    let after = pairs.push(pair);
    if joined(pairs, a, b) {
        let i = choose|i: int| 0 <= i < pairs.len() && joins(#[trigger] pairs[i], a, b);
        assert(joins(after[i], a, b));
    }
    if joins(pair, a, b) {
        assert(joins(after[pairs.len() as int], a, b));
    }
    if joined(after, a, b) && !joins(pair, a, b) {
        let i = choose|i: int| 0 <= i < after.len() && joins(#[trigger] after[i], a, b);
        assert(joins(pairs[i], a, b));
    }
}

/// Generates the market that a configuration and a seed give.
///
/// Token 0 is USD; the decimals of the others are drawn from `decimals`. The first
/// `token_count - 1` pairs are USD pairs; the others are random cross pairs, deduplicated
/// by unordered pair of tokens. Prices of non-USD tokens are drawn in atomic-USD. Cross
/// pair prices are derived from the two USD prices, so the market starts in equilibrium.
pub fn generate_market(cfg: &GenerationConfig, seed: u64) -> (r: Result<Market, GenerateError>)
    requires
        shape_error(*cfg) is None ==> generable(*cfg),
    ensures
        match shape_error(*cfg) {
            Some(e) => r == Err::<Market, _>(e),
            None => {
                let market = market_of(*cfg, seed);
                if market.pairs.len() < cfg.pair_count {
                    r == Err::<Market, _>(GenerateError::Stalled)
                } else {
                    r is Ok && r->Ok_0@ == market
                }
            },
        },
        r is Ok ==> sound_market(*cfg, r->Ok_0@),
{
    if let Err(e) = check_shape(cfg) {
        return Err(e);
    }
    let n: usize = (cfg.token_count - 1) as usize;
    proof {
        math::lemma_ten_to_fits(cfg.usd_decimals as int);
        let s = self::usd_scale(*cfg);
        assert(cfg.price_usd.min * s <= cfg.price_usd.max * s) by (nonlinear_arith)
            requires
                cfg.price_usd.min <= cfg.price_usd.max,
                s >= 1,
        ;
        assert(cfg.price_usd.min * s >= 0) by (nonlinear_arith)
            requires
                s >= 1,
        ;
    }
    let usd_scale: u64 = math::pow10(cfg.usd_decimals);
    let mut rng = rng::seed_rng(seed);
    let decimals = rng::draw_many(&mut rng, cfg.decimals.min, cfg.decimals.max, n);
    let tokens = build_tokens(cfg, &decimals);
    let prices = rng::draw_many(
        &mut rng,
        cfg.price_usd.min * usd_scale,
        cfg.price_usd.max * usd_scale,
        n,
    );
    let pu = build_usd_prices(cfg, usd_scale, &prices);
    let volumes = rng::draw_many(&mut rng, cfg.volume_usd.min, cfg.volume_usd.max, n);
    assert(priced(*cfg, tokens@, pu@)) by {
        assert forall|i: int| 1 <= i < pu@.len() implies price_floor(*cfg) <= #[trigger] pu@[i]
            <= price_cap(*cfg) by {
            assert(pu@[i] == prices@[i - 1]);
        }
        assert forall|i: int| 1 <= i < tokens@.len() implies cfg.decimals.min <= (
        #[trigger] tokens@[i]).decimals <= cfg.decimals.max by {
            assert(tokens@[i].decimals == decimals@[i - 1]);
        }
    }
    let mut pairs = build_usd_pairs(cfg, usd_scale, &tokens, &pu, &volumes);
    add_cross_pairs(cfg, usd_scale, &tokens, &pu, &mut pairs, &mut rng);
    if (pairs.len() as u64) < cfg.pair_count {
        return Err(GenerateError::Stalled);
    }
    let fee = Fee {
        static_atomic_usd: cfg.static_fee_atomic_usd,
        variable_bps: cfg.variable_fee_bps,
    };
    Ok(Market { fee, tokens, pairs })
}

} // verus!
