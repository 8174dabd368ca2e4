//! How prices and pools move along a feed, from one tick to the next.
use super::config::GenerationConfig;
use super::dedupe;
use super::emission;
use super::emission::Tick;
use super::feed_laws;
use super::generate_feed;
use super::generate_market;
use super::math;
use super::rng;
use super::schedule;
use super::schedule::Event;
use super::volumes;
use crate::protocol::market::{MarketView, Token, TokenPair};
use vstd::arithmetic::power::pow;
use vstd::prelude::*;

verus! {

/// Whether event `k` moves the USD price of token `t`.
pub open spec fn moves_token(events: Seq<Event>, k: int, t: int) -> bool {
    events[k].kind is Mispricing && events[k].kind->token == t
}

/// Whether `after` is `before` moved by basis points up or down, rounded down, and kept
/// between the lowest and the highest USD price.
pub open spec fn moved_to(
    cfg: GenerationConfig,
    before: int,
    delta_bps: int,
    up: bool,
    after: int,
) -> bool {
    let moved = before * (if up {
        10_000 + delta_bps
    } else {
        10_000 - delta_bps
    }) / 10_000;
    let lowest = cfg.price_usd.min * pow(10, cfg.usd_decimals as nat);
    let highest = cfg.price_usd.max * pow(10, cfg.usd_decimals as nat);
    &&& moved < lowest ==> after == lowest
    &&& moved >= lowest && moved > highest ==> after == highest
    &&& lowest <= moved <= highest ==> after == moved
}

/// A mispricing moves the price that its token has at that moment, and no other price; a
/// rebalancing event moves none. Before the first event the prices are the opening ones.
pub proof fn lemma_mispricing_moves_live_price(
    cfg: GenerationConfig,
    tokens: Seq<Token>,
    pairs: Seq<TokenPair>,
    pu: Seq<u64>,
    events: Seq<Event>,
    k: int,
    t: int,
)
    requires
        emission::movable(cfg, tokens, pairs, pu),
        emission::emittable(cfg, tokens.len() as int, pairs.len() as int, events),
        generate_market::price_cap(cfg) <= u64::MAX,
        0 <= k < events.len(),
        0 <= t < pu.len(),
    ensures
        ({
            let before = emission::prices_after(cfg, pu, events, k);
            let after = emission::prices_after(cfg, pu, events, k + 1);
            &&& before.len() == pu.len()
            &&& after.len() == pu.len()
            &&& k == 0 ==> before == pu
            &&& moves_token(events, k, t) ==> moved_to(
                cfg,
                before[t] as int,
                events[k].kind->delta_bps as int,
                events[k].kind->sign_positive,
                after[t] as int,
            )
            &&& !moves_token(events, k, t) ==> after[t] == before[t]
        }),
{
    emission::lemma_movable_after(cfg, tokens, pairs, pu, events, k);
    emission::lemma_movable_after(cfg, tokens, pairs, pu, events, k + 1);
}

/// A price stands as long as no event moves it.
proof fn lemma_price_stands(
    cfg: GenerationConfig,
    tokens: Seq<Token>,
    pairs: Seq<TokenPair>,
    pu: Seq<u64>,
    events: Seq<Event>,
    from: int,
    to: int,
    t: int,
)
    requires
        emission::movable(cfg, tokens, pairs, pu),
        emission::emittable(cfg, tokens.len() as int, pairs.len() as int, events),
        generate_market::price_cap(cfg) <= u64::MAX,
        0 <= from <= to <= events.len(),
        0 <= t < pu.len(),
        forall|k: int| from <= k < to ==> !#[trigger] moves_token(events, k, t),
    ensures
        emission::prices_after(cfg, pu, events, to)[t] == emission::prices_after(
            cfg,
            pu,
            events,
            from,
        )[t],
    decreases to - from,
{
    if from < to {
        lemma_price_stands(cfg, tokens, pairs, pu, events, from, to - 1, t);
        assert(!moves_token(events, to - 1, t));
        lemma_mispricing_moves_live_price(cfg, tokens, pairs, pu, events, to - 1, t);
    }
}

/// Two mispricings of one token, one after the other, both shown on a USD pair of the token:
/// the second shows the price that the first has shown, moved by its own change.
pub proof fn lemma_moves_compose(
    cfg: GenerationConfig,
    tokens: Seq<Token>,
    pairs: Seq<TokenPair>,
    pu: Seq<u64>,
    events: Seq<Event>,
    i: int,
    j: int,
    t: int,
)
    requires
        emission::movable(cfg, tokens, pairs, pu),
        emission::emittable(cfg, tokens.len() as int, pairs.len() as int, events),
        generate_market::price_cap(cfg) <= u64::MAX,
        0 <= i < j < events.len(),
        0 <= t < pu.len(),
        moves_token(events, i, t),
        moves_token(events, j, t),
        forall|k: int| i < k < j ==> !#[trigger] moves_token(events, k, t),
        pairs[events[i].kind->main_pair_idx as int].base == t,
        pairs[events[i].kind->main_pair_idx as int].quote == 0,
        pairs[events[j].kind->main_pair_idx as int].base == t,
        pairs[events[j].kind->main_pair_idx as int].quote == 0,
    ensures
        ({
            let ticks = emission::emitted(cfg, tokens, pairs, pu, events);
            moved_to(
                cfg,
                ticks[i].price as int,
                events[j].kind->delta_bps as int,
                events[j].kind->sign_positive,
                ticks[j].price as int,
            )
        }),
{
    lemma_price_stands(cfg, tokens, pairs, pu, events, i + 1, j, t);
    lemma_mispricing_moves_live_price(cfg, tokens, pairs, pu, events, j, t);
}

/// The first mispricing of a token, shown on its USD pair, moves the opening price.
pub proof fn lemma_first_move(
    cfg: GenerationConfig,
    tokens: Seq<Token>,
    pairs: Seq<TokenPair>,
    pu: Seq<u64>,
    events: Seq<Event>,
    j: int,
    t: int,
)
    requires
        emission::movable(cfg, tokens, pairs, pu),
        emission::emittable(cfg, tokens.len() as int, pairs.len() as int, events),
        generate_market::price_cap(cfg) <= u64::MAX,
        0 <= j < events.len(),
        0 <= t < pu.len(),
        moves_token(events, j, t),
        forall|k: int| 0 <= k < j ==> !#[trigger] moves_token(events, k, t),
        pairs[events[j].kind->main_pair_idx as int].base == t,
        pairs[events[j].kind->main_pair_idx as int].quote == 0,
    ensures
        moved_to(
            cfg,
            pu[t] as int,
            events[j].kind->delta_bps as int,
            events[j].kind->sign_positive,
            emission::emitted(cfg, tokens, pairs, pu, events)[j].price as int,
        ),
{
    lemma_price_stands(cfg, tokens, pairs, pu, events, 0, j, t);
    lemma_mispricing_moves_live_price(cfg, tokens, pairs, pu, events, j, t);
}

/// A tick is due when its event is, is on the event's pair, and shows the price that the live
/// USD prices give right after the event: that of the base on a USD pair, and on a cross pair
/// the largest number of atomic quote units that one whole base buys without gaining.
pub proof fn lemma_tick_shows_live_price(
    cfg: GenerationConfig,
    tokens: Seq<Token>,
    pairs: Seq<TokenPair>,
    pu: Seq<u64>,
    events: Seq<Event>,
    i: int,
)
    requires
        emission::movable(cfg, tokens, pairs, pu),
        emission::emittable(cfg, tokens.len() as int, pairs.len() as int, events),
        generate_market::price_cap(cfg) <= u64::MAX,
        0 <= i < events.len(),
    ensures
        ({
            let tick = emission::emitted(cfg, tokens, pairs, pu, events)[i];
            let live = emission::prices_after(cfg, pu, events, i + 1);
            let pair = pairs[tick.pair_idx as int];
            let base = live[pair.base as int] as int;
            let quote = live[pair.quote as int] as int;
            let one = pow(10, tokens[pair.quote as int].decimals as nat);
            &&& emission::emitted(cfg, tokens, pairs, pu, events).len() == events.len()
            &&& tick.t == events[i].t
            &&& events[i].kind is Mispricing ==> tick.is_main && tick.pair_idx
                == events[i].kind->main_pair_idx
            &&& events[i].kind is Rebalance ==> !tick.is_main && tick.pair_idx
                == events[i].kind->pair_idx
            &&& pair.quote == 0 ==> tick.price == base
            &&& pair.quote != 0 ==> tick.price * quote <= base * one < (tick.price + 1) * quote
        }),
{
    emission::lemma_movable_after(cfg, tokens, pairs, pu, events, i + 1);
    let live = emission::prices_after(cfg, pu, events, i + 1);
    let x = events[i].pair_idx() as int;
    let pair = pairs[x];
    assert(emission::priceable(pair, live, tokens));
    if pair.quote != 0 {
        let quote = live[pair.quote as int] as int;
        let a = live[pair.base as int] * pow(10, tokens[pair.quote as int].decimals as nat);
        vstd::arithmetic::power::lemma_pow_positive(
            10,
            tokens[pair.quote as int].decimals as nat,
        );
        assert(a >= 0) by (nonlinear_arith)
            requires
                a == live[pair.base as int] * pow(10, tokens[pair.quote as int].decimals as nat),
                pow(10, tokens[pair.quote as int].decimals as nat) > 0,
        ;
        lemma_floor_is(a, quote);
        vstd::arithmetic::div_mod::lemma_div_nonincreasing(a, quote);
    }
}

/// A quotient that is rounded down.
proof fn lemma_floor_is(a: int, d: int)
    requires
        0 <= a,
        0 < d,
    ensures
        0 <= a / d,
        (a / d) * d <= a < (a / d + 1) * d,
{
    vstd::arithmetic::div_mod::lemma_div_pos_is_pos(a, d);
    vstd::arithmetic::div_mod::lemma_fundamental_div_mod(a, d);
    assert((a / d) * d == d * (a / d)) by (nonlinear_arith);
    assert((a / d + 1) * d == d * (a / d) + d) by (nonlinear_arith);
}

/// Every tick moves the pool of its pair, and of no other, by a number of basis points that
/// is drawn, in the direction of the coin that is drawn next: with heads up, as far as the
/// cap, with tails down, as far as the floor. What the tick shows is where the pool is then.
pub proof fn lemma_coin_gives_direction(
    cfg: GenerationConfig,
    ticks: Seq<Tick>,
    lo: Seq<u64>,
    hi: Seq<u64>,
    pools: Seq<u64>,
    state: u128,
    k: int,
)
    requires
        0 <= k < ticks.len(),
        forall|p: int| 0 <= p < ticks.len() ==> (#[trigger] ticks[p]).pair_idx < pools.len(),
    ensures
        volumes::walked(cfg, ticks, lo, hi, pools, state, 0) == (Seq::<u64>::empty(), pools, state),
        ({
            let (shown, before, mid) = volumes::walked(cfg, ticks, lo, hi, pools, state, k);
            let (after_shown, after, end) = volumes::walked(
                cfg,
                ticks,
                lo,
                hi,
                pools,
                state,
                k + 1,
            );
            let x = ticks[k].pair_idx as int;
            let (delta, s1) = rng::range_draw(
                mid,
                cfg.volume_perturb_bps.min,
                cfg.volume_perturb_bps.max,
            );
            let (word, s2) = rng::word_draw(s1);
            let up = before[x] * (10_000 + delta) / 10_000;
            let down = before[x] * (10_000 - delta) / 10_000;
            &&& shown.len() == k
            &&& before.len() == pools.len()
            &&& after.len() == pools.len()
            &&& after_shown == shown.push(after[x])
            &&& forall|y: int| 0 <= y < pools.len() && y != x ==> #[trigger] after[y] == before[y]
            &&& end == s2
            &&& lo[x] <= before[x] <= hi[x] && delta <= 10_000 ==> {
                &&& word < 0x8000_0000_0000_0000 ==> {
                    &&& before[x] <= after[x] <= hi[x]
                    &&& up <= hi[x] ==> after[x] == up
                    &&& up > hi[x] ==> after[x] == hi[x]
                }
                &&& word >= 0x8000_0000_0000_0000 ==> {
                    &&& lo[x] <= after[x] <= before[x]
                    &&& down >= lo[x] ==> after[x] == down
                    &&& down < lo[x] ==> after[x] == lo[x]
                }
            }
        }),
    decreases k,
{
    if k > 0 {
        lemma_coin_gives_direction(cfg, ticks, lo, hi, pools, state, k - 1);
    }
    let (shown, before, mid) = volumes::walked(cfg, ticks, lo, hi, pools, state, k);
    let x = ticks[k].pair_idx as int;
    let (delta, s1) = rng::range_draw(mid, cfg.volume_perturb_bps.min, cfg.volume_perturb_bps.max);
    let b = before[x] as int;
    let d = delta as int;
    if d <= 10_000 {
        assert(b * (10_000 + d) >= b * 10_000 && 0 <= b * (10_000 - d) <= b * 10_000)
            by (nonlinear_arith)
            requires
                b >= 0,
                0 <= d <= 10_000,
        ;
    }
}

/// Events in order of time: none comes before an earlier one, those of the same time stay as
/// they were scheduled, and each event comes once.
pub proof fn lemma_time_order_is(events: Seq<Event>, i: int, j: int)
    requires
        emission::orders(events, emission::time_order(events)),
        0 <= i < j < events.len(),
    ensures
        ({
            let perm = emission::time_order(events);
            let sorted = emission::in_time_order(events);
            &&& sorted.len() == events.len()
            &&& perm.len() == events.len()
            &&& sorted[i] == events[perm[i]]
            &&& sorted[j] == events[perm[j]]
            &&& sorted[i].t <= sorted[j].t
            &&& sorted[i].t == sorted[j].t ==> perm[i] < perm[j]
            &&& perm[i] != perm[j]
            &&& exists|k: int| 0 <= k < events.len() && #[trigger] perm[k] == i
        }),
{
    let perm = emission::time_order(events);
    assert(emission::precedes(events, perm[i], perm[j]));
    assert(perm.contains(i));
}

/// The USD price that a token of a laid out market opens at is the price of its USD pair; that
/// of USD itself is one.
pub proof fn lemma_opening_price_is(
    cfg: GenerationConfig,
    tokens: Seq<Token>,
    pairs: Seq<TokenPair>,
    t: int,
)
    requires
        generate_market::laid_out(tokens, pairs),
        cfg.usd_decimals <= 19,
        0 <= t < tokens.len(),
    ensures
        ({
            let pu = emission::opening_prices(cfg, tokens, pairs);
            &&& pu.len() == tokens.len()
            &&& t > 0 ==> pu[t] == pairs[t - 1].price
            &&& t == 0 ==> pu[t] == pow(10, cfg.usd_decimals as nat)
        }),
{
    feed_laws::lemma_opening_prices(cfg, tokens, pairs, tokens.len() - 1, t);
    math::lemma_ten_to_fits(cfg.usd_decimals as int);
}

/// The bounds of a pool: what the least and the most whole USD buy at the opening price of the
/// base token, rounded down.
pub proof fn lemma_pool_bounds_are(
    cfg: GenerationConfig,
    tokens: Seq<Token>,
    pairs: Seq<TokenPair>,
    pu: Seq<u64>,
    x: int,
)
    requires
        0 <= x < pairs.len(),
        cfg.usd_decimals <= 19,
        volumes::boundable(cfg, tokens, pu, pairs[x]),
    ensures
        ({
            let base = pairs[x].base as int;
            let price = pu[base] as int;
            let one = pow(10, cfg.usd_decimals as nat);
            let unit = pow(10, tokens[base].decimals as nat);
            let lo = volumes::floors(cfg, tokens, pairs, pu)[x];
            let hi = volumes::caps(cfg, tokens, pairs, pu)[x];
            &&& lo * price <= cfg.volume_usd.min * one * unit < (lo + 1) * price
            &&& hi * price <= cfg.volume_usd.max * one * unit < (hi + 1) * price
        }),
{
    let base = pairs[x].base as int;
    let price = pu[base] as int;
    let one = pow(10, cfg.usd_decimals as nat);
    let unit = pow(10, tokens[base].decimals as nat);
    feed_laws::lemma_bounds_fit(cfg, tokens, pu, pairs[x]);
    vstd::arithmetic::power::lemma_pow_positive(10, cfg.usd_decimals as nat);
    vstd::arithmetic::power::lemma_pow_positive(10, tokens[base].decimals as nat);
    let a = cfg.volume_usd.min * one * unit;
    let b = cfg.volume_usd.max * one * unit;
    assert(a >= 0 && b >= 0) by (nonlinear_arith)
        requires
            a == cfg.volume_usd.min * one * unit,
            b == cfg.volume_usd.max * one * unit,
            one > 0,
            unit > 0,
    ;
    lemma_floor_is(a, price);
    lemma_floor_is(b, price);
}

/// A feed is made of its passes in turn: the events of the seed's plan in order of time, the
/// ticks that they emit, with the clusters drawn by the state that the plan left, and the
/// pools walked by the state that the clusters left. Tick `i` of the feed is numbered `i`, is
/// on the pair of tick `i` of the passes, shows its price and its pool, and comes as long
/// after the one before as the times of the two are apart.
pub proof fn lemma_feed_is_made_of_passes(
    cfg: GenerationConfig,
    market: MarketView,
    seed: u64,
    i: int,
)
    ensures
        ({
            let pu = emission::opening_prices(cfg, market.tokens, market.pairs);
            let plan = schedule::schedule_of(
                cfg,
                schedule::adjacency(market.tokens.len(), market.pairs),
                rng::seeded_state(seed),
            );
            let raw = emission::emitted(
                cfg,
                market.tokens,
                market.pairs,
                pu,
                emission::in_time_order(plan.events),
            );
            let (thin, mid) = dedupe::deduped(
                raw,
                market.pairs,
                plan.state,
                market.pairs.len() as int,
            );
            let (shown, _, _) = volumes::walked(
                cfg,
                thin,
                volumes::floors(cfg, market.tokens, market.pairs, pu),
                volumes::caps(cfg, market.tokens, market.pairs, pu),
                Seq::new(market.pairs.len(), |x: int| market.pairs[x].volume),
                mid,
                thin.len() as int,
            );
            let feed = generate_feed::feed_of(cfg, market, seed);
            &&& feed.len() == thin.len()
            &&& 0 <= i < feed.len() <= u64::MAX ==> {
                &&& feed[i].update.seq == i
                &&& feed[i].update.token_pair_id == market.pairs[thin[i].pair_idx as int].id
                &&& feed[i].update.price == thin[i].price
                &&& feed[i].update.volume == shown[i]
                &&& i == 0 ==> feed[i].delay_us == thin[i].t
                &&& i > 0 && thin[i - 1].t <= thin[i].t ==> feed[i].delay_us == thin[i].t - thin[i
                    - 1].t
            }
        }),
{
    let pools = Seq::new(market.pairs.len(), |x: int| market.pairs[x].volume);
    assert(pools =~= volumes::pools(market.pairs));
}

/// Whether pair `j` is among as many as there are tokens beside USD, of `n` tokens in all, and
/// has token `t` as base.
pub open spec fn lists(n: int, pairs: Seq<TokenPair>, j: int, t: int) -> bool {
    0 <= j < pairs.len() && j < n - 1 && pairs[j].base == t
}

/// The opening price of a token is that of the last pair that has it as base, among as many
/// pairs as there are tokens beside USD; where there is none, it is one USD.
pub proof fn lemma_opening_price_is_last_listed(
    cfg: GenerationConfig,
    tokens: Seq<Token>,
    pairs: Seq<TokenPair>,
    t: int,
    i: int,
)
    requires
        emission::pairs_known(tokens.len() as int, pairs),
        cfg.usd_decimals <= 19,
        0 <= t < tokens.len(),
    ensures
        ({
            let pu = emission::opening_prices(cfg, tokens, pairs);
            let n = tokens.len() as int;
            &&& pu.len() == n
            &&& (forall|j: int| !#[trigger] lists(n, pairs, j, t)) ==> pu[t] == pow(
                10,
                cfg.usd_decimals as nat,
            )
            &&& lists(n, pairs, i, t) && (forall|j: int| j > i ==> !#[trigger] lists(n, pairs, j, t))
                ==> pu[t] == pairs[i].price
        }),
{
    math::lemma_ten_to_fits(cfg.usd_decimals as int);
    let count = emission::usd_pair_count(tokens, pairs);
    let scale = generate_market::usd_scale(cfg) as u64;
    assert forall|j: int| 0 <= j < count && (#[trigger] pairs[j]).base == t implies lists(
        tokens.len() as int,
        pairs,
        j,
        t,
    ) by {}
    lemma_listed_price(scale, tokens.len(), pairs, count, t, i);
}

proof fn lemma_listed_price(scale: u64, n: nat, pairs: Seq<TokenPair>, k: int, t: int, i: int)
    requires
        emission::pairs_known(n as int, pairs),
        k <= pairs.len(),
        0 <= t < n,
    ensures
        ({
            let pu = emission::listed_prices(scale, n, pairs, k);
            &&& pu.len() == n
            &&& (forall|j: int| 0 <= j < k ==> (#[trigger] pairs[j]).base != t) ==> pu[t] == scale
            &&& 0 <= i < k && pairs[i].base == t && (forall|j: int|
                i < j < k ==> (#[trigger] pairs[j]).base != t) ==> pu[t] == pairs[i].price
        }),
    decreases k,
{
    if k > 0 {
        lemma_listed_price(scale, n, pairs, k - 1, t, i);
        assert(pairs[k - 1].base < n);
    }
}

/// Wherever a pool stood before a tick, it is afterwards where the draws move it, rounded
/// down, but neither below its floor nor above its cap.
pub proof fn lemma_pool_is_kept_in_bounds(
    cfg: GenerationConfig,
    ticks: Seq<Tick>,
    lo: Seq<u64>,
    hi: Seq<u64>,
    pools: Seq<u64>,
    state: u128,
    k: int,
)
    requires
        0 <= k < ticks.len(),
        forall|p: int| 0 <= p < ticks.len() ==> (#[trigger] ticks[p]).pair_idx < pools.len(),
    ensures
        ({
            let (_, before, mid) = volumes::walked(cfg, ticks, lo, hi, pools, state, k);
            let (_, after, _) = volumes::walked(cfg, ticks, lo, hi, pools, state, k + 1);
            let x = ticks[k].pair_idx as int;
            let (delta, s1) = rng::range_draw(
                mid,
                cfg.volume_perturb_bps.min,
                cfg.volume_perturb_bps.max,
            );
            let (word, _) = rng::word_draw(s1);
            let moved = before[x] * (if word < 0x8000_0000_0000_0000 {
                10_000 + delta
            } else {
                10_000 - delta
            }) / 10_000;
            &&& lo[x] <= hi[x] ==> lo[x] <= after[x] <= hi[x]
            &&& lo[x] <= moved <= hi[x] ==> after[x] == moved
            &&& moved < lo[x] <= hi[x] ==> after[x] == lo[x]
            &&& lo[x] <= hi[x] < moved ==> after[x] == hi[x]
        }),
{
    lemma_coin_gives_direction(cfg, ticks, lo, hi, pools, state, k);
}

} // verus!
