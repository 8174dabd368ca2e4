//! What holds of every generated feed, whatever was drawn.
use super::config::GenerationConfig;
use super::dedupe;
use super::emission;
use super::emission::{Tick, BPS};
use super::generate_feed;
use super::generate_market;
use super::math;
use super::schedule;
use super::schedule::Event;
use super::tick_laws;
use super::volumes;
use crate::protocol::feed;
use crate::protocol::feed::FeedTick;
use crate::protocol::market::{MarketView, Token, TokenPair, USD_TOKEN_ID};
use vstd::prelude::*;

verus! {

/// Whether a tick is one of pair `x`, with a pool in the range that the configuration gives
/// for the opening price of the pair's base token.
pub open spec fn ticks_pair(
    cfg: GenerationConfig,
    market: MarketView,
    tick: FeedTick,
    x: int,
) -> bool {
    let pu = emission::opening_prices(cfg, market.tokens, market.pairs);
    let pair = market.pairs[x];
    let decimals = market.tokens[pair.base as int].decimals as int;
    &&& 0 <= x < market.pairs.len()
    &&& tick.update.token_pair_id == pair.id
    &&& generate_market::volume_floor(cfg, decimals, pu[pair.base as int] as int)
        <= tick.update.volume <= generate_market::volume_cap(
        cfg,
        decimals,
        pu[pair.base as int] as int,
    )
}

/// Whether a tick is one of some pair of the market.
pub open spec fn on_known_pair(cfg: GenerationConfig, market: MarketView, tick: FeedTick) -> bool {
    exists|x: int| ticks_pair(cfg, market, tick, x)
}

/// Whether every tick on a USD pair shows a price in the configured range.
pub open spec fn usd_ticks_in_range(
    cfg: GenerationConfig,
    market: MarketView,
    feed: Seq<FeedTick>,
) -> bool {
    forall|i: int|
        0 <= i < feed.len() && (#[trigger] feed[i]).update.token_pair_id < market.tokens.len() - 1
            ==> generate_market::price_floor(cfg) <= feed[i].update.price
            <= generate_market::price_cap(cfg)
}

/// What holds of every feed: its updates are numbered in order; each is on a known pair,
/// with a pool in range; its duration fits; it holds at least one tick for each mispricing,
/// and at most as many as a token has pairs; on a market that starts out in range, USD
/// prices stay in range; a market that starts in equilibrium is in equilibrium again once
/// all of the feed has been replayed; on a laid out market every tick moves its pair's pool
/// by a step of the walk; and a single mispricing gives one tick on each pair of its token.
pub open spec fn sound_feed(
    cfg: GenerationConfig,
    market: MarketView,
    feed: Seq<FeedTick>,
) -> bool {
    let most = schedule::longest_row(generate_feed::adjacency_of(market));
    &&& cfg.arb_count <= feed.len() <= cfg.arb_count * most
    &&& forall|i: int| 0 <= i < feed.len() ==> (#[trigger] feed[i]).update.seq == i
    &&& forall|i: int| 0 <= i < feed.len() ==> on_known_pair(cfg, market, #[trigger] feed[i])
    &&& feed::elapsed(feed, feed.len() as int) <= u64::MAX
    &&& generate_market::laid_out(market.tokens, market.pairs)
        && generate_market::usd_prices_in_range(cfg, market.tokens, market.pairs)
        ==> usd_ticks_in_range(cfg, market, feed)
    &&& generate_market::laid_out(market.tokens, market.pairs) && generate_market::in_equilibrium(
        market.tokens,
        market.pairs,
    ) ==> generate_market::in_equilibrium(
        market.tokens,
        feed::replayed(market.pairs, feed, feed.len() as int),
    )
    &&& generate_market::laid_out(market.tokens, market.pairs) ==> forall|i: int|
        0 <= i < feed.len() ==> #[trigger] tick_laws::pool_steps(cfg, market, feed, i)
    &&& generate_market::laid_out(market.tokens, market.pairs) && cfg.arb_count == 1 ==> exists|
        t: int,
    | #[trigger]
        tick_laws::covers_row(market, feed, t)
}

/// Whether tick `i` of a feed carries out event `i`: at its time, on its pair, and, where
/// it is a mispricing, at the price that the moved USD prices give.
pub open spec fn carries_out(
    cfg: GenerationConfig,
    market: MarketView,
    events: Seq<Event>,
    feed: Seq<FeedTick>,
    i: int,
) -> bool {
    let pu = emission::opening_prices(cfg, market.tokens, market.pairs);
    let pair = market.pairs[events[i].pair_idx() as int];
    &&& feed::elapsed(feed, i + 1) == events[i].t
    &&& events[i].pair_idx() < market.pairs.len()
    &&& feed[i].update.token_pair_id == pair.id
    &&& events[i].kind is Mispricing ==> feed[i].update.price == emission::fair_price(
        pair,
        emission::prices_after(cfg, pu, events, i + 1),
        market.tokens,
    )
}

/// Whether a feed carries out planned events in order of time, and the plan holds exactly
/// the configured mispricings with their rebalancing events.
pub open spec fn keeps_plan(
    cfg: GenerationConfig,
    market: MarketView,
    planned: Seq<Event>,
    feed: Seq<FeedTick>,
) -> bool {
    &&& schedule::sound_schedule(
        cfg,
        generate_feed::adjacency_of(market),
        planned,
        cfg.arb_count as int,
    )
    &&& emission::orders(planned, emission::time_order(planned))
    &&& feed.len() == planned.len()
    &&& forall|i: int|
        0 <= i < feed.len() ==> #[trigger] carries_out(
            cfg,
            market,
            emission::in_time_order(planned),
            feed,
            i,
        )
}

/// How the stages of a feed hang together.
pub open spec fn staged(
    cfg: GenerationConfig,
    market: MarketView,
    planned: Seq<Event>,
    thin: Seq<Tick>,
    shown: Seq<u64>,
    feed: Seq<FeedTick>,
) -> bool {
    let pu = emission::opening_prices(cfg, market.tokens, market.pairs);
    let sorted = emission::in_time_order(planned);
    let raw = emission::emitted(cfg, market.tokens, market.pairs, pu, sorted);
    let lo = volumes::floors(cfg, market.tokens, market.pairs, pu);
    let hi = volumes::caps(cfg, market.tokens, market.pairs, pu);
    &&& market.pairs.len() <= usize::MAX
    &&& planned.len() <= u64::MAX
    &&& generate_feed::feedable(cfg, market)
    &&& schedule::sound_schedule(
        cfg,
        generate_feed::adjacency_of(market),
        planned,
        cfg.arb_count as int,
    )
    &&& emission::orders(planned, emission::time_order(planned))
    &&& emission::emittable(cfg, market.tokens.len() as int, market.pairs.len() as int, sorted)
    &&& thin.len() == raw.len()
    &&& forall|p: int|
        0 <= p < raw.len() ==> dedupe::same_but_price(raw[p], #[trigger] thin[p]) && dedupe::thins(
            raw,
            thin,
            market.pairs,
            p,
        )
    &&& shown.len() == thin.len()
    &&& forall|p: int|
        0 <= p < thin.len() ==> lo[thin[p].pair_idx as int] <= #[trigger] shown[p]
            <= hi[thin[p].pair_idx as int]
    &&& forall|p: int|
        0 <= p < thin.len() ==> #[trigger] volumes::steps_at(
            cfg,
            thin,
            lo,
            hi,
            volumes::pools(market.pairs),
            shown,
            p,
        )
    &&& feed == generate_feed::assembled(market.pairs, thin, shown)
}

proof fn lemma_elapsed(pairs: Seq<TokenPair>, thin: Seq<Tick>, shown: Seq<u64>, k: int)
    requires
        0 <= k <= thin.len(),
        forall|p: int, q: int|
            0 <= p <= q < thin.len() ==> (#[trigger] thin[p]).t <= (#[trigger] thin[q]).t,
    ensures
        feed::elapsed(generate_feed::assembled(pairs, thin, shown), k) == if k == 0 {
            0
        } else {
            thin[k - 1].t as int
        },
    decreases k,
{
    if k > 0 {
        lemma_elapsed(pairs, thin, shown, k - 1);
        if k > 1 {
            assert(thin[k - 2].t <= thin[k - 1].t);
        }
    }
}

/// The opening price of a token in a laid out market is that of its USD pair.
pub proof fn lemma_opening_prices(
    cfg: GenerationConfig,
    tokens: Seq<Token>,
    pairs: Seq<TokenPair>,
    k: int,
    t: int,
)
    requires
        generate_market::laid_out(tokens, pairs),
        0 <= k < tokens.len(),
        0 <= t < tokens.len(),
    ensures
        ({
            let scale = generate_market::usd_scale(cfg) as u64;
            let listed = emission::listed_prices(scale, tokens.len(), pairs, k);
            &&& listed.len() == tokens.len()
            &&& listed[t] == if 1 <= t <= k {
                pairs[t - 1].price
            } else {
                scale
            }
        }),
    decreases k,
{
    if k > 0 {
        lemma_opening_prices(cfg, tokens, pairs, k - 1, t);
        assert(pairs[k - 1].base == k);
    }
}

/// Whether every mispricing is one of `n` tokens.
spec fn tokens_known(n: int, events: Seq<Event>) -> bool {
    forall|i: int|
        0 <= i < events.len() && (#[trigger] events[i]).kind is Mispricing ==> events[i].kind->token
            < n
}

proof fn lemma_prices_len(cfg: GenerationConfig, pu: Seq<u64>, events: Seq<Event>, k: int)
    requires
        0 <= k <= events.len(),
        tokens_known(pu.len() as int, events),
    ensures
        emission::prices_after(cfg, pu, events, k).len() == pu.len(),
    decreases k,
{
    if k > 0 {
        lemma_prices_len(cfg, pu, events, k - 1);
    }
}

/// USD prices stay in range whatever events come.
proof fn lemma_prices_in_range(
    cfg: GenerationConfig,
    pu: Seq<u64>,
    events: Seq<Event>,
    k: int,
    t: int,
)
    requires
        0 <= k <= events.len(),
        1 <= t < pu.len(),
        tokens_known(pu.len() as int, events),
        0 <= generate_market::price_floor(cfg) <= pu[t] <= generate_market::price_cap(cfg)
            <= u64::MAX,
    ensures
        generate_market::price_floor(cfg) <= emission::prices_after(cfg, pu, events, k)[t]
            <= generate_market::price_cap(cfg),
    decreases k,
{
    if k > 0 {
        lemma_prices_in_range(cfg, pu, events, k - 1, t);
        lemma_prices_len(cfg, pu, events, k - 1);
    }
}

/// Whether a mispricing of some token moves the price of a pair.
spec fn moves(event: Event, pair: TokenPair) -> bool {
    event.kind is Mispricing && (event.kind->token == pair.base || (event.kind->token == pair.quote
        && pair.quote != USD_TOKEN_ID))
}

/// The fair price of a pair stands as long as no mispricing moves it.
proof fn lemma_quiet(
    cfg: GenerationConfig,
    tokens: Seq<Token>,
    pair: TokenPair,
    pu: Seq<u64>,
    events: Seq<Event>,
    from: int,
    to: int,
)
    requires
        0 <= from <= to <= events.len(),
        tokens_known(pu.len() as int, events),
        pair.base < pu.len(),
        pair.quote < pu.len(),
        forall|i: int| from <= i < to ==> !moves(#[trigger] events[i], pair),
    ensures
        emission::fair_price(pair, emission::prices_after(cfg, pu, events, to), tokens)
            == emission::fair_price(pair, emission::prices_after(cfg, pu, events, from), tokens),
    decreases to - from,
{
    if from < to {
        lemma_quiet(cfg, tokens, pair, pu, events, from, to - 1);
        lemma_prices_len(cfg, pu, events, to - 1);
        assert(!moves(events[to - 1], pair));
    }
}

/// A mispricing that moves a pair is shown on it, at once or later.
proof fn lemma_answered(
    cfg: GenerationConfig,
    market: MarketView,
    planned: Seq<Event>,
    i: int,
    x: int,
) -> (j: int)
    requires
        market.pairs.len() <= usize::MAX,
        schedule::sound_schedule(
            cfg,
            generate_feed::adjacency_of(market),
            planned,
            cfg.arb_count as int,
        ),
        emission::orders(planned, emission::time_order(planned)),
        0 <= i < planned.len(),
        0 <= x < market.pairs.len(),
        moves(emission::in_time_order(planned)[i], market.pairs[x]),
    ensures
        i <= j < planned.len(),
        emission::in_time_order(planned)[j].pair_idx() == x,
{
    let perm = emission::time_order(planned);
    let adj = generate_feed::adjacency_of(market);
    let p = perm[i];
    assert(schedule::charted(cfg, adj, planned[p]));
    let token = planned[p].kind->token as int;
    generate_feed::lemma_adjacent(market.pairs, token, market.pairs.len() as int);
    assert(market.pairs[x].base == token || market.pairs[x].quote == token);
    assert(adj[token].contains(x as usize));
    let n = choose|n: int| 0 <= n < adj[token].len() && adj[token][n] == x as usize;
    assert(schedule::answered(planned, p, adj[token][n]));
    let q = choose|q: int|
        p <= q < planned.len() && (#[trigger] planned[q]).pair_idx() == x as usize && planned[q].t
            >= planned[p].t;
    if q == p {
        i
    } else {
        emission::lemma_order_respects(planned, perm, i, q)
    }
}

/// The last of the first `k` ticks on the pair with number `x`, or -1.
spec fn last_on(feed: Seq<FeedTick>, x: int, k: int) -> int
    decreases k,
{
    if k <= 0 {
        -1
    } else if feed[k - 1].update.token_pair_id == x {
        k - 1
    } else {
        last_on(feed, x, k - 1)
    }
}

proof fn lemma_last_on(feed: Seq<FeedTick>, x: int, k: int)
    requires
        0 <= k <= feed.len(),
    ensures
        -1 <= last_on(feed, x, k) < k,
        last_on(feed, x, k) >= 0 ==> feed[last_on(feed, x, k)].update.token_pair_id == x,
        forall|i: int|
            last_on(feed, x, k) < i < k ==> (#[trigger] feed[i]).update.token_pair_id != x,
    decreases k,
{
    if k > 0 && feed[k - 1].update.token_pair_id != x {
        lemma_last_on(feed, x, k - 1);
    }
}

/// A replay leaves each pair with what its last tick shows.
proof fn lemma_replayed(pairs: Seq<TokenPair>, feed: Seq<FeedTick>, x: int, k: int)
    requires
        0 <= k <= feed.len(),
        0 <= x < pairs.len(),
        forall|i: int|
            0 <= i < feed.len() ==> (#[trigger] feed[i]).update.token_pair_id < pairs.len(),
    ensures
        ({
            let after = feed::replayed(pairs, feed, k);
            let last = last_on(feed, x, k);
            &&& after.len() == pairs.len()
            &&& after[x].base == pairs[x].base
            &&& after[x].quote == pairs[x].quote
            &&& after[x].price == if last >= 0 {
                feed[last].update.price
            } else {
                pairs[x].price
            }
        }),
    decreases k,
{
    if k > 0 {
        lemma_replayed(pairs, feed, x, k - 1);
        assert(feed[k - 1].update.token_pair_id < pairs.len());
    }
}

/// After the whole feed each pair shows the price that the last USD prices give.
proof fn lemma_settled(
    cfg: GenerationConfig,
    market: MarketView,
    planned: Seq<Event>,
    thin: Seq<Tick>,
    shown: Seq<u64>,
    feed: Seq<FeedTick>,
    x: int,
)
    requires
        staged(cfg, market, planned, thin, shown, feed),
        generate_market::laid_out(market.tokens, market.pairs),
        generate_market::in_equilibrium(market.tokens, market.pairs),
        0 <= x < market.pairs.len(),
    ensures
        ({
            let pu = emission::opening_prices(cfg, market.tokens, market.pairs);
            let sorted = emission::in_time_order(planned);
            let after = feed::replayed(market.pairs, feed, feed.len() as int);
            &&& after.len() == market.pairs.len()
            &&& after[x].base == market.pairs[x].base
            &&& after[x].quote == market.pairs[x].quote
            &&& after[x].price == emission::fair_price(
                market.pairs[x],
                emission::prices_after(cfg, pu, sorted, sorted.len() as int),
                market.tokens,
            )
        }),
{
    let tokens = market.tokens;
    let pairs = market.pairs;
    let pair = pairs[x];
    let pu = emission::opening_prices(cfg, tokens, pairs);
    let sorted = emission::in_time_order(planned);
    let raw = emission::emitted(cfg, tokens, pairs, pu, sorted);
    let n = sorted.len() as int;
    assert forall|i: int| 0 <= i < feed.len() implies (#[trigger] feed[i]).update.token_pair_id
        == sorted[i].pair_idx() && sorted[i].pair_idx() < pairs.len() by {
        assert(dedupe::same_but_price(raw[i], thin[i]));
        assert(sorted[i].pair_idx() < pairs.len());
        assert(pairs[sorted[i].pair_idx() as int].id == sorted[i].pair_idx());
    }
    lemma_replayed(pairs, feed, x, n);
    lemma_last_on(feed, x, n);
    let last = last_on(feed, x, n);
    assert forall|i: int| last + 1 <= i < n implies !moves(#[trigger] sorted[i], pair) by {
        if moves(sorted[i], pair) {
            let j = lemma_answered(cfg, market, planned, i, x);
            assert(feed[j].update.token_pair_id == x);
        }
    }
    lemma_quiet(cfg, tokens, pair, pu, sorted, last + 1, n);
    if last >= 0 {
        assert(dedupe::thins(raw, thin, pairs, last));
        if thin[last] != raw[last] {
            let q = choose|q: int|
                last < q < raw.len() && (#[trigger] raw[q]).pair_idx == raw[last].pair_idx;
            assert(sorted[q].pair_idx() == x);
            assert(feed[q].update.token_pair_id == x);
        }
        assert(cfg.arb_count > 0) by {
            if cfg.arb_count == 0 {
                assert(0 * schedule::longest_row(generate_feed::adjacency_of(market)) == 0);
            }
        }
        emission::lemma_movable_after(cfg, tokens, pairs, pu, sorted, last + 1);
        let now = emission::prices_after(cfg, pu, sorted, last + 1);
        assert(emission::priceable(pair, now, tokens));
        lemma_fair_fits(pair, now, tokens);
    } else {
        lemma_opening_prices(cfg, tokens, pairs, tokens.len() - 1, pair.base as int);
        lemma_opening_prices(cfg, tokens, pairs, tokens.len() - 1, pair.quote as int);
    }
}

proof fn lemma_fair_fits(pair: TokenPair, pu: Seq<u64>, tokens: Seq<Token>)
    requires
        emission::priceable(pair, pu, tokens),
    ensures
        0 <= emission::fair_price(pair, pu, tokens) <= u64::MAX,
{
    if pair.quote != USD_TOKEN_ID {
        let f = math::ten_to(tokens[pair.quote as int].decimals as int);
        math::lemma_ten_to_fits(tokens[pair.quote as int].decimals as int);
        let a = pu[pair.base as int] as int;
        let d = pu[pair.quote as int] as int;
        assert(a * f >= 0) by (nonlinear_arith)
            requires
                a >= 0,
                f >= 1,
        ;
        vstd::arithmetic::div_mod::lemma_div_pos_is_pos(a * f, d);
        vstd::arithmetic::div_mod::lemma_div_nonincreasing(a * f, d);
    }
}

/// The replay of a feed ends in equilibrium where it starts in equilibrium.
proof fn lemma_equilibrium(
    cfg: GenerationConfig,
    market: MarketView,
    planned: Seq<Event>,
    thin: Seq<Tick>,
    shown: Seq<u64>,
    feed: Seq<FeedTick>,
)
    requires
        staged(cfg, market, planned, thin, shown, feed),
        generate_market::laid_out(market.tokens, market.pairs),
        generate_market::in_equilibrium(market.tokens, market.pairs),
    ensures
        generate_market::in_equilibrium(
            market.tokens,
            feed::replayed(market.pairs, feed, feed.len() as int),
        ),
{
    let tokens = market.tokens;
    let pairs = market.pairs;
    let after = feed::replayed(pairs, feed, feed.len() as int);
    if pairs.len() > 0 {
        lemma_settled(cfg, market, planned, thin, shown, feed, 0);
    } else if feed.len() > 0 {
        assert(emission::in_time_order(planned)[0].pair_idx() < pairs.len());
    }
    assert forall|i: int| tokens.len() - 1 <= i < after.len() implies (#[trigger] after[i]).price
        == math::cross_price(
        after[after[i].base - 1].price as int,
        after[after[i].quote - 1].price as int,
        tokens[after[i].quote as int].decimals as int,
    ) by {
        lemma_settled(cfg, market, planned, thin, shown, feed, i);
        let base = pairs[i].base - 1;
        let quote = pairs[i].quote - 1;
        lemma_settled(cfg, market, planned, thin, shown, feed, base);
        lemma_settled(cfg, market, planned, thin, shown, feed, quote);
        assert(pairs[base].base == base + 1 && pairs[base].quote == USD_TOKEN_ID);
        assert(pairs[quote].base == quote + 1 && pairs[quote].quote == USD_TOKEN_ID);
    }
}

/// Ticks on USD pairs stay in range where the market starts in range.
proof fn lemma_usd_ticks(
    cfg: GenerationConfig,
    market: MarketView,
    planned: Seq<Event>,
    thin: Seq<Tick>,
    shown: Seq<u64>,
    feed: Seq<FeedTick>,
)
    requires
        staged(cfg, market, planned, thin, shown, feed),
        generate_market::laid_out(market.tokens, market.pairs),
        generate_market::usd_prices_in_range(cfg, market.tokens, market.pairs),
    ensures
        usd_ticks_in_range(cfg, market, feed),
{
    let tokens = market.tokens;
    let pairs = market.pairs;
    let pu = emission::opening_prices(cfg, tokens, pairs);
    let sorted = emission::in_time_order(planned);
    let raw = emission::emitted(cfg, tokens, pairs, pu, sorted);
    assert(generate_market::price_floor(cfg) >= 0) by {
        math::lemma_ten_to_fits(cfg.usd_decimals as int);
        let s = generate_market::usd_scale(cfg);
        assert(cfg.price_usd.min * s >= 0) by (nonlinear_arith)
            requires
                s >= 1,
        ;
    }
    assert forall|p: int, x: int|
        0 <= p < raw.len() && (#[trigger] raw[p]).pair_idx == x && #[trigger] pairs[x].quote
            == USD_TOKEN_ID && 0 <= x < tokens.len() - 1 implies generate_market::price_floor(cfg)
        <= raw[p].price <= generate_market::price_cap(cfg) by {
        let t = pairs[x].base as int;
        assert(pairs[x].base == x + 1);
        lemma_opening_prices(cfg, tokens, pairs, tokens.len() - 1, t);
        assert(pu[t] == pairs[x].price);
        lemma_prices_in_range(cfg, pu, sorted, p + 1, t);
    }
    assert forall|i: int|
        0 <= i < feed.len() && (#[trigger] feed[i]).update.token_pair_id < tokens.len()
            - 1 implies generate_market::price_floor(cfg) <= feed[i].update.price
        <= generate_market::price_cap(cfg) by {
        assert(dedupe::same_but_price(raw[i], thin[i]));
        assert(sorted[i].pair_idx() < pairs.len());
        let x = thin[i].pair_idx as int;
        assert(pairs[x].id == x);
        assert(pairs[x].quote == USD_TOKEN_ID);
        assert(raw[i].pair_idx == x);
        assert(dedupe::thins(raw, thin, pairs, i));
    }
}

/// A feed that is made in stages is sound and keeps its plan.
pub proof fn lemma_sound_feed(
    cfg: GenerationConfig,
    market: MarketView,
    planned: Seq<Event>,
    thin: Seq<Tick>,
    shown: Seq<u64>,
    feed: Seq<FeedTick>,
)
    requires
        staged(cfg, market, planned, thin, shown, feed),
    ensures
        sound_feed(cfg, market, feed),
        keeps_plan(cfg, market, planned, feed),
{
    let tokens = market.tokens;
    let pairs = market.pairs;
    let pu = emission::opening_prices(cfg, tokens, pairs);
    let perm = emission::time_order(planned);
    let sorted = emission::in_time_order(planned);
    let raw = emission::emitted(cfg, tokens, pairs, pu, sorted);
    if generate_market::laid_out(tokens, pairs) && generate_market::in_equilibrium(tokens, pairs) {
        lemma_equilibrium(cfg, market, planned, thin, shown, feed);
    }
    if generate_market::laid_out(tokens, pairs) && generate_market::usd_prices_in_range(
        cfg,
        tokens,
        pairs,
    ) {
        lemma_usd_ticks(cfg, market, planned, thin, shown, feed);
    }
    assert forall|p: int, q: int| 0 <= p <= q < thin.len() implies (#[trigger] thin[p]).t <= (
    #[trigger] thin[q]).t by {
        assert(dedupe::same_but_price(raw[p], thin[p]));
        assert(dedupe::same_but_price(raw[q], thin[q]));
        if p < q {
            assert(emission::precedes(planned, perm[p], perm[q]));
        }
    }
    lemma_elapsed(pairs, thin, shown, feed.len() as int);
    assert forall|i: int| 0 <= i < feed.len() implies on_known_pair(
        cfg,
        market,
        #[trigger] feed[i],
    ) by {
        assert(dedupe::same_but_price(raw[i], thin[i]));
        assert(sorted[i].pair_idx() < pairs.len());
        let x = thin[i].pair_idx as int;
        assert(volumes::boundable(cfg, tokens, pu, pairs[x]));
        assert(volumes::floors(cfg, tokens, pairs, pu)[x] <= shown[i]);
        lemma_bounds_fit(cfg, tokens, pu, pairs[x]);
        assert(ticks_pair(cfg, market, feed[i], x));
    }
    assert forall|i: int| 0 <= i < feed.len() implies #[trigger] carries_out(
        cfg,
        market,
        sorted,
        feed,
        i,
    ) by {
        assert(dedupe::same_but_price(raw[i], thin[i]));
        assert(sorted[i].pair_idx() < pairs.len());
        lemma_elapsed(pairs, thin, shown, i + 1);
        if sorted[i].kind is Mispricing {
            assert(dedupe::thins(raw, thin, pairs, i));
            assert(cfg.arb_count > 0) by {
                if cfg.arb_count == 0 {
                    assert(0 * schedule::longest_row(generate_feed::adjacency_of(market)) == 0);
                }
            }
            emission::lemma_movable_after(cfg, tokens, pairs, pu, sorted, i + 1);
            let now = emission::prices_after(cfg, pu, sorted, i + 1);
            let pair = pairs[sorted[i].pair_idx() as int];
            assert(emission::priceable(pair, now, tokens));
            lemma_fair_fits(pair, now, tokens);
        }
    }
    if generate_market::laid_out(tokens, pairs) {
        assert forall|i: int| 0 <= i < feed.len() implies #[trigger] tick_laws::pool_steps(
            cfg,
            market,
            feed,
            i,
        ) by {
            tick_laws::lemma_pool_steps(cfg, market, planned, thin, shown, feed, i);
        }
        if cfg.arb_count == 1 {
            let t = tick_laws::lemma_single_covers_row(cfg, market, planned, feed);
        }
    }
}

/// The bounds on a pool fit a `u64`.
pub(crate) proof fn lemma_bounds_fit(cfg: GenerationConfig, tokens: Seq<Token>, pu: Seq<u64>, pair: TokenPair)
    requires
        cfg.usd_decimals <= math::MAX_DECIMALS,
        volumes::boundable(cfg, tokens, pu, pair),
    ensures
        0 <= generate_market::volume_floor(
            cfg,
            tokens[pair.base as int].decimals as int,
            pu[pair.base as int] as int,
        ) <= u64::MAX,
        0 <= generate_market::volume_cap(
            cfg,
            tokens[pair.base as int].decimals as int,
            pu[pair.base as int] as int,
        ) <= u64::MAX,
{
    let f = math::ten_to(tokens[pair.base as int].decimals as int);
    let s = generate_market::usd_scale(cfg);
    let d = pu[pair.base as int] as int;
    math::lemma_ten_to_fits(tokens[pair.base as int].decimals as int);
    math::lemma_ten_to_fits(cfg.usd_decimals as int);
    let a = cfg.volume_usd.min as int;
    let b = cfg.volume_usd.max as int;
    assert(0 <= a * s * f && 0 <= b * s * f) by (nonlinear_arith)
        requires
            a >= 0,
            b >= 0,
            s >= 1,
            f >= 1,
    ;
    vstd::arithmetic::div_mod::lemma_div_pos_is_pos(a * s * f, d);
    vstd::arithmetic::div_mod::lemma_div_nonincreasing(a * s * f, d);
    vstd::arithmetic::div_mod::lemma_div_pos_is_pos(b * s * f, d);
    vstd::arithmetic::div_mod::lemma_div_nonincreasing(b * s * f, d);
}

/// In a laid out market every token has a pair, so the schedule does not stall as long as
/// there is time for all mispricings.
pub proof fn lemma_laid_out_is_paired(market: MarketView)
    requires
        generate_market::laid_out(market.tokens, market.pairs),
        market.pairs.len() <= usize::MAX,
    ensures
        schedule::all_paired(generate_feed::adjacency_of(market)),
{
    let adj = generate_feed::adjacency_of(market);
    assert forall|t: int| 1 <= t < adj.len() implies (#[trigger] adj[t]).len() > 0 by {
        generate_feed::lemma_adjacent(market.pairs, t, market.pairs.len() as int);
        assert(market.pairs[t - 1].base == t);
        assert(adj[t].contains((t - 1) as usize));
    }
}

/// Whether prices and pools that start in range can be perturbed: the perturbed numbers fit
/// a `u64`.
pub open spec fn leaves_room(cfg: GenerationConfig) -> bool {
    &&& cfg.updates_per_ms <= usize::MAX
    &&& generate_market::price_cap(cfg) * (BPS + cfg.price_perturb_bps.max) <= u64::MAX
    &&& cfg.volume_usd.max * math::ten_to(cfg.decimals.max as int) * (BPS
        + cfg.volume_perturb_bps.max) <= u64::MAX
}

/// The largest pool of a token that is worth at least one USD.
proof fn lemma_cap_bound(cfg: GenerationConfig, decimals: int, pu: int)
    requires
        cfg.usd_decimals <= math::MAX_DECIMALS,
        0 <= decimals <= cfg.decimals.max,
        generate_market::usd_scale(cfg) <= pu,
    ensures
        0 <= generate_market::volume_cap(cfg, decimals, pu) <= cfg.volume_usd.max * math::ten_to(
            cfg.decimals.max as int,
        ),
{
    let v = cfg.volume_usd.max as int;
    let s = generate_market::usd_scale(cfg);
    let f = math::ten_to(decimals);
    let g = math::ten_to(cfg.decimals.max as int);
    math::lemma_ten_to_fits(cfg.usd_decimals as int);
    math::lemma_ten_to_monotonic(decimals, cfg.decimals.max as int);
    assert(0 <= v * s * f <= v * f * pu) by (nonlinear_arith)
        requires
            v >= 0,
            f >= 1,
            1 <= s <= pu,
    ;
    vstd::arithmetic::div_mod::lemma_div_pos_is_pos(v * s * f, pu);
    vstd::arithmetic::div_mod::lemma_div_is_ordered(v * s * f, v * f * pu, pu);
    vstd::arithmetic::div_mod::lemma_div_multiples_vanish(v * f, pu);
    assert(pu * (v * f) == v * f * pu) by (nonlinear_arith);
    assert(v * f <= v * g) by (nonlinear_arith)
        requires
            v >= 0,
            f <= g,
    ;
}

/// On a market that was generated from a sane configuration a feed can be generated, as
/// long as the configuration leaves room for the perturbations.
pub proof fn lemma_generated_is_feedable(cfg: GenerationConfig, market: MarketView)
    requires
        cfg.sanity_error() is None,
        generate_market::generable(cfg),
        generate_market::sound_market(cfg, market),
        leaves_room(cfg),
        cfg.token_count >= 2,
    ensures
        generate_feed::feedable(cfg, market),
{
    let tokens = market.tokens;
    let pairs = market.pairs;
    let n = tokens.len() as int;
    let pu = emission::opening_prices(cfg, tokens, pairs);
    let s = generate_market::usd_scale(cfg);
    let floor = generate_market::price_floor(cfg);
    let cap = generate_market::price_cap(cfg);
    let dmax = cfg.decimals.max as int;
    let g = math::ten_to(dmax);
    math::lemma_ten_to_fits(cfg.usd_decimals as int);
    math::lemma_ten_to_fits(dmax);
    assert(s <= floor <= cap) by (nonlinear_arith)
        requires
            1 <= cfg.price_usd.min <= cfg.price_usd.max,
            s >= 1,
            floor == cfg.price_usd.min * s,
            cap == cfg.price_usd.max * s,
    ;
    lemma_opening_prices(cfg, tokens, pairs, n - 1, 0);
    assert forall|t: int| 1 <= t < n implies floor <= #[trigger] pu[t] <= cap by {
        lemma_opening_prices(cfg, tokens, pairs, n - 1, t);
        assert(pairs[t - 1].price >= floor);
    }
    let most = BPS + cfg.price_perturb_bps.max;
    let room = BPS + cfg.volume_perturb_bps.max;
    assert forall|t: int| 1 <= t < n implies 0 < #[trigger] pu[t] && pu[t] * most <= u64::MAX by {
        assert(pu[t] * most <= cap * most) by (nonlinear_arith)
            requires
                pu[t] <= cap,
                most >= 0,
        ;
    }
    assert forall|i: int| 0 <= i < pairs.len() implies 1 <= (#[trigger] pairs[i]).base < n
        && pairs[i].quote < n by {
        if i < n - 1 {
            assert(pairs[i].base == i + 1);
        }
    }
    assert forall|i: int| 0 <= i < pairs.len() implies volumes::boundable(
        cfg,
        tokens,
        pu,
        #[trigger] pairs[i],
    ) by {
        let base = pairs[i].base as int;
        let d = tokens[base].decimals as int;
        assert(tokens[base].decimals <= cfg.decimals.max);
        assert(pu[base] >= floor);
        math::lemma_ten_to_monotonic(d, dmax);
        let f = math::ten_to(d);
        let a = cfg.volume_usd.min as int;
        let b = cfg.volume_usd.max as int;
        assert(a * s * f <= b * s * g && b * s * f <= b * s * g) by (nonlinear_arith)
            requires
                0 <= a <= b,
                s >= 1,
                1 <= f <= g,
        ;
    }
    assert forall|i: int|
        0 <= i < pairs.len() && (#[trigger] pairs[i]).quote != USD_TOKEN_ID implies cap
        * math::ten_to(tokens[pairs[i].quote as int].decimals as int) <= u64::MAX by {
        let quote = pairs[i].quote as int;
        assert(i >= n - 1);
        assert(cfg.pair_count >= cfg.token_count);
        assert(tokens[quote].decimals <= cfg.decimals.max);
        let d = tokens[quote].decimals as int;
        math::lemma_ten_to_monotonic(d, dmax);
        let f = math::ten_to(d);
        assert(cap * f <= cap * g) by (nonlinear_arith)
            requires
                cap >= 0,
                f <= g,
        ;
    }
    assert forall|i: int| 0 <= i < pairs.len() implies #[trigger] emission::priceable(
        pairs[i],
        pu,
        tokens,
    ) by {
        let base = pairs[i].base as int;
        let quote = pairs[i].quote as int;
        assert(pu[base] <= cap);
        if pairs[i].quote != USD_TOKEN_ID {
            assert(tokens[quote].decimals <= cfg.decimals.max);
            assert(pu[quote] >= floor);
            let f = math::ten_to(tokens[quote].decimals as int);
            math::lemma_ten_to_fits(tokens[quote].decimals as int);
            assert(pu[base] * f <= cap * f) by (nonlinear_arith)
                requires
                    pu[base] <= cap,
                    f >= 1,
            ;
        }
    }
    assert forall|i: int| 0 <= i < pairs.len() implies volumes::roomy(
        cfg,
        (#[trigger] pairs[i]).volume,
    ) && volumes::roomy(cfg, volumes::caps(cfg, tokens, pairs, pu)[i]) by {
        let base = pairs[i].base as int;
        let d = tokens[base].decimals as int;
        assert(tokens[base].decimals <= cfg.decimals.max);
        assert(pu[base] >= floor);
        lemma_opening_prices(cfg, tokens, pairs, n - 1, base);
        lemma_cap_bound(cfg, d, pu[base] as int);
        let top = generate_market::volume_cap(cfg, d, pu[base] as int);
        let bound = cfg.volume_usd.max * g;
        assert(top * room <= bound * room) by (nonlinear_arith)
            requires
                top <= bound,
                room >= 0,
        ;
        assert(top <= top * room) by (nonlinear_arith)
            requires
                top >= 0,
                room >= 1,
        ;
        assert(pairs[i].volume * room <= top * room) by (nonlinear_arith)
            requires
                pairs[i].volume <= top,
                room >= 0,
        ;
    }
    assert forall|i: int| 0 <= i < pairs.len() implies volumes::roomy(
        cfg,
        #[trigger] volumes::caps(cfg, tokens, pairs, pu)[i],
    ) by {
        assert(volumes::roomy(cfg, pairs[i].volume));
    }
}

/// Whether a pair is one of a token.
pub open spec fn involves(pair: TokenPair, token: int) -> bool {
    pair.base == token || pair.quote == token
}

/// Whether tick `j` of a feed follows tick `i` after a delay in the configured range, both
/// on pairs of `token`.
pub open spec fn follows(
    cfg: GenerationConfig,
    market: MarketView,
    events: Seq<Event>,
    feed: Seq<FeedTick>,
    i: int,
    j: int,
    token: int,
) -> bool {
    let wait = feed::elapsed(feed, j + 1) - feed::elapsed(feed, i + 1);
    &&& cfg.rebalance_delay_us.min <= wait <= cfg.rebalance_delay_us.max
    &&& involves(market.pairs[events[i].pair_idx() as int], token)
    &&& involves(market.pairs[events[j].pair_idx() as int], token)
}

/// Every rebalancing tick follows the tick of an earlier mispricing after a delay in the
/// configured range, on a pair of the mispriced token.
pub proof fn lemma_rebalances_follow(
    cfg: GenerationConfig,
    market: MarketView,
    planned: Seq<Event>,
    feed: Seq<FeedTick>,
    j: int,
) -> (i: int)
    requires
        market.pairs.len() <= usize::MAX,
        keeps_plan(cfg, market, planned, feed),
        0 <= j < feed.len(),
        emission::in_time_order(planned)[j].kind is Rebalance,
    ensures
        0 <= i < j,
        emission::in_time_order(planned)[i].kind is Mispricing,
        follows(
            cfg,
            market,
            emission::in_time_order(planned),
            feed,
            i,
            j,
            emission::in_time_order(planned)[i].kind->token as int,
        ),
{
    let perm = emission::time_order(planned);
    let sorted = emission::in_time_order(planned);
    let adj = generate_feed::adjacency_of(market);
    let p = perm[j];
    assert(planned[p].kind is Rebalance);
    let m = choose|m: int| 0 <= m < p && #[trigger] schedule::causes(cfg, adj, planned, m, p);
    assert(perm.contains(m));
    let i = choose|i: int| 0 <= i < perm.len() && perm[i] == m;
    assert(i < j) by {
        assert(emission::precedes(planned, m, p));
        if j < i {
            assert(emission::precedes(planned, perm[j], perm[i]));
        }
    }
    let token = planned[m].kind->token as int;
    assert(schedule::charted(cfg, adj, planned[m]));
    generate_feed::lemma_adjacent(market.pairs, token, market.pairs.len() as int);
    let row = adj[token];
    let a = choose|a: int| 0 <= a < row.len() && row[a] == planned[m].pair_idx();
    let b = choose|b: int| 0 <= b < row.len() && row[b] == planned[p].pair_idx();
    assert(involves(market.pairs[row[a] as int], token));
    assert(involves(market.pairs[row[b] as int], token));
    assert(carries_out(cfg, market, sorted, feed, i));
    assert(carries_out(cfg, market, sorted, feed, j));
    i
}

/// Two mispricings count as two.
proof fn lemma_count_two(events: Seq<Event>, i: int, j: int)
    requires
        0 <= i < j < events.len(),
        events[i].kind is Mispricing,
        events[j].kind is Mispricing,
    ensures
        schedule::mispricing_count(events) >= 2,
    decreases events.len(),
{
    let rest = events.drop_last();
    assert(rest[i] == events[i]);
    if j < events.len() - 1 {
        assert(rest[j] == events[j]);
        lemma_count_two(rest, i, j);
    } else {
        lemma_count_one(rest, i);
    }
}

/// A mispricing is counted.
pub(crate) proof fn lemma_count_one(events: Seq<Event>, i: int)
    requires
        0 <= i < events.len(),
        events[i].kind is Mispricing,
    ensures
        schedule::mispricing_count(events) >= 1,
    decreases events.len(),
{
    let rest = events.drop_last();
    lemma_count_nonnegative(rest);
    if i < events.len() - 1 {
        assert(rest[i] == events[i]);
        lemma_count_one(rest, i);
    }
}

proof fn lemma_count_nonnegative(events: Seq<Event>)
    ensures
        schedule::mispricing_count(events) >= 0,
    decreases events.len(),
{
    if events.len() > 0 {
        lemma_count_nonnegative(events.drop_last());
    }
}

proof fn lemma_count_zero(events: Seq<Event>)
    requires
        forall|i: int| 0 <= i < events.len() ==> (#[trigger] events[i]).kind is Rebalance,
    ensures
        schedule::mispricing_count(events) == 0,
    decreases events.len(),
{
    if events.len() > 0 {
        assert(events.last().kind is Rebalance);
        assert forall|i: int| 0 <= i < events.drop_last().len() implies (
        #[trigger] events.drop_last()[i]).kind is Rebalance by {
            assert(events.drop_last()[i] == events[i]);
        }
        lemma_count_zero(events.drop_last());
    }
}

/// With a single mispricing the first tick shows it; all ticks are on pairs of the mispriced
/// token, and all others follow the first after a delay in the configured range. Where
/// every token has a pair, the first tick comes within the first window.
pub proof fn lemma_single_mispricing(
    cfg: GenerationConfig,
    market: MarketView,
    planned: Seq<Event>,
    feed: Seq<FeedTick>,
)
    requires
        market.pairs.len() <= usize::MAX,
        keeps_plan(cfg, market, planned, feed),
        cfg.arb_count == 1,
    ensures
        ({
            let sorted = emission::in_time_order(planned);
            &&& feed.len() >= 1
            &&& sorted[0].kind is Mispricing
            &&& involves(
                market.pairs[sorted[0].pair_idx() as int],
                sorted[0].kind->token as int,
            )
            &&& forall|j: int|
                1 <= j < feed.len() ==> #[trigger] follows(
                    cfg,
                    market,
                    sorted,
                    feed,
                    0,
                    j,
                    sorted[0].kind->token as int,
                )
            &&& cfg.updates_per_ms >= 1 && schedule::all_paired(
                generate_feed::adjacency_of(market),
            ) ==> feed::elapsed(feed, 1) < schedule::WINDOW_US
        }),
{
    let perm = emission::time_order(planned);
    let sorted = emission::in_time_order(planned);
    let adj = generate_feed::adjacency_of(market);
    if sorted[0].kind is Rebalance {
        let i = lemma_rebalances_follow(cfg, market, planned, feed, 0);
    }
    let m = perm[0];
    assert(planned[m] == sorted[0]);
    let token = planned[m].kind->token as int;
    assert(schedule::charted(cfg, adj, planned[m]));
    generate_feed::lemma_adjacent(market.pairs, token, market.pairs.len() as int);
    let row = adj[token];
    let a = choose|a: int| 0 <= a < row.len() && row[a] == planned[m].pair_idx();
    assert(involves(market.pairs[row[a] as int], token));
    assert forall|j: int| 1 <= j < feed.len() implies #[trigger] follows(
        cfg,
        market,
        sorted,
        feed,
        0,
        j,
        token,
    ) by {
        let p = perm[j];
        assert(emission::precedes(planned, perm[0], perm[j]));
        if sorted[j].kind is Mispricing {
            if m < p {
                lemma_count_two(planned, m, p);
            } else {
                lemma_count_two(planned, p, m);
            }
        }
        let i = lemma_rebalances_follow(cfg, market, planned, feed, j);
        if i != 0 {
            assert(emission::precedes(planned, perm[0], perm[i]));
            if m < perm[i] {
                lemma_count_two(planned, m, perm[i]);
            } else {
                lemma_count_two(planned, perm[i], m);
            }
        }
    }
    assert(carries_out(cfg, market, sorted, feed, 0));
    if cfg.updates_per_ms >= 1 && schedule::all_paired(adj) {
        let before = planned.take(m);
        assert forall|i: int| 0 <= i < before.len() implies (
        #[trigger] before[i]).kind is Rebalance by {
            if before[i].kind is Mispricing {
                lemma_count_two(planned, i, m);
            }
        }
        lemma_count_zero(before);
        assert(0int / cfg.updates_per_ms as int == 0) by (nonlinear_arith)
            requires
                cfg.updates_per_ms >= 1,
        ;
        assert(planned[m].t as int / schedule::WINDOW_US as int == 0);
    }
}

} // verus!
