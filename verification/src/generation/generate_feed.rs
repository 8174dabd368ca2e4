//! Generation of the price feed.
//!
//! Generation has four passes: the schedule of all events; the ticks that they emit in
//! order of time; the clusters of rebalancing ticks; and the walk of the pools.
use super::config::GenerationConfig;
use super::dedupe;
use super::emission;
use super::emission::{Tick, BPS};
use super::feed_laws;
use super::generate_market;
use super::generate_market::GenerateError;
use super::math;
use super::rng;
use super::schedule;
use super::schedule::Event;
use super::volumes;
use crate::protocol::feed;
use crate::protocol::feed::{FeedTick, PriceUpdate};
use crate::protocol::market::{Market, MarketView, TokenPair, USD_TOKEN_ID};
use vstd::prelude::*;

verus! {

/// The feed that ticks and their pools make: each tick a delay after the one before.
pub open spec fn assembled(pairs: Seq<TokenPair>, ticks: Seq<Tick>, volumes: Seq<u64>) -> Seq<
    FeedTick,
> {
    Seq::new(
        ticks.len(),
        |i: int|
            FeedTick {
                delay_us: if i == 0 {
                    ticks[0].t
                } else {
                    (ticks[i].t - ticks[i - 1].t) as u64
                },
                update: PriceUpdate {
                    seq: i as u64,
                    token_pair_id: pairs[ticks[i].pair_idx as int].id,
                    price: ticks[i].price,
                    volume: volumes[i],
                },
            },
    )
}

/// The pairs of each token of a market.
pub open spec fn adjacency_of(market: MarketView) -> Seq<Seq<usize>> {
    schedule::adjacency(market.tokens.len(), market.pairs)
}

/// The schedule that a seed gives.
pub open spec fn plan_of(
    cfg: GenerationConfig,
    market: MarketView,
    seed: u64,
) -> schedule::Schedule {
    schedule::schedule_of(cfg, adjacency_of(market), rng::seeded_state(seed))
}

/// The ticks that a seed gives, before their clusters are drawn.
pub open spec fn raw_ticks(cfg: GenerationConfig, market: MarketView, seed: u64) -> Seq<Tick> {
    emission::emitted(
        cfg,
        market.tokens,
        market.pairs,
        emission::opening_prices(cfg, market.tokens, market.pairs),
        emission::in_time_order(plan_of(cfg, market, seed).events),
    )
}

/// The ticks that a seed gives once their clusters are drawn, and the state that is left.
pub open spec fn thin_ticks(cfg: GenerationConfig, market: MarketView, seed: u64) -> (
    Seq<Tick>,
    u128,
) {
    dedupe::deduped(
        raw_ticks(cfg, market, seed),
        market.pairs,
        plan_of(cfg, market, seed).state,
        market.pairs.len() as int,
    )
}

/// The feed that a seed gives.
pub open spec fn feed_of(cfg: GenerationConfig, market: MarketView, seed: u64) -> Seq<FeedTick> {
    let pu = emission::opening_prices(cfg, market.tokens, market.pairs);
    let (ticks, state) = thin_ticks(cfg, market, seed);
    let volumes = volumes::walked(
        cfg,
        ticks,
        volumes::floors(cfg, market.tokens, market.pairs, pu),
        volumes::caps(cfg, market.tokens, market.pairs, pu),
        volumes::pools(market.pairs),
        state,
        ticks.len() as int,
    ).0;
    assembled(market.pairs, ticks, volumes)
}

/// Whether a feed can be generated whatever is drawn, as long as its times fit: the market's
/// tokens and pairs fit together, the ranges hold something, and every product that is taken
/// fits a `u64`.
pub open spec fn feedable(cfg: GenerationConfig, market: MarketView) -> bool {
    let pu = emission::opening_prices(cfg, market.tokens, market.pairs);
    &&& market.tokens.len() >= 1
    &&& cfg.usd_decimals <= math::MAX_DECIMALS
    &&& generate_market::price_floor(cfg) <= u64::MAX
    &&& generate_market::price_cap(cfg) <= u64::MAX
    &&& emission::pairs_known(market.tokens.len() as int, market.pairs)
    &&& forall|i: int|
        0 <= i < market.pairs.len() ==> volumes::boundable(
            cfg,
            market.tokens,
            pu,
            #[trigger] market.pairs[i],
        )
    &&& cfg.arb_count > 0 ==> {
        &&& schedule::schedulable(cfg, adjacency_of(market))
        &&& emission::movable(cfg, market.tokens, market.pairs, pu)
        &&& cfg.volume_usd.min <= cfg.volume_usd.max
        &&& cfg.volume_perturb_bps.min <= cfg.volume_perturb_bps.max <= BPS
        &&& forall|i: int|
            0 <= i < market.pairs.len() ==> volumes::roomy(
                cfg,
                (#[trigger] market.pairs[i]).volume,
            )
        &&& forall|i: int|
            0 <= i < market.pairs.len() ==> volumes::roomy(
                cfg,
                #[trigger] volumes::caps(cfg, market.tokens, market.pairs, pu)[i],
            )
    }
}

/// Turns ticks into the feed.
fn assemble(pairs: &Vec<TokenPair>, ticks: &Vec<Tick>, volumes: &Vec<u64>) -> (r: Vec<FeedTick>)
    requires
        volumes@.len() == ticks@.len(),
        forall|p: int| 0 <= p < ticks@.len() ==> (#[trigger] ticks@[p]).pair_idx < pairs@.len(),
        forall|p: int, q: int|
            0 <= p <= q < ticks@.len() ==> (#[trigger] ticks@[p]).t <= (#[trigger] ticks@[q]).t,
    ensures
        r@ == assembled(pairs@, ticks@, volumes@),
{
    let mut feed: Vec<FeedTick> = Vec::new();
    let mut prev_t: u64 = 0;
    let mut i: usize = 0;
    while i < ticks.len()
        invariant
            i <= ticks@.len() == volumes@.len(),
            forall|p: int|
                0 <= p < ticks@.len() ==> (#[trigger] ticks@[p]).pair_idx < pairs@.len(),
            forall|p: int, q: int|
                0 <= p <= q < ticks@.len() ==> (#[trigger] ticks@[p]).t <= (
                #[trigger] ticks@[q]).t,
            prev_t == if i == 0 {
                0
            } else {
                ticks@[i - 1].t
            },
            feed@.len() == i,
            forall|j: int|
                0 <= j < i ==> #[trigger] feed@[j] == assembled(pairs@, ticks@, volumes@)[j],
        decreases ticks@.len() - i,
    {
        let tick = ticks[i];
        assert(tick == ticks@[i as int]);
        feed.push(
            FeedTick {
                delay_us: tick.t - prev_t,
                update: PriceUpdate {
                    seq: i as u64,
                    token_pair_id: pairs[tick.pair_idx].id,
                    price: tick.price,
                    volume: volumes[i],
                },
            },
        );
        prev_t = tick.t;
        i = i + 1;
    }
    assert(feed@ =~= assembled(pairs@, ticks@, volumes@));
    feed
}

/// What the rows of the table hold: the pairs that involve a token.
pub proof fn lemma_adjacent(pairs: Seq<TokenPair>, t: int, k: int)
    requires
        0 <= k <= pairs.len() <= usize::MAX,
    ensures
        forall|j: int|
            0 <= j < schedule::adjacent(pairs, t, k).len() ==> {
                let x = #[trigger] schedule::adjacent(pairs, t, k)[j];
                x < k && (pairs[x as int].base == t || pairs[x as int].quote == t)
            },
        forall|x: int|
            0 <= x < k && ((#[trigger] pairs[x]).base == t || (pairs[x].quote == t && t
                != USD_TOKEN_ID)) ==> schedule::adjacent(pairs, t, k).contains(x as usize),
    decreases k,
{
    if k > 0 {
        lemma_adjacent(pairs, t, k - 1);
        let before = schedule::adjacent(pairs, t, k - 1);
        let after = schedule::adjacent(pairs, t, k);
        assert forall|x: int|
            0 <= x < k && ((#[trigger] pairs[x]).base == t || (pairs[x].quote == t && t
                != USD_TOKEN_ID)) implies after.contains(x as usize) by {
            if x < k - 1 {
                assert(before.contains(x as usize));
                let j = choose|j: int| 0 <= j < before.len() && before[j] == x as usize;
                assert(after[j] == x as usize);
            } else {
                assert(after[after.len() - 1] == x as usize);
            }
        }
    }
}

/// Every event of a sound schedule is on a known pair.
proof fn lemma_emittable(
    cfg: GenerationConfig,
    market: MarketView,
    events: Seq<Event>,
    perm: Seq<int>,
    k: int,
)
    requires
        market.pairs.len() <= usize::MAX,
        schedule::sound_schedule(cfg, adjacency_of(market), events, k),
        emission::orders(events, perm),
    ensures
        emission::emittable(
            cfg,
            market.tokens.len() as int,
            market.pairs.len() as int,
            emission::arranged(events, perm),
        ),
{
    let adj = adjacency_of(market);
    let sorted = emission::arranged(events, perm);
    assert forall|i: int| 0 <= i < sorted.len() implies (#[trigger] sorted[i]).pair_idx()
        < market.pairs.len() && (sorted[i].kind is Mispricing ==> 1 <= sorted[i].kind->token
        < market.tokens.len() && sorted[i].kind->delta_bps <= cfg.price_perturb_bps.max) by {
        let p = perm[i];
        assert(schedule::charted(cfg, adj, events[p]));
        let token = if events[p].kind is Mispricing {
            events[p].kind->token as int
        } else {
            let m = choose|m: int| 0 <= m < p && #[trigger] schedule::causes(cfg, adj, events, m, p);
            assert(schedule::charted(cfg, adj, events[m]));
            events[m].kind->token as int
        };
        let row = adj[token];
        assert(row.contains(events[p].pair_idx()));
        lemma_adjacent(market.pairs, token, market.pairs.len() as int);
        let j = choose|j: int| 0 <= j < row.len() && row[j] == events[p].pair_idx();
        assert(row[j] < market.pairs.len());
    }
}

/// Generates the deterministic price feed that a configuration and a seed give on top of an
/// initial market.
///
/// The feed holds exactly `cfg.arb_count` mispricings. Time advances in windows of 1 ms;
/// each contributes `cfg.updates_per_ms` mispricings at random offsets. A mispricing moves
/// one token's USD price, shows on one random pair of the token at once, and on every other
/// pair of the token after a delay drawn from `cfg.rebalance_delay_us`.
///
/// The feed stalls only where the time of an event that was drawn does not fit a `u64`.
pub fn generate_feed(market: &Market, cfg: &GenerationConfig, seed: u64) -> (r: Result<
    Vec<FeedTick>,
    GenerateError,
>)
    requires
        feedable(*cfg, market@),
    ensures
        if plan_of(*cfg, market@, seed).stalled {
            r == Err::<Vec<FeedTick>, _>(GenerateError::Stalled)
        } else {
            r is Ok && r->Ok_0@ == feed_of(*cfg, market@, seed)
        },
        schedule::all_paired(adjacency_of(market@)) && schedule::horizon(*cfg) <= u64::MAX
            ==> r is Ok,
        r is Ok ==> feed_laws::sound_feed(*cfg, market@, r->Ok_0@),
        r is Ok ==> feed_laws::keeps_plan(
            *cfg,
            market@,
            plan_of(*cfg, market@, seed).events,
            r->Ok_0@,
        ),
{
    let ghost view = market@;
    assert(view.pairs.len() == market.pairs.len());
    let mut rng = rng::seed_rng(seed);
    let pu = emission::read_prices(cfg, &market.tokens, &market.pairs);
    let adj = schedule::build_adjacency(market.tokens.len(), &market.pairs);
    let (lo, hi) = volumes::volume_bounds(cfg, &market.tokens, &market.pairs, &pu);
    let mut events = match schedule::schedule_events(cfg, &adj, &mut rng) {
        Some(events) => events,
        None => return Err(GenerateError::Stalled),
    };
    let ghost planned = events@;
    assert(planned.len() == events.len());
    emission::order_events(&mut events);
    proof {
        let perm = emission::time_order(planned);
        lemma_emittable(*cfg, view, planned, perm, cfg.arb_count as int);
        assert(cfg.arb_count == 0 ==> events@.len() == 0) by {
            assert(0 * schedule::longest_row(adjacency_of(view)) == 0);
        }
    }
    let mut ticks = emission::emit(cfg, &market.tokens, &market.pairs, &pu, &events);
    let ghost raw = ticks@;
    dedupe::dedupe(&mut ticks, &market.pairs, &mut rng);
    let ghost thin = ticks@;
    assert forall|p: int| 0 <= p < thin.len() implies (#[trigger] thin[p]).pair_idx
        < market.pairs@.len() && thin[p].t == events@[p].t by {
        assert(dedupe::same_but_price(raw[p], thin[p]));
    }
    let shown = volumes::walk_volumes(cfg, &ticks, &lo, &hi, &market.pairs, &mut rng);
    let feed = assemble(&market.pairs, &ticks, &shown);
    proof {
        assert(feed_laws::staged(*cfg, view, planned, thin, shown@, feed@));
        feed_laws::lemma_sound_feed(*cfg, view, planned, thin, shown@, feed@);
    }
    Ok(feed)
}

} // verus!
