//! How many ticks each pair of a generated feed gets, and how far each moves its pool.
use super::config::GenerationConfig;
use super::dedupe;
use super::emission;
use super::emission::{Tick, BPS};
use super::feed_laws;
use super::feed_stats;
use super::generate_feed;
use super::generate_market;
use super::schedule;
use super::schedule::{Event, EventKind};
use super::volumes;
use crate::protocol::feed;
use crate::protocol::feed::FeedTick;
use crate::protocol::market::{MarketView, TokenPair, USD_TOKEN_ID};
use vstd::prelude::*;

verus! {

/// Whether tick `i` of a feed moves its pair's pool, from where the ticks before left it, by
/// a number of basis points in the configured range, within the bounds that the opening
/// price of the pair's base token gives.
pub open spec fn pool_steps(
    cfg: GenerationConfig,
    market: MarketView,
    feed: Seq<FeedTick>,
    i: int,
) -> bool {
    let pu = emission::opening_prices(cfg, market.tokens, market.pairs);
    let x = feed[i].update.token_pair_id as int;
    let base = market.pairs[x].base as int;
    let decimals = market.tokens[base].decimals as int;
    volumes::steps(
        cfg,
        feed::replayed(market.pairs, feed, i)[x].volume,
        generate_market::volume_floor(cfg, decimals, pu[base] as int),
        generate_market::volume_cap(cfg, decimals, pu[base] as int),
        feed[i].update.volume,
    )
}

/// Whether a feed has exactly one tick on every pair of the token `t`, and none on others.
pub open spec fn covers_row(market: MarketView, feed: Seq<FeedTick>, t: int) -> bool {
    &&& 1 <= t < market.tokens.len()
    &&& forall|x: u64| #[trigger]
        feed_stats::ticks_on_pair(feed, x, feed.len() as int) == if x < market.pairs.len()
            && feed_laws::involves(market.pairs[x as int], t) {
            1int
        } else {
            0
        }
}

/// The elements of a list at the given indices.
spec fn picked(s: Seq<usize>, perm: Seq<int>) -> Seq<usize> {
    Seq::new(perm.len(), |i: int| s[perm[i]])
}

/// Another order keeps the elements.
proof fn lemma_permuted(s: Seq<usize>, perm: Seq<int>)
    requires
        perm.len() == s.len(),
        forall|i: int| 0 <= i < perm.len() ==> 0 <= #[trigger] perm[i] < s.len(),
        forall|i: int, j: int|
            0 <= i < j < perm.len() ==> #[trigger] perm[i] != #[trigger] perm[j],
        forall|k: int| 0 <= k < s.len() ==> #[trigger] perm.contains(k),
    ensures
        picked(s, perm).to_multiset() == s.to_multiset(),
    decreases s.len(),
{
    broadcast use vstd::seq_lib::group_to_multiset_ensures;

    let all = picked(s, perm);
    if s.len() == 0 {
        assert(all =~= s);
    } else {
        let n = s.len() - 1;
        assert(perm.contains(n));
        let j = choose|j: int| 0 <= j < perm.len() && perm[j] == n;
        let rest = perm.remove(j);
        let init = s.drop_last();
        assert forall|i: int| 0 <= i < rest.len() implies 0 <= #[trigger] rest[i] < init.len() by {
            let at = if i < j {
                i
            } else {
                i + 1
            };
            assert(rest[i] == perm[at]);
            if at < j {
                assert(perm[at] != perm[j]);
            } else {
                assert(perm[j] != perm[at]);
            }
        }
        assert forall|i: int, l: int| 0 <= i < l < rest.len() implies #[trigger] rest[i]
            != #[trigger] rest[l] by {
            let a = if i < j {
                i
            } else {
                i + 1
            };
            let b = if l < j {
                l
            } else {
                l + 1
            };
            assert(perm[a] != perm[b]);
        }
        assert forall|k: int| 0 <= k < init.len() implies #[trigger] rest.contains(k) by {
            assert(perm.contains(k));
            let at = choose|at: int| 0 <= at < perm.len() && perm[at] == k;
            let i = if at < j {
                at
            } else {
                at - 1
            };
            assert(rest[i] == k);
        }
        lemma_permuted(init, rest);
        assert(all.remove(j) =~= picked(init, rest));
        assert(all[j] == s[n]);
        assert(all.contains(s[n]));
        assert(all.to_multiset() =~= all.remove(j).to_multiset().insert(s[n]));
        assert(s =~= init.push(s[n]));
    }
}

/// The order of time keeps the pairs that events are on.
proof fn lemma_order_keeps_pairs(events: Seq<Event>, perm: Seq<int>)
    requires
        emission::orders(events, perm),
    ensures
        schedule::pairs_of(emission::arranged(events, perm)).to_multiset() == schedule::pairs_of(
            events,
        ).to_multiset(),
{
    let s = schedule::pairs_of(events);
    assert forall|i: int, j: int| 0 <= i < j < perm.len() implies #[trigger] perm[i]
        != #[trigger] perm[j] by {
        assert(emission::precedes(events, perm[i], perm[j]));
    }
    lemma_permuted(s, perm);
    assert(schedule::pairs_of(emission::arranged(events, perm)) =~= picked(s, perm));
}

/// Ticks are counted one by one.
proof fn lemma_ticks_counted(feed: Seq<FeedTick>, at: Seq<usize>, x: usize, k: int)
    requires
        0 <= k <= feed.len() == at.len(),
        forall|i: int| 0 <= i < feed.len() ==> (#[trigger] feed[i]).update.token_pair_id == at[i],
    ensures
        feed_stats::ticks_on_pair(feed, x as u64, k) == at.take(k).to_multiset().count(x),
    decreases k,
{
    broadcast use vstd::seq_lib::group_to_multiset_ensures;

    if k > 0 {
        lemma_ticks_counted(feed, at, x, k - 1);
        assert(at.take(k) =~= at.take(k - 1).push(at[k - 1]));
        assert(feed[k - 1].update.token_pair_id == at[k - 1]);
    } else {
        assert(at.take(0) =~= Seq::empty());
    }
}

/// A pair that no tick is on has no ticks.
proof fn lemma_no_ticks(feed: Seq<FeedTick>, x: u64, k: int)
    requires
        0 <= k <= feed.len(),
        forall|i: int| 0 <= i < feed.len() ==> (#[trigger] feed[i]).update.token_pair_id != x,
    ensures
        feed_stats::ticks_on_pair(feed, x, k) == 0,
    decreases k,
{
    if k > 0 {
        lemma_no_ticks(feed, x, k - 1);
        assert(feed[k - 1].update.token_pair_id != x);
    }
}

/// A row holds every pair of its token once, where no pair has the token on both sides.
proof fn lemma_row_count(pairs: Seq<TokenPair>, t: int, k: int, x: usize)
    requires
        0 <= k <= pairs.len() <= usize::MAX,
        t != USD_TOKEN_ID,
        forall|i: int| 0 <= i < pairs.len() ==> (#[trigger] pairs[i]).base != pairs[i].quote,
    ensures
        schedule::adjacent(pairs, t, k).to_multiset().count(x) == if x < k && feed_laws::involves(
            pairs[x as int],
            t,
        ) {
            1nat
        } else {
            0
        },
    decreases k,
{
    broadcast use vstd::seq_lib::group_to_multiset_ensures;

    if k > 0 {
        lemma_row_count(pairs, t, k - 1, x);
        assert(pairs[k - 1].base != pairs[k - 1].quote);
        let before = schedule::adjacent(pairs, t, k - 1);
        assert(before.push((k - 1) as usize).to_multiset() == before.to_multiset().insert(
            (k - 1) as usize,
        ));
    }
}

/// The number of mispricings, among events, of tokens of a pair.
pub open spec fn calls_for(events: Seq<Event>, pair: TokenPair) -> int
    decreases events.len(),
{
    if events.len() == 0 {
        0
    } else {
        calls_for(events.drop_last(), pair) + match events.last().kind {
            EventKind::Mispricing { token, .. } => if feed_laws::involves(pair, token as int) {
                1int
            } else {
                0
            },
            EventKind::Rebalance { .. } => 0int,
        }
    }
}

/// What is owed to a pair: one update for each mispricing of one of its tokens.
proof fn lemma_owed(cfg: GenerationConfig, market: MarketView, events: Seq<Event>, x: usize)
    requires
        market.pairs.len() <= usize::MAX,
        generate_market::laid_out(market.tokens, market.pairs),
        forall|p: int|
            0 <= p < events.len() ==> #[trigger] schedule::charted(
                cfg,
                generate_feed::adjacency_of(market),
                events[p],
            ),
    ensures
        schedule::owed(generate_feed::adjacency_of(market), events).count(x) == if x
            < market.pairs.len() {
            calls_for(events, market.pairs[x as int])
        } else {
            0
        },
    decreases events.len(),
{
    let adj = generate_feed::adjacency_of(market);
    let pairs = market.pairs;
    if events.len() > 0 {
        let rest = events.drop_last();
        assert forall|p: int| 0 <= p < rest.len() implies #[trigger] schedule::charted(
            cfg,
            adj,
            rest[p],
        ) by {
            assert(schedule::charted(cfg, adj, events[p]));
        }
        lemma_owed(cfg, market, rest, x);
        assert(schedule::charted(cfg, adj, events[events.len() - 1]));
        if events.last().kind is Mispricing {
            let t = events.last().kind->token as int;
            assert forall|i: int| 0 <= i < pairs.len() implies (#[trigger] pairs[i]).base
                != pairs[i].quote by {
                if i < market.tokens.len() - 1 {
                    assert(pairs[i].base == i + 1);
                }
            }
            lemma_row_count(pairs, t, pairs.len() as int, x);
        }
    }
}

/// In a laid out market every pair gets exactly one tick for each mispricing of one of its
/// tokens: the one that shows it at once, or a rebalancing one.
pub proof fn lemma_one_tick_per_call(
    cfg: GenerationConfig,
    market: MarketView,
    planned: Seq<Event>,
    feed: Seq<FeedTick>,
    x: u64,
)
    requires
        market.pairs.len() <= usize::MAX,
        generate_market::laid_out(market.tokens, market.pairs),
        feed_laws::keeps_plan(cfg, market, planned, feed),
    ensures
        feed_stats::ticks_on_pair(feed, x, feed.len() as int) == if x < market.pairs.len() {
            calls_for(planned, market.pairs[x as int])
        } else {
            0
        },
{
    let perm = emission::time_order(planned);
    let sorted = emission::in_time_order(planned);
    let at = schedule::pairs_of(sorted);
    assert forall|i: int| 0 <= i < feed.len() implies (#[trigger] feed[i]).update.token_pair_id
        == at[i] && at[i] < market.pairs.len() by {
        assert(feed_laws::carries_out(cfg, market, sorted, feed, i));
        assert(market.pairs[at[i] as int].id == at[i]);
    }
    lemma_order_keeps_pairs(planned, perm);
    if x < market.pairs.len() {
        lemma_ticks_counted(feed, at, x as usize, feed.len() as int);
        assert(at.take(feed.len() as int) =~= at);
        lemma_owed(cfg, market, planned, x as usize);
    } else {
        lemma_no_ticks(feed, x, feed.len() as int);
    }
}

proof fn lemma_calls_bound(events: Seq<Event>, pair: TokenPair)
    ensures
        0 <= calls_for(events, pair) <= schedule::mispricing_count(events),
    decreases events.len(),
{
    if events.len() > 0 {
        lemma_calls_bound(events.drop_last(), pair);
    }
}

/// A single mispricing calls for one update on each pair of its token.
proof fn lemma_single_call(events: Seq<Event>, m: int, pair: TokenPair)
    requires
        schedule::mispricing_count(events) == 1,
        0 <= m < events.len(),
        events[m].kind is Mispricing,
    ensures
        calls_for(events, pair) == if feed_laws::involves(pair, events[m].kind->token as int) {
            1int
        } else {
            0
        },
    decreases events.len(),
{
    let rest = events.drop_last();
    lemma_calls_bound(rest, pair);
    if m < events.len() - 1 {
        assert(rest[m] == events[m]);
        feed_laws::lemma_count_one(rest, m);
        lemma_single_call(rest, m, pair);
    }
}

/// Some event is a mispricing where they are counted.
proof fn lemma_has_mispricing(events: Seq<Event>) -> (m: int)
    requires
        schedule::mispricing_count(events) > 0,
    ensures
        0 <= m < events.len(),
        events[m].kind is Mispricing,
    decreases events.len(),
{
    if events.last().kind is Mispricing {
        events.len() - 1
    } else {
        lemma_has_mispricing(events.drop_last())
    }
}

/// With a single mispricing on a laid out market, every pair of the mispriced token gets
/// exactly one tick, and no other pair gets any.
pub proof fn lemma_single_covers_row(
    cfg: GenerationConfig,
    market: MarketView,
    planned: Seq<Event>,
    feed: Seq<FeedTick>,
) -> (t: int)
    requires
        market.pairs.len() <= usize::MAX,
        generate_market::laid_out(market.tokens, market.pairs),
        feed_laws::keeps_plan(cfg, market, planned, feed),
        cfg.arb_count == 1,
    ensures
        covers_row(market, feed, t),
{
    let m = lemma_has_mispricing(planned);
    let t = planned[m].kind->token as int;
    assert(schedule::charted(cfg, generate_feed::adjacency_of(market), planned[m]));
    assert forall|x: u64| #[trigger]
        feed_stats::ticks_on_pair(feed, x, feed.len() as int) == if x < market.pairs.len()
            && feed_laws::involves(market.pairs[x as int], t) {
            1int
        } else {
            0
        } by {
        lemma_one_tick_per_call(cfg, market, planned, feed, x);
        if x < market.pairs.len() {
            lemma_single_call(planned, m, market.pairs[x as int]);
        }
    }
    t
}

/// The pools that the ticks leave are those that a replay of the feed leaves.
proof fn lemma_pools_replayed(
    pairs: Seq<TokenPair>,
    thin: Seq<Tick>,
    shown: Seq<u64>,
    k: int,
    x: int,
)
    requires
        0 <= k <= thin.len() == shown.len(),
        0 <= x < pairs.len(),
        forall|i: int| 0 <= i < pairs.len() ==> (#[trigger] pairs[i]).id == i,
        forall|p: int| 0 <= p < thin.len() ==> (#[trigger] thin[p]).pair_idx < pairs.len(),
    ensures
        ({
            let after = feed::replayed(pairs, generate_feed::assembled(pairs, thin, shown), k);
            let left = volumes::pools_after(thin, shown, volumes::pools(pairs), k);
            &&& after.len() == pairs.len()
            &&& left.len() == pairs.len()
            &&& left[x] == after[x].volume
        }),
    decreases k,
{
    if k > 0 {
        lemma_pools_replayed(pairs, thin, shown, k - 1, x);
        let at = thin[k - 1].pair_idx as int;
        assert(pairs[at].id == at);
    }
}

/// In a feed that is made in stages on a laid out market every tick moves its pair's pool by
/// a step of the walk.
pub proof fn lemma_pool_steps(
    cfg: GenerationConfig,
    market: MarketView,
    planned: Seq<Event>,
    thin: Seq<Tick>,
    shown: Seq<u64>,
    feed: Seq<FeedTick>,
    i: int,
)
    requires
        feed_laws::staged(cfg, market, planned, thin, shown, feed),
        generate_market::laid_out(market.tokens, market.pairs),
        0 <= i < feed.len(),
    ensures
        pool_steps(cfg, market, feed, i),
{
    let tokens = market.tokens;
    let pairs = market.pairs;
    let pu = emission::opening_prices(cfg, tokens, pairs);
    let sorted = emission::in_time_order(planned);
    let raw = emission::emitted(cfg, tokens, pairs, pu, sorted);
    let lo = volumes::floors(cfg, tokens, pairs, pu);
    let hi = volumes::caps(cfg, tokens, pairs, pu);
    assert forall|p: int| 0 <= p < thin.len() implies (#[trigger] thin[p]).pair_idx
        < pairs.len() by {
        assert(dedupe::same_but_price(raw[p], thin[p]));
        assert(sorted[p].pair_idx() < pairs.len());
    }
    let x = thin[i].pair_idx as int;
    assert(pairs[x].id == x);
    lemma_pools_replayed(pairs, thin, shown, i, x);
    assert(volumes::steps_at(cfg, thin, lo, hi, volumes::pools(pairs), shown, i));
    assert(volumes::boundable(cfg, tokens, pu, pairs[x]));
    feed_laws::lemma_bounds_fit(cfg, tokens, pu, pairs[x]);
}

/// Where a laid out market starts with pools in range, they stay in range while a sound feed
/// is replayed.
proof fn lemma_pools_stay(
    cfg: GenerationConfig,
    market: MarketView,
    feed: Seq<FeedTick>,
    k: int,
    x: int,
)
    requires
        feed_laws::sound_feed(cfg, market, feed),
        generate_market::laid_out(market.tokens, market.pairs),
        generate_market::volumes_in_range(cfg, market.tokens, market.pairs),
        0 <= k <= feed.len(),
        0 <= x < market.pairs.len(),
    ensures
        ({
            let pu = emission::opening_prices(cfg, market.tokens, market.pairs);
            let base = market.pairs[x].base as int;
            let decimals = market.tokens[base].decimals as int;
            let after = feed::replayed(market.pairs, feed, k);
            &&& after.len() == market.pairs.len()
            &&& generate_market::volume_floor(cfg, decimals, pu[base] as int) <= after[x].volume
                <= generate_market::volume_cap(cfg, decimals, pu[base] as int)
        }),
    decreases k,
{
    let tokens = market.tokens;
    let pairs = market.pairs;
    if k == 0 {
        if x < tokens.len() - 1 {
            assert(pairs[x].base == x + 1);
        }
        let base = pairs[x].base as int;
        feed_laws::lemma_opening_prices(cfg, tokens, pairs, tokens.len() - 1, base);
    } else {
        lemma_pools_stay(cfg, market, feed, k - 1, x);
        let last = feed[k - 1];
        assert(feed_laws::on_known_pair(cfg, market, last));
        let y = choose|y: int| feed_laws::ticks_pair(cfg, market, last, y);
        assert(pairs[y].id == y);
    }
}

/// On a laid out market that starts with pools in range, every tick of a sound feed changes
/// its pair's pool by no more than the largest configured number of basis points, and keeps
/// it in the range that the opening prices give.
pub proof fn lemma_pools_walk(
    cfg: GenerationConfig,
    market: MarketView,
    feed: Seq<FeedTick>,
    i: int,
)
    requires
        feed_laws::sound_feed(cfg, market, feed),
        generate_market::laid_out(market.tokens, market.pairs),
        generate_market::volumes_in_range(cfg, market.tokens, market.pairs),
        cfg.volume_perturb_bps.max <= BPS,
        0 <= i < feed.len(),
    ensures
        ({
            let pu = emission::opening_prices(cfg, market.tokens, market.pairs);
            let x = feed[i].update.token_pair_id as int;
            let base = market.pairs[x].base as int;
            let decimals = market.tokens[base].decimals as int;
            let before = feed::replayed(market.pairs, feed, i)[x].volume;
            let most = cfg.volume_perturb_bps.max;
            &&& generate_market::volume_floor(cfg, decimals, pu[base] as int)
                <= feed[i].update.volume <= generate_market::volume_cap(
                cfg,
                decimals,
                pu[base] as int,
            )
            &&& before * (BPS - most) / BPS as int <= feed[i].update.volume <= before * (BPS + most)
                / BPS as int
        }),
{
    let pu = emission::opening_prices(cfg, market.tokens, market.pairs);
    assert(feed_laws::on_known_pair(cfg, market, feed[i]));
    let x = choose|x: int| feed_laws::ticks_pair(cfg, market, feed[i], x);
    assert(market.pairs[x].id == x);
    let base = market.pairs[x].base as int;
    let decimals = market.tokens[base].decimals as int;
    lemma_pools_stay(cfg, market, feed, i, x);
    assert(pool_steps(cfg, market, feed, i));
    volumes::lemma_step_is_small(
        cfg,
        feed::replayed(market.pairs, feed, i)[x].volume,
        generate_market::volume_floor(cfg, decimals, pu[base] as int),
        generate_market::volume_cap(cfg, decimals, pu[base] as int),
        feed[i].update.volume,
    );
}

} // verus!
