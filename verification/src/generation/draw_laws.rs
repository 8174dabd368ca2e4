//! Which draw of the generator decides what: draws are taken one after the other, and each
//! is used for one thing.
use super::config::GenerationConfig;
use super::dedupe;
use super::emission::Tick;
use super::generate_market;
use super::rng;
use super::schedule;
use super::schedule::{Event, EventKind};
use crate::protocol::market::{Token, TokenPair};
use vstd::arithmetic::power::pow;
use vstd::prelude::*;

verus! {

/// Whether every draw lies in the range that it is drawn from.
pub open spec fn draws_in_range() -> bool {
    forall|state: u128, lo: u64, hi: u64|
        lo <= hi ==> lo <= (#[trigger] rng::range_draw(state, lo, hi)).0 <= hi
}

/// Several draws from a range are single ones, each in the state that the one before left.
pub proof fn lemma_draws_in_turn(state: u128, lo: u64, hi: u64, n: nat)
    ensures
        rng::range_draws(state, lo, hi, 0) == (Seq::<u64>::empty(), state),
        rng::range_draws(state, lo, hi, n).0.len() == n,
        ({
            let (values, mid) = rng::range_draws(state, lo, hi, n);
            let (value, next) = rng::range_draw(mid, lo, hi);
            rng::range_draws(state, lo, hi, n + 1) == (values.push(value), next)
        }),
    decreases n,
{
    if n > 0 {
        lemma_draws_in_turn(state, lo, hi, (n - 1) as nat);
    }
}

/// A coin shows heads for the lower half of all words.
pub proof fn lemma_coin_is_fair(state: u128)
    ensures
        rng::coin_draw(state).0 <==> rng::word_draw(state).0 < 0x8000_0000_0000_0000,
        rng::coin_draw(state).1 == rng::word_draw(state).1,
{
}

/// Where pairs were left out for the one that shows a mispricing, each other pair of the
/// token follows after a delay that is drawn for it alone.
pub proof fn lemma_each_pair_has_its_delay(
    cfg: GenerationConfig,
    row: Seq<usize>,
    main_pos: int,
    t_m: u64,
    state: u128,
    i: nat,
)
    requires
        i < row.len(),
    ensures
        schedule::rebalances(cfg, row, main_pos, t_m, state, 0) == (Seq::<Event>::empty(), state),
        ({
            let (events, mid) = schedule::rebalances(cfg, row, main_pos, t_m, state, i);
            let (more, end) = schedule::rebalances(cfg, row, main_pos, t_m, state, i + 1);
            let (delay, next) = rng::range_draw(
                mid,
                cfg.rebalance_delay_us.min,
                cfg.rebalance_delay_us.max,
            );
            &&& i == main_pos ==> more == events && end == mid
            &&& i != main_pos ==> {
                &&& end == next
                &&& more.len() == events.len() + 1
                &&& forall|p: int| 0 <= p < events.len() ==> #[trigger] more[p] == events[p]
                &&& more.last().kind == (EventKind::Rebalance { pair_idx: row[i as int] })
                &&& t_m + delay <= u64::MAX ==> more.last().t == t_m + delay
            }
        }),
{
}

/// The number of pairs that follow.
proof fn lemma_rebalances_len(
    cfg: GenerationConfig,
    row: Seq<usize>,
    main_pos: int,
    t_m: u64,
    state: u128,
    i: nat,
)
    requires
        i <= row.len(),
        0 <= main_pos,
    ensures
        schedule::rebalances(cfg, row, main_pos, t_m, state, i).0.len() == if main_pos < i {
            i - 1
        } else {
            i as int
        },
    decreases i,
{
    if i > 0 {
        lemma_rebalances_len(cfg, row, main_pos, t_m, state, (i - 1) as nat);
    }
}

/// A mispricing draws, in this order, its token, the pair of the token that shows it at once,
/// by how much the price changes, and the coin that tells whether it rises; the other pairs
/// of the token follow. A token without pairs draws nothing more.
pub proof fn lemma_mispricing_draws(
    cfg: GenerationConfig,
    adj: Seq<Seq<usize>>,
    t_m: u64,
    state: u128,
)
    requires
        2 <= adj.len() <= usize::MAX,
    ensures
        draws_in_range() ==> ({
            let (block, end, late) = schedule::mispricing(cfg, adj, t_m, state);
            let (token, s1) = rng::range_draw(state, 1, (adj.len() - 1) as u64);
            let row = adj[token as int];
            let (main_pos, s2) = rng::range_draw(s1, 0, (row.len() - 1) as u64);
            let (delta, s3) = rng::range_draw(
                s2,
                cfg.price_perturb_bps.min,
                cfg.price_perturb_bps.max,
            );
            let (word, s4) = rng::word_draw(s3);
            let rest = schedule::rebalances(cfg, row, main_pos as int, t_m, s4, row.len());
            &&& row.len() == 0 ==> block.len() == 0 && end == s1 && !late
            &&& 0 < row.len() <= usize::MAX ==> {
                &&& block.len() == row.len()
                &&& block[0].t == t_m
                &&& block[0].kind is Mispricing
                &&& block[0].kind->token == token
                &&& block[0].kind->main_pair_idx == row[main_pos as int]
                &&& block[0].kind->delta_bps == delta
                &&& block[0].kind->sign_positive <==> word < 0x8000_0000_0000_0000
                &&& block.skip(1) == rest.0
                &&& end == rest.1
            }
        }),
{
    let (token, s1) = rng::range_draw(state, 1, (adj.len() - 1) as u64);
    let row = adj[token as int];
    if draws_in_range() && 0 < row.len() <= usize::MAX {
        let (main_pos, s2) = rng::range_draw(s1, 0, (row.len() - 1) as u64);
        let (delta, s3) = rng::range_draw(
            s2,
            cfg.price_perturb_bps.min,
            cfg.price_perturb_bps.max,
        );
        let (word, s4) = rng::word_draw(s3);
        lemma_rebalances_len(cfg, row, main_pos as int, t_m, s4, row.len());
        let rest = schedule::rebalances(cfg, row, main_pos as int, t_m, s4, row.len());
        assert(schedule::mispricing(cfg, adj, t_m, state).0.skip(1) =~= rest.0);
    }
}

/// Sorting keeps the numbers and puts them in ascending order.
pub proof fn lemma_ascending_is(s: Seq<u64>)
    ensures
        schedule::ascending(s).to_multiset() == s.to_multiset(),
        schedule::ascending(s).len() == s.len(),
        forall|i: int, j: int|
            0 <= i <= j < s.len() ==> #[trigger] schedule::ascending(s)[i]
                <= #[trigger] schedule::ascending(s)[j],
{
    broadcast use vstd::seq_lib::group_to_multiset_ensures;

    let leq = |a: u64, b: u64| a <= b;
    assert(vstd::relations::total_ordering(leq));
    s.lemma_sort_by_ensures(leq);
    assert(s.len() == s.to_multiset().len());
    let r = schedule::ascending(s);
    assert(r.len() == r.to_multiset().len());
    assert forall|i: int, j: int| 0 <= i <= j < s.len() implies #[trigger] r[i]
        <= #[trigger] r[j] by {
        if i < j {
            assert(leq(r[i], r[j]));
        }
    }
}

/// One slot of the schedule: each window of 1 ms begins with the draw of an offset below
/// 1 ms for each of its slots, which then come in ascending order; slot `k` is due at its
/// offset in window `k / updates_per_ms`, and holds one mispricing. Once there are enough
/// mispricings, nothing more is drawn.
pub proof fn lemma_slot_is(cfg: GenerationConfig, adj: Seq<Seq<usize>>, state: u128, k: nat)
    requires
        cfg.updates_per_ms >= 1,
    ensures
        ({
            let first = schedule::scheduled(cfg, adj, state, 0);
            &&& first.events.len() == 0
            &&& first.mispricings == 0
            &&& first.state == state
            &&& !first.stalled
        }),
        ({
            let before = schedule::scheduled(cfg, adj, state, k);
            let after = schedule::scheduled(cfg, adj, state, k + 1);
            let per_window = cfg.updates_per_ms as int;
            let (drawn, redrawn) = rng::range_draws(before.state, 0, 999, per_window as nat);
            let mid = if k as int % per_window == 0 {
                redrawn
            } else {
                before.state
            };
            let due = (k as int / per_window) * 1_000 + after.offsets[k as int % per_window];
            let (block, end, late) = schedule::mispricing(cfg, adj, due as u64, mid);
            &&& before.mispricings >= cfg.arb_count || before.stalled ==> after == before
            &&& before.mispricings < cfg.arb_count && !before.stalled ==> {
                &&& k as int % per_window == 0 ==> {
                    &&& after.offsets.to_multiset() == drawn.to_multiset()
                    &&& forall|i: int, j: int|
                        0 <= i <= j < after.offsets.len() ==> #[trigger] after.offsets[i]
                            <= #[trigger] after.offsets[j]
                }
                &&& k as int % per_window != 0 ==> after.offsets == before.offsets
                &&& after.events == before.events + block
                &&& after.state == end
                &&& block.len() > 0 ==> after.mispricings == before.mispricings + 1
                &&& block.len() == 0 ==> after.mispricings == before.mispricings
                &&& after.stalled <==> due > u64::MAX || late
            }
        }),
{
    let before = schedule::scheduled(cfg, adj, state, k);
    let (drawn, redrawn) = rng::range_draws(before.state, 0, 999, cfg.updates_per_ms as nat);
    lemma_ascending_is(drawn);
}

/// Ticks behind entry `j` do not depend on those before it.
proof fn lemma_deduped_local(
    a: Seq<Tick>,
    b: Seq<Tick>,
    at: Seq<usize>,
    j: int,
    prev: u64,
    state: u128,
)
    requires
        draws_in_range(),
        dedupe::ascends(a, at),
        a.len() == b.len(),
        0 <= j <= at.len() <= usize::MAX,
        forall|k: int| j <= k < at.len() ==> a[#[trigger] at[k] as int] == b[at[k] as int],
    ensures
        ({
            let (ra, sa) = dedupe::deduped_from(a, at, j, prev, state);
            let (rb, sb) = dedupe::deduped_from(b, at, j, prev, state);
            &&& sa == sb
            &&& ra.len() == a.len()
            &&& rb.len() == b.len()
            &&& forall|k: int| j <= k < at.len() ==> ra[#[trigger] at[k] as int] == rb[at[k] as int]
        }),
    decreases at.len() - j,
{
    if j < at.len() {
        let cur = a[at[j] as int];
        assert(cur == b[at[j] as int]);
        if cur.is_main {
            lemma_deduped_local(a, b, at, j + 1, cur.price, state);
            lemma_deduped_keeps(a, at, j + 1, cur.price, state, at[j] as int);
            lemma_deduped_keeps(b, at, j + 1, cur.price, state, at[j] as int);
        } else {
            lemma_cluster_end_local(a, b, at, j + 1, cur.price);
            let e = dedupe::cluster_end(a, at, j + 1, cur.price);
            dedupe::lemma_cluster_end(a, at, j + 1, cur.price);
            let spread = e - j >= 2 && cur.price != prev;
            let (keep, next) = rng::range_draw(state, 0, (e - j - 1) as u64);
            let (a2, b2, s2) = if spread {
                (
                    dedupe::repriced(a, at, j, j + keep, prev),
                    dedupe::repriced(b, at, j, j + keep, prev),
                    next,
                )
            } else {
                (a, b, state)
            };
            if spread {
                assert(0 <= rng::range_draw(state, 0, (e - j - 1) as u64).0 <= e - j - 1);
                lemma_repriced_local(a, b, at, j, j + keep, prev);
            }
            lemma_deduped_local(a2, b2, at, e, cur.price, s2);
            assert forall|k: int| j <= k < at.len() implies dedupe::deduped_from(
                a2,
                at,
                e,
                cur.price,
                s2,
            ).0[#[trigger] at[k] as int] == dedupe::deduped_from(
                b2,
                at,
                e,
                cur.price,
                s2,
            ).0[at[k] as int] by {
                if k < e {
                    lemma_deduped_keeps(a2, at, e, cur.price, s2, at[k] as int);
                    lemma_deduped_keeps(b2, at, e, cur.price, s2, at[k] as int);
                }
            }
        }
    }
}

proof fn lemma_cluster_end_local(
    a: Seq<Tick>,
    b: Seq<Tick>,
    at: Seq<usize>,
    j: int,
    price: u64,
)
    requires
        0 <= j <= at.len(),
        forall|k: int| j <= k < at.len() ==> a[#[trigger] at[k] as int] == b[at[k] as int],
    ensures
        dedupe::cluster_end(a, at, j, price) == dedupe::cluster_end(b, at, j, price),
    decreases at.len() - j,
{
    if j < at.len() {
        assert(a[at[j] as int] == b[at[j] as int]);
        lemma_cluster_end_local(a, b, at, j + 1, price);
    }
}

/// Repricing changes the same entries of both lists.
proof fn lemma_repriced_local(
    a: Seq<Tick>,
    b: Seq<Tick>,
    at: Seq<usize>,
    from: int,
    to: int,
    price: u64,
)
    requires
        dedupe::ascends(a, at),
        a.len() == b.len(),
        0 <= from <= to <= at.len(),
        forall|k: int| from <= k < at.len() ==> a[#[trigger] at[k] as int] == b[at[k] as int],
    ensures
        dedupe::repriced(a, at, from, to, price).len() == a.len(),
        dedupe::repriced(b, at, from, to, price).len() == b.len(),
        forall|k: int|
            from <= k < at.len() ==> dedupe::repriced(a, at, from, to, price)[#[trigger] at[k] as int]
                == dedupe::repriced(b, at, from, to, price)[at[k] as int],
    decreases to - from,
{
    if from < to {
        lemma_repriced_local(a, b, at, from, to - 1, price);
        assert(at[to - 1] < a.len());
        assert(a[at[to - 1] as int] == b[at[to - 1] as int]);
    }
}

/// Only ticks at the entries from `i` on may change.
proof fn lemma_deduped_keeps(
    ticks: Seq<Tick>,
    at: Seq<usize>,
    i: int,
    prev: u64,
    state: u128,
    p: int,
)
    requires
        draws_in_range(),
        dedupe::ascends(ticks, at),
        0 <= i <= at.len() <= usize::MAX,
        0 <= p < ticks.len(),
        forall|k: int| i <= k < at.len() ==> #[trigger] at[k] != p,
    ensures
        dedupe::deduped_from(ticks, at, i, prev, state).0.len() == ticks.len(),
        dedupe::deduped_from(ticks, at, i, prev, state).0[p] == ticks[p],
    decreases at.len() - i,
{
    if i < at.len() {
        let cur = ticks[at[i] as int];
        if cur.is_main {
            lemma_deduped_keeps(ticks, at, i + 1, cur.price, state, p);
        } else {
            let j = dedupe::cluster_end(ticks, at, i + 1, cur.price);
            dedupe::lemma_cluster_end(ticks, at, i + 1, cur.price);
            if j - i >= 2 && cur.price != prev {
                let (keep, next) = rng::range_draw(state, 0, (j - i - 1) as u64);
                assert(0 <= rng::range_draw(state, 0, (j - i - 1) as u64).0 <= j - i - 1);
                dedupe::lemma_repriced(ticks, at, i, i + keep, prev);
                let after = dedupe::repriced(ticks, at, i, i + keep, prev);
                if after[p] != ticks[p] {
                    let k = choose|k: int| i <= k < i + keep && #[trigger] at[k] == p;
                    assert(at[k] != p);
                }
                lemma_deduped_keeps(
                    dedupe::repriced(ticks, at, i, i + keep, prev),
                    at,
                    j,
                    cur.price,
                    next,
                    p,
                );
            } else {
                lemma_deduped_keeps(ticks, at, j, cur.price, state, p);
            }
        }
    }
}

/// A tick that shows a mispricing stays as it is, and the ticks of its pair behind it are
/// drawn as if it were the price that the pair showed last.
pub proof fn lemma_main_tick_stays(
    ticks: Seq<Tick>,
    at: Seq<usize>,
    i: int,
    prev: u64,
    state: u128,
)
    requires
        dedupe::ascends(ticks, at),
        0 <= i < at.len() <= usize::MAX,
        ticks[at[i] as int].is_main,
    ensures
        draws_in_range() ==> dedupe::deduped_from(ticks, at, i, prev, state).0[at[i] as int]
            == ticks[at[i] as int],
        dedupe::deduped_from(ticks, at, i, prev, state) == dedupe::deduped_from(
            ticks,
            at,
            i + 1,
            ticks[at[i] as int].price,
            state,
        ),
{
    if draws_in_range() {
        lemma_deduped_keeps(
            ticks,
            at,
            i + 1,
            ticks[at[i] as int].price,
            state,
            at[i] as int,
        );
    }
}

proof fn lemma_cluster_end_is(ticks: Seq<Tick>, at: Seq<usize>, i: int, j: int, price: u64)
    requires
        0 <= i <= j <= at.len(),
        forall|k: int|
            i <= k < j ==> !ticks[#[trigger] at[k] as int].is_main && ticks[at[k] as int].price
                == price,
        j == at.len() || ticks[at[j] as int].is_main || ticks[at[j] as int].price != price,
    ensures
        dedupe::cluster_end(ticks, at, i, price) == j,
    decreases j - i,
{
    if i < j {
        assert(!ticks[at[i] as int].is_main);
        lemma_cluster_end_is(ticks, at, i + 1, j, price);
    }
}

/// A longest run of rebalancing ticks of one pair that show the same new price: one of them is
/// drawn, each alike, as the moment at which the price changes. Those before it show the
/// price that the pair showed last, it and those behind it the new one. Where the run is of
/// one tick, or shows the old price, nothing is drawn and nothing changes. The ticks behind
/// are drawn by the state that is left, with the new price as the last.
pub proof fn lemma_price_changes_at_a_drawn_tick(
    ticks: Seq<Tick>,
    at: Seq<usize>,
    i: int,
    j: int,
    prev: u64,
    state: u128,
)
    requires
        dedupe::ascends(ticks, at),
        0 <= i < j <= at.len() <= usize::MAX,
        forall|k: int|
            i <= k < j ==> !ticks[#[trigger] at[k] as int].is_main && ticks[at[k] as int].price
                == ticks[at[i] as int].price,
        j == at.len() || ticks[at[j] as int].is_main || ticks[at[j] as int].price
            != ticks[at[i] as int].price,
    ensures
        draws_in_range() ==> ({
            let price = ticks[at[i] as int].price;
            let spread = j - i >= 2 && price != prev;
            let (drawn, next) = rng::range_draw(state, 0, (j - i - 1) as u64);
            let (after, end) = dedupe::deduped_from(ticks, at, i, prev, state);
            let (rest, rest_end) = dedupe::deduped_from(
                ticks,
                at,
                j,
                price,
                if spread {
                    next
                } else {
                    state
                },
            );
            &&& after.len() == ticks.len()
            &&& forall|k: int|
                i <= k < j ==> after[#[trigger] at[k] as int].price == if spread && k - i < drawn {
                    prev
                } else {
                    price
                }
            &&& forall|k: int|
                j <= k < at.len() ==> after[#[trigger] at[k] as int] == rest[at[k] as int]
            &&& end == rest_end
        }),
{
    if draws_in_range() {
        let price = ticks[at[i] as int].price;
        let spread = j - i >= 2 && price != prev;
        let (drawn, next) = rng::range_draw(state, 0, (j - i - 1) as u64);
        lemma_cluster_end_is(ticks, at, i + 1, j, price);
        assert(!ticks[at[i] as int].is_main);
        let (mid, s) = if spread {
            (dedupe::repriced(ticks, at, i, i + drawn, prev), next)
        } else {
            (ticks, state)
        };
        if spread {
            assert(0 <= rng::range_draw(state, 0, (j - i - 1) as u64).0 <= j - i - 1);
            dedupe::lemma_repriced(ticks, at, i, i + drawn, prev);
        }
        let (after, end) = dedupe::deduped_from(mid, at, j, price, s);
        assert((after, end) == dedupe::deduped_from(ticks, at, i, prev, state));
        assert forall|k: int| i <= k < at.len() && k >= i + drawn implies mid[#[trigger] at[k] as int]
            == ticks[at[k] as int] by {
            let p = at[k] as int;
            if mid[p] != ticks[p] {
                let l = choose|l: int| i <= l < i + drawn && #[trigger] at[l] == p;
                assert(at[l] < at[k]);
            }
        }
        assert forall|k: int| i <= k < j implies after[#[trigger] at[k] as int].price == if spread
            && k - i < drawn {
            prev
        } else {
            price
        } by {
            assert forall|l: int| j <= l < at.len() implies #[trigger] at[l] != at[k] as int by {
                assert(at[k] < at[l]);
            }
            assert(dedupe::ascends(mid, at));
            lemma_deduped_keeps(mid, at, j, price, s, at[k] as int);
        }
        lemma_deduped_local(mid, ticks, at, j, price, s);
    }
}

/// The ticks of a pair are drawn in order of time, from the pair's opening price on, and the
/// pairs are drawn one after the other.
pub proof fn lemma_pairs_in_turn(
    ticks: Seq<Tick>,
    pairs: Seq<TokenPair>,
    state: u128,
    x: int,
)
    requires
        0 <= x < pairs.len(),
        ticks.len() <= usize::MAX,
    ensures
        dedupe::deduped(ticks, pairs, state, 0) == (ticks, state),
        ({
            let (before, mid) = dedupe::deduped(ticks, pairs, state, x);
            let at = dedupe::positions(ticks, x, ticks.len() as int);
            &&& dedupe::deduped(ticks, pairs, state, x + 1) == dedupe::deduped_from(
                before,
                at,
                0,
                pairs[x].price,
                mid,
            )
            &&& forall|k: int|
                0 <= k < at.len() ==> #[trigger] at[k] < ticks.len() && ticks[at[k] as int].pair_idx
                    == x
            &&& forall|k: int, l: int| 0 <= k < l < at.len() ==> #[trigger] at[k] < #[trigger] at[l]
            &&& forall|p: int|
                0 <= p < ticks.len() && (#[trigger] ticks[p]).pair_idx == x ==> at.contains(
                    p as usize,
                )
        }),
{
    dedupe::lemma_positions(ticks, x, ticks.len() as int);
}

/// The draws behind the tokens and USD pairs of a market, in this order: the decimals of all
/// tokens but USD, their USD prices, and the USD in the pools of their USD pairs. The pool
/// holds what that many USD buy at the price.
pub proof fn lemma_market_draws(cfg: GenerationConfig, seed: u64, i: int)
    requires
        generate_market::generable(cfg),
        2 <= cfg.token_count,
        1 <= i < cfg.token_count,
        cfg.pair_count >= cfg.token_count - 1,
    ensures
        draws_in_range() ==> ({
            let n = (cfg.token_count - 1) as nat;
            let one = pow(10, cfg.usd_decimals as nat);
            let (decimals, s1) = rng::range_draws(
                rng::seeded_state(seed),
                cfg.decimals.min,
                cfg.decimals.max,
                n,
            );
            let (prices, s2) = rng::range_draws(
                s1,
                (cfg.price_usd.min * one) as u64,
                (cfg.price_usd.max * one) as u64,
                n,
            );
            let (volumes, s3) = rng::range_draws(s2, cfg.volume_usd.min, cfg.volume_usd.max, n);
            let market = generate_market::market_of(cfg, seed);
            let pool = market.pairs[i - 1].volume;
            let worth = volumes[i - 1] * one * pow(10, decimals[i - 1] as nat);
            &&& market.tokens.len() == cfg.token_count
            &&& market.tokens[0] == (Token { id: 0, decimals: cfg.usd_decimals })
            &&& market.tokens[i] == (Token { id: i as u64, decimals: decimals[i - 1] })
            &&& market.pairs[i - 1].id == i - 1
            &&& market.pairs[i - 1].base == i
            &&& market.pairs[i - 1].quote == 0
            &&& market.pairs[i - 1].price == prices[i - 1]
            &&& pool * prices[i - 1] <= worth < (pool + 1) * prices[i - 1]
            &&& market.fee.static_atomic_usd == cfg.static_fee_atomic_usd
            &&& market.fee.variable_bps == cfg.variable_fee_bps
        }),
{
    if draws_in_range() {
        let n = (cfg.token_count - 1) as nat;
        let one = pow(10, cfg.usd_decimals as nat);
        let (decimals, s1) = rng::range_draws(
            rng::seeded_state(seed),
            cfg.decimals.min,
            cfg.decimals.max,
            n,
        );
        let (prices, s2) = rng::range_draws(
            s1,
            (cfg.price_usd.min * one) as u64,
            (cfg.price_usd.max * one) as u64,
            n,
        );
        let (volumes, s3) = rng::range_draws(s2, cfg.volume_usd.min, cfg.volume_usd.max, n);
        let tokens = generate_market::tokens_of(cfg, decimals);
        let pu = generate_market::usd_prices_of(cfg, prices);
        let usd = generate_market::usd_pairs_of(cfg, tokens, pu, volumes);
        vstd::arithmetic::power::lemma_pow_positive(10, cfg.usd_decimals as nat);
        assert(0 <= cfg.price_usd.min * one <= cfg.price_usd.max * one) by (nonlinear_arith)
            requires
                0 < cfg.price_usd.min <= cfg.price_usd.max,
                one > 0,
        ;
        lemma_draw_in_range(rng::seeded_state(seed), cfg.decimals.min, cfg.decimals.max, n, i - 1);
        lemma_draw_in_range(
            s1,
            (cfg.price_usd.min * one) as u64,
            (cfg.price_usd.max * one) as u64,
            n,
            i - 1,
        );
        lemma_draw_in_range(s2, cfg.volume_usd.min, cfg.volume_usd.max, n, i - 1);
        lemma_attempts_keep(
            cfg,
            tokens,
            pu,
            usd,
            s3,
            generate_market::MAX_ATTEMPTS as nat,
            i - 1,
        );
        generate_market::lemma_draws_fit(cfg, decimals[i - 1], prices[i - 1], volumes[i - 1]);
        let worth = volumes[i - 1] * one * pow(10, decimals[i - 1] as nat);
        let p = prices[i - 1] as int;
        vstd::arithmetic::power::lemma_pow_positive(10, decimals[i - 1] as nat);
        assert(worth >= 0) by (nonlinear_arith)
            requires
                worth == volumes[i - 1] * one * pow(10, decimals[i - 1] as nat),
                one > 0,
                pow(10, decimals[i - 1] as nat) > 0,
        ;
        vstd::arithmetic::div_mod::lemma_fundamental_div_mod(worth, p);
        assert((worth / p) * p == p * (worth / p)) by (nonlinear_arith);
        assert((worth / p + 1) * p == p * (worth / p) + p) by (nonlinear_arith);
    }
}

proof fn lemma_draw_in_range(state: u128, lo: u64, hi: u64, n: nat, i: int)
    requires
        draws_in_range(),
        lo <= hi,
        0 <= i < n,
    ensures
        rng::range_draws(state, lo, hi, n).0.len() == n,
        lo <= rng::range_draws(state, lo, hi, n).0[i] <= hi,
    decreases n,
{
    lemma_draws_in_turn(state, lo, hi, (n - 1) as nat);
    let (values, mid) = rng::range_draws(state, lo, hi, (n - 1) as nat);
    if i < n - 1 {
        lemma_draw_in_range(state, lo, hi, (n - 1) as nat, i);
    } else {
        assert(lo <= rng::range_draw(mid, lo, hi).0 <= hi);
    }
}

/// Attempts at cross pairs keep the pairs there are.
proof fn lemma_attempts_keep(
    cfg: GenerationConfig,
    tokens: Seq<Token>,
    pu: Seq<u64>,
    pairs: Seq<TokenPair>,
    state: u128,
    k: nat,
    x: int,
)
    requires
        0 <= x < pairs.len(),
    ensures
        generate_market::cross_attempts(cfg, tokens, pu, pairs, state, k).0.len() >= pairs.len(),
        generate_market::cross_attempts(cfg, tokens, pu, pairs, state, k).0[x] == pairs[x],
    decreases k,
{
    if k > 0 {
        lemma_attempts_keep(cfg, tokens, pu, pairs, state, (k - 1) as nat, x);
    }
}

/// One candidate for a cross pair: two tokens are drawn from all but USD. Where they differ,
/// and no pair joins them yet, either way round, a coin makes the first of them the base for
/// heads and the second for tails, and whole USD are drawn for the pool; the new pair comes
/// behind all others, at the price that the two USD prices give. Else nothing else is drawn.
pub proof fn lemma_candidate_is(
    cfg: GenerationConfig,
    tokens: Seq<Token>,
    pu: Seq<u64>,
    pairs: Seq<TokenPair>,
    state: u128,
)
    ensures
        ({
            let (a, s1) = rng::range_draw(state, 1, (cfg.token_count - 1) as u64);
            let (b, s2) = rng::range_draw(s1, 1, (cfg.token_count - 1) as u64);
            let (word, s3) = rng::word_draw(s2);
            let (vol_usd, s4) = rng::range_draw(s3, cfg.volume_usd.min, cfg.volume_usd.max);
            let (after, end) = generate_market::cross_attempt(cfg, tokens, pu, pairs, state);
            let taken = exists|i: int|
                0 <= i < pairs.len() && (((#[trigger] pairs[i]).base == a && pairs[i].quote == b)
                    || (pairs[i].base == b && pairs[i].quote == a));
            let pair = after.last();
            let base = pair.base as int;
            let quote = pair.quote as int;
            let price = pu[base] * pow(10, tokens[quote].decimals as nat) / pu[quote] as int;
            let pool = vol_usd * pow(10, cfg.usd_decimals as nat) * pow(
                10,
                tokens[base].decimals as nat,
            ) / pu[base] as int;
            &&& a == b || taken ==> after == pairs && end == s2
            &&& a != b && !taken ==> {
                &&& end == s4
                &&& after.len() == pairs.len() + 1
                &&& forall|i: int| 0 <= i < pairs.len() ==> #[trigger] after[i] == pairs[i]
                &&& pair.id == pairs.len() as u64
                &&& word < 0x8000_0000_0000_0000 ==> base == a && quote == b
                &&& word >= 0x8000_0000_0000_0000 ==> base == b && quote == a
                &&& 0 <= price <= u64::MAX ==> pair.price == price
                &&& 0 <= pool <= u64::MAX ==> pair.volume == pool
            }
        }),
{
    let (a, s1) = rng::range_draw(state, 1, (cfg.token_count - 1) as u64);
    let (b, s2) = rng::range_draw(s1, 1, (cfg.token_count - 1) as u64);
    if generate_market::joined(pairs, a, b) {
        let i = choose|i: int|
            0 <= i < pairs.len() && generate_market::joins(#[trigger] pairs[i], a, b);
        assert(pairs[i] == pairs[i]);
    } else {
        assert forall|i: int|
            0 <= i < pairs.len() implies !(((#[trigger] pairs[i]).base == a && pairs[i].quote == b)
            || (pairs[i].base == b && pairs[i].quote == a)) by {
            assert(!generate_market::joins(pairs[i], a, b));
        }
    }
}

/// Candidates are tried one after the other until there are as many pairs as configured.
pub proof fn lemma_candidates_in_turn(
    cfg: GenerationConfig,
    tokens: Seq<Token>,
    pu: Seq<u64>,
    pairs: Seq<TokenPair>,
    state: u128,
    k: nat,
)
    ensures
        generate_market::cross_attempts(cfg, tokens, pu, pairs, state, 0) == (pairs, state),
        ({
            let (before, mid) = generate_market::cross_attempts(cfg, tokens, pu, pairs, state, k);
            let next = generate_market::cross_attempts(cfg, tokens, pu, pairs, state, k + 1);
            &&& before.len() >= cfg.pair_count ==> next == (before, mid)
            &&& before.len() < cfg.pair_count ==> next == generate_market::cross_attempt(
                cfg,
                tokens,
                pu,
                before,
                mid,
            )
        }),
{
}

/// The row of a token lists the pairs that it is on either side of, each where it stands among
/// the pairs, in ascending order; a pair quoted in USD is no pair of USD.
pub proof fn lemma_row_lists_pairs_of_token(pairs: Seq<TokenPair>, t: int, k: int)
    requires
        0 <= k <= pairs.len() <= usize::MAX,
        forall|i: int| 0 <= i < pairs.len() ==> (#[trigger] pairs[i]).base != pairs[i].quote,
    ensures
        ({
            let row = schedule::adjacent(pairs, t, k);
            &&& forall|i: int, j: int| 0 <= i < j < row.len() ==> #[trigger] row[i] < #[trigger] row[j]
            &&& forall|x: int|
                0 <= x < k ==> (row.contains(x as usize) <==> (#[trigger] pairs[x]).base == t || (
                pairs[x].quote == t && t != 0))
            &&& forall|i: int| 0 <= i < row.len() ==> #[trigger] row[i] < k
        }),
    decreases k,
{
    let row = schedule::adjacent(pairs, t, k);
    if k > 0 {
        lemma_row_lists_pairs_of_token(pairs, t, k - 1);
        let before = schedule::adjacent(pairs, t, k - 1);
        let p = pairs[k - 1];
        assert(p.base != p.quote);
        assert forall|x: int| 0 <= x < k implies (row.contains(x as usize) <==> (
        #[trigger] pairs[x]).base == t || (pairs[x].quote == t && t != 0)) by {
            if x < k - 1 {
                if before.contains(x as usize) {
                    let i = choose|i: int| 0 <= i < before.len() && before[i] == x as usize;
                    assert(row[i] == x as usize);
                }
                if row.contains(x as usize) {
                    let i = choose|i: int| 0 <= i < row.len() && row[i] == x as usize;
                    assert(i < before.len());
                    assert(before[i] == x as usize);
                }
            } else {
                if row.len() > before.len() {
                    assert(row[before.len() as int] == x as usize);
                } else if row.contains(x as usize) {
                    let i = choose|i: int| 0 <= i < row.len() && row[i] == x as usize;
                    assert(before[i] < k - 1);
                }
            }
        }
    }
}

} // verus!
