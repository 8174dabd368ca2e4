//! The ticks that a schedule emits: its events in order of time, each with the price that
//! its pair has at that moment.
use super::config::GenerationConfig;
use super::generate_market;
use super::math;
use super::schedule::{Event, EventKind};
use crate::protocol::market::{Token, TokenPair, USD_TOKEN_ID};
use vstd::prelude::*;

verus! {

/// Basis points in one whole.
pub const BPS: u64 = 10_000;

/// Whether event `a` comes before event `b`: at an earlier time, or first scheduled at the
/// same time.
pub open spec fn precedes(events: Seq<Event>, a: int, b: int) -> bool {
    events[a].t < events[b].t || (events[a].t == events[b].t && a < b)
}

/// Whether `perm` lists the indices of all events in order of time.
pub open spec fn orders(events: Seq<Event>, perm: Seq<int>) -> bool {
    &&& perm.len() == events.len()
    &&& forall|i: int| 0 <= i < perm.len() ==> 0 <= #[trigger] perm[i] < events.len()
    &&& forall|k: int| 0 <= k < events.len() ==> #[trigger] perm.contains(k)
    &&& forall|i: int, j: int|
        0 <= i < j < perm.len() ==> precedes(events, #[trigger] perm[i], #[trigger] perm[j])
}

/// The events at the given indices.
pub open spec fn arranged(events: Seq<Event>, perm: Seq<int>) -> Seq<Event> {
    Seq::new(perm.len(), |i: int| events[perm[i]])
}

/// The indices of the events in order of time.
pub open spec fn time_order(events: Seq<Event>) -> Seq<int> {
    choose|perm: Seq<int>| orders(events, perm)
}

/// The events in order of time; those of the same time stay as they were scheduled.
pub open spec fn in_time_order(events: Seq<Event>) -> Seq<Event> {
    arranged(events, time_order(events))
}

/// `<[T]>::sort_by_key` with the time as the key: the same events in ascending order of
/// time; the sort is stable.
#[verifier::external_body]
fn sort_by_time(events: &mut Vec<Event>)
    ensures
        exists|perm: Seq<int>| #[trigger]
            orders(old(events)@, perm) && final(events)@ == arranged(old(events)@, perm),
{
    events.sort_by_key(|e| e.t);
}

/// Events have one order of time only.
proof fn lemma_one_order(events: Seq<Event>, p: Seq<int>, q: Seq<int>, i: int)
    requires
        orders(events, p),
        orders(events, q),
        0 <= i <= events.len(),
    ensures
        p.take(i) == q.take(i),
    decreases i,
{
    if i > 0 {
        lemma_one_order(events, p, q, i - 1);
        assert forall|j: int| 0 <= j < i - 1 implies p[j] == q[j] by {
            assert(p.take(i - 1)[j] == q.take(i - 1)[j]);
        }
        if p[i - 1] != q[i - 1] {
            assert(q.contains(p[i - 1]));
            let m = choose|m: int| 0 <= m < q.len() && q[m] == p[i - 1];
            assert(m >= i) by {
                if m < i - 1 {
                    assert(precedes(events, p[m], p[i - 1]));
                }
            }
            assert(p.contains(q[i - 1]));
            let l = choose|l: int| 0 <= l < p.len() && p[l] == q[i - 1];
            assert(l >= i) by {
                if l < i - 1 {
                    assert(precedes(events, q[l], q[i - 1]));
                }
            }
            assert(precedes(events, q[i - 1], q[m]));
            assert(precedes(events, p[i - 1], p[l]));
        }
        assert(p.take(i) =~= q.take(i));
    }
}

/// Puts events in order of time.
pub fn order_events(events: &mut Vec<Event>)
    ensures
        final(events)@ == in_time_order(old(events)@),
        orders(old(events)@, time_order(old(events)@)),
{
    let ghost before = events@;
    sort_by_time(events);
    proof {
        let perm = choose|perm: Seq<int>| #[trigger]
            orders(before, perm) && events@ == arranged(before, perm);
        lemma_one_order(before, perm, time_order(before), before.len() as int);
        assert(perm.take(before.len() as int) =~= perm);
        assert(time_order(before).take(before.len() as int) =~= time_order(before));
    }
}

/// In order of time an event keeps its place before every event that it precedes.
pub proof fn lemma_order_respects(events: Seq<Event>, perm: Seq<int>, i: int, b: int) -> (j: int)
    requires
        orders(events, perm),
        0 <= i < perm.len(),
        0 <= b < events.len(),
        precedes(events, perm[i], b),
    ensures
        i < j < perm.len(),
        perm[j] == b,
{
    assert(perm.contains(b));
    let j = choose|j: int| 0 <= j < perm.len() && perm[j] == b;
    if j < i {
        assert(precedes(events, perm[j], perm[i]));
    }
    j
}

/// A number kept between two bounds.
pub open spec fn clamped(x: int, lo: int, hi: int) -> int {
    if x < lo {
        lo
    } else if x > hi {
        hi
    } else {
        x
    }
}

/// A value moved up or down by basis points, and kept between two bounds.
pub open spec fn perturbed(value: int, delta_bps: int, up: bool, lo: int, hi: int) -> int {
    let factor = if up {
        BPS + delta_bps
    } else {
        BPS - delta_bps
    };
    clamped(value * factor / BPS as int, lo, hi)
}

/// Moves a value up or down by basis points, within bounds.
pub fn perturb(value: u64, delta_bps: u64, up: bool, lo: u64, hi: u64) -> (r: u64)
    requires
        lo <= hi,
        delta_bps <= BPS,
        value * (BPS + delta_bps) <= u64::MAX,
    ensures
        r == perturbed(value as int, delta_bps as int, up, lo as int, hi as int),
        lo <= r <= hi,
{
    let factor: u64 = if up {
        BPS + delta_bps
    } else {
        BPS - delta_bps
    };
    assert(0 <= value * factor <= value * (BPS + delta_bps)) by (nonlinear_arith)
        requires
            0 <= factor <= BPS + delta_bps,
    ;
    let moved: u64 = value * factor / BPS;
    if moved < lo {
        lo
    } else if moved > hi {
        hi
    } else {
        moved
    }
}

/// The USD price of each of `n` tokens that the first `k` pairs give, each pair that of its
/// base; `scale` where they give none.
pub open spec fn listed_prices(scale: u64, n: nat, pairs: Seq<TokenPair>, k: int) -> Seq<u64>
    decreases k,
{
    if k <= 0 {
        Seq::new(n, |t: int| scale)
    } else {
        listed_prices(scale, n, pairs, k - 1).update(pairs[k - 1].base as int, pairs[k - 1].price)
    }
}

/// The number of pairs that are read as USD pairs.
pub open spec fn usd_pair_count(tokens: Seq<Token>, pairs: Seq<TokenPair>) -> int {
    if pairs.len() < tokens.len() - 1 {
        pairs.len() as int
    } else {
        tokens.len() - 1
    }
}

/// The price of each token in atomic-USD that a market starts with.
pub open spec fn opening_prices(
    cfg: GenerationConfig,
    tokens: Seq<Token>,
    pairs: Seq<TokenPair>,
) -> Seq<u64> {
    listed_prices(
        generate_market::usd_scale(cfg) as u64,
        tokens.len(),
        pairs,
        usd_pair_count(tokens, pairs),
    )
}

/// Whether both tokens of every pair exist.
pub open spec fn pairs_known(n: int, pairs: Seq<TokenPair>) -> bool {
    forall|i: int| 0 <= i < pairs.len() ==> (#[trigger] pairs[i]).base < n && pairs[i].quote < n
}

/// Reads the opening USD prices off the USD pairs.
pub fn read_prices(
    cfg: &GenerationConfig,
    tokens: &Vec<Token>,
    pairs: &Vec<TokenPair>,
) -> (r: Vec<u64>)
    requires
        tokens@.len() >= 1,
        cfg.usd_decimals <= math::MAX_DECIMALS,
        pairs_known(tokens@.len() as int, pairs@),
    ensures
        r@ == opening_prices(*cfg, tokens@, pairs@),
        r@.len() == tokens@.len(),
{
    let scale: u64 = math::pow10(cfg.usd_decimals);
    let n: usize = tokens.len();
    let mut pu: Vec<u64> = Vec::new();
    let mut t: usize = 0;
    while t < n
        invariant
            t <= n,
            pu@ == Seq::new(t as nat, |t: int| scale),
        decreases n - t,
    {
        pu.push(scale);
        t = t + 1;
    }
    let count: usize = if pairs.len() < n - 1 {
        pairs.len()
    } else {
        n - 1
    };
    let mut k: usize = 0;
    while k < count
        invariant
            k <= count <= pairs@.len(),
            pairs_known(n as int, pairs@),
            pu@.len() == n,
            pu@ == listed_prices(scale, n as nat, pairs@, k as int),
        decreases count - k,
    {
        let p = pairs[k];
        assert(p == pairs@[k as int]);
        pu.set(p.base as usize, p.price);
        k = k + 1;
    }
    pu
}

/// The price of a pair that the USD prices of its two tokens give.
pub open spec fn fair_price(pair: TokenPair, pu: Seq<u64>, tokens: Seq<Token>) -> int {
    if pair.quote == USD_TOKEN_ID {
        pu[pair.base as int] as int
    } else {
        math::cross_price(
            pu[pair.base as int] as int,
            pu[pair.quote as int] as int,
            tokens[pair.quote as int].decimals as int,
        )
    }
}

/// Whether the fair price of a pair can be computed.
pub open spec fn priceable(pair: TokenPair, pu: Seq<u64>, tokens: Seq<Token>) -> bool {
    &&& pair.base < pu.len() == tokens.len()
    &&& pair.quote < pu.len()
    &&& pair.quote != USD_TOKEN_ID ==> {
        &&& pu[pair.quote as int] > 0
        &&& tokens[pair.quote as int].decimals <= math::MAX_DECIMALS
        &&& pu[pair.base as int] * math::ten_to(tokens[pair.quote as int].decimals as int)
            <= u64::MAX
    }
}

/// Computes the price of a pair from the USD prices of its tokens.
pub fn recompute_price(p: &TokenPair, pu: &Vec<u64>, tokens: &Vec<Token>) -> (r: u64)
    requires
        priceable(*p, pu@, tokens@),
    ensures
        r == fair_price(*p, pu@, tokens@),
{
    let n: usize = pu.len();
    assert(p.base < n && p.quote < n);
    if p.quote == USD_TOKEN_ID {
        pu[p.base as usize]
    } else {
        math::cross_pair_price(
            pu[p.base as usize],
            pu[p.quote as usize],
            tokens[p.quote as usize].decimals,
        )
    }
}

/// The USD prices after the first `k` events.
pub open spec fn prices_after(
    cfg: GenerationConfig,
    pu: Seq<u64>,
    events: Seq<Event>,
    k: int,
) -> Seq<u64>
    decreases k,
{
    if k <= 0 {
        pu
    } else {
        let before = prices_after(cfg, pu, events, k - 1);
        match events[k - 1].kind {
            EventKind::Mispricing { token, delta_bps, sign_positive, .. } => before.update(
                token as int,
                perturbed(
                    before[token as int] as int,
                    delta_bps as int,
                    sign_positive,
                    generate_market::price_floor(cfg),
                    generate_market::price_cap(cfg),
                ) as u64,
            ),
            EventKind::Rebalance { .. } => before,
        }
    }
}

/// A tick in the making.
#[derive(Debug, Clone, Copy, PartialEq, Eq, Structural)]
pub struct Tick {
    /// Time since the start of the feed, in microseconds.
    pub t: u64,
    pub pair_idx: usize,
    pub price: u64,
    /// Whether the tick shows a mispricing, and does not follow one.
    pub is_main: bool,
}

/// The tick that event number `i` emits.
pub open spec fn tick_of(
    cfg: GenerationConfig,
    tokens: Seq<Token>,
    pairs: Seq<TokenPair>,
    pu: Seq<u64>,
    events: Seq<Event>,
    i: int,
) -> Tick {
    Tick {
        t: events[i].t,
        pair_idx: events[i].pair_idx(),
        price: fair_price(
            pairs[events[i].pair_idx() as int],
            prices_after(cfg, pu, events, i + 1),
            tokens,
        ) as u64,
        is_main: events[i].kind is Mispricing,
    }
}

/// The ticks that events emit.
pub open spec fn emitted(
    cfg: GenerationConfig,
    tokens: Seq<Token>,
    pairs: Seq<TokenPair>,
    pu: Seq<u64>,
    events: Seq<Event>,
) -> Seq<Tick> {
    Seq::new(events.len(), |i: int| tick_of(cfg, tokens, pairs, pu, events, i))
}

/// Whether the price of every non-USD token can move by any drawn amount, and every pair
/// be priced, whatever is drawn.
pub open spec fn movable(
    cfg: GenerationConfig,
    tokens: Seq<Token>,
    pairs: Seq<TokenPair>,
    pu: Seq<u64>,
) -> bool {
    let cap = generate_market::price_cap(cfg);
    &&& pu.len() == tokens.len()
    &&& 0 < generate_market::price_floor(cfg) <= cap
    &&& cfg.price_perturb_bps.max <= BPS
    &&& cap * (BPS + cfg.price_perturb_bps.max) <= u64::MAX
    &&& forall|t: int|
        1 <= t < pu.len() ==> 0 < #[trigger] pu[t] && pu[t] * (BPS + cfg.price_perturb_bps.max)
            <= u64::MAX
    &&& forall|i: int|
        0 <= i < pairs.len() && (#[trigger] pairs[i]).quote != USD_TOKEN_ID ==> cap
            * math::ten_to(tokens[pairs[i].quote as int].decimals as int) <= u64::MAX
    &&& forall|i: int| 0 <= i < pairs.len() ==> #[trigger] priceable(pairs[i], pu, tokens)
}

/// A price within the configured range keeps all prices movable.
proof fn lemma_stays_movable(
    cfg: GenerationConfig,
    tokens: Seq<Token>,
    pairs: Seq<TokenPair>,
    pu: Seq<u64>,
    token: int,
    price: u64,
)
    requires
        movable(cfg, tokens, pairs, pu),
        1 <= token < pu.len(),
        generate_market::price_floor(cfg) <= price <= generate_market::price_cap(cfg),
    ensures
        movable(cfg, tokens, pairs, pu.update(token, price)),
{
    let cap = generate_market::price_cap(cfg);
    let after = pu.update(token, price);
    let most = BPS + cfg.price_perturb_bps.max;
    assert(price * most <= cap * most) by (nonlinear_arith)
        requires
            price <= cap,
            most >= 0,
    ;
    assert forall|i: int| 0 <= i < pairs.len() implies #[trigger] priceable(
        pairs[i],
        after,
        tokens,
    ) by {
        assert(priceable(pairs[i], pu, tokens));
        if pairs[i].quote != USD_TOKEN_ID {
            let f = math::ten_to(tokens[pairs[i].quote as int].decimals as int);
            math::lemma_ten_to_fits(tokens[pairs[i].quote as int].decimals as int);
            assert(price * f <= cap * f) by (nonlinear_arith)
                requires
                    price <= cap,
                    f >= 1,
            ;
        }
    }
}

/// Whether every event is on a known pair, and every mispricing of a known token by a
/// change in range.
pub open spec fn emittable(
    cfg: GenerationConfig,
    n: int,
    pair_count: int,
    events: Seq<Event>,
) -> bool {
    forall|i: int|
        0 <= i < events.len() ==> (#[trigger] events[i]).pair_idx() < pair_count && (
        events[i].kind is Mispricing ==> 1 <= events[i].kind->token < n
            && events[i].kind->delta_bps <= cfg.price_perturb_bps.max)
}

/// All prices stay movable whatever events come.
pub proof fn lemma_movable_after(
    cfg: GenerationConfig,
    tokens: Seq<Token>,
    pairs: Seq<TokenPair>,
    pu: Seq<u64>,
    events: Seq<Event>,
    k: int,
)
    requires
        movable(cfg, tokens, pairs, pu),
        emittable(cfg, tokens.len() as int, pairs.len() as int, events),
        generate_market::price_cap(cfg) <= u64::MAX,
        0 <= k <= events.len(),
    ensures
        movable(cfg, tokens, pairs, prices_after(cfg, pu, events, k)),
    decreases k,
{
    if k > 0 {
        lemma_movable_after(cfg, tokens, pairs, pu, events, k - 1);
        let before = prices_after(cfg, pu, events, k - 1);
        let event = events[k - 1];
        if event.kind is Mispricing {
            let token = event.kind->token as int;
            let moved = prices_after(cfg, pu, events, k)[token];
            lemma_stays_movable(cfg, tokens, pairs, before, token, moved);
        }
    }
}

/// Walks the events in order, with the USD prices as they stand at each.
pub fn emit(
    cfg: &GenerationConfig,
    tokens: &Vec<Token>,
    pairs: &Vec<TokenPair>,
    opening: &Vec<u64>,
    events: &Vec<Event>,
) -> (r: Vec<Tick>)
    requires
        cfg.usd_decimals <= math::MAX_DECIMALS,
        generate_market::price_cap(*cfg) <= u64::MAX,
        generate_market::price_floor(*cfg) <= u64::MAX,
        events@.len() > 0 ==> movable(*cfg, tokens@, pairs@, opening@),
        emittable(*cfg, tokens@.len() as int, pairs@.len() as int, events@),
    ensures
        r@ == emitted(*cfg, tokens@, pairs@, opening@, events@),
{
    let scale: u64 = math::pow10(cfg.usd_decimals);
    let pu_min: u64 = cfg.price_usd.min * scale;
    let pu_max: u64 = cfg.price_usd.max * scale;
    let mut pu: Vec<u64> = Vec::new();
    let mut t: usize = 0;
    while t < opening.len()
        invariant
            t <= opening@.len(),
            pu@ == opening@.take(t as int),
        decreases opening@.len() - t,
    {
        pu.push(opening[t]);
        t = t + 1;
        assert(pu@ =~= opening@.take(t as int));
    }
    assert(pu@ =~= opening@);
    let mut ticks: Vec<Tick> = Vec::new();
    let mut i: usize = 0;
    while i < events.len()
        invariant
            i <= events@.len(),
            pu_min == generate_market::price_floor(*cfg),
            pu_max == generate_market::price_cap(*cfg),
            events@.len() > 0 ==> movable(*cfg, tokens@, pairs@, pu@),
            emittable(*cfg, tokens@.len() as int, pairs@.len() as int, events@),
            pu@ == prices_after(*cfg, opening@, events@, i as int),
            ticks@.len() == i,
            forall|j: int|
                0 <= j < i ==> #[trigger] ticks@[j] == tick_of(
                    *cfg,
                    tokens@,
                    pairs@,
                    opening@,
                    events@,
                    j,
                ),
        decreases events@.len() - i,
    {
        let ev = events[i];
        assert(ev == events@[i as int]);
        let (pair_idx, is_main): (usize, bool) = match ev.kind {
            EventKind::Mispricing { token, delta_bps, sign_positive, main_pair_idx } => {
                let ghost before = pu@;
                assert(pu@[token as int] * (BPS + delta_bps) <= pu@[token as int] * (BPS
                    + cfg.price_perturb_bps.max)) by (nonlinear_arith)
                    requires
                        delta_bps <= cfg.price_perturb_bps.max,
                        pu@[token as int] >= 0,
                ;
                let moved: u64 = perturb(pu[token], delta_bps, sign_positive, pu_min, pu_max);
                pu.set(token, moved);
                proof {
                    lemma_stays_movable(
                        *cfg,
                        tokens@,
                        pairs@,
                        before,
                        token as int,
                        moved,
                    );
                }
                (main_pair_idx, true)
            },
            EventKind::Rebalance { pair_idx } => (pair_idx, false),
        };
        assert(pu@ == prices_after(*cfg, opening@, events@, i + 1));
        assert(priceable(pairs@[pair_idx as int], pu@, tokens@));
        let price: u64 = recompute_price(&pairs[pair_idx], &pu, tokens);
        ticks.push(Tick { t: ev.t, pair_idx, price, is_main });
        i = i + 1;
    }
    assert(ticks@ =~= emitted(*cfg, tokens@, pairs@, opening@, events@));
    ticks
}

} // verus!
