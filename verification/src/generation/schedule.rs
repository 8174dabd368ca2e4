//! The schedule of a feed: when which token is mispriced, and when its pairs follow.
use super::config::GenerationConfig;
use super::rng;
use crate::protocol::market::{TokenPair, USD_TOKEN_ID};
use rand_pcg::Mcg128Xsl64;
use vstd::multiset::Multiset;
use vstd::prelude::*;

verus! {

/// Length of the window that mispricings are scattered over, in microseconds.
pub const WINDOW_US: u64 = 1_000;

/// Something that happens at a moment of the feed.
#[derive(Debug, Clone, Copy, PartialEq, Eq, Structural)]
pub struct Event {
    /// Time since the start of the feed, in microseconds.
    pub t: u64,
    pub kind: EventKind,
}

#[derive(Debug, Clone, Copy, PartialEq, Eq, Structural)]
pub enum EventKind {
    /// A token's USD price moves, and one of its pairs shows it at once.
    Mispricing { token: usize, delta_bps: u64, sign_positive: bool, main_pair_idx: usize },
    /// A pair catches up with the USD prices of its tokens.
    Rebalance { pair_idx: usize },
}

impl Event {
    /// The pair that the event updates.
    pub open spec fn pair_idx(self) -> usize {
        match self.kind {
            EventKind::Mispricing { main_pair_idx, .. } => main_pair_idx,
            EventKind::Rebalance { pair_idx } => pair_idx,
        }
    }
}

/// The indices, among the first `k` pairs, of those that involve the token `t`. Pairs
/// quoted in USD do not count as pairs of USD.
pub open spec fn adjacent(pairs: Seq<TokenPair>, t: int, k: int) -> Seq<usize>
    decreases k,
{
    if k <= 0 {
        Seq::empty()
    } else {
        let p = pairs[k - 1];
        let before = adjacent(pairs, t, k - 1);
        let with_base = if p.base == t {
            before.push((k - 1) as usize)
        } else {
            before
        };
        if p.quote == t && p.quote != USD_TOKEN_ID {
            with_base.push((k - 1) as usize)
        } else {
            with_base
        }
    }
}

/// For each of `n` tokens the indices of the pairs that involve it.
pub open spec fn adjacency(n: nat, pairs: Seq<TokenPair>) -> Seq<Seq<usize>> {
    Seq::new(n, |t: int| adjacent(pairs, t, pairs.len() as int))
}

/// The contents of the rows of a table.
pub open spec fn rows(table: Seq<Vec<usize>>) -> Seq<Seq<usize>> {
    Seq::new(table.len(), |i: int| table[i]@)
}

/// Builds the table of the pairs of each of `n` tokens.
pub fn build_adjacency(n: usize, pairs: &Vec<TokenPair>) -> (adj: Vec<Vec<usize>>)
    requires
        forall|i: int|
            0 <= i < pairs@.len() ==> (#[trigger] pairs@[i]).base < n && pairs@[i].quote < n,
    ensures
        rows(adj@) == adjacency(n as nat, pairs@),
{
    let mut adj: Vec<Vec<usize>> = Vec::new();
    let mut t: usize = 0;
    while t < n
        invariant
            t <= n,
            adj@.len() == t,
            forall|i: int| 0 <= i < t ==> (#[trigger] adj@[i])@ == Seq::<usize>::empty(),
        decreases n - t,
    {
        adj.push(Vec::new());
        t = t + 1;
    }
    let mut k: usize = 0;
    while k < pairs.len()
        invariant
            k <= pairs@.len(),
            adj@.len() == n,
            forall|i: int|
                0 <= i < pairs@.len() ==> (#[trigger] pairs@[i]).base < n && pairs@[i].quote < n,
            forall|i: int| 0 <= i < n ==> (#[trigger] adj@[i])@ == adjacent(pairs@, i, k as int),
        decreases pairs@.len() - k,
    {
        let p = pairs[k];
        assert(p == pairs@[k as int]);
        let base: usize = p.base as usize;
        let quote: usize = p.quote as usize;
        let ghost start = adj@;
        adj[base].push(k);
        let ghost mid = adj@;
        assert forall|i: int| 0 <= i < n implies (#[trigger] mid[i])@ == if i == base {
            adjacent(pairs@, i, k as int).push(k)
        } else {
            adjacent(pairs@, i, k as int)
        } by {
            assert(start[i]@ == adjacent(pairs@, i, k as int));
        }
        if p.quote != USD_TOKEN_ID {
            adj[quote].push(k);
        }
        assert forall|i: int| 0 <= i < n implies (#[trigger] adj@[i])@ == adjacent(
            pairs@,
            i,
            k + 1,
        ) by {
            assert(mid[i]@ == if i == base {
                adjacent(pairs@, i, k as int).push(k)
            } else {
                adjacent(pairs@, i, k as int)
            });
        }
        k = k + 1;
    }
    assert(rows(adj@) =~= adjacency(n as nat, pairs@));
    adj
}

/// Numbers in ascending order.
pub open spec fn ascending(s: Seq<u64>) -> Seq<u64> {
    s.sort_by(|a: u64, b: u64| a <= b)
}

/// `<[u64]>::sort_unstable`: the same numbers, in ascending order.
#[verifier::external_body]
fn sort_offsets(v: &mut Vec<u64>)
    ensures
        final(v)@.to_multiset() == old(v)@.to_multiset(),
        forall|i: int, j: int|
            0 <= i <= j < final(v)@.len() ==> #[trigger] final(v)@[i] <= #[trigger] final(v)@[j],
{
    v.sort_unstable();
}

/// The rebalancing events of the first `i` pairs in `row`, all but the one at `main_pos`:
/// each follows the mispricing at `t_m` after a delay of its own.
pub open spec fn rebalances(
    cfg: GenerationConfig,
    row: Seq<usize>,
    main_pos: int,
    t_m: u64,
    state: u128,
    i: nat,
) -> (Seq<Event>, u128)
    decreases i,
{
    if i == 0 {
        (Seq::empty(), state)
    } else {
        let (events, mid) = rebalances(cfg, row, main_pos, t_m, state, (i - 1) as nat);
        if i - 1 == main_pos {
            (events, mid)
        } else {
            let (delay, next) = rng::range_draw(
                mid,
                cfg.rebalance_delay_us.min,
                cfg.rebalance_delay_us.max,
            );
            (
                events.push(
                    Event {
                        t: (t_m + delay) as u64,
                        kind: EventKind::Rebalance { pair_idx: row[i - 1] },
                    },
                ),
                next,
            )
        }
    }
}

/// Whether the time of one of the first `i` rebalancing events does not fit a `u64`.
pub open spec fn overruns(
    cfg: GenerationConfig,
    row: Seq<usize>,
    main_pos: int,
    t_m: u64,
    state: u128,
    i: nat,
) -> bool
    decreases i,
{
    if i == 0 {
        false
    } else {
        let (_, mid) = rebalances(cfg, row, main_pos, t_m, state, (i - 1) as nat);
        let (delay, _) = rng::range_draw(
            mid,
            cfg.rebalance_delay_us.min,
            cfg.rebalance_delay_us.max,
        );
        ||| overruns(cfg, row, main_pos, t_m, state, (i - 1) as nat)
        ||| i - 1 != main_pos && t_m + delay > u64::MAX
    }
}

/// The events of one mispricing at `t_m`, the state of the generator, and whether the time
/// of an event does not fit a `u64`. A token, one of its pairs, a change of price and its
/// sign are drawn; the other pairs of the token follow. A token without pairs gives no
/// events.
pub open spec fn mispricing(
    cfg: GenerationConfig,
    adj: Seq<Seq<usize>>,
    t_m: u64,
    state: u128,
) -> (Seq<Event>, u128, bool) {
    let (token, s1) = rng::range_draw(state, 1, (adj.len() - 1) as u64);
    let row = adj[token as int];
    if row.len() == 0 {
        (Seq::empty(), s1, false)
    } else {
        let (main_pos, s2) = rng::range_draw(s1, 0, (row.len() - 1) as u64);
        let (delta_bps, s3) = rng::range_draw(
            s2,
            cfg.price_perturb_bps.min,
            cfg.price_perturb_bps.max,
        );
        let (sign_positive, s4) = rng::coin_draw(s3);
        let main = Event {
            t: t_m,
            kind: EventKind::Mispricing {
                token: token as usize,
                delta_bps,
                sign_positive,
                main_pair_idx: row[main_pos as int],
            },
        };
        let (rest, s5) = rebalances(cfg, row, main_pos as int, t_m, s4, row.len());
        let late = overruns(cfg, row, main_pos as int, t_m, s4, row.len());
        (seq![main] + rest, s5, late)
    }
}

/// What has been scheduled so far: the events and how many mispricings they hold, the
/// offsets of the current window, the state of the generator, and whether time ran out.
pub struct Schedule {
    pub events: Seq<Event>,
    pub mispricings: int,
    pub offsets: Seq<u64>,
    pub state: u128,
    /// Whether the time of a drawn event does not fit a `u64`.
    pub stalled: bool,
}

/// The schedule after `k` slots, which end when there are enough mispricings or when the
/// time of an event does not fit. Each window begins with a draw of the offsets of all its
/// slots, which then come in ascending order.
pub open spec fn scheduled(
    cfg: GenerationConfig,
    adj: Seq<Seq<usize>>,
    state: u128,
    k: nat,
) -> Schedule
    decreases k,
{
    if k == 0 {
        Schedule {
            events: Seq::empty(),
            mispricings: 0,
            offsets: Seq::empty(),
            state,
            stalled: false,
        }
    } else {
        let before = scheduled(cfg, adj, state, (k - 1) as nat);
        if before.mispricings >= cfg.arb_count || before.stalled {
            before
        } else {
            let (offsets, mid) = window_offsets(cfg, before, k - 1);
            let t_m = moment(cfg, offsets, k - 1);
            let (block, next, late) = mispricing(cfg, adj, t_m as u64, mid);
            Schedule {
                events: before.events + block,
                mispricings: before.mispricings + if block.len() > 0 {
                    1int
                } else {
                    0
                },
                offsets,
                state: next,
                stalled: t_m > u64::MAX || late,
            }
        }
    }
}

/// The schedule that a state gives, unless it stalls: then it lacks mispricings.
pub open spec fn schedule_of(cfg: GenerationConfig, adj: Seq<Seq<usize>>, state: u128) -> Schedule {
    scheduled(cfg, adj, state, slot_limit(cfg) as nat)
}

/// The offsets that hold for slot number `k`: new ones at the start of a window.
pub open spec fn window_offsets(cfg: GenerationConfig, before: Schedule, k: int) -> (
    Seq<u64>,
    u128,
) {
    if k % cfg.updates_per_ms as int == 0 {
        let (drawn, next) = rng::range_draws(
            before.state,
            0,
            (WINDOW_US - 1) as u64,
            cfg.updates_per_ms as nat,
        );
        (ascending(drawn), next)
    } else {
        (before.offsets, before.state)
    }
}

/// When slot number `k` is due.
pub open spec fn moment(cfg: GenerationConfig, offsets: Seq<u64>, k: int) -> int {
    (k / cfg.updates_per_ms as int) * WINDOW_US + offsets[k % cfg.updates_per_ms as int]
}

/// The latest time that an event can have where every slot gives a mispricing.
pub open spec fn horizon(cfg: GenerationConfig) -> int {
    ((cfg.arb_count - 1) / cfg.updates_per_ms as int) * WINDOW_US + (WINDOW_US - 1)
        + cfg.rebalance_delay_us.max
}

/// A number of slots of which the last is due at a time that does not fit a `u64`, so that
/// scheduling is over by then.
pub open spec fn slot_limit(cfg: GenerationConfig) -> int {
    (u64::MAX / WINDOW_US + 2) * cfg.updates_per_ms
}

/// Whether mispricings can be scheduled: there is a token to draw, and the ranges hold
/// something.
pub open spec fn schedulable(cfg: GenerationConfig, adj: Seq<Seq<usize>>) -> bool {
    cfg.arb_count > 0 ==> {
        &&& adj.len() >= 2
        &&& 1 <= cfg.updates_per_ms <= usize::MAX
        &&& cfg.rebalance_delay_us.min <= cfg.rebalance_delay_us.max
        &&& cfg.price_perturb_bps.min <= cfg.price_perturb_bps.max
    }
}

/// Whether every non-USD token has a pair.
pub open spec fn all_paired(adj: Seq<Seq<usize>>) -> bool {
    forall|t: int| 1 <= t < adj.len() ==> (#[trigger] adj[t]).len() > 0
}

/// Where the event for entry `j` of a row stands in a block that starts at `start` and
/// whose main entry is `main_pos`.
pub open spec fn slot(start: int, main_pos: int, j: int) -> int {
    if j == main_pos {
        start
    } else if j < main_pos {
        start + 1 + j
    } else {
        start + j
    }
}

/// The number of mispricings among events.
pub open spec fn mispricing_count(events: Seq<Event>) -> int
    decreases events.len(),
{
    if events.len() == 0 {
        0
    } else {
        mispricing_count(events.drop_last()) + if events.last().kind is Mispricing {
            1int
        } else {
            0
        }
    }
}

/// Whether an event stands in the table: a mispricing names a non-USD token, one of its
/// pairs and a change in range.
pub open spec fn charted(cfg: GenerationConfig, adj: Seq<Seq<usize>>, e: Event) -> bool {
    match e.kind {
        EventKind::Mispricing { token, delta_bps, main_pair_idx, .. } => {
            &&& 1 <= token < adj.len()
            &&& adj[token as int].contains(main_pair_idx)
            &&& cfg.price_perturb_bps.min <= delta_bps <= cfg.price_perturb_bps.max
        },
        EventKind::Rebalance { pair_idx } => true,
    }
}

/// Whether event `m` is a mispricing that event `p` can be the rebalancing of: on a pair
/// of its token, after a delay in range.
pub open spec fn causes(
    cfg: GenerationConfig,
    adj: Seq<Seq<usize>>,
    events: Seq<Event>,
    m: int,
    p: int,
) -> bool {
    match events[m].kind {
        EventKind::Mispricing { token, .. } => {
            &&& adj[token as int].contains(events[p].pair_idx())
            &&& events[m].t + cfg.rebalance_delay_us.min <= events[p].t <= events[m].t
                + cfg.rebalance_delay_us.max
        },
        EventKind::Rebalance { .. } => false,
    }
}

/// Whether every rebalancing event has an earlier mispricing that causes it.
pub open spec fn all_caused(
    cfg: GenerationConfig,
    adj: Seq<Seq<usize>>,
    events: Seq<Event>,
) -> bool {
    forall|p: int|
        0 <= p < events.len() && (#[trigger] events[p]).kind is Rebalance ==> exists|m: int|
            0 <= m < p && #[trigger] causes(cfg, adj, events, m, p)
}

/// Whether some event from `p` on, not before its time, is on the pair `pair_idx`.
pub open spec fn answered(events: Seq<Event>, p: int, pair_idx: usize) -> bool {
    exists|q: int|
        p <= q < events.len() && (#[trigger] events[q]).pair_idx() == pair_idx && events[q].t
            >= events[p].t
}

/// Whether every pair of a mispriced token is updated, by the mispricing or after it.
pub open spec fn all_answered(adj: Seq<Seq<usize>>, events: Seq<Event>) -> bool {
    forall|p: int, j: int|
        0 <= p < events.len() && events[p].kind is Mispricing && 0 <= j
            < adj[events[p].kind->token as int].len() ==> #[trigger] answered(
            events,
            p,
            adj[events[p].kind->token as int][j],
        )
}

/// The length of the longest row.
pub open spec fn longest_row(adj: Seq<Seq<usize>>) -> int
    decreases adj.len(),
{
    if adj.len() == 0 {
        0
    } else {
        let rest = longest_row(adj.drop_last());
        if adj.last().len() > rest {
            adj.last().len() as int
        } else {
            rest
        }
    }
}

proof fn lemma_longest_row(adj: Seq<Seq<usize>>, t: int)
    requires
        0 <= t < adj.len(),
    ensures
        adj[t].len() <= longest_row(adj),
    decreases adj.len(),
{
    if t < adj.len() - 1 {
        assert(adj.drop_last()[t] == adj[t]);
        lemma_longest_row(adj.drop_last(), t);
    }
}

/// Whether each mispricing falls in the window that its number among them gives.
pub open spec fn windowed(cfg: GenerationConfig, events: Seq<Event>) -> bool {
    forall|p: int|
        0 <= p < events.len() && (#[trigger] events[p]).kind is Mispricing ==> events[p].t as int
            / WINDOW_US as int == mispricing_count(events.take(p)) / cfg.updates_per_ms as int
}

/// The pairs that events update.
pub open spec fn pairs_of(events: Seq<Event>) -> Seq<usize> {
    Seq::new(events.len(), |i: int| events[i].pair_idx())
}

/// The updates that the mispricings among events call for: one on each pair of the token,
/// for each of them.
pub open spec fn owed(adj: Seq<Seq<usize>>, events: Seq<Event>) -> Multiset<usize>
    decreases events.len(),
{
    if events.len() == 0 {
        Multiset::empty()
    } else {
        let before = owed(adj, events.drop_last());
        match events.last().kind {
            EventKind::Mispricing { token, .. } => before.add(adj[token as int].to_multiset()),
            EventKind::Rebalance { .. } => before,
        }
    }
}

/// What holds of every schedule of `k` mispricings, whatever was drawn.
pub open spec fn sound_schedule(
    cfg: GenerationConfig,
    adj: Seq<Seq<usize>>,
    events: Seq<Event>,
    k: int,
) -> bool {
    &&& mispricing_count(events) == k
    &&& k <= events.len() <= k * longest_row(adj)
    &&& forall|p: int| 0 <= p < events.len() ==> #[trigger] charted(cfg, adj, events[p])
    &&& all_caused(cfg, adj, events)
    &&& all_answered(adj, events)
    &&& pairs_of(events).to_multiset() == owed(adj, events)
    &&& all_paired(adj) ==> windowed(cfg, events)
}

/// Whether `after` is `before` with the events of one mispricing of `token` appended: the
/// mispricing, then a rebalancing for each other entry of the token's row.
spec fn extends(
    cfg: GenerationConfig,
    adj: Seq<Seq<usize>>,
    before: Seq<Event>,
    after: Seq<Event>,
    token: int,
    main_pos: int,
) -> bool {
    let start = before.len() as int;
    let row = adj[token];
    &&& 1 <= token < adj.len()
    &&& 0 <= main_pos < row.len()
    &&& after.len() == start + row.len()
    &&& forall|p: int| 0 <= p < start ==> #[trigger] after[p] == before[p]
    &&& after[start].kind is Mispricing
    &&& after[start].kind->token == token
    &&& charted(cfg, adj, after[start])
    &&& forall|p: int| start < p < after.len() ==> (#[trigger] after[p]).kind is Rebalance
    &&& forall|p: int|
        start < p < after.len() ==> row.contains((#[trigger] after[p]).pair_idx())
            && after[start].t + cfg.rebalance_delay_us.min <= after[p].t <= after[start].t
            + cfg.rebalance_delay_us.max
    &&& forall|j: int|
        0 <= j < row.len() ==> after[#[trigger] slot(start, main_pos, j)].pair_idx() == row[j]
    &&& pairs_of(after).to_multiset() == pairs_of(before).to_multiset().add(row.to_multiset())
}

proof fn lemma_extends_count(
    adj: Seq<Seq<usize>>,
    before: Seq<Event>,
    after: Seq<Event>,
    n: int,
)
    requires
        before.len() < n <= after.len(),
        forall|p: int| 0 <= p < before.len() ==> #[trigger] after[p] == before[p],
        after[before.len() as int].kind is Mispricing,
        forall|p: int|
            before.len() < p < after.len() ==> (#[trigger] after[p]).kind is Rebalance,
    ensures
        mispricing_count(after.take(n)) == mispricing_count(before) + 1,
        owed(adj, after.take(n)) == owed(adj, before).add(
            adj[after[before.len() as int].kind->token as int].to_multiset(),
        ),
    decreases n,
{
    let prefix = after.take(n);
    if n == before.len() + 1 {
        assert(prefix.drop_last() =~= before);
    } else {
        lemma_extends_count(adj, before, after, n - 1);
        assert(prefix.drop_last() =~= after.take(n - 1));
        assert(prefix.last().kind is Rebalance);
    }
}

/// Appending the events of one mispricing keeps a schedule sound.
proof fn lemma_extends_sound(
    cfg: GenerationConfig,
    adj: Seq<Seq<usize>>,
    before: Seq<Event>,
    after: Seq<Event>,
    token: int,
    main_pos: int,
    k: int,
)
    requires
        sound_schedule(cfg, adj, before, k),
        extends(cfg, adj, before, after, token, main_pos),
        all_paired(adj) ==> after[before.len() as int].t as int / WINDOW_US as int == k
            / cfg.updates_per_ms as int,
    ensures
        sound_schedule(cfg, adj, after, k + 1),
{
    let start = before.len() as int;
    let row = adj[token];
    let m = longest_row(adj);
    lemma_extends_count(adj, before, after, after.len() as int);
    assert(after.take(after.len() as int) =~= after);
    lemma_longest_row(adj, token);
    assert((k + 1) * m == k * m + m) by (nonlinear_arith);
    assert forall|p: int| 0 <= p < after.len() implies #[trigger] charted(cfg, adj, after[p]) by {
        if p < start {
            assert(after[p] == before[p]);
            assert(charted(cfg, adj, before[p]));
        } else if p > start {
            assert(after[p].kind is Rebalance);
        }
    }
    if all_paired(adj) {
        assert forall|p: int|
            0 <= p < after.len() && (#[trigger] after[p]).kind is Mispricing implies after[p].t
            as int / WINDOW_US as int == mispricing_count(after.take(p))
            / cfg.updates_per_ms as int by {
            assert(p <= start);
            assert(after.take(p) =~= before.take(p));
            if p < start {
                assert(after[p] == before[p]);
            } else {
                assert(before.take(p) =~= before);
            }
        }
    }
    assert forall|p: int|
        0 <= p < after.len() && (#[trigger] after[p]).kind is Rebalance implies exists|i: int|
        0 <= i < p && #[trigger] causes(cfg, adj, after, i, p) by {
        if p < start {
            assert(after[p] == before[p]);
            let i = choose|i: int| 0 <= i < p && #[trigger] causes(cfg, adj, before, i, p);
            assert(after[i] == before[i]);
            assert(causes(cfg, adj, after, i, p));
        } else {
            assert(causes(cfg, adj, after, start, p));
        }
    }
    assert forall|p: int, j: int|
        0 <= p < after.len() && after[p].kind is Mispricing && 0 <= j
            < adj[after[p].kind->token as int].len() implies #[trigger] answered(
        after,
        p,
        adj[after[p].kind->token as int][j],
    ) by {
        let pair_idx = adj[after[p].kind->token as int][j];
        if p < start {
            assert(after[p] == before[p]);
            assert(answered(before, p, adj[before[p].kind->token as int][j]));
            let q = choose|q: int|
                p <= q < before.len() && (#[trigger] before[q]).pair_idx() == pair_idx
                    && before[q].t >= before[p].t;
            assert(after[q] == before[q]);
        } else if p == start {
            let q = slot(start, main_pos, j);
            assert(after[q].pair_idx() == row[j]);
            if q > start {
                assert(row.contains(after[q].pair_idx()));
            }
        } else {
            assert(after[p].kind is Rebalance);
        }
    }
}

proof fn lemma_overruns_stays(
    cfg: GenerationConfig,
    row: Seq<usize>,
    main_pos: int,
    t_m: u64,
    state: u128,
    i: nat,
    j: nat,
)
    requires
        i <= j,
        overruns(cfg, row, main_pos, t_m, state, i),
    ensures
        overruns(cfg, row, main_pos, t_m, state, j),
    decreases j,
{
    if i < j {
        lemma_overruns_stays(cfg, row, main_pos, t_m, state, i, (j - 1) as nat);
    }
}

/// Appends the events of one mispricing at `t_m`, unless the token drawn has no pairs, and
/// tells whether it did; `None` where the time of an event does not fit.
fn push_mispricing(
    cfg: &GenerationConfig,
    adj: &Vec<Vec<usize>>,
    t_m: u64,
    events: &mut Vec<Event>,
    rng: &mut Mcg128Xsl64,
    Ghost(k): Ghost<int>,
) -> (pushed: Option<bool>)
    requires
        cfg.arb_count > 0,
        schedulable(*cfg, rows(adj@)),
        sound_schedule(*cfg, rows(adj@), old(events)@, k),
        all_paired(rows(adj@)) ==> t_m as int / WINDOW_US as int == k / cfg.updates_per_ms as int,
    ensures
        ({
            let (block, next, late) = mispricing(*cfg, rows(adj@), t_m, rng::rng_state(*old(rng)));
            match pushed {
                Some(some) => {
                    &&& !late
                    &&& some == (block.len() > 0)
                    &&& final(events)@ == old(events)@ + block
                    &&& rng::rng_state(*final(rng)) == next
                    &&& all_paired(rows(adj@)) ==> some
                    &&& sound_schedule(
                        *cfg,
                        rows(adj@),
                        final(events)@,
                        if some {
                            k + 1
                        } else {
                            k
                        },
                    )
                },
                None => late,
            }
        }),
        t_m + cfg.rebalance_delay_us.max <= u64::MAX ==> pushed is Some,
{
    broadcast use vstd::seq_lib::group_to_multiset_ensures;

    let ghost table = rows(adj@);
    let ghost before = events@;
    let ghost state = rng::rng_state(*rng);
    assert(table.len() == adj@.len());
    let token: usize = rng::draw_range(rng, 1, adj.len() as u64 - 1) as usize;
    assert(table[token as int] == adj@[token as int]@);
    let ghost row = table[token as int];
    let width: usize = adj[token].len();
    if width == 0 {
        assert(events@ + Seq::<Event>::empty() =~= events@);
        return Some(false);
    }
    let main_pos: usize = rng::draw_range(rng, 0, width as u64 - 1) as usize;
    let main_pair_idx: usize = adj[token][main_pos];
    let delta_bps: u64 = rng::draw_range(
        rng,
        cfg.price_perturb_bps.min,
        cfg.price_perturb_bps.max,
    );
    let sign_positive: bool = rng::draw_coin(rng);
    let ghost s4 = rng::rng_state(*rng);
    let ghost start = before.len() as int;
    let main = Event {
        t: t_m,
        kind: EventKind::Mispricing { token, delta_bps, sign_positive, main_pair_idx },
    };
    events.push(main);
    assert(row.contains(main_pair_idx)) by {
        assert(row[main_pos as int] == main_pair_idx);
    }
    let ghost old_pairs = pairs_of(before).to_multiset();
    assert(pairs_of(events@) =~= pairs_of(before).push(main_pair_idx));
    assert(row.take(0).to_multiset() =~= Multiset::empty());
    assert(old_pairs.insert(main_pair_idx) =~= old_pairs.add(row.take(0).to_multiset()).insert(
        main_pair_idx,
    ));
    let mut i: usize = 0;
    assert(events@ =~= before + (seq![main] + rebalances(
        *cfg,
        row,
        main_pos as int,
        t_m,
        s4,
        0,
    ).0));
    while i < width
        invariant
            i <= width == row.len(),
            main_pos < width,
            token < adj@.len(),
            row == adj@[token as int]@,
            start == before.len(),
            cfg.rebalance_delay_us.min <= cfg.rebalance_delay_us.max,
            table == rows(adj@),
            row == table[token as int],
            state == rng::rng_state(*old(rng)),
            mispricing(*cfg, table, t_m, state).2 == overruns(
                *cfg,
                row,
                main_pos as int,
                t_m,
                s4,
                width as nat,
            ),
            !overruns(*cfg, row, main_pos as int, t_m, s4, i as nat),
            old_pairs == pairs_of(before).to_multiset(),
            pairs_of(events@).to_multiset() == if main_pos < i {
                old_pairs.add(row.take(i as int).to_multiset())
            } else {
                old_pairs.add(row.take(i as int).to_multiset()).insert(main_pair_idx)
            },
            row[main_pos as int] == main_pair_idx,
            main.kind is Mispricing,
            main.t == t_m,
            main.pair_idx() == row[main_pos as int],
            events@ == before + (seq![main] + rebalances(
                *cfg,
                row,
                main_pos as int,
                t_m,
                s4,
                i as nat,
            ).0),
            rng::rng_state(*rng) == rebalances(
                *cfg,
                row,
                main_pos as int,
                t_m,
                s4,
                i as nat,
            ).1,
            events@.len() == start + 1 + i - if main_pos < i {
                1int
            } else {
                0
            },
            forall|p: int| 0 <= p < start ==> #[trigger] events@[p] == before[p],
            events@[start] == main,
            forall|p: int|
                start < p < events@.len() ==> (#[trigger] events@[p]).kind is Rebalance
                    && row.contains(events@[p].pair_idx()) && t_m + cfg.rebalance_delay_us.min
                    <= events@[p].t <= t_m + cfg.rebalance_delay_us.max,
            forall|j: int|
                0 <= j < i ==> events@[#[trigger] slot(start, main_pos as int, j)].pair_idx()
                    == row[j],
        decreases width - i,
    {
        broadcast use vstd::seq_lib::group_to_multiset_ensures;

        let ghost pushed = events@;
        assert(row.take(i + 1) =~= row.take(i as int).push(row[i as int]));
        assert(old_pairs.add(row.take(i + 1).to_multiset()) =~= old_pairs.add(
            row.take(i as int).to_multiset(),
        ).insert(row[i as int]));
        if i != main_pos {
            let delay: u64 = rng::draw_range(
                rng,
                cfg.rebalance_delay_us.min,
                cfg.rebalance_delay_us.max,
            );
            let pair_idx: usize = adj[token][i];
            assert(row.contains(pair_idx)) by {
                assert(row[i as int] == pair_idx);
            }
            let t: u64 = match t_m.checked_add(delay) {
                Some(t) => t,
                None => {
                    proof {
                        lemma_overruns_stays(
                            *cfg,
                            row,
                            main_pos as int,
                            t_m,
                            s4,
                            (i + 1) as nat,
                            width as nat,
                        );
                    }
                    return None;
                },
            };
            events.push(Event { t, kind: EventKind::Rebalance { pair_idx } });
            assert(pairs_of(events@) =~= pairs_of(pushed).push(pair_idx));
            assert(old_pairs.add(row.take(i as int).to_multiset()).insert(main_pair_idx).insert(
                pair_idx,
            ) =~= old_pairs.add(row.take(i as int).to_multiset()).insert(pair_idx).insert(
                main_pair_idx,
            ));
            assert(events@ =~= before + (seq![main] + rebalances(
                *cfg,
                row,
                main_pos as int,
                t_m,
                s4,
                (i + 1) as nat,
            ).0));
            assert(slot(start, main_pos as int, i as int) == pushed.len());
            assert forall|j: int| 0 <= j < i + 1 implies events@[#[trigger] slot(
                start,
                main_pos as int,
                j,
            )].pair_idx() == row[j] by {
                if j < i {
                    assert(events@[slot(start, main_pos as int, j)] == pushed[slot(
                        start,
                        main_pos as int,
                        j,
                    )]);
                }
            }
        }
        i = i + 1;
    }
    proof {
        assert(row.take(width as int) =~= row);
        assert(extends(*cfg, table, before, events@, token as int, main_pos as int));
        lemma_extends_sound(*cfg, table, before, events@, token as int, main_pos as int, k);
    }
    Some(true)
}

proof fn lemma_ascending(s: Seq<u64>, sorted: Seq<u64>)
    requires
        sorted.to_multiset() == s.to_multiset(),
        forall|i: int, j: int|
            0 <= i <= j < sorted.len() ==> #[trigger] sorted[i] <= #[trigger] sorted[j],
        forall|i: int| 0 <= i < s.len() ==> #[trigger] s[i] < WINDOW_US,
    ensures
        sorted == ascending(s),
        sorted.len() == s.len(),
        forall|i: int| 0 <= i < sorted.len() ==> #[trigger] sorted[i] < WINDOW_US,
{
    broadcast use vstd::seq_lib::group_to_multiset_ensures;

    let leq = |a: u64, b: u64| a <= b;
    assert(vstd::relations::total_ordering(leq));
    s.lemma_sort_by_ensures(leq);
    vstd::seq_lib::lemma_sorted_unique(sorted, ascending(s), leq);
    assert(s.len() == s.to_multiset().len());
    assert(sorted.len() == sorted.to_multiset().len());
    assert forall|i: int| 0 <= i < sorted.len() implies #[trigger] sorted[i] < WINDOW_US by {
        assert(sorted.contains(sorted[i]));
        assert(s.contains(sorted[i]));
    }
}

proof fn lemma_scheduled_done(
    cfg: GenerationConfig,
    adj: Seq<Seq<usize>>,
    state: u128,
    k: nat,
    m: nat,
)
    requires
        k <= m,
        scheduled(cfg, adj, state, k).mispricings >= cfg.arb_count || scheduled(
            cfg,
            adj,
            state,
            k,
        ).stalled,
    ensures
        scheduled(cfg, adj, state, m) == scheduled(cfg, adj, state, k),
    decreases m - k,
{
    if k < m {
        lemma_scheduled_done(cfg, adj, state, k, (m - 1) as nat);
    }
}

/// Where every slot gives a mispricing, the times of all slots that are needed fit.
proof fn lemma_slot_fits(cfg: GenerationConfig, k: int)
    requires
        0 <= k < cfg.arb_count,
        cfg.updates_per_ms >= 1,
        horizon(cfg) <= u64::MAX,
    ensures
        (k / cfg.updates_per_ms as int) * WINDOW_US + (WINDOW_US - 1) + cfg.rebalance_delay_us.max
            <= u64::MAX,
{
    vstd::arithmetic::div_mod::lemma_div_is_ordered(
        k,
        cfg.arb_count - 1,
        cfg.updates_per_ms as int,
    );
}

/// Schedules `cfg.arb_count` mispricings with their rebalancing events. A slot whose token
/// has no pairs stays empty; `None` where the time of an event that was drawn does not fit
/// a `u64`.
pub fn schedule_events(
    cfg: &GenerationConfig,
    adj: &Vec<Vec<usize>>,
    rng: &mut Mcg128Xsl64,
) -> (r: Option<Vec<Event>>)
    requires
        schedulable(*cfg, rows(adj@)),
    ensures
        ({
            let end = schedule_of(*cfg, rows(adj@), rng::rng_state(*old(rng)));
            match r {
                Some(events) => {
                    &&& !end.stalled
                    &&& end.mispricings == cfg.arb_count
                    &&& events@ == end.events
                    &&& rng::rng_state(*final(rng)) == end.state
                    &&& sound_schedule(*cfg, rows(adj@), events@, cfg.arb_count as int)
                },
                None => end.stalled,
            }
        }),
        all_paired(rows(adj@)) && horizon(*cfg) <= u64::MAX ==> r is Some,
{
    let ghost table = rows(adj@);
    let ghost state = rng::rng_state(*rng);
    let mut events: Vec<Event> = Vec::new();
    let mut offsets: Vec<u64> = Vec::new();
    let mut mispricings: u64 = 0;
    let per_window: u64 = cfg.updates_per_ms;
    let ghost limit = slot_limit(*cfg);
    proof {
        assert(0 * longest_row(table) == 0);
        assert(limit >= 0) by (nonlinear_arith)
            requires
                limit == (u64::MAX / WINDOW_US + 2) * cfg.updates_per_ms,
        ;
        assert(pairs_of(events@).to_multiset() =~= owed(table, events@)) by {
            broadcast use vstd::seq_lib::group_to_multiset_ensures;

            assert(pairs_of(events@) =~= Seq::empty());
        }
    }
    if cfg.arb_count == 0 {
        proof {
            lemma_scheduled_done(*cfg, table, state, 0, limit as nat);
        }
        return Some(events);
    }
    let mut window: u64 = 0;
    let mut pos: u64 = 0;
    let ghost mut k: nat = 0;
    while mispricings < cfg.arb_count
        invariant
            mispricings <= cfg.arb_count,
            cfg.arb_count > 0,
            state == rng::rng_state(*old(rng)),
            per_window == cfg.updates_per_ms,
            per_window >= 1,
            k == window * per_window + pos,
            pos < per_window,
            window <= u64::MAX / WINDOW_US + 1,
            limit == slot_limit(*cfg),
            all_paired(table) ==> mispricings == k,
            table == rows(adj@),
            schedulable(*cfg, table),
            events@ == scheduled(*cfg, table, state, k).events,
            mispricings == scheduled(*cfg, table, state, k).mispricings,
            offsets@ == scheduled(*cfg, table, state, k).offsets,
            rng::rng_state(*rng) == scheduled(*cfg, table, state, k).state,
            !scheduled(*cfg, table, state, k).stalled,
            pos > 0 ==> offsets@.len() == per_window && forall|i: int|
                0 <= i < offsets@.len() ==> #[trigger] offsets@[i] < WINDOW_US,
            sound_schedule(*cfg, table, events@, mispricings as int),
        decreases u64::MAX - window, per_window - pos,
    {
        let ghost before = scheduled(*cfg, table, state, k);
        proof {
            vstd::arithmetic::div_mod::lemma_fundamental_div_mod_converse(
                k as int,
                per_window as int,
                window as int,
                pos as int,
            );
            assert(k + 1 <= limit) by (nonlinear_arith)
                requires
                    k == window * per_window + pos,
                    pos < per_window,
                    window <= u64::MAX / WINDOW_US + 1,
                    limit == (u64::MAX / WINDOW_US + 2) * per_window,
            ;
        }
        if pos == 0 {
            offsets = rng::draw_many(rng, 0, WINDOW_US - 1, per_window as usize);
            let ghost drawn = offsets@;
            sort_offsets(&mut offsets);
            proof {
                lemma_ascending(drawn, offsets@);
            }
        }
        assert((offsets@, rng::rng_state(*rng)) == window_offsets(*cfg, before, k as int));
        let offset: u64 = offsets[pos as usize];
        assert(offset < WINDOW_US);
        let ghost due = window * WINDOW_US + offset;
        assert(due == moment(*cfg, offsets@, k as int));
        proof {
            if all_paired(table) && horizon(*cfg) <= u64::MAX {
                lemma_slot_fits(*cfg, k as int);
            }
            vstd::arithmetic::div_mod::lemma_fundamental_div_mod_converse(
                due,
                WINDOW_US as int,
                window as int,
                offset as int,
            );
        }
        let base: u64 = match window.checked_mul(WINDOW_US) {
            Some(base) => base,
            None => {
                proof {
                    lemma_scheduled_done(*cfg, table, state, k + 1, limit as nat);
                }
                return None;
            },
        };
        let t_m: u64 = match base.checked_add(offset) {
            Some(t_m) => t_m,
            None => {
                proof {
                    lemma_scheduled_done(*cfg, table, state, k + 1, limit as nat);
                }
                return None;
            },
        };
        match push_mispricing(cfg, adj, t_m, &mut events, rng, Ghost(mispricings as int)) {
            Some(true) => {
                mispricings = mispricings + 1;
            },
            Some(false) => {},
            None => {
                proof {
                    lemma_scheduled_done(*cfg, table, state, k + 1, limit as nat);
                }
                return None;
            },
        }
        proof {
            k = k + 1;
            assert((window + 1) * per_window == window * per_window + per_window)
                by (nonlinear_arith);
        }
        pos = pos + 1;
        if pos == per_window {
            pos = 0;
            window = window + 1;
        }
    }
    proof {
        assert(k <= limit) by (nonlinear_arith)
            requires
                k == window * per_window + pos,
                pos < per_window,
                window <= u64::MAX / WINDOW_US + 1,
                limit == (u64::MAX / WINDOW_US + 2) * per_window,
        ;
        lemma_scheduled_done(*cfg, table, state, k, limit as nat);
    }
    Some(events)
}

} // verus!
