//! Clusters of rebalancing ticks that all show the same price.
//!
//! A cluster is a maximal run of rebalancing ticks on one pair, with no main tick among
//! them, that show the same price. One tick of it is drawn as the moment at which the
//! price changes: those before it still show the price that the pair had before.
use super::emission::Tick;
use super::rng;
use crate::protocol::market::TokenPair;
use rand_pcg::Mcg128Xsl64;
use vstd::prelude::*;

verus! {

/// The indices, among the first `k` ticks, of those on the pair `x`.
pub open spec fn positions(ticks: Seq<Tick>, x: int, k: int) -> Seq<usize>
    decreases k,
{
    if k <= 0 {
        Seq::empty()
    } else if ticks[k - 1].pair_idx == x {
        positions(ticks, x, k - 1).push((k - 1) as usize)
    } else {
        positions(ticks, x, k - 1)
    }
}

/// The end of the run, from entry `j` on, of rebalancing ticks that show `price`.
pub open spec fn cluster_end(ticks: Seq<Tick>, at: Seq<usize>, j: int, price: u64) -> int
    decreases at.len() - j,
{
    if j < at.len() && !ticks[at[j] as int].is_main && ticks[at[j] as int].price == price {
        cluster_end(ticks, at, j + 1, price)
    } else {
        j
    }
}

/// The ticks, with those at the entries from `from` to `to` of `at` showing `price`.
pub open spec fn repriced(ticks: Seq<Tick>, at: Seq<usize>, from: int, to: int, price: u64) -> Seq<
    Tick,
>
    decreases to - from,
{
    if to <= from {
        ticks
    } else {
        let before = repriced(ticks, at, from, to - 1, price);
        before.update(at[to - 1] as int, Tick { price, ..before[at[to - 1] as int] })
    }
}

/// The ticks of one pair, from entry `i` of its positions on, with their clusters drawn.
/// `prev` is the price that the pair showed last.
pub open spec fn deduped_from(
    ticks: Seq<Tick>,
    at: Seq<usize>,
    i: int,
    prev: u64,
    state: u128,
) -> (Seq<Tick>, u128)
    decreases at.len() - i,
{
    if i >= at.len() {
        (ticks, state)
    } else {
        let cur = ticks[at[i] as int];
        if cur.is_main {
            deduped_from(ticks, at, i + 1, cur.price, state)
        } else {
            let j = cluster_end(ticks, at, i + 1, cur.price);
            proof {
                lemma_cluster_end(ticks, at, i + 1, cur.price);
            }
            if j - i >= 2 && cur.price != prev {
                let (keep, next) = rng::range_draw(state, 0, (j - i - 1) as u64);
                deduped_from(repriced(ticks, at, i, i + keep, prev), at, j, cur.price, next)
            } else {
                deduped_from(ticks, at, j, cur.price, state)
            }
        }
    }
}

/// The ticks with the clusters of the first `k` pairs drawn.
pub open spec fn deduped(ticks: Seq<Tick>, pairs: Seq<TokenPair>, state: u128, k: int) -> (
    Seq<Tick>,
    u128,
)
    decreases k,
{
    if k <= 0 {
        (ticks, state)
    } else {
        let (before, mid) = deduped(ticks, pairs, state, k - 1);
        deduped_from(
            before,
            positions(ticks, k - 1, ticks.len() as int),
            0,
            pairs[k - 1].price,
            mid,
        )
    }
}

/// Whether two ticks differ in their price at most.
pub open spec fn same_but_price(a: Tick, b: Tick) -> bool {
    a.t == b.t && a.pair_idx == b.pair_idx && a.is_main == b.is_main
}

/// Whether `at` lists indices of ticks in ascending order.
pub open spec fn ascends(ticks: Seq<Tick>, at: Seq<usize>) -> bool {
    &&& forall|k: int| 0 <= k < at.len() ==> #[trigger] at[k] < ticks.len()
    &&& forall|k: int, l: int| 0 <= k < l < at.len() ==> #[trigger] at[k] < #[trigger] at[l]
}

pub(crate) proof fn lemma_positions(ticks: Seq<Tick>, x: int, k: int)
    requires
        0 <= k <= ticks.len() <= usize::MAX,
    ensures
        ({
            let at = positions(ticks, x, k);
            &&& at.len() <= k
            &&& forall|i: int|
                0 <= i < at.len() ==> #[trigger] at[i] < k && ticks[at[i] as int].pair_idx == x
            &&& forall|i: int, j: int| 0 <= i < j < at.len() ==> #[trigger] at[i] < #[trigger] at[j]
            &&& forall|p: int|
                0 <= p < k && #[trigger] ticks[p].pair_idx == x ==> at.contains(p as usize)
        }),
    decreases k,
{
    if k > 0 {
        lemma_positions(ticks, x, k - 1);
        let before = positions(ticks, x, k - 1);
        let at = positions(ticks, x, k);
        assert forall|p: int| 0 <= p < k && #[trigger] ticks[p].pair_idx == x implies at.contains(
            p as usize,
        ) by {
            if p < k - 1 {
                assert(before.contains(p as usize));
                let i = choose|i: int| 0 <= i < before.len() && before[i] == p as usize;
                assert(at[i] == p as usize);
            } else {
                assert(at[at.len() - 1] == p as usize);
            }
        }
    }
}

/// A cluster ends among the ticks of its pair, and all its ticks show its price.
pub proof fn lemma_cluster_end(ticks: Seq<Tick>, at: Seq<usize>, j: int, price: u64)
    requires
        j <= at.len(),
    ensures
        j <= cluster_end(ticks, at, j, price) <= at.len(),
        forall|k: int|
            j <= k < cluster_end(ticks, at, j, price) ==> !ticks[#[trigger] at[k] as int].is_main
                && ticks[at[k] as int].price == price,
    decreases at.len() - j,
{
    if j < at.len() && !ticks[at[j] as int].is_main && ticks[at[j] as int].price == price {
        lemma_cluster_end(ticks, at, j + 1, price);
    }
}

pub(crate) proof fn lemma_repriced(ticks: Seq<Tick>, at: Seq<usize>, from: int, to: int, price: u64)
    requires
        ascends(ticks, at),
        0 <= from <= to <= at.len(),
    ensures
        ({
            let r = repriced(ticks, at, from, to, price);
            &&& r.len() == ticks.len()
            &&& forall|p: int|
                0 <= p < ticks.len() ==> same_but_price(ticks[p], #[trigger] r[p])
            &&& forall|p: int|
                0 <= p < ticks.len() && #[trigger] r[p] != ticks[p] ==> exists|k: int|
                    from <= k < to && #[trigger] at[k] == p
            &&& forall|k: int| from <= k < to ==> r[#[trigger] at[k] as int].price == price
        }),
    decreases to - from,
{
    if from < to {
        lemma_repriced(ticks, at, from, to - 1, price);
        let before = repriced(ticks, at, from, to - 1, price);
        let r = repriced(ticks, at, from, to, price);
        assert(at[to - 1] < ticks.len());
        assert forall|p: int| 0 <= p < ticks.len() && #[trigger] r[p] != ticks[p] implies exists|
            k: int,
        |
            from <= k < to && #[trigger] at[k] == p by {
            if p != at[to - 1] {
                assert(r[p] == before[p]);
                let k = choose|k: int| from <= k < to - 1 && #[trigger] at[k] == p;
                assert(at[k] == p);
            }
        }
        assert forall|p: int| 0 <= p < ticks.len() implies same_but_price(
            ticks[p],
            #[trigger] r[p],
        ) by {
            assert(same_but_price(ticks[p], before[p]));
        }
    }
}

/// Whether `price` is the pair's opening price or shown by one of the first `k` of its ticks.
pub open spec fn shown(ticks: Seq<Tick>, at: Seq<usize>, opening: u64, k: int, price: u64) -> bool {
    price == opening || exists|l: int|
        0 <= l < k && price == ticks[#[trigger] at[l] as int].price
}

/// What may become of tick `p` among those at `at`: only a rebalancing tick with another
/// one behind it changes, and it then shows what the pair showed before.
spec fn settles(ticks: Seq<Tick>, after: Seq<Tick>, at: Seq<usize>, opening: u64, p: int) -> bool {
    after[p] == ticks[p] || exists|k: int|
        0 <= k < at.len() - 1 && #[trigger] at[k] == p && !ticks[p].is_main && shown(
            ticks,
            at,
            opening,
            k,
            after[p].price,
        )
}

/// Draws the clusters of one pair.
fn dedupe_pair(ticks: &mut Vec<Tick>, at: &Vec<usize>, opening: u64, rng: &mut Mcg128Xsl64)
    requires
        ascends(old(ticks)@, at@),
    ensures
        (final(ticks)@, rng::rng_state(*final(rng))) == deduped_from(
            old(ticks)@,
            at@,
            0,
            opening,
            rng::rng_state(*old(rng)),
        ),
        final(ticks)@.len() == old(ticks)@.len(),
        forall|p: int|
            0 <= p < old(ticks)@.len() ==> same_but_price(
                old(ticks)@[p],
                #[trigger] final(ticks)@[p],
            ) && settles(old(ticks)@, final(ticks)@, at@, opening, p),
{
    let ghost start = ticks@;
    let ghost end = deduped_from(start, at@, 0, opening, rng::rng_state(*rng));
    let n: usize = at.len();
    let mut prev: u64 = opening;
    let mut i: usize = 0;
    while i < n
        invariant
            i <= n == at@.len(),
            ascends(start, at@),
            ticks@.len() == start.len(),
            end == deduped_from(ticks@, at@, i as int, prev, rng::rng_state(*rng)),
            shown(start, at@, opening, i as int, prev),
            forall|k: int|
                i <= k < n ==> ticks@[#[trigger] at@[k] as int] == start[at@[k] as int],
            forall|p: int|
                0 <= p < start.len() ==> same_but_price(start[p], #[trigger] ticks@[p])
                    && settles(start, ticks@, at@, opening, p),
        decreases n - i,
    {
        let cur = ticks[at[i]];
        assert(cur == start[at@[i as int] as int]);
        if cur.is_main {
            prev = cur.price;
            i = i + 1;
        } else {
            let price: u64 = cur.price;
            let mut j: usize = i + 1;
            while j < n && !ticks[at[j]].is_main && ticks[at[j]].price == price
                invariant
                    i < j <= n == at@.len(),
                    ascends(ticks@, at@),
                    cluster_end(ticks@, at@, i + 1, price) == cluster_end(
                        ticks@,
                        at@,
                        j as int,
                        price,
                    ),
                decreases n - j,
            {
                j = j + 1;
            }
            let ghost cluster = ticks@;
            proof {
                lemma_cluster_end(cluster, at@, i + 1, price);
                assert(j == cluster_end(cluster, at@, i + 1, price));
            }
            if j - i >= 2 && price != prev {
                let keep: usize = rng::draw_range(rng, 0, (j - i - 1) as u64) as usize;
                let mut k: usize = 0;
                while k < keep
                    invariant
                        k <= keep < j - i,
                        j <= n == at@.len(),
                        ticks@.len() == start.len(),
                        ascends(start, at@),
                        ticks@ == repriced(cluster, at@, i as int, i + k, prev),
                    decreases keep - k,
                {
                    let p: usize = at[i + k];
                    let tick = ticks[p];
                    ticks.set(p, Tick { price: prev, ..tick });
                    k = k + 1;
                }
                proof {
                    lemma_repriced(cluster, at@, i as int, i + keep, prev);
                    lemma_settle(
                        start,
                        cluster,
                        ticks@,
                        at@,
                        opening,
                        i as int,
                        i + keep,
                        j as int,
                        prev,
                    );
                }
            }
            assert(shown(start, at@, opening, j as int, price)) by {
                assert(price == start[at@[i as int] as int].price);
            }
            prev = price;
            i = j;
        }
    }
}

/// Repricing the first ticks of a cluster settles them.
proof fn lemma_settle(
    start: Seq<Tick>,
    cluster: Seq<Tick>,
    after: Seq<Tick>,
    at: Seq<usize>,
    opening: u64,
    i: int,
    m: int,
    j: int,
    prev: u64,
)
    requires
        ascends(start, at),
        cluster.len() == start.len(),
        after == repriced(cluster, at, i, m, prev),
        0 <= i <= m < j <= at.len(),
        shown(start, at, opening, i, prev),
        forall|k: int| i <= k < at.len() ==> cluster[#[trigger] at[k] as int] == start[at[k] as int],
        forall|k: int| i <= k < j ==> !cluster[#[trigger] at[k] as int].is_main,
        forall|p: int|
            0 <= p < start.len() ==> same_but_price(start[p], #[trigger] cluster[p]) && settles(
                start,
                cluster,
                at,
                opening,
                p,
            ),
    ensures
        after.len() == start.len(),
        forall|k: int| j <= k < at.len() ==> after[#[trigger] at[k] as int] == start[at[k] as int],
        forall|p: int|
            0 <= p < start.len() ==> same_but_price(start[p], #[trigger] after[p]) && settles(
                start,
                after,
                at,
                opening,
                p,
            ),
{
    lemma_repriced(cluster, at, i, m, prev);
    assert forall|k: int| j <= k < at.len() implies after[#[trigger] at[k] as int]
        == start[at[k] as int] by {
        let p = at[k] as int;
        if after[p] != cluster[p] {
            let l = choose|l: int| i <= l < m && #[trigger] at[l] == p;
            assert(at[l] < at[k]);
        }
    }
    assert forall|p: int| 0 <= p < start.len() implies same_but_price(start[p], #[trigger] after[p])
        && settles(start, after, at, opening, p) by {
        assert(same_but_price(start[p], cluster[p]));
        if after[p] == cluster[p] {
            assert(settles(start, cluster, at, opening, p));
        } else {
            let k = choose|k: int| i <= k < m && #[trigger] at[k] == p;
            assert(after[at[k] as int].price == prev);
            assert(!cluster[at[k] as int].is_main);
            assert(shown(start, at, opening, k, prev)) by {
                if prev != opening {
                    let l = choose|l: int|
                        0 <= l < i && prev == start[#[trigger] at[l] as int].price;
                    assert(prev == start[at[l] as int].price);
                }
            }
        }
    }
}

/// What drawing the clusters may do to tick `p`: it stays as it is, or it is a rebalancing
/// tick with another one on its pair behind it and shows what its pair showed before.
pub open spec fn thins(
    ticks: Seq<Tick>,
    after: Seq<Tick>,
    pairs: Seq<TokenPair>,
    p: int,
) -> bool {
    after[p] == ticks[p] || {
        &&& !ticks[p].is_main
        &&& exists|q: int|
            p < q < ticks.len() && (#[trigger] ticks[q]).pair_idx == ticks[p].pair_idx
        &&& after[p].price == pairs[ticks[p].pair_idx as int].price || exists|o: int|
            0 <= o < p && (#[trigger] ticks[o]).pair_idx == ticks[p].pair_idx && after[p].price
                == ticks[o].price
    }
}

/// Lists the ticks of each of `n` pairs.
fn positions_by_pair(n: usize, ticks: &Vec<Tick>) -> (r: Vec<Vec<usize>>)
    requires
        forall|p: int| 0 <= p < ticks@.len() ==> (#[trigger] ticks@[p]).pair_idx < n,
    ensures
        r@.len() == n,
        forall|x: int|
            0 <= x < n ==> (#[trigger] r@[x])@ == positions(ticks@, x, ticks@.len() as int),
{
    let mut table: Vec<Vec<usize>> = Vec::new();
    let mut x: usize = 0;
    while x < n
        invariant
            x <= n,
            table@.len() == x,
            forall|i: int| 0 <= i < x ==> (#[trigger] table@[i])@ == Seq::<usize>::empty(),
        decreases n - x,
    {
        table.push(Vec::new());
        x = x + 1;
    }
    let mut k: usize = 0;
    while k < ticks.len()
        invariant
            k <= ticks@.len(),
            table@.len() == n,
            forall|p: int| 0 <= p < ticks@.len() ==> (#[trigger] ticks@[p]).pair_idx < n,
            forall|x: int|
                0 <= x < n ==> (#[trigger] table@[x])@ == positions(ticks@, x, k as int),
        decreases ticks@.len() - k,
    {
        let tick = ticks[k];
        assert(tick == ticks@[k as int]);
        let ghost before = table@;
        table[tick.pair_idx].push(k);
        assert forall|x: int| 0 <= x < n implies (#[trigger] table@[x])@ == positions(
            ticks@,
            x,
            k + 1,
        ) by {
            assert(before[x]@ == positions(ticks@, x, k as int));
        }
        k = k + 1;
    }
    table
}

/// Draws the clusters of every pair, one pair after the other.
pub fn dedupe(ticks: &mut Vec<Tick>, pairs: &Vec<TokenPair>, rng: &mut Mcg128Xsl64)
    requires
        forall|p: int|
            0 <= p < old(ticks)@.len() ==> (#[trigger] old(ticks)@[p]).pair_idx < pairs@.len(),
    ensures
        (final(ticks)@, rng::rng_state(*final(rng))) == deduped(
            old(ticks)@,
            pairs@,
            rng::rng_state(*old(rng)),
            pairs@.len() as int,
        ),
        final(ticks)@.len() == old(ticks)@.len(),
        forall|p: int|
            0 <= p < old(ticks)@.len() ==> same_but_price(
                old(ticks)@[p],
                #[trigger] final(ticks)@[p],
            ) && thins(old(ticks)@, final(ticks)@, pairs@, p),
{
    let ghost start = ticks@;
    let ghost state = rng::rng_state(*rng);
    let len: usize = ticks.len();
    let table = positions_by_pair(pairs.len(), ticks);
    let mut x: usize = 0;
    while x < pairs.len()
        invariant
            x <= pairs@.len(),
            start.len() == len,
            table@.len() == pairs@.len(),
            forall|x: int|
                0 <= x < pairs@.len() ==> (#[trigger] table@[x])@ == positions(
                    start,
                    x,
                    start.len() as int,
                ),
            (ticks@, rng::rng_state(*rng)) == deduped(start, pairs@, state, x as int),
            ticks@.len() == start.len(),
            forall|p: int|
                0 <= p < start.len() && (#[trigger] start[p]).pair_idx >= x ==> ticks@[p]
                    == start[p],
            forall|p: int|
                0 <= p < start.len() ==> same_but_price(start[p], #[trigger] ticks@[p]) && thins(
                    start,
                    ticks@,
                    pairs@,
                    p,
                ),
        decreases pairs@.len() - x,
    {
        let ghost before = ticks@;
        let ghost at = positions(start, x as int, start.len() as int);
        proof {
            lemma_positions(start, x as int, start.len() as int);
            assert(table@[x as int]@ == at);
            assert(ascends(before, at));
        }
        let opening: u64 = pairs[x].price;
        dedupe_pair(ticks, &table[x], opening, rng);
        proof {
            lemma_thin(start, before, ticks@, pairs@, x as int);
        }
        x = x + 1;
    }
}

/// Settling the ticks of one more pair thins the ticks of that pair only.
proof fn lemma_thin(
    start: Seq<Tick>,
    before: Seq<Tick>,
    after: Seq<Tick>,
    pairs: Seq<TokenPair>,
    x: int,
)
    requires
        0 <= x < pairs.len(),
        start.len() <= usize::MAX,
        before.len() == start.len(),
        after.len() == start.len(),
        forall|p: int|
            0 <= p < start.len() && (#[trigger] start[p]).pair_idx >= x ==> before[p] == start[p],
        forall|p: int|
            0 <= p < start.len() ==> same_but_price(start[p], #[trigger] before[p]) && thins(
                start,
                before,
                pairs,
                p,
            ),
        forall|p: int|
            0 <= p < start.len() ==> same_but_price(before[p], #[trigger] after[p]) && settles(
                before,
                after,
                positions(start, x, start.len() as int),
                pairs[x].price,
                p,
            ),
    ensures
        forall|p: int|
            0 <= p < start.len() && (#[trigger] start[p]).pair_idx >= x + 1 ==> after[p]
                == start[p],
        forall|p: int|
            0 <= p < start.len() ==> same_but_price(start[p], #[trigger] after[p]) && thins(
                start,
                after,
                pairs,
                p,
            ),
{
    let at = positions(start, x, start.len() as int);
    lemma_positions(start, x, start.len() as int);
    assert forall|p: int| 0 <= p < start.len() implies (start[p].pair_idx != x ==> after[p]
        == before[p]) && same_but_price(start[p], #[trigger] after[p]) && thins(
        start,
        after,
        pairs,
        p,
    ) by {
        assert(same_but_price(start[p], before[p]));
        assert(thins(start, before, pairs, p));
        assert(settles(before, after, at, pairs[x].price, p));
        if after[p] != before[p] {
            let k = choose|k: int|
                0 <= k < at.len() - 1 && #[trigger] at[k] == p && !before[p].is_main && shown(
                    before,
                    at,
                    pairs[x].price,
                    k,
                    after[p].price,
                );
            assert(at[k] == p);
            assert(start[p].pair_idx == x);
            let q = at[k + 1] as int;
            assert(at[k] < at[k + 1]);
            assert(start[q].pair_idx == x);
            if after[p].price != pairs[x].price {
                let l = choose|l: int|
                    0 <= l < k && after[p].price == before[#[trigger] at[l] as int].price;
                let o = at[l] as int;
                assert(at[l] < at[k]);
                assert(start[o].pair_idx == x);
                assert(before[o] == start[o]);
            }
        }
    }
    assert forall|p: int|
        0 <= p < start.len() && (#[trigger] start[p]).pair_idx >= x + 1 implies after[p]
        == start[p] by {
        assert(same_but_price(before[p], after[p]));
        assert(same_but_price(start[p], after[p]));
    }
}

} // verus!
