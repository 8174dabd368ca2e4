//! Aggregate statistics of a feed.
use super::schedule::WINDOW_US;
use crate::protocol::feed;
use crate::protocol::feed::FeedTick;
use std::collections::HashMap;
use vstd::prelude::*;

verus! {

/// Aggregate statistics derived from a generated feed.
#[derive(Debug, Clone, Copy, PartialEq, Eq, Structural)]
pub struct FeedStats {
    pub total_ticks: usize,
    /// Absolute time of the last tick, in microseconds. Also the wall-clock time the feed
    /// takes to replay.
    pub duration_us: u64,
    /// Aligned windows of 1 ms from the start of the feed to its last tick, both included.
    /// The mean number of ticks per window is `total_ticks / windows`.
    pub windows: u64,
    /// Highest number of ticks in any aligned window of 1 ms.
    pub peak_ticks_per_ms: u64,
    /// Distinct pair ids that received at least one tick. The mean number of ticks of each
    /// is `total_ticks / distinct_pairs_touched`.
    pub distinct_pairs_touched: usize,
    pub min_ticks_per_touched_pair: usize,
    pub max_ticks_per_touched_pair: usize,
}

/// The window that tick number `i` falls in.
pub open spec fn window_of(feed: Seq<FeedTick>, i: int) -> int {
    feed::elapsed(feed, i + 1) / WINDOW_US as int
}

/// How many of the first `k` ticks fall in window `w`.
pub open spec fn ticks_in_window(feed: Seq<FeedTick>, w: int, k: int) -> int
    decreases k,
{
    if k <= 0 {
        0
    } else {
        ticks_in_window(feed, w, k - 1) + if window_of(feed, k - 1) == w {
            1int
        } else {
            0
        }
    }
}

/// How many of the first `k` ticks are on the pair `id`.
pub open spec fn ticks_on_pair(feed: Seq<FeedTick>, id: u64, k: int) -> int
    decreases k,
{
    if k <= 0 {
        0
    } else {
        ticks_on_pair(feed, id, k - 1) + if feed[k - 1].update.token_pair_id == id {
            1int
        } else {
            0
        }
    }
}

/// The pairs that some of the first `k` ticks are on.
pub open spec fn touched(feed: Seq<FeedTick>, k: int) -> Set<u64>
    decreases k,
{
    if k <= 0 {
        Set::empty()
    } else {
        touched(feed, k - 1).insert(feed[k - 1].update.token_pair_id)
    }
}

/// Whether `m` is the largest number of ticks, among the first `k`, in any window.
pub open spec fn is_peak(feed: Seq<FeedTick>, k: int, m: int) -> bool {
    &&& forall|w: int| #[trigger] ticks_in_window(feed, w, k) <= m
    &&& k > 0 ==> exists|w: int| #[trigger] ticks_in_window(feed, w, k) == m
    &&& k <= 0 ==> m == 0
}

/// Whether `m` is the largest number of ticks, among the first `k`, on any pair.
pub open spec fn is_busiest(feed: Seq<FeedTick>, k: int, m: int) -> bool {
    &&& forall|id: u64| #[trigger] ticks_on_pair(feed, id, k) <= m
    &&& k > 0 ==> exists|id: u64| #[trigger] ticks_on_pair(feed, id, k) == m
    &&& k <= 0 ==> m == 0
}

/// Whether `m` is the least number of ticks on any pair that has some.
pub open spec fn is_quietest(feed: Seq<FeedTick>, m: int) -> bool {
    let n = feed.len() as int;
    &&& forall|id: u64| touched(feed, n).contains(id) ==> m <= #[trigger] ticks_on_pair(feed, id, n)
    &&& n > 0 ==> exists|id: u64|
        touched(feed, n).contains(id) && #[trigger] ticks_on_pair(feed, id, n) == m
    &&& n == 0 ==> m == 0
}

/// The number of windows up to and with that of the last tick; none for an empty feed.
pub open spec fn window_count(feed: Seq<FeedTick>) -> int {
    if feed.len() == 0 {
        0
    } else {
        feed::elapsed(feed, feed.len() as int) / WINDOW_US as int + 1
    }
}

/// How many of the first `k` ticks fall in the first `n` windows.
spec fn ticks_up_to(feed: Seq<FeedTick>, n: int, k: int) -> int
    decreases n,
{
    if n <= 0 {
        0
    } else {
        ticks_up_to(feed, n - 1, k) + ticks_in_window(feed, n - 1, k)
    }
}

/// One more tick counts where its window is among the first `n`.
proof fn lemma_up_to_step(feed: Seq<FeedTick>, n: int, k: int)
    requires
        0 <= n,
        0 < k <= feed.len(),
    ensures
        ticks_up_to(feed, n, k) == ticks_up_to(feed, n, k - 1) + if 0 <= window_of(feed, k - 1)
            < n {
            1int
        } else {
            0
        },
    decreases n,
{
    if n > 0 {
        lemma_up_to_step(feed, n - 1, k);
    }
}

/// No ticks fall in no windows.
proof fn lemma_up_to_none(feed: Seq<FeedTick>, n: int)
    ensures
        ticks_up_to(feed, n, 0) == 0,
    decreases n,
{
    if n > 0 {
        lemma_up_to_none(feed, n - 1);
    }
}

/// Every tick falls in one of the windows up to that of the last tick.
proof fn lemma_up_to_all(feed: Seq<FeedTick>, k: int)
    requires
        0 <= k <= feed.len(),
    ensures
        ticks_up_to(feed, window_count(feed), k) == k,
    decreases k,
{
    let n = window_count(feed);
    if k == 0 {
        lemma_up_to_none(feed, n);
    } else {
        lemma_up_to_all(feed, k - 1);
        feed::lemma_elapsed_grows(feed, 0, feed.len() as int);
        feed::lemma_elapsed_grows(feed, k, feed.len() as int);
        lemma_up_to_step(feed, n, k);
    }
}

/// No windows hold more than the peak each.
proof fn lemma_up_to_bound(feed: Seq<FeedTick>, n: int, k: int, m: int)
    requires
        0 <= n,
        is_peak(feed, k, m),
    ensures
        ticks_up_to(feed, n, k) <= m * n,
    decreases n,
{
    if n > 0 {
        lemma_up_to_bound(feed, n - 1, k, m);
        assert(ticks_in_window(feed, n - 1, k) <= m);
        assert(m * n == m * (n - 1) + m) by (nonlinear_arith);
    } else {
        assert(m * n == 0) by (nonlinear_arith)
            requires
                n == 0,
        ;
    }
}

/// The mean number of ticks per window never exceeds the peak.
pub proof fn lemma_mean_below_peak(feed: Seq<FeedTick>, peak: int)
    requires
        is_peak(feed, feed.len() as int, peak),
    ensures
        feed.len() <= peak * window_count(feed),
{
    if feed.len() > 0 {
        feed::lemma_elapsed_grows(feed, 0, feed.len() as int);
    }
    lemma_up_to_all(feed, feed.len() as int);
    lemma_up_to_bound(feed, window_count(feed), feed.len() as int, peak);
}

proof fn lemma_counts(feed: Seq<FeedTick>, w: int, id: u64, k: int)
    requires
        0 <= k <= feed.len(),
    ensures
        0 <= ticks_in_window(feed, w, k) <= k,
        0 <= ticks_on_pair(feed, id, k) <= k,
        touched(feed, k).contains(id) <==> ticks_on_pair(feed, id, k) > 0,
        touched(feed, k).finite(),
    decreases k,
{
    if k > 0 {
        lemma_counts(feed, w, id, k - 1);
    }
}

/// A tick is one of those that touched its pair.
proof fn lemma_touches(feed: Seq<FeedTick>, i: int, k: int)
    requires
        0 <= i < k <= feed.len(),
    ensures
        touched(feed, k).contains(feed[i].update.token_pair_id),
    decreases k,
{
    if i < k - 1 {
        lemma_touches(feed, i, k - 1);
    }
}

/// A touched pair has a tick.
proof fn lemma_touched_by(feed: Seq<FeedTick>, id: u64, k: int) -> (i: int)
    requires
        0 <= k <= feed.len(),
        touched(feed, k).contains(id),
    ensures
        0 <= i < k,
        feed[i].update.token_pair_id == id,
    decreases k,
{
    if feed[k - 1].update.token_pair_id == id {
        k - 1
    } else {
        lemma_touched_by(feed, id, k - 1)
    }
}

/// Whether a map holds, for each window with ticks, how many of the first `k` it has.
spec fn counts_windows(map: Map<u64, u64>, feed: Seq<FeedTick>, k: int) -> bool {
    forall|w: u64|
        if map.dom().contains(w) {
            map[w] == #[trigger] ticks_in_window(feed, w as int, k)
        } else {
            ticks_in_window(feed, w as int, k) == 0
        }
}

/// Whether a map holds, for each pair with ticks, how many of the first `k` it has.
spec fn counts_pairs(map: Map<u64, usize>, feed: Seq<FeedTick>, k: int) -> bool {
    &&& map.dom() == touched(feed, k)
    &&& forall|id: u64| map.dom().contains(id) ==> map[id] == #[trigger] ticks_on_pair(feed, id, k)
}

/// One more tick raises the peak only if its own window has more ticks then.
proof fn lemma_peak_step(feed: Seq<FeedTick>, k: int, m: int, count: int)
    requires
        0 <= k < feed.len(),
        is_peak(feed, k, m),
        count == ticks_in_window(feed, window_of(feed, k), k + 1),
    ensures
        is_peak(
            feed,
            k + 1,
            if count > m {
                count
            } else {
                m
            },
        ),
{
    let own = window_of(feed, k);
    assert forall|w: int| #[trigger] ticks_in_window(feed, w, k + 1) <= if count > m {
        count
    } else {
        m
    } by {
        assert(ticks_in_window(feed, w, k) <= m);
    }
    if count > m {
        assert(ticks_in_window(feed, own, k + 1) == count);
    } else {
        assert(k > 0) by {
            lemma_counts(feed, own, 0, k);
        }
        let w = choose|w: int| #[trigger] ticks_in_window(feed, w, k) == m;
        assert(ticks_in_window(feed, w, k + 1) == m) by {
            if w == own {
                assert(ticks_in_window(feed, own, k) == m);
            }
        }
    }
}

/// One more tick raises the most only if its own pair has more ticks then.
proof fn lemma_busiest_step(feed: Seq<FeedTick>, k: int, m: int, count: int)
    requires
        0 <= k < feed.len(),
        is_busiest(feed, k, m),
        count == ticks_on_pair(feed, feed[k].update.token_pair_id, k + 1),
    ensures
        is_busiest(
            feed,
            k + 1,
            if count > m {
                count
            } else {
                m
            },
        ),
{
    let own = feed[k].update.token_pair_id;
    assert forall|id: u64| #[trigger] ticks_on_pair(feed, id, k + 1) <= if count > m {
        count
    } else {
        m
    } by {
        assert(ticks_on_pair(feed, id, k) <= m);
    }
    if count > m {
        assert(ticks_on_pair(feed, own, k + 1) == count);
    } else {
        assert(k > 0) by {
            lemma_counts(feed, 0, own, k);
        }
        let id = choose|id: u64| #[trigger] ticks_on_pair(feed, id, k) == m;
        assert(ticks_on_pair(feed, id, k + 1) == m) by {
            if id == own {
                assert(ticks_on_pair(feed, own, k) == m);
            }
        }
    }
}

/// Walks the feed and aggregates the statistics.
pub fn feed_stats(feed: &[FeedTick]) -> (r: FeedStats)
    requires
        feed::elapsed(feed@, feed@.len() as int) <= u64::MAX,
    ensures
        r.total_ticks == feed@.len(),
        r.duration_us == feed::elapsed(feed@, feed@.len() as int),
        r.windows == window_count(feed@),
        r.total_ticks <= r.peak_ticks_per_ms * r.windows,
        is_peak(feed@, feed@.len() as int, r.peak_ticks_per_ms as int),
        r.distinct_pairs_touched == touched(feed@, feed@.len() as int).len(),
        is_quietest(feed@, r.min_ticks_per_touched_pair as int),
        is_busiest(feed@, feed@.len() as int, r.max_ticks_per_touched_pair as int),
{
    broadcast use vstd::std_specs::hash::group_hash_axioms;

    let n: usize = feed.len();
    let mut absolute: u64 = 0;
    let mut per_ms: HashMap<u64, u64> = HashMap::new();
    let mut per_pair: HashMap<u64, usize> = HashMap::new();
    let mut peak: u64 = 0;
    let mut most: usize = 0;
    let mut i: usize = 0;
    assert(per_pair@.dom() =~= touched(feed@, 0));
    while i < n
        invariant
            i <= n == feed@.len(),
            feed::elapsed(feed@, n as int) <= u64::MAX,
            absolute == feed::elapsed(feed@, i as int),
            counts_windows(per_ms@, feed@, i as int),
            counts_pairs(per_pair@, feed@, i as int),
            is_peak(feed@, i as int, peak as int),
            is_busiest(feed@, i as int, most as int),
        decreases n - i,
    {
        broadcast use vstd::std_specs::hash::group_hash_axioms;

        let tick = feed[i];
        assert(tick == feed@[i as int]);
        proof {
            feed::lemma_elapsed_grows(feed@, i as int, i + 1);
            feed::lemma_elapsed_grows(feed@, i + 1, n as int);
        }
        absolute = absolute + tick.delay_us;
        let window: u64 = absolute / WINDOW_US;
        let id: u64 = tick.update.token_pair_id;
        let ghost ms_before = per_ms@;
        let ghost pair_before = per_pair@;
        proof {
            lemma_counts(feed@, window as int, id, i as int);
            lemma_counts(feed@, window as int, id, i + 1);
            assert(window_of(feed@, i as int) == window);
            assert(ticks_in_window(feed@, window as int, i as int) >= 0);
            assert(ticks_on_pair(feed@, id, i as int) >= 0);
        }
        let in_window: u64 = match per_ms.get(&window) {
            Some(c) => *c + 1,
            None => 1,
        };
        per_ms.insert(window, in_window);
        let on_pair: usize = match per_pair.get(&id) {
            Some(c) => *c + 1,
            None => 1,
        };
        per_pair.insert(id, on_pair);
        assert(in_window == ticks_in_window(feed@, window as int, i + 1));
        assert(on_pair == ticks_on_pair(feed@, id, i + 1));
        assert(counts_windows(per_ms@, feed@, i + 1)) by {
            assert forall|w: u64|
                if per_ms@.dom().contains(w) {
                    per_ms@[w] == #[trigger] ticks_in_window(feed@, w as int, i + 1)
                } else {
                    ticks_in_window(feed@, w as int, i + 1) == 0
                } by {
                if w != window {
                    assert(ticks_in_window(feed@, w as int, i + 1) == ticks_in_window(
                        feed@,
                        w as int,
                        i as int,
                    ));
                }
            }
        }
        assert(counts_pairs(per_pair@, feed@, i + 1)) by {
            assert(per_pair@.dom() =~= touched(feed@, i + 1));
            assert forall|p: u64| per_pair@.dom().contains(p) implies per_pair@[p]
                == #[trigger] ticks_on_pair(feed@, p, i + 1) by {
                if p != id {
                    assert(pair_before.dom().contains(p));
                    assert(pair_before[p] == ticks_on_pair(feed@, p, i as int));
                }
            }
        }
        proof {
            lemma_peak_step(feed@, i as int, peak as int, in_window as int);
            lemma_busiest_step(feed@, i as int, most as int, on_pair as int);
        }
        if in_window > peak {
            peak = in_window;
        }
        if on_pair > most {
            most = on_pair;
        }
        i = i + 1;
    }
    proof {
        if n > 0 {
            let id = choose|id: u64| #[trigger] ticks_on_pair(feed@, id, n as int) == most;
            let first = feed@[0].update.token_pair_id;
            lemma_touches(feed@, 0, n as int);
            lemma_counts(feed@, 0, first, n as int);
            lemma_counts(feed@, 0, id, n as int);
            assert(ticks_on_pair(feed@, first, n as int) <= most);
        }
    }
    let mut least: usize = most;
    let mut i: usize = 0;
    while i < n
        invariant
            i <= n == feed@.len(),
            counts_pairs(per_pair@, feed@, n as int),
            is_busiest(feed@, n as int, most as int),
            forall|j: int|
                0 <= j < i ==> least <= ticks_on_pair(
                    feed@,
                    (#[trigger] feed@[j]).update.token_pair_id,
                    n as int,
                ),
            n > 0 ==> exists|id: u64|
                touched(feed@, n as int).contains(id) && #[trigger] ticks_on_pair(
                    feed@,
                    id,
                    n as int,
                ) == least,
            n == 0 ==> least == 0,
        decreases n - i,
    {
        broadcast use vstd::std_specs::hash::group_hash_axioms;

        let id: u64 = feed[i].update.token_pair_id;
        proof {
            lemma_touches(feed@, i as int, n as int);
        }
        if let Some(c) = per_pair.get(&id) {
            assert(*c == ticks_on_pair(feed@, id, n as int));
            if *c < least {
                least = *c;
            }
        }
        i = i + 1;
    }
    assert(is_quietest(feed@, least as int)) by {
        assert forall|id: u64| touched(feed@, n as int).contains(id) implies least
            <= #[trigger] ticks_on_pair(feed@, id, n as int) by {
            let j = lemma_touched_by(feed@, id, n as int);
        }
    }
    let windows: u64 = if n == 0 {
        0
    } else {
        absolute / WINDOW_US + 1
    };
    proof {
        lemma_mean_below_peak(feed@, peak as int);
    }
    FeedStats {
        total_ticks: n,
        duration_us: absolute,
        windows,
        peak_ticks_per_ms: peak,
        distinct_pairs_touched: per_pair.len(),
        min_ticks_per_touched_pair: least,
        max_ticks_per_touched_pair: most,
    }
}

} // verus!
