//! What the statistics of a feed count.
use super::feed_stats;
use crate::protocol::feed;
use crate::protocol::feed::FeedTick;
use vstd::prelude::*;

verus! {

/// The numbers of the ticks, among the first `k`, whose time lies in the aligned window of
/// 1 ms with the number `w`.
pub open spec fn members_of_window(feed: Seq<FeedTick>, w: int, k: int) -> Set<int> {
    Set::new(
        |i: int|
            0 <= i < k && 1_000 * w <= feed::elapsed(feed, i + 1) && feed::elapsed(feed, i + 1)
                < 1_000 * (w + 1),
    )
}

/// The numbers of the ticks, among the first `k`, that are on a pair.
pub open spec fn members_of_pair(feed: Seq<FeedTick>, id: u64, k: int) -> Set<int> {
    Set::new(|i: int| 0 <= i < k && feed[i].update.token_pair_id == id)
}

/// The ticks that are counted in a window are those whose time lies in it.
pub proof fn lemma_window_counts(feed: Seq<FeedTick>, w: int, k: int)
    requires
        0 <= k <= feed.len(),
    ensures
        members_of_window(feed, w, k).finite(),
        feed_stats::ticks_in_window(feed, w, k) == members_of_window(feed, w, k).len(),
    decreases k,
{
    let now = members_of_window(feed, w, k);
    if k > 0 {
        lemma_window_counts(feed, w, k - 1);
        let before = members_of_window(feed, w, k - 1);
        let t = feed::elapsed(feed, k);
        feed::lemma_elapsed_grows(feed, 0, k);
        if 1_000 * w <= t < 1_000 * (w + 1) {
            assert(now =~= before.insert(k - 1));
        } else {
            assert(now =~= before);
        }
    } else {
        assert(now =~= Set::empty());
    }
}

/// The ticks that are counted on a pair are those that are on it, and the pairs that count
/// as touched are those with such a tick.
pub proof fn lemma_pair_counts(feed: Seq<FeedTick>, id: u64, k: int)
    requires
        0 <= k <= feed.len(),
    ensures
        members_of_pair(feed, id, k).finite(),
        feed_stats::ticks_on_pair(feed, id, k) == members_of_pair(feed, id, k).len(),
        feed_stats::touched(feed, k).contains(id) <==> exists|i: int|
            0 <= i < k && (#[trigger] feed[i]).update.token_pair_id == id,
    decreases k,
{
    let now = members_of_pair(feed, id, k);
    if k > 0 {
        lemma_pair_counts(feed, id, k - 1);
        let before = members_of_pair(feed, id, k - 1);
        if feed[k - 1].update.token_pair_id == id {
            assert(now =~= before.insert(k - 1));
        } else {
            assert(now =~= before);
        }
    } else {
        assert(now =~= Set::empty());
    }
}

/// What the peak, the busiest and the quietest count are: no window or pair exceeds the most,
/// no touched pair stays below the least, and each is reached.
pub proof fn lemma_extremes_are(feed: Seq<FeedTick>, peak: int, most: int, least: int)
    requires
        feed.len() > 0,
        feed_stats::is_peak(feed, feed.len() as int, peak),
        feed_stats::is_busiest(feed, feed.len() as int, most),
        feed_stats::is_quietest(feed, least),
    ensures
        ({
            let n = feed.len() as int;
            &&& forall|w: int| #[trigger] members_of_window(feed, w, n).len() <= peak
            &&& exists|w: int| #[trigger] members_of_window(feed, w, n).len() == peak
            &&& forall|id: u64| #[trigger] members_of_pair(feed, id, n).len() <= most
            &&& exists|id: u64| #[trigger] members_of_pair(feed, id, n).len() == most
            &&& forall|i: int|
                0 <= i < n ==> least <= members_of_pair(
                    feed,
                    (#[trigger] feed[i]).update.token_pair_id,
                    n,
                ).len()
            &&& exists|i: int|
                0 <= i < n && members_of_pair(
                    feed,
                    (#[trigger] feed[i]).update.token_pair_id,
                    n,
                ).len() == least
        }),
{
    let n = feed.len() as int;
    assert forall|w: int| #[trigger] members_of_window(feed, w, n).len() <= peak by {
        lemma_window_counts(feed, w, n);
        assert(feed_stats::ticks_in_window(feed, w, n) <= peak);
    }
    let w = choose|w: int| #[trigger] feed_stats::ticks_in_window(feed, w, n) == peak;
    lemma_window_counts(feed, w, n);
    assert(members_of_window(feed, w, n).len() == peak);
    assert forall|id: u64| #[trigger] members_of_pair(feed, id, n).len() <= most by {
        lemma_pair_counts(feed, id, n);
        assert(feed_stats::ticks_on_pair(feed, id, n) <= most);
    }
    let id = choose|id: u64| #[trigger] feed_stats::ticks_on_pair(feed, id, n) == most;
    lemma_pair_counts(feed, id, n);
    assert(members_of_pair(feed, id, n).len() == most);
    assert forall|i: int| 0 <= i < n implies least <= members_of_pair(
        feed,
        (#[trigger] feed[i]).update.token_pair_id,
        n,
    ).len() by {
        let own = feed[i].update.token_pair_id;
        lemma_pair_counts(feed, own, n);
        assert(feed_stats::touched(feed, n).contains(own));
        assert(least <= feed_stats::ticks_on_pair(feed, own, n));
    }
    let quiet = choose|id: u64|
        feed_stats::touched(feed, n).contains(id) && #[trigger] feed_stats::ticks_on_pair(
            feed,
            id,
            n,
        ) == least;
    lemma_pair_counts(feed, quiet, n);
    let i = choose|i: int| 0 <= i < n && (#[trigger] feed[i]).update.token_pair_id == quiet;
    assert(members_of_pair(feed, feed[i].update.token_pair_id, n).len() == least);
}

/// The number of windows is that of the window of the last tick, counted from one; none for
/// an empty feed.
pub proof fn lemma_windows_are(feed: Seq<FeedTick>)
    ensures
        feed.len() == 0 ==> feed_stats::window_count(feed) == 0,
        feed.len() > 0 ==> 1_000 * (feed_stats::window_count(feed) - 1) <= feed::elapsed(
            feed,
            feed.len() as int,
        ) < 1_000 * feed_stats::window_count(feed),
{
}

} // verus!
