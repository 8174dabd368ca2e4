//! When ticks go out, and what each step of the loop leaves behind.
use super::contestant::Contestant;
use super::evaluate;
use super::evaluate::Book;
use super::run_laws;
use super::run_laws::Input;
use super::runloop::{nanos, usd_index, Message, RunloopView, NS_PER_US, SLEEP_SLACK_US};
use crate::protocol::feed;
use crate::protocol::feed::FeedTick;
use crate::protocol::market::{Fee, Token, TokenPair};
use vstd::prelude::*;

verus! {

/// The time of a tick is that of the one before it and its own delay.
pub proof fn lemma_elapsed_adds_up(feed: Seq<FeedTick>, k: int)
    requires
        0 <= k < feed.len(),
    ensures
        feed::elapsed(feed, 0) == 0,
        feed::elapsed(feed, k + 1) == feed::elapsed(feed, k) + feed[k].delay_us,
{
}

proof fn lemma_target_fits(run: RunloopView)
    requires
        run.wf(),
    ensures
        SLEEP_SLACK_US * NS_PER_US == 50_000,
        run.idx < run.feed.len() ==> 0 <= run.target <= 1_000 * u64::MAX,
{
    assert(SLEEP_SLACK_US * NS_PER_US == 50_000);
    if run.idx < run.feed.len() {
        feed::lemma_elapsed_grows(run.feed, run.idx + 1, run.feed.len() as int);
    }
}

/// What the loop decides, given when the next tick is due: it sends the tick exactly from
/// then on, sleeps until 50 us before it, spins for the rest, and stops when no tick is left.
pub proof fn lemma_next_tick_is_sent_when_due(run: RunloopView, now: u128)
    requires
        run.wf(),
    ensures
        ({
            let due = 1_000 * feed::elapsed(run.feed, run.idx + 1);
            &&& run.action(now) is Stop <==> run.idx == run.feed.len()
            &&& run.action(now) is Send <==> run.idx < run.feed.len() && now >= due
            &&& run.action(now) is Send ==> run.action(now)->update == run.feed[run.idx].update
            &&& run.action(now) is Sleep <==> run.idx < run.feed.len() && now + 50_000 < due
            &&& run.action(now) is Sleep ==> now + run.action(now)->ns == due - 50_000
            &&& run.action(now) is Spin <==> run.idx < run.feed.len() && due - 50_000 <= now < due
        }),
{
    lemma_target_fits(run);
}

/// Reading measures the time since the iteration began. A tick that is due is entered into
/// its pair, and into no other; how late it is becomes the overshoot and one more sample of
/// it, and counts as late beyond 10 us. Nothing else changes, but for the end of the iteration
/// where the feed is over.
pub proof fn lemma_read_is(run: RunloopView, iter_start: u128, now: u128)
    requires
        run.wf(),
        !run.sending,
        run.counters.late_ticks < u64::MAX,
        iter_start <= now < iter_start + 0x1_0000_0000_0000_0000,
        run.pairs.len() == run.opening.len(),
    ensures
        ({
            let next = run.after_read(iter_start, now);
            let due = 1_000 * feed::elapsed(run.feed, run.idx + 1);
            let left = run.idx < run.feed.len();
            let sends = left && now >= due;
            let update = run.feed[run.idx].update;
            let at = update.token_pair_id as int;
            &&& next.fee == run.fee
            &&& next.tokens == run.tokens
            &&& next.usd_pair_of_token == run.usd_pair_of_token
            &&& next.opening == run.opening
            &&& next.read == run.read.push((now - iter_start) as u64)
            &&& next.iter == if left {
                run.iter
            } else {
                run.iter.push((now - iter_start) as u64)
            }
            &&& next.sending == sends
            &&& next.idx == run.idx
            &&& next.target == run.target
            &&& next.feed == run.feed
            &&& next.contestants == run.contestants
            &&& next.wait == run.wait
            &&& next.send == run.send
            &&& next.queue_depth == run.queue_depth
            &&& next.counters.submissions_received == run.counters.submissions_received
            &&& next.counters.submissions_ok == run.counters.submissions_ok
            &&& next.counters.submissions_fail == run.counters.submissions_fail
            &&& next.counters.responses_dropped == run.counters.responses_dropped
            &&& next.counters.dispatched == run.counters.dispatched
            &&& next.counters.udp_dispatch_errors == run.counters.udp_dispatch_errors
            &&& !sends ==> {
                &&& next.pairs == run.pairs
                &&& next.overshoot == run.overshoot
                &&& next.counters == run.counters
            }
            &&& sends ==> {
                &&& next.pairs.len() == run.pairs.len()
                &&& next.pairs[at].price == update.price
                &&& next.pairs[at].volume == update.volume
                &&& next.pairs[at].base == run.pairs[at].base
                &&& next.pairs[at].quote == run.pairs[at].quote
                &&& next.pairs[at].id == run.pairs[at].id
                &&& forall|x: int|
                    0 <= x < run.pairs.len() && x != at ==> #[trigger] next.pairs[x]
                        == run.pairs[x]
            }
            &&& sends && now - due <= u64::MAX ==> {
                &&& next.counters.overshoot_ns == now - due
                &&& next.overshoot == run.overshoot.push((now - due) as u64)
                &&& next.counters.late_ticks == run.counters.late_ticks + if now - due > 10_000 {
                    1int
                } else {
                    0
                }
            }
        }),
{
    lemma_target_fits(run);
}

/// A tick that went out counts as dispatched, with the depth of the queue, or as lost; it
/// takes the time since it was due to go out, and ends the iteration. The next one is due a
/// delay of its own later.
pub proof fn lemma_send_is(
    run: RunloopView,
    iter_start: u128,
    send_start: u128,
    queued: Option<u64>,
    now: u128,
)
    requires
        run.wf(),
        run.sending,
        run.counters.dispatched < usize::MAX,
        run.counters.udp_dispatch_errors < u64::MAX,
        send_start <= now < send_start + 0x1_0000_0000_0000_0000,
        iter_start <= now < iter_start + 0x1_0000_0000_0000_0000,
    ensures
        ({
            let next = run.after_send(iter_start, send_start, queued, now);
            &&& next.fee == run.fee
            &&& next.tokens == run.tokens
            &&& next.usd_pair_of_token == run.usd_pair_of_token
            &&& next.opening == run.opening
            &&& next.idx == run.idx + 1
            &&& !next.sending
            &&& next.send == run.send.push((now - send_start) as u64)
            &&& next.iter == run.iter.push((now - iter_start) as u64)
            &&& queued is Some ==> {
                &&& next.counters.dispatched == run.counters.dispatched + 1
                &&& next.counters.udp_dispatch_errors == run.counters.udp_dispatch_errors
                &&& next.queue_depth == run.queue_depth.push(queued->0)
            }
            &&& queued is None ==> {
                &&& next.counters.dispatched == run.counters.dispatched
                &&& next.counters.udp_dispatch_errors == run.counters.udp_dispatch_errors + 1
                &&& next.queue_depth == run.queue_depth
            }
            &&& run.idx + 1 < run.feed.len() ==> next.target == run.target + 1_000
                * run.feed[run.idx + 1].delay_us
            &&& next.pairs == run.pairs
            &&& next.contestants == run.contestants
            &&& next.feed == run.feed
            &&& next.read == run.read
            &&& next.wait == run.wait
            &&& next.overshoot == run.overshoot
            &&& next.counters.submissions_received == run.counters.submissions_received
            &&& next.counters.submissions_ok == run.counters.submissions_ok
            &&& next.counters.submissions_fail == run.counters.submissions_fail
            &&& next.counters.responses_dropped == run.counters.responses_dropped
            &&& next.counters.late_ticks == run.counters.late_ticks
            &&& next.counters.overshoot_ns == run.counters.overshoot_ns
        }),
{
}

/// A message counts as received, and as accepted or as rejected by what it is answered; the
/// answer carries its number and the balance that its contestant has then. It touches neither
/// the feed nor any measurement.
pub proof fn lemma_message_is(run: RunloopView, message: Message)
    requires
        run.wf(),
        run.counters.submissions_received < u64::MAX,
    ensures
        ({
            let next = run.after_message(message);
            let r = run.response_to(message);
            &&& next.fee == run.fee
            &&& next.tokens == run.tokens
            &&& next.usd_pair_of_token == run.usd_pair_of_token
            &&& next.opening == run.opening
            &&& evaluate::settled(
                Book {
                    tokens: run.tokens,
                    pairs: run.pairs,
                    usd_pair_of_token: run.usd_pair_of_token,
                    fee: run.fee,
                },
                message.submission.legs,
                message.contestant_id,
                run.contestants,
                next.pairs,
                next.contestants,
                (r.ok, r.balance),
            )
            &&& r.sub_id == message.submission.sub_id
            &&& r.ok == 0 || r.ok == 1
            &&& next.counters.submissions_received == run.counters.submissions_received + 1
            &&& r.ok == 1 ==> {
                &&& next.counters.submissions_ok == run.counters.submissions_ok + 1
                &&& next.counters.submissions_fail == run.counters.submissions_fail
            }
            &&& r.ok == 0 ==> {
                &&& next.counters.submissions_ok == run.counters.submissions_ok
                &&& next.counters.submissions_fail == run.counters.submissions_fail + 1
                &&& next.pairs == run.pairs
            }
            &&& run.contestants.dom().contains(message.contestant_id)
                ==> next.contestants[message.contestant_id].balance == r.balance
            &&& !run.contestants.dom().contains(message.contestant_id) ==> r.ok == 0 && r.balance
                == 0 && next.contestants == run.contestants
            &&& forall|other: u64|
                other != message.contestant_id && run.contestants.dom().contains(other)
                    ==> #[trigger] next.contestants[other] == run.contestants[other]
            &&& next.contestants.dom() == run.contestants.dom()
            &&& next.idx == run.idx
            &&& next.sending == run.sending
            &&& next.target == run.target
            &&& next.feed == run.feed
            &&& next.read == run.read
            &&& next.wait == run.wait
            &&& next.send == run.send
            &&& next.iter == run.iter
            &&& next.overshoot == run.overshoot
            &&& next.queue_depth == run.queue_depth
            &&& next.counters.dispatched == run.counters.dispatched
            &&& next.counters.udp_dispatch_errors == run.counters.udp_dispatch_errors
            &&& next.counters.responses_dropped == run.counters.responses_dropped
            &&& next.counters.late_ticks == run.counters.late_ticks
            &&& next.counters.overshoot_ns == run.counters.overshoot_ns
        }),
{
    assert(run.after_message(message).contestants.dom() =~= run.contestants.dom());
}

/// A lost response counts as one, a wait is measured with the iteration that it ends, and
/// neither does anything else.
pub proof fn lemma_drop_and_wait_are(
    run: RunloopView,
    iter_start: u128,
    wait_start: u128,
    now: u128,
)
    requires
        run.counters.responses_dropped < u64::MAX,
        wait_start <= now < wait_start + 0x1_0000_0000_0000_0000,
        iter_start <= now < iter_start + 0x1_0000_0000_0000_0000,
    ensures
        ({
            let next = run.after_dropped();
            &&& next.counters.responses_dropped == run.counters.responses_dropped + 1
            &&& next.counters.dispatched == run.counters.dispatched
            &&& next.counters.udp_dispatch_errors == run.counters.udp_dispatch_errors
            &&& next.counters.submissions_received == run.counters.submissions_received
            &&& next.counters.submissions_ok == run.counters.submissions_ok
            &&& next.counters.submissions_fail == run.counters.submissions_fail
            &&& next.counters.overshoot_ns == run.counters.overshoot_ns
            &&& next.counters.late_ticks == run.counters.late_ticks
            &&& next.pairs == run.pairs
            &&& next.contestants == run.contestants
            &&& next.feed == run.feed
            &&& next.idx == run.idx
            &&& next.sending == run.sending
            &&& next.target == run.target
            &&& next.read == run.read
            &&& next.wait == run.wait
            &&& next.send == run.send
            &&& next.iter == run.iter
            &&& next.overshoot == run.overshoot
            &&& next.queue_depth == run.queue_depth
            &&& next.fee == run.fee
            &&& next.tokens == run.tokens
            &&& next.usd_pair_of_token == run.usd_pair_of_token
            &&& next.opening == run.opening
        }),
        ({
            let next = run.after_wait(iter_start, wait_start, now);
            &&& next.wait == run.wait.push((now - wait_start) as u64)
            &&& next.iter == run.iter.push((now - iter_start) as u64)
            &&& next.counters == run.counters
            &&& next.pairs == run.pairs
            &&& next.contestants == run.contestants
            &&& next.idx == run.idx
            &&& next.target == run.target
            &&& next.read == run.read
            &&& next.send == run.send
            &&& next.feed == run.feed
            &&& next.sending == run.sending
            &&& next.overshoot == run.overshoot
            &&& next.queue_depth == run.queue_depth
            &&& next.fee == run.fee
            &&& next.tokens == run.tokens
            &&& next.usd_pair_of_token == run.usd_pair_of_token
            &&& next.opening == run.opening
        }),
{
}

/// Throughout a run the next tick is due once all delays up to and with its own have passed.
proof fn lemma_target(start: RunloopView, inputs: Seq<Input>)
    requires
        start.idx == 0,
        !start.sending,
        start.feed.len() > 0 ==> start.target == 1_000 * start.feed[0].delay_us,
        run_laws::possible(start, inputs),
    ensures
        ({
            let run = run_laws::run_after(start, inputs);
            &&& run.feed == start.feed
            &&& 0 <= run.idx
            &&& run.sending ==> run.idx < run.feed.len()
            &&& run.idx < run.feed.len() ==> run.target == 1_000 * feed::elapsed(
                run.feed,
                run.idx + 1,
            )
        }),
    decreases inputs.len(),
{
    if inputs.len() > 0 {
        lemma_target(start, inputs.drop_last());
    } else if start.feed.len() > 0 {
        assert(feed::elapsed(start.feed, 0) == 0);
        assert(feed::elapsed(start.feed, 1) == start.feed[0].delay_us);
    }
}

/// No tick of a run goes out before it is due, and none that is due is held back: whatever
/// happened before, the loop sends tick `i` when it looks at the feed next exactly from the
/// moment at which the delays of the ticks up to and with it have passed.
pub proof fn lemma_no_tick_early(
    fee: Fee,
    tokens: Seq<Token>,
    pairs: Seq<TokenPair>,
    contestants: Map<u64, Contestant>,
    feed: Seq<FeedTick>,
    inputs: Seq<Input>,
    now: u128,
)
    requires
        run_laws::possible(RunloopView::start(fee, tokens, pairs, contestants, feed), inputs),
        !run_laws::run_after(
            RunloopView::start(fee, tokens, pairs, contestants, feed),
            inputs,
        ).sending,
    ensures
        ({
            let run = run_laws::run_after(
                RunloopView::start(fee, tokens, pairs, contestants, feed),
                inputs,
            );
            &&& run.action(now) is Send <==> run.idx < feed.len() && now >= 1_000 * feed::elapsed(
                feed,
                run.idx + 1,
            )
            &&& run.action(now) is Send ==> run.action(now)->update == feed[run.idx].update
            &&& run.action(now) is Stop <==> run.idx >= feed.len()
        }),
{
    lemma_target(RunloopView::start(fee, tokens, pairs, contestants, feed), inputs);
}

/// A run starts with nothing sent, counted or measured, and the market as it was given.
pub proof fn lemma_start_is(
    fee: Fee,
    tokens: Seq<Token>,
    pairs: Seq<TokenPair>,
    contestants: Map<u64, Contestant>,
    feed: Seq<FeedTick>,
)
    ensures
        ({
            let run = RunloopView::start(fee, tokens, pairs, contestants, feed);
            &&& run.fee == fee
            &&& run.tokens == tokens
            &&& run.pairs == pairs
            &&& run.contestants == contestants
            &&& run.feed == feed
            &&& run.opening == pairs
            &&& run.idx == 0
            &&& !run.sending
            &&& feed.len() > 0 ==> run.target == 1_000 * feed[0].delay_us
            &&& run.counters.dispatched == 0
            &&& run.counters.udp_dispatch_errors == 0
            &&& run.counters.submissions_received == 0
            &&& run.counters.submissions_ok == 0
            &&& run.counters.submissions_fail == 0
            &&& run.counters.responses_dropped == 0
            &&& run.counters.overshoot_ns == 0
            &&& run.counters.late_ticks == 0
            &&& run.read.len() == 0
            &&& run.wait.len() == 0
            &&& run.send.len() == 0
            &&& run.iter.len() == 0
            &&& run.overshoot.len() == 0
            &&& run.queue_depth.len() == 0
        }),
{
}

/// The USD pair of a token is the last pair that has the token as its base and USD as its
/// quote; a token without one has none.
pub proof fn lemma_usd_pair_is(n: nat, pairs: Seq<TokenPair>, k: int, t: int)
    requires
        0 <= k <= pairs.len() <= usize::MAX,
        0 <= t < n,
        forall|i: int|
            0 <= i < pairs.len() && (#[trigger] pairs[i]).quote == 0 ==> pairs[i].base < n,
    ensures
        ({
            let index = usd_index(n, pairs, k);
            &&& index.len() == n
            &&& (forall|i: int|
                0 <= i < k ==> (#[trigger] pairs[i]).base != t || pairs[i].quote != 0)
                ==> index[t] == usize::MAX
            &&& forall|i: int|
                0 <= i < k && (#[trigger] pairs[i]).base == t && pairs[i].quote == 0 && (forall|
                    j: int,
                |
                    i < j < k ==> (#[trigger] pairs[j]).base != t || pairs[j].quote != 0)
                    ==> index[t] == i
        }),
    decreases k,
{
    if k > 0 {
        lemma_usd_pair_is(n, pairs, k - 1, t);
        let p = pairs[k - 1];
        assert forall|i: int|
            0 <= i < k && (#[trigger] pairs[i]).base == t && pairs[i].quote == 0 && (forall|j: int|
                i < j < k ==> (#[trigger] pairs[j]).base != t || pairs[j].quote
                    != 0) implies usd_index(n, pairs, k)[t] == i by {
            if i < k - 1 {
                assert(p.base != t || p.quote != 0);
            }
        }
    }
}

/// A span of time is what lies between two moments, in 64 bits, and nothing where the second
/// does not come after the first.
pub proof fn lemma_span_is(from: u128, to: u128)
    ensures
        to <= from ==> nanos(from, to) == 0,
        from < to <= from + u64::MAX ==> nanos(from, to) == to - from,
        from < to ==> (to - from - nanos(from, to)) % 0x1_0000_0000_0000_0000 == 0,
{
    if from < to {
        let d = to - from;
        let w = 0x1_0000_0000_0000_0000int;
        vstd::arithmetic::div_mod::lemma_fundamental_div_mod(d, w);
        vstd::arithmetic::div_mod::lemma_mod_multiples_basic(d / w, w);
        assert(d - d % w == (d / w) * w);
    }
}

/// There is room for one more step as long as every count is below the largest number of 64
/// bits.
pub proof fn lemma_room_is(run: RunloopView)
    ensures
        run.roomy() <==> {
            &&& run.counters.submissions_received < 0xffff_ffff_ffff_ffff
            &&& run.counters.responses_dropped < 0xffff_ffff_ffff_ffff
            &&& run.counters.late_ticks < 0xffff_ffff_ffff_ffff
            &&& run.read.len() < 0xffff_ffff_ffff_ffff
            &&& run.wait.len() < 0xffff_ffff_ffff_ffff
            &&& run.send.len() < 0xffff_ffff_ffff_ffff
            &&& run.iter.len() < 0xffff_ffff_ffff_ffff
            &&& run.overshoot.len() < 0xffff_ffff_ffff_ffff
            &&& run.queue_depth.len() < 0xffff_ffff_ffff_ffff
        },
{
}

} // verus!
