//! The run loop: which submissions to read, when to send which tick, and what is counted.
//!
//! Time is given in nanoseconds since the start of the run.
use super::contestant::Contestant;
use super::evaluate;
use super::stats;
use super::stats::{Histogram, StageStats};
use crate::generation::config::GenerationConfig;
use crate::generation::feed_laws;
use crate::generation::generate_market;
use crate::generation::math;
use crate::protocol::feed;
use crate::protocol::feed::{FeedTick, PriceUpdate};
use crate::protocol::market::{Fee, Market, MarketView, Token, TokenPair, USD_TOKEN_ID};
use crate::protocol::submission::{
    RouteSubmission, RouteSubmissionLeg, SubmissionResponse, SubmissionView,
};
use std::collections::HashMap;
use vstd::prelude::*;

verus! {

/// The loop wakes up this long before a tick is due and spins from then on.
pub const SLEEP_SLACK_US: u64 = 50;

/// A tick that goes out later than this is counted as late.
pub const LATE_THRESHOLD_NS: u64 = 10_000;

/// Submissions that are read before the loop looks at the feed again.
pub const SUBMISSION_DRAIN_LIMIT: usize = 64;

/// What the run loop leaves behind.
#[derive(Debug, Clone, Copy)]
pub struct RunloopOutcome {
    pub dispatched: usize,
    pub udp_dispatch_errors: u64,
    pub submissions_received: u64,
    pub submissions_ok: u64,
    pub submissions_fail: u64,
    pub responses_dropped: u64,
    pub final_overshoot_ns: u64,
    pub late_ticks: u64,
    pub read_stats: StageStats,
    pub wait_stats: StageStats,
    pub send_stats: StageStats,
    pub iter_stats: StageStats,
    pub overshoot_stats: StageStats,
    pub udp_queue_depth_stats: StageStats,
}

/// What the loop counts.
#[derive(Debug, Clone, Copy, PartialEq, Eq, Structural)]
pub struct Counters {
    pub dispatched: usize,
    pub udp_dispatch_errors: u64,
    pub submissions_received: u64,
    pub submissions_ok: u64,
    pub submissions_fail: u64,
    pub responses_dropped: u64,
    pub overshoot_ns: u64,
    pub late_ticks: u64,
}

/// What to do once the submissions have been read.
#[derive(Debug, Clone, Copy, PartialEq, Eq, Structural)]
pub enum Action {
    /// The feed is over.
    Stop,
    /// The next tick is far off: sleep for so many nanoseconds.
    Sleep { ns: u128 },
    /// The next tick is close: spin.
    Spin,
    /// The next tick is due: send it.
    Send { update: PriceUpdate },
}

/// The index of the USD pair of each of `n` tokens among the first `k` pairs; the last one
/// where there are several, and `usize::MAX` where there is none.
pub open spec fn usd_index(n: nat, pairs: Seq<TokenPair>, k: int) -> Seq<usize>
    decreases k,
{
    if k <= 0 {
        Seq::new(n, |t: int| usize::MAX)
    } else if pairs[k - 1].quote == USD_TOKEN_ID {
        usd_index(n, pairs, k - 1).update(pairs[k - 1].base as int, (k - 1) as usize)
    } else {
        usd_index(n, pairs, k - 1)
    }
}

/// Whether the base token of every USD pair exists.
pub open spec fn usd_bases_known(n: int, pairs: Seq<TokenPair>) -> bool {
    forall|i: int|
        0 <= i < pairs.len() && (#[trigger] pairs[i]).quote == USD_TOKEN_ID ==> pairs[i].base < n
}

/// Finds the USD pair of each of `n` tokens.
pub fn usd_pair_index(n: usize, pairs: &Vec<TokenPair>) -> (r: Vec<usize>)
    requires
        usd_bases_known(n as int, pairs@),
    ensures
        r@ == usd_index(n as nat, pairs@, pairs@.len() as int),
{
    let mut index: Vec<usize> = Vec::new();
    let mut t: usize = 0;
    while t < n
        invariant
            t <= n,
            index@ == Seq::new(t as nat, |t: int| usize::MAX),
        decreases n - t,
    {
        index.push(usize::MAX);
        t = t + 1;
        assert(index@ =~= Seq::new(t as nat, |t: int| usize::MAX));
    }
    let mut k: usize = 0;
    while k < pairs.len()
        invariant
            k <= pairs@.len(),
            usd_bases_known(n as int, pairs@),
            index@.len() == n,
            index@ == usd_index(n as nat, pairs@, k as int),
        decreases pairs@.len() - k,
    {
        let p = pairs[k];
        assert(p == pairs@[k as int]);
        if p.quote == USD_TOKEN_ID {
            index.set(p.base as usize, k);
        }
        k = k + 1;
    }
    index
}

/// In a laid out market the USD pair of a token stands one place before the token.
pub proof fn lemma_usd_index(tokens: Seq<Token>, pairs: Seq<TokenPair>, k: int, t: int)
    requires
        generate_market::laid_out(tokens, pairs),
        0 <= k <= pairs.len() <= usize::MAX,
        0 <= t < tokens.len(),
    ensures
        usd_index(tokens.len(), pairs, k).len() == tokens.len(),
        usd_index(tokens.len(), pairs, k)[t] == if 1 <= t <= k {
            (t - 1) as usize
        } else {
            usize::MAX
        },
    decreases k,
{
    if k > 0 {
        lemma_usd_index(tokens, pairs, k - 1, t);
        if k - 1 < tokens.len() - 1 {
            assert(pairs[k - 1].base == k);
        } else {
            assert(pairs[k - 1].quote != USD_TOKEN_ID);
        }
    }
}

/// The nanoseconds from one moment to a later one, zero where it is not later, as far as
/// they fit a `u64`.
pub open spec fn nanos(from: u128, to: u128) -> u64 {
    (if to > from {
        (to - from) % 0x1_0000_0000_0000_0000
    } else {
        0
    }) as u64
}

fn nanos_between(from: u128, to: u128) -> (r: u64)
    ensures
        r == nanos(from, to),
{
    if to > from {
        ((to - from) % 0x1_0000_0000_0000_0000) as u64
    } else {
        0
    }
}

/// Nanoseconds in a microsecond.
pub const NS_PER_US: u64 = 1_000;

/// What the loop knows: the market, the contestants, the feed and how far it has been sent,
/// and what has been counted and measured.
pub struct RunloopView {
    pub fee: Fee,
    pub tokens: Seq<Token>,
    pub usd_pair_of_token: Seq<usize>,
    pub pairs: Seq<TokenPair>,
    pub contestants: Map<u64, Contestant>,
    pub feed: Seq<FeedTick>,
    /// Ticks that have been sent.
    pub idx: int,
    /// Whether the next tick is on its way.
    pub sending: bool,
    /// When the next tick is due.
    pub target: int,
    pub counters: Counters,
    pub read: Seq<u64>,
    pub wait: Seq<u64>,
    pub send: Seq<u64>,
    pub iter: Seq<u64>,
    pub overshoot: Seq<u64>,
    pub queue_depth: Seq<u64>,
    /// The pairs as they were at the start.
    pub opening: Seq<TokenPair>,
}

/// A submission and who made it.
pub struct Message {
    pub contestant_id: u64,
    pub submission: SubmissionView,
}

/// Whether two lists of pairs differ in their pools at most.
pub open spec fn same_but_volume(a: Seq<TokenPair>, b: Seq<TokenPair>) -> bool {
    &&& a.len() == b.len()
    &&& forall|i: int|
        0 <= i < a.len() ==> (#[trigger] a[i]).id == b[i].id && a[i].base == b[i].base && a[i].quote
            == b[i].quote && a[i].price == b[i].price
}

impl RunloopView {
    /// The ticks that the market shows.
    pub open spec fn shown(self) -> int {
        if self.sending {
            self.idx + 1
        } else {
            self.idx
        }
    }

    /// What holds all the time: every submission was answered one way or the other; no more
    /// responses were lost than submissions were received; every sent tick was dispatched or
    /// counted as an error; the next tick is due when the delays up to it have passed; prices
    /// are those of the feed, whatever was traded; and there is one sample of the overshoot
    /// for each tick that is shown, one of sending for each that was sent, and one of the
    /// queue's depth for each that was dispatched.
    pub open spec fn wf(self) -> bool {
        &&& 0 <= self.idx <= self.feed.len()
        &&& self.sending ==> self.idx < self.feed.len()
        &&& self.idx < self.feed.len() ==> self.target == feed::elapsed(self.feed, self.idx + 1)
            * NS_PER_US
        &&& feed::elapsed(self.feed, self.feed.len() as int) <= u64::MAX
        &&& forall|i: int|
            0 <= i < self.feed.len() ==> (#[trigger] self.feed[i]).update.token_pair_id
                < self.opening.len()
        &&& self.counters.submissions_received == self.counters.submissions_ok
            + self.counters.submissions_fail
        &&& self.counters.responses_dropped <= self.counters.submissions_received
        &&& self.counters.dispatched + self.counters.udp_dispatch_errors == self.idx
        &&& same_but_volume(self.pairs, feed::replayed(self.opening, self.feed, self.shown()))
        &&& self.overshoot.len() == self.shown()
        &&& self.send.len() == self.idx
        &&& self.queue_depth.len() == self.counters.dispatched
        &&& self.counters.late_ticks <= self.overshoot.len()
    }

    /// Whether every count can go up by one.
    pub open spec fn roomy(self) -> bool {
        &&& self.counters.submissions_received < u64::MAX
        &&& self.counters.responses_dropped < u64::MAX
        &&& self.counters.late_ticks < u64::MAX
        &&& self.read.len() < u64::MAX
        &&& self.wait.len() < u64::MAX
        &&& self.send.len() < u64::MAX
        &&& self.iter.len() < u64::MAX
        &&& self.overshoot.len() < u64::MAX
        &&& self.queue_depth.len() < u64::MAX
    }

    /// The loop at its start.
    pub open spec fn start(
        fee: Fee,
        tokens: Seq<Token>,
        pairs: Seq<TokenPair>,
        contestants: Map<u64, Contestant>,
        feed: Seq<FeedTick>,
    ) -> RunloopView {
        RunloopView {
            fee,
            tokens,
            usd_pair_of_token: usd_index(tokens.len(), pairs, pairs.len() as int),
            pairs,
            contestants,
            feed,
            idx: 0,
            sending: false,
            target: if feed.len() > 0 {
                feed[0].delay_us * NS_PER_US
            } else {
                0
            },
            counters: Counters {
                dispatched: 0,
                udp_dispatch_errors: 0,
                submissions_received: 0,
                submissions_ok: 0,
                submissions_fail: 0,
                responses_dropped: 0,
                overshoot_ns: 0,
                late_ticks: 0,
            },
            read: Seq::empty(),
            wait: Seq::empty(),
            send: Seq::empty(),
            iter: Seq::empty(),
            overshoot: Seq::empty(),
            queue_depth: Seq::empty(),
            opening: pairs,
        }
    }

    /// The market that routes are evaluated against.
    pub open spec fn book(self) -> evaluate::Book {
        evaluate::book_of(self.tokens, self.pairs, self.usd_pair_of_token, self.fee)
    }

    /// Whether the machine can evaluate a submission.
    pub open spec fn evaluable(
        self,
        contestant_id: u64,
        submission: RouteSubmission,
    ) -> bool {
        self.contestants.dom().contains(contestant_id) ==> self.book().evaluable(
            submission.legs@,
            self.contestants[contestant_id].balance,
        )
    }

    /// The loop after a submission that left the market and the contestants so.
    pub open spec fn after_submission(
        self,
        pairs: Seq<TokenPair>,
        contestants: Map<u64, Contestant>,
        ok: u8,
    ) -> RunloopView {
        RunloopView {
            pairs,
            contestants,
            counters: Counters {
                submissions_received: (self.counters.submissions_received + 1) as u64,
                submissions_ok: (self.counters.submissions_ok + if ok == 1 {
                    1int
                } else {
                    0
                }) as u64,
                submissions_fail: (self.counters.submissions_fail + if ok == 1 {
                    0int
                } else {
                    1
                }) as u64,
                ..self.counters
            },
            ..self
        }
    }

    /// What the evaluation of a message comes to.
    pub open spec fn settlement(self, message: Message) -> evaluate::Settlement {
        evaluate::settlement(
            self.book(),
            message.submission.legs,
            message.contestant_id,
            self.contestants,
        )
    }

    /// The response to a message.
    pub open spec fn response_to(self, message: Message) -> SubmissionResponse {
        let (ok, balance) = self.settlement(message).answer;
        SubmissionResponse { sub_id: message.submission.sub_id, ok, balance }
    }

    /// The loop after a message.
    pub open spec fn after_message(self, message: Message) -> RunloopView {
        let s = self.settlement(message);
        self.after_submission(s.pairs, s.contestants, s.answer.0)
    }

    /// The loop after a response that nobody took.
    pub open spec fn after_dropped(self) -> RunloopView {
        RunloopView {
            counters: Counters {
                responses_dropped: (self.counters.responses_dropped + 1) as u64,
                ..self.counters
            },
            ..self
        }
    }

    /// The loop after a wait.
    pub open spec fn after_wait(self, iter_start: u128, wait_start: u128, now: u128) -> RunloopView {
        RunloopView {
            wait: self.wait.push(nanos(wait_start, now)),
            iter: self.iter.push(nanos(iter_start, now)),
            ..self
        }
    }

    /// What the loop does once the submissions have been read, at `now`.
    pub open spec fn action(self, now: u128) -> Action {
        if self.idx >= self.feed.len() {
            Action::Stop
        } else if now < self.target {
            if self.target > now + SLEEP_SLACK_US * NS_PER_US {
                Action::Sleep { ns: (self.target - now - SLEEP_SLACK_US * NS_PER_US) as u128 }
            } else {
                Action::Spin
            }
        } else {
            Action::Send { update: self.feed[self.idx].update }
        }
    }

    /// The loop once the submissions have been read, at `now`.
    pub open spec fn after_read(self, iter_start: u128, now: u128) -> RunloopView {
        let read = self.read.push(nanos(iter_start, now));
        match self.action(now) {
            Action::Stop => RunloopView {
                read,
                iter: self.iter.push(nanos(iter_start, now)),
                ..self
            },
            Action::Send { update } => {
                let overshoot_ns = nanos(self.target as u128, now);
                RunloopView {
                    read,
                    overshoot: self.overshoot.push(overshoot_ns),
                    counters: Counters {
                        overshoot_ns,
                        late_ticks: (self.counters.late_ticks + if overshoot_ns
                            > LATE_THRESHOLD_NS {
                            1int
                        } else {
                            0
                        }) as u64,
                        ..self.counters
                    },
                    pairs: feed::refreshed(self.pairs, update),
                    sending: true,
                    ..self
                }
            },
            _ => RunloopView { read, ..self },
        }
    }

    /// The loop after a tick went out at `now`: into a queue of the given depth, or lost.
    pub open spec fn after_send(
        self,
        iter_start: u128,
        send_start: u128,
        queued: Option<u64>,
        now: u128,
    ) -> RunloopView {
        RunloopView {
            counters: match queued {
                Some(_) => Counters {
                    dispatched: (self.counters.dispatched + 1) as usize,
                    ..self.counters
                },
                None => Counters {
                    udp_dispatch_errors: (self.counters.udp_dispatch_errors + 1) as u64,
                    ..self.counters
                },
            },
            queue_depth: match queued {
                Some(depth) => self.queue_depth.push(depth),
                None => self.queue_depth,
            },
            send: self.send.push(nanos(send_start, now)),
            iter: self.iter.push(nanos(iter_start, now)),
            idx: self.idx + 1,
            sending: false,
            target: if self.idx + 1 < self.feed.len() {
                self.target + self.feed[self.idx + 1].delay_us * NS_PER_US
            } else {
                self.target
            },
            ..self
        }
    }
}

/// A trade takes from the pools only.
proof fn lemma_trades_keep_prices(
    book: evaluate::Book,
    legs: Seq<RouteSubmissionLeg>,
)
    ensures
        same_but_volume(book.pairs_after(legs), book.pairs),
{
}

/// An update refreshes a traded market like an untraded one, but for the pools.
proof fn lemma_refresh(a: Seq<TokenPair>, b: Seq<TokenPair>, update: PriceUpdate)
    requires
        same_but_volume(a, b),
        update.token_pair_id < a.len(),
    ensures
        same_but_volume(feed::refreshed(a, update), feed::refreshed(b, update)),
{
}

/// The state of the run loop.
pub struct Runloop {
    fee: Fee,
    tokens: Vec<Token>,
    usd_pair_of_token: Vec<usize>,
    pairs: Vec<TokenPair>,
    contestants: HashMap<u64, Contestant>,
    feed: Vec<FeedTick>,
    idx: usize,
    sending: bool,
    target: u128,
    counters: Counters,
    read_hist: Histogram,
    wait_hist: Histogram,
    send_hist: Histogram,
    iter_hist: Histogram,
    overshoot_hist: Histogram,
    udp_queue_depth_hist: Histogram,
    opening: Ghost<Seq<TokenPair>>,
}

impl View for Runloop {
    type V = RunloopView;

    closed spec fn view(&self) -> RunloopView {
        RunloopView {
            fee: self.fee,
            tokens: self.tokens@,
            usd_pair_of_token: self.usd_pair_of_token@,
            pairs: self.pairs@,
            contestants: self.contestants@,
            feed: self.feed@,
            idx: self.idx as int,
            sending: self.sending,
            target: self.target as int,
            counters: self.counters,
            read: self.read_hist@,
            wait: self.wait_hist@,
            send: self.send_hist@,
            iter: self.iter_hist@,
            overshoot: self.overshoot_hist@,
            queue_depth: self.udp_queue_depth_hist@,
            opening: self.opening@,
        }
    }
}

impl Runloop {
    /// What holds of every loop.
    pub closed spec fn wf(self) -> bool {
        &&& self@.wf()
        &&& self.read_hist.wf()
        &&& self.wait_hist.wf()
        &&& self.send_hist.wf()
        &&& self.iter_hist.wf()
        &&& self.overshoot_hist.wf()
        &&& self.udp_queue_depth_hist.wf()
    }

    /// Whether a feed can be run on a market: it ends in time, and the pairs that it and
    /// the USD pairs name exist.
    pub open spec fn runnable(feed: Seq<FeedTick>, market: MarketView) -> bool {
        &&& feed::elapsed(feed, feed.len() as int) <= u64::MAX
        &&& usd_bases_known(market.tokens.len() as int, market.pairs)
        &&& forall|i: int|
            0 <= i < feed.len() ==> (#[trigger] feed[i]).update.token_pair_id < market.pairs.len()
    }

    /// Tells whether a feed can be run on a market.
    #[verifier::loop_isolation(false)]
    pub fn can_run(feed: &Vec<FeedTick>, market: &Market) -> (r: bool)
        ensures
            r == Self::runnable(feed@, market@),
    {
        if feed::duration_us(feed.as_slice()).is_none() {
            return false;
        }
        let mut i: usize = 0;
        while i < market.pairs.len()
            invariant
                i <= market.pairs@.len(),
                forall|j: int|
                    0 <= j < i && (#[trigger] market.pairs@[j]).quote == USD_TOKEN_ID
                        ==> market.pairs@[j].base < market.tokens@.len(),
            decreases market.pairs@.len() - i,
        {
            let p = market.pairs[i];
            assert(p == market.pairs@[i as int]);
            if p.quote == USD_TOKEN_ID && p.base >= market.tokens.len() as u64 {
                return false;
            }
            i = i + 1;
        }
        let mut k: usize = 0;
        while k < feed.len()
            invariant
                k <= feed@.len(),
                forall|j: int|
                    0 <= j < k ==> (#[trigger] feed@[j]).update.token_pair_id
                        < market.pairs@.len(),
            decreases feed@.len() - k,
        {
            if feed[k].update.token_pair_id >= market.pairs.len() as u64 {
                assert(!(feed@[k as int].update.token_pair_id < market.pairs@.len()));
                return false;
            }
            k = k + 1;
        }
        true
    }

    /// A loop that is about to start.
    pub fn new(
        feed: Vec<FeedTick>,
        market: Market,
        contestants: HashMap<u64, Contestant>,
    ) -> (r: Self)
        requires
            Self::runnable(feed@, market@),
        ensures
            r.wf(),
            r@.wf(),
            r@ == RunloopView::start(
                market@.fee,
                market@.tokens,
                market@.pairs,
                contestants@,
                feed@,
            ),
    {
        let Market { fee, tokens, pairs } = market;
        let usd_pair_of_token = usd_pair_index(tokens.len(), &pairs);
        let target: u128 = if feed.len() > 0 {
            proof {
                feed::lemma_elapsed_grows(feed@, 0, 1);
                feed::lemma_elapsed_grows(feed@, 1, feed@.len() as int);
            }
            feed[0].delay_us as u128 * NS_PER_US as u128
        } else {
            0
        };
        let ghost opening = pairs@;
        Runloop {
            fee,
            tokens,
            usd_pair_of_token,
            pairs,
            contestants,
            feed,
            idx: 0,
            sending: false,
            target,
            counters: Counters {
                dispatched: 0,
                udp_dispatch_errors: 0,
                submissions_received: 0,
                submissions_ok: 0,
                submissions_fail: 0,
                responses_dropped: 0,
                overshoot_ns: 0,
                late_ticks: 0,
            },
            read_hist: Histogram::new(),
            wait_hist: Histogram::new(),
            send_hist: Histogram::new(),
            iter_hist: Histogram::new(),
            overshoot_hist: Histogram::new(),
            udp_queue_depth_hist: Histogram::new(),
            opening: Ghost(opening),
        }
    }

    /// Tells whether every count can go up by one.
    pub fn has_room(&self) -> (r: bool)
        requires
            self.wf(),
        ensures
            r == self@.roomy(),
    {
        let most: u64 = u64::MAX;
        self.counters.submissions_received < most && self.counters.responses_dropped < most
            && self.counters.late_ticks < most && self.read_hist.count() < most
            && self.wait_hist.count() < most && self.send_hist.count() < most
            && self.iter_hist.count() < most && self.overshoot_hist.count() < most
            && self.udp_queue_depth_hist.count() < most
    }

    /// Tells whether a contestant takes part.
    pub fn knows(&self, contestant_id: u64) -> (r: bool)
        ensures
            r == self@.contestants.dom().contains(contestant_id),
    {
        broadcast use vstd::std_specs::hash::group_hash_axioms;

        self.contestants.contains_key(&contestant_id)
    }

    /// Tells whether the loop reads another submission before it looks at the feed, given
    /// how many it has read since it last did.
    pub fn drains_on(drained: usize) -> (r: bool)
        ensures
            r == (drained < SUBMISSION_DRAIN_LIMIT),
    {
        drained < SUBMISSION_DRAIN_LIMIT
    }

    /// Evaluates a submission and gives the response to it; `None`, with nothing changed,
    /// where a number that the evaluation needs does not fit the machine.
    pub fn on_submission(&mut self, contestant_id: u64, submission: &RouteSubmission) -> (r: Option<
        SubmissionResponse,
    >)
        requires
            old(self).wf(),
            old(self)@.roomy(),
        ensures
            final(self).wf(),
            final(self)@.wf(),
            match r {
                Some(response) => {
                    &&& old(self)@.evaluable(contestant_id, *submission)
                    &&& response.sub_id == submission.sub_id
                    &&& response == old(self)@.response_to(
                        Message { contestant_id, submission: submission@ },
                    )
                    &&& final(self)@ == old(self)@.after_message(
                        Message { contestant_id, submission: submission@ },
                    )
                },
                None => {
                    &&& !old(self)@.evaluable(contestant_id, *submission)
                    &&& final(self)@ == old(self)@
                },
            },
    {
        let ghost before = self@;
        let (ok, balance): (u8, i64) = match evaluate::try_evaluate(
            self.tokens.as_slice(),
            self.pairs.as_mut_slice(),
            self.usd_pair_of_token.as_slice(),
            self.fee,
            &mut self.contestants,
            contestant_id,
            submission,
        ) {
            Some(answer) => answer,
            None => return None,
        };
        self.counters.submissions_received = self.counters.submissions_received + 1;
        if ok == 1 {
            self.counters.submissions_ok = self.counters.submissions_ok + 1;
        } else {
            self.counters.submissions_fail = self.counters.submissions_fail + 1;
        }
        proof {
            lemma_trades_keep_prices(before.book(), submission.legs@);
        }
        Some(SubmissionResponse { sub_id: submission.sub_id, ok, balance })
    }

    /// Tells whether there is a response that may have been lost: one of a submission that
    /// was received, beyond those that were.
    pub fn may_lose_response(&self) -> (r: bool)
        ensures
            r == (self@.counters.responses_dropped < self@.counters.submissions_received),
    {
        self.counters.responses_dropped < self.counters.submissions_received
    }

    /// Counts a response that nobody took.
    pub fn on_response_dropped(&mut self)
        requires
            old(self).wf(),
            old(self)@.counters.responses_dropped < old(self)@.counters.submissions_received,
        ensures
            final(self).wf(),
            final(self)@.wf(),
            final(self)@ == old(self)@.after_dropped(),
    {
        self.counters.responses_dropped = self.counters.responses_dropped + 1;
    }

    /// Decides what comes next, once the submissions have been read. A tick that is due is
    /// entered into the market at once.
    pub fn on_read(&mut self, iter_start: u128, now: u128) -> (r: Action)
        requires
            old(self).wf(),
            old(self)@.roomy(),
            !old(self)@.sending,
        ensures
            final(self).wf(),
            final(self)@.wf(),
            r == old(self)@.action(now),
            final(self)@ == old(self)@.after_read(iter_start, now),
    {
        let ghost before = self@;
        self.read_hist.record(nanos_between(iter_start, now));
        if self.idx >= self.feed.len() {
            self.iter_hist.record(nanos_between(iter_start, now));
            return Action::Stop;
        }
        if now < self.target {
            assert(SLEEP_SLACK_US * NS_PER_US == 50_000);
            let slack: u128 = SLEEP_SLACK_US as u128 * NS_PER_US as u128;
            if self.target - now > slack {
                return Action::Sleep { ns: self.target - now - slack };
            }
            return Action::Spin;
        }
        let overshoot_ns: u64 = nanos_between(self.target, now);
        self.counters.overshoot_ns = overshoot_ns;
        if overshoot_ns > LATE_THRESHOLD_NS {
            self.counters.late_ticks = self.counters.late_ticks + 1;
        }
        self.overshoot_hist.record(overshoot_ns);
        let update = self.feed[self.idx].update;
        proof {
            let shown = feed::replayed(before.opening, before.feed, before.idx);
            lemma_replayed_sides(before.opening, before.feed, before.idx);
            assert(before.feed[before.idx].update.token_pair_id < before.opening.len());
            lemma_refresh(before.pairs, shown, update);
        }
        feed::apply_update(&mut self.pairs, update);
        self.sending = true;
        Action::Send { update }
    }

    /// Measures a wait.
    pub fn on_waited(&mut self, iter_start: u128, wait_start: u128, now: u128)
        requires
            old(self).wf(),
            old(self)@.roomy(),
        ensures
            final(self).wf(),
            final(self)@.wf(),
            final(self)@ == old(self)@.after_wait(iter_start, wait_start, now),
    {
        self.wait_hist.record(nanos_between(wait_start, now));
        self.iter_hist.record(nanos_between(iter_start, now));
    }

    /// Tells whether a tick is on its way.
    pub fn is_sending(&self) -> (r: bool)
        ensures
            r == self@.sending,
    {
        self.sending
    }

    /// Counts a tick that went out: into a queue of the given depth, or lost.
    pub fn on_sent(
        &mut self,
        iter_start: u128,
        send_start: u128,
        queued: Option<u64>,
        now: u128,
    )
        requires
            old(self).wf(),
            old(self)@.roomy(),
            old(self)@.sending,
        ensures
            final(self).wf(),
            final(self)@.wf(),
            final(self)@ == old(self)@.after_send(iter_start, send_start, queued, now),
    {
        let ghost before = self@;
        assert(self.feed@.len() == self.feed.len());
        match queued {
            Some(depth) => {
                self.counters.dispatched = self.counters.dispatched + 1;
                self.udp_queue_depth_hist.record(depth);
            },
            None => {
                self.counters.udp_dispatch_errors = self.counters.udp_dispatch_errors + 1;
            },
        }
        self.send_hist.record(nanos_between(send_start, now));
        self.iter_hist.record(nanos_between(iter_start, now));
        self.idx = self.idx + 1;
        self.sending = false;
        if self.idx < self.feed.len() {
            proof {
                feed::lemma_elapsed_grows(before.feed, before.idx + 2, before.feed.len() as int);
            }
            let delay_us: u64 = self.feed[self.idx].delay_us;
            self.target = self.target + delay_us as u128 * NS_PER_US as u128;
        }
    }

    /// The number of samples of each stage: reading, waiting, sending, whole iterations,
    /// overshoot and depth of the queue.
    pub fn sample_counts(&self) -> (r: [u64; 6])
        requires
            self.wf(),
        ensures
            r@ == seq![
                self@.read.len() as u64,
                self@.wait.len() as u64,
                self@.send.len() as u64,
                self@.iter.len() as u64,
                self@.overshoot.len() as u64,
                self@.queue_depth.len() as u64,
            ],
    {
        let r: [u64; 6] = [
            self.read_hist.count(),
            self.wait_hist.count(),
            self.send_hist.count(),
            self.iter_hist.count(),
            self.overshoot_hist.count(),
            self.udp_queue_depth_hist.count(),
        ];
        assert(r@ =~= seq![
            self@.read.len() as u64,
            self@.wait.len() as u64,
            self@.send.len() as u64,
            self@.iter.len() as u64,
            self@.overshoot.len() as u64,
            self@.queue_depth.len() as u64,
        ]);
        r
    }

    /// Ends the run. The ranks are those of the middle sample and of the one that 95 of 100
    /// samples do not exceed, for each stage in the order of the sample counts.
    pub fn finish(self, ranks50: [u64; 6], ranks95: [u64; 6]) -> (r: RunloopOutcome)
        requires
            self.wf(),
        ensures
            r.dispatched == self@.counters.dispatched,
            r.udp_dispatch_errors == self@.counters.udp_dispatch_errors,
            r.submissions_received == self@.counters.submissions_received,
            r.submissions_ok == self@.counters.submissions_ok,
            r.submissions_fail == self@.counters.submissions_fail,
            r.responses_dropped == self@.counters.responses_dropped,
            r.final_overshoot_ns == self@.counters.overshoot_ns,
            r.late_ticks == self@.counters.late_ticks,
            stats::sums_up(self@.read, "read"@, "ns"@, ranks50@[0], ranks95@[0], r.read_stats),
            stats::sums_up(self@.wait, "wait"@, "ns"@, ranks50@[1], ranks95@[1], r.wait_stats),
            stats::sums_up(self@.send, "send"@, "ns"@, ranks50@[2], ranks95@[2], r.send_stats),
            stats::sums_up(self@.iter, "iter"@, "ns"@, ranks50@[3], ranks95@[3], r.iter_stats),
            stats::sums_up(
                self@.overshoot,
                "overshoot"@,
                "ns"@,
                ranks50@[4],
                ranks95@[4],
                r.overshoot_stats,
            ),
            stats::sums_up(
                self@.queue_depth,
                "udp_queue_depth"@,
                "items"@,
                ranks50@[5],
                ranks95@[5],
                r.udp_queue_depth_stats,
            ),
    {
        let counters = self.counters;
        RunloopOutcome {
            dispatched: counters.dispatched,
            udp_dispatch_errors: counters.udp_dispatch_errors,
            submissions_received: counters.submissions_received,
            submissions_ok: counters.submissions_ok,
            submissions_fail: counters.submissions_fail,
            responses_dropped: counters.responses_dropped,
            final_overshoot_ns: counters.overshoot_ns,
            late_ticks: counters.late_ticks,
            read_stats: self.read_hist.stats("read", "ns", ranks50[0], ranks95[0]),
            wait_stats: self.wait_hist.stats("wait", "ns", ranks50[1], ranks95[1]),
            send_stats: self.send_hist.stats("send", "ns", ranks50[2], ranks95[2]),
            iter_stats: self.iter_hist.stats("iter", "ns", ranks50[3], ranks95[3]),
            overshoot_stats: self.overshoot_hist.stats("overshoot", "ns", ranks50[4], ranks95[4]),
            udp_queue_depth_stats: self.udp_queue_depth_hist.stats(
                "udp_queue_depth",
                "items",
                ranks50[5],
                ranks95[5],
            ),
        }
    }
}

/// A feed that was generated on a laid out market can be run on it.
pub proof fn lemma_generated_is_runnable(
    cfg: GenerationConfig,
    market: MarketView,
    feed: Seq<FeedTick>,
)
    requires
        generate_market::laid_out(market.tokens, market.pairs),
        feed_laws::sound_feed(cfg, market, feed),
    ensures
        Runloop::runnable(feed, market),
{
    assert forall|i: int| 0 <= i < feed.len() implies (#[trigger] feed[i]).update.token_pair_id
        < market.pairs.len() by {
        assert(feed_laws::on_known_pair(cfg, market, feed[i]));
        let x = choose|x: int| feed_laws::ticks_pair(cfg, market, feed[i], x);
        assert(market.pairs[x].id == x);
    }
}

/// Once all of a generated feed has been sent, the market is in equilibrium again, whatever
/// contestants have traded.
pub proof fn lemma_run_ends_in_equilibrium(
    cfg: GenerationConfig,
    market: MarketView,
    run: RunloopView,
)
    requires
        generate_market::laid_out(market.tokens, market.pairs),
        generate_market::in_equilibrium(market.tokens, market.pairs),
        feed_laws::sound_feed(cfg, market, run.feed),
        run.wf(),
        run.tokens == market.tokens,
        run.opening == market.pairs,
        run.idx == run.feed.len(),
    ensures
        generate_market::in_equilibrium(run.tokens, run.pairs),
{
    let tokens = market.tokens;
    let shown = feed::replayed(market.pairs, run.feed, run.feed.len() as int);
    lemma_replayed_sides(market.pairs, run.feed, run.feed.len() as int);
    assert(same_but_volume(run.pairs, shown));
    assert forall|i: int| tokens.len() - 1 <= i < run.pairs.len() implies (
    #[trigger] run.pairs[i]).price == math::cross_price(
        run.pairs[run.pairs[i].base - 1].price as int,
        run.pairs[run.pairs[i].quote - 1].price as int,
        tokens[run.pairs[i].quote as int].decimals as int,
    ) by {
        assert(shown[i].base == market.pairs[i].base && shown[i].quote == market.pairs[i].quote);
        let base = market.pairs[i].base - 1;
        let quote = market.pairs[i].quote - 1;
        assert(run.pairs[base].price == shown[base].price);
        assert(run.pairs[quote].price == shown[quote].price);
        assert(shown[i].price == math::cross_price(
            shown[shown[i].base - 1].price as int,
            shown[shown[i].quote - 1].price as int,
            tokens[shown[i].quote as int].decimals as int,
        ));
    }
}

/// A replay keeps the tokens of every pair.
proof fn lemma_replayed_sides(pairs: Seq<TokenPair>, feed: Seq<FeedTick>, k: int)
    requires
        0 <= k <= feed.len(),
        forall|i: int|
            0 <= i < feed.len() ==> (#[trigger] feed[i]).update.token_pair_id < pairs.len(),
    ensures
        feed::replayed(pairs, feed, k).len() == pairs.len(),
        forall|i: int|
            0 <= i < pairs.len() ==> (#[trigger] feed::replayed(pairs, feed, k)[i]).base
                == pairs[i].base && feed::replayed(pairs, feed, k)[i].quote == pairs[i].quote,
    decreases k,
{
    if k > 0 {
        lemma_replayed_sides(pairs, feed, k - 1);
        assert(feed[k - 1].update.token_pair_id < pairs.len());
    }
}

} // verus!
