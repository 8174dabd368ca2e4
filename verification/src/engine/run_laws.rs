//! What holds of a whole run: ticks go out in the order of the feed, and every message is
//! answered once, in the order of arrival, on the market that all before it left.
use super::contestant::Contestant;
use super::evaluate;
use super::runloop::{Action, Message, RunloopView};
use crate::protocol::feed;
use crate::protocol::feed::{FeedTick, PriceUpdate};
use crate::protocol::market::{Fee, Token, TokenPair};
use crate::protocol::submission::SubmissionResponse;
use vstd::prelude::*;

verus! {

/// One thing that the loop is told.
pub enum Input {
    /// A message arrived.
    Message { message: Message },
    /// Nobody took a response.
    Dropped,
    /// The messages at hand have been read.
    Read { iter_start: u128, now: u128 },
    /// A wait is over.
    Waited { iter_start: u128, wait_start: u128, now: u128 },
    /// A tick went out.
    Sent { iter_start: u128, send_start: u128, queued: Option<u64>, now: u128 },
}

/// Whether the loop can be told so: a message can be evaluated, a lost response is one of a
/// message, and a tick that is due is sent before the loop reads again.
pub open spec fn admits(run: RunloopView, input: Input) -> bool {
    match input {
        Input::Message { message } => run.contestants.dom().contains(message.contestant_id)
            ==> run.book().evaluable(
            message.submission.legs,
            run.contestants[message.contestant_id].balance,
        ),
        Input::Dropped => run.counters.responses_dropped < run.counters.submissions_received,
        Input::Read { .. } => !run.sending,
        Input::Waited { .. } => true,
        Input::Sent { .. } => run.sending,
    }
}

/// The loop after one input.
pub open spec fn after(run: RunloopView, input: Input) -> RunloopView {
    match input {
        Input::Message { message } => run.after_message(message),
        Input::Dropped => run.after_dropped(),
        Input::Read { iter_start, now } => run.after_read(iter_start, now),
        Input::Waited { iter_start, wait_start, now } => run.after_wait(
            iter_start,
            wait_start,
            now,
        ),
        Input::Sent { iter_start, send_start, queued, now } => run.after_send(
            iter_start,
            send_start,
            queued,
            now,
        ),
    }
}

/// The loop after several inputs.
pub open spec fn run_after(start: RunloopView, inputs: Seq<Input>) -> RunloopView
    decreases inputs.len(),
{
    if inputs.len() == 0 {
        start
    } else {
        after(run_after(start, inputs.drop_last()), inputs.last())
    }
}

/// Whether the loop can be told all of the inputs, one after the other.
pub open spec fn possible(start: RunloopView, inputs: Seq<Input>) -> bool
    decreases inputs.len(),
{
    inputs.len() > 0 ==> {
        &&& possible(start, inputs.drop_last())
        &&& admits(run_after(start, inputs.drop_last()), inputs.last())
    }
}

/// The messages among inputs, in the order of arrival.
pub open spec fn messages(inputs: Seq<Input>) -> Seq<Message>
    decreases inputs.len(),
{
    if inputs.len() == 0 {
        Seq::empty()
    } else {
        match inputs.last() {
            Input::Message { message } => messages(inputs.drop_last()).push(message),
            _ => messages(inputs.drop_last()),
        }
    }
}

/// The responses that a run gives, in order.
pub open spec fn responses(start: RunloopView, inputs: Seq<Input>) -> Seq<SubmissionResponse>
    decreases inputs.len(),
{
    if inputs.len() == 0 {
        Seq::empty()
    } else {
        let before = responses(start, inputs.drop_last());
        match inputs.last() {
            Input::Message { message } => before.push(
                run_after(start, inputs.drop_last()).response_to(message),
            ),
            _ => before,
        }
    }
}

/// The number of responses that nobody took.
pub open spec fn drops(inputs: Seq<Input>) -> int
    decreases inputs.len(),
{
    if inputs.len() == 0 {
        0
    } else {
        drops(inputs.drop_last()) + if inputs.last() is Dropped {
            1int
        } else {
            0
        }
    }
}

/// The update that an input has the loop send, if any.
pub open spec fn update_on(run: RunloopView, input: Input) -> Option<PriceUpdate> {
    match input {
        Input::Read { now, .. } => match run.action(now) {
            Action::Send { update } => Some(update),
            _ => None,
        },
        _ => None,
    }
}

/// The updates that a run has sent, in order.
pub open spec fn updates(start: RunloopView, inputs: Seq<Input>) -> Seq<PriceUpdate>
    decreases inputs.len(),
{
    if inputs.len() == 0 {
        Seq::empty()
    } else {
        let before = updates(start, inputs.drop_last());
        match update_on(run_after(start, inputs.drop_last()), inputs.last()) {
            Some(update) => before.push(update),
            None => before,
        }
    }
}

/// Something that moves the market: a tick that is shown, or a message.
pub enum Entry {
    Tick { update: PriceUpdate },
    Message { message: Message },
}

/// The ticks and the messages of a run, in order.
pub open spec fn journal(start: RunloopView, inputs: Seq<Input>) -> Seq<Entry>
    decreases inputs.len(),
{
    if inputs.len() == 0 {
        Seq::empty()
    } else {
        let before = journal(start, inputs.drop_last());
        match inputs.last() {
            Input::Message { message } => before.push(Entry::Message { message }),
            _ => match update_on(run_after(start, inputs.drop_last()), inputs.last()) {
                Some(update) => before.push(Entry::Tick { update }),
                None => before,
            },
        }
    }
}

/// Pairs and balances.
pub struct Ledger {
    pub pairs: Seq<TokenPair>,
    pub contestants: Map<u64, Contestant>,
}

/// What a message comes to on a ledger.
pub open spec fn settlement_on(
    start: RunloopView,
    ledger: Ledger,
    message: Message,
) -> evaluate::Settlement {
    evaluate::settlement(
        evaluate::book_of(start.tokens, ledger.pairs, start.usd_pair_of_token, start.fee),
        message.submission.legs,
        message.contestant_id,
        ledger.contestants,
    )
}

/// The pairs and balances that ticks and messages leave, one after the other.
pub open spec fn ledger_after(start: RunloopView, entries: Seq<Entry>) -> Ledger
    decreases entries.len(),
{
    if entries.len() == 0 {
        Ledger { pairs: start.pairs, contestants: start.contestants }
    } else {
        let before = ledger_after(start, entries.drop_last());
        match entries.last() {
            Entry::Tick { update } => Ledger {
                pairs: feed::refreshed(before.pairs, update),
                ..before
            },
            Entry::Message { message } => {
                let s = settlement_on(start, before, message);
                Ledger { pairs: s.pairs, contestants: s.contestants }
            },
        }
    }
}

/// Pairs and balances depend on nothing but the ticks and messages so far, in their order:
/// not on the time, on waits or on lost responses.
pub proof fn lemma_ledger(start: RunloopView, inputs: Seq<Input>)
    ensures
        ({
            let end = run_after(start, inputs);
            let ledger = ledger_after(start, journal(start, inputs));
            &&& end.pairs == ledger.pairs
            &&& end.contestants == ledger.contestants
            &&& end.feed == start.feed
            &&& end.tokens == start.tokens
            &&& end.usd_pair_of_token == start.usd_pair_of_token
            &&& end.fee == start.fee
        }),
    decreases inputs.len(),
{
    if inputs.len() > 0 {
        let rest = inputs.drop_last();
        lemma_ledger(start, rest);
        let before = journal(start, rest);
        match inputs.last() {
            Input::Message { message } => {
                assert(before.push(Entry::Message { message }).drop_last() =~= before);
            },
            _ => {
                if let Some(update) = update_on(run_after(start, rest), inputs.last()) {
                    assert(before.push(Entry::Tick { update }).drop_last() =~= before);
                }
            },
        }
    }
}

/// Every message is answered with what its evaluation comes to on the pairs and balances
/// that all ticks and messages before it left, under its own number; responses come in the
/// order of the messages.
pub proof fn lemma_answered_in_order(start: RunloopView, inputs: Seq<Input>, k: int)
    requires
        0 <= k < inputs.len(),
        inputs[k] is Message,
    ensures
        ({
            let j = messages(inputs.take(k)).len() as int;
            let message = inputs[k]->message;
            let ledger = ledger_after(start, journal(start, inputs.take(k)));
            let (ok, balance) = settlement_on(start, ledger, message).answer;
            &&& j < messages(inputs).len()
            &&& messages(inputs)[j] == message
            &&& responses(start, inputs).len() == messages(inputs).len()
            &&& responses(start, inputs)[j] == (SubmissionResponse {
                sub_id: message.submission.sub_id,
                ok,
                balance,
            })
        }),
    decreases inputs.len(),
{
    let rest = inputs.drop_last();
    lemma_one_answer_each(start, rest);
    if k < inputs.len() - 1 {
        lemma_answered_in_order(start, rest, k);
        assert(rest.take(k) =~= inputs.take(k));
    } else {
        assert(inputs.take(k) =~= rest);
        lemma_ledger(start, rest);
    }
}

/// There are as many responses as messages.
pub proof fn lemma_one_answer_each(start: RunloopView, inputs: Seq<Input>)
    ensures
        responses(start, inputs).len() == messages(inputs).len(),
    decreases inputs.len(),
{
    if inputs.len() > 0 {
        lemma_one_answer_each(start, inputs.drop_last());
    }
}

/// Over a whole run the ticks go out once each, in the order of the feed, and the loop stops
/// only once all of them have; every message counts as received, and every response that
/// nobody took counts as dropped, at most one for each message.
pub proof fn lemma_run_in_order(
    fee: Fee,
    tokens: Seq<Token>,
    pairs: Seq<TokenPair>,
    contestants: Map<u64, Contestant>,
    feed: Seq<FeedTick>,
    inputs: Seq<Input>,
)
    requires
        inputs.len() <= u64::MAX,
        possible(RunloopView::start(fee, tokens, pairs, contestants, feed), inputs),
    ensures
        ({
            let start = RunloopView::start(fee, tokens, pairs, contestants, feed);
            let end = run_after(start, inputs);
            let sent = updates(start, inputs);
            &&& end.feed == feed
            &&& sent.len() == end.shown()
            &&& end.shown() <= feed.len()
            &&& forall|i: int| 0 <= i < sent.len() ==> #[trigger] sent[i] == feed[i].update
            &&& forall|now: u128|
                !end.sending && #[trigger] end.action(now) is Stop ==> sent.len() == feed.len()
            &&& end.counters.submissions_received == messages(inputs).len()
            &&& responses(start, inputs).len() == messages(inputs).len()
            &&& end.counters.responses_dropped == drops(inputs)
            &&& drops(inputs) <= messages(inputs).len()
        }),
    decreases inputs.len(),
{
    let start = RunloopView::start(fee, tokens, pairs, contestants, feed);
    lemma_one_answer_each(start, inputs);
    if inputs.len() > 0 {
        let rest = inputs.drop_last();
        lemma_run_in_order(fee, tokens, pairs, contestants, feed, rest);
        lemma_counted(rest);
        lemma_idx(start, rest);
    }
}

/// No more is counted than there are inputs.
proof fn lemma_counted(inputs: Seq<Input>)
    ensures
        messages(inputs).len() <= inputs.len(),
        0 <= drops(inputs) <= inputs.len(),
    decreases inputs.len(),
{
    if inputs.len() > 0 {
        lemma_counted(inputs.drop_last());
    }
}

/// A tick that is on its way is one of the feed.
proof fn lemma_idx(start: RunloopView, inputs: Seq<Input>)
    requires
        !start.sending,
        start.idx == 0,
        possible(start, inputs),
    ensures
        run_after(start, inputs).idx >= 0,
        run_after(start, inputs).sending ==> run_after(start, inputs).idx < run_after(
            start,
            inputs,
        ).feed.len(),
    decreases inputs.len(),
{
    if inputs.len() > 0 {
        lemma_idx(start, inputs.drop_last());
    }
}

} // verus!
