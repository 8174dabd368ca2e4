//! What holds of a whole run of the submission streams.
use super::tcp;
use super::tcp::{Handshake, StreamsView, TcpReceiveOutcome};
use crate::protocol::submission;
use crate::protocol::submission::{DeserializeError, Drained, SubmissionView};
use crate::protocol::wire;
use vstd::prelude::*;

verus! {

/// The streams after several handshakes.
pub open spec fn streams_after(handshakes: Seq<Handshake>) -> StreamsView
    decreases handshakes.len(),
{
    if handshakes.len() == 0 {
        StreamsView::start()
    } else {
        streams_after(handshakes.drop_last()).after(handshakes.last())
    }
}

/// The number of handshakes that were accepted.
pub open spec fn acceptances(handshakes: Seq<Handshake>) -> int
    decreases handshakes.len(),
{
    if handshakes.len() == 0 {
        0
    } else {
        acceptances(handshakes.drop_last()) + if handshakes.last() is Accepted {
            1int
        } else {
            0
        }
    }
}

/// The contestants whose handshakes were accepted.
pub open spec fn accepted_ids(handshakes: Seq<Handshake>) -> Set<u64>
    decreases handshakes.len(),
{
    if handshakes.len() == 0 {
        Set::empty()
    } else {
        match handshakes.last() {
            Handshake::Accepted { id } => accepted_ids(handshakes.drop_last()).insert(id),
            Handshake::Rejected => accepted_ids(handshakes.drop_last()),
        }
    }
}

/// Over a whole run every handshake counts as accepted or as rejected, and there are as many
/// accepted streams as streams that took the place of another and different contestants
/// together.
pub proof fn lemma_streams_counted(handshakes: Seq<Handshake>)
    requires
        handshakes.len() <= u64::MAX,
    ensures
        ({
            let end = streams_after(handshakes);
            let ids = accepted_ids(handshakes);
            &&& end.active == ids
            &&& ids.finite()
            &&& end.outcome.streams_accepted == acceptances(handshakes)
            &&& end.outcome.streams_accepted == end.outcome.streams_replaced + ids.len()
            &&& end.outcome.streams_rejected == handshakes.len() - acceptances(handshakes)
        }),
    decreases handshakes.len(),
{
    if handshakes.len() > 0 {
        let rest = handshakes.drop_last();
        lemma_streams_counted(rest);
        if let Handshake::Accepted { id } = handshakes.last() {
            let ids = accepted_ids(rest);
            if ids.contains(id) {
                assert(ids.insert(id) =~= ids);
            }
        }
    }
}

/// The streams that are being read, by the numbers of their handshakes, as long as none has
/// ended: where a stream takes the place of an earlier one, those of the same contestant are
/// dropped.
pub open spec fn reading(handshakes: Seq<Handshake>) -> Set<int>
    decreases handshakes.len(),
{
    if handshakes.len() == 0 {
        Set::empty()
    } else {
        let rest = handshakes.drop_last();
        match handshakes.last() {
            Handshake::Accepted { id } => {
                let kept = if streams_after(rest).active.contains(id) {
                    reading(rest).filter(|i: int| handshakes[i] != handshakes.last())
                } else {
                    reading(rest)
                };
                kept.insert(rest.len() as int)
            },
            Handshake::Rejected => reading(rest),
        }
    }
}

/// A contestant has at most one stream that is being read.
pub proof fn lemma_one_stream_each(handshakes: Seq<Handshake>)
    ensures
        forall|i: int| #[trigger]
            reading(handshakes).contains(i) ==> 0 <= i < handshakes.len() && handshakes[i] is Accepted
                && streams_after(handshakes).active.contains(handshakes[i]->id),
        forall|i: int, j: int| #[trigger]
            reading(handshakes).contains(i) && #[trigger] reading(handshakes).contains(j)
                && handshakes[i]->id == handshakes[j]->id ==> i == j,
    decreases handshakes.len(),
{
    if handshakes.len() > 0 {
        let rest = handshakes.drop_last();
        let now = reading(handshakes);
        lemma_one_stream_each(rest);
        assert forall|i: int| #[trigger] now.contains(i) implies 0 <= i < handshakes.len()
            && handshakes[i] is Accepted && streams_after(handshakes).active.contains(
            handshakes[i]->id,
        ) by {
            if i != rest.len() || handshakes.last() is Rejected {
                assert(reading(rest).contains(i));
                assert(rest[i] == handshakes[i]);
            }
        }
        assert forall|i: int, j: int| #[trigger]
            now.contains(i) && #[trigger] now.contains(j) && handshakes[i]->id
                == handshakes[j]->id implies i == j by {
            let fresh = handshakes.last() is Accepted;
            if !(fresh && i == rest.len()) {
                assert(reading(rest).contains(i));
                assert(rest[i] == handshakes[i]);
            }
            if !(fresh && j == rest.len()) {
                assert(reading(rest).contains(j));
                assert(rest[j] == handshakes[j]);
            }
        }
    }
}

/// How far one stream has been read: the bytes that are held, what was handed on, the counts
/// and whether reading is over.
pub struct StreamState {
    pub held: Seq<u8>,
    pub forwarded: Seq<SubmissionView>,
    pub outcome: TcpReceiveOutcome,
    pub over: bool,
}

impl StreamState {
    /// A stream that nothing has been read of, with the counts so far.
    pub open spec fn start(outcome: TcpReceiveOutcome) -> StreamState {
        StreamState { held: Seq::empty(), forwarded: Seq::empty(), outcome, over: false }
    }

    /// The stream after one more read, of which every submission was handed on. After a
    /// framing error nothing is read any more.
    pub open spec fn after_read(self, bytes: Seq<u8>) -> StreamState {
        let out = submission::drained(self.held + bytes);
        let got = out.submissions.len() as int;
        if self.over {
            self
        } else {
            StreamState {
                held: tcp::held_after(self.held, bytes),
                forwarded: self.forwarded + out.submissions,
                outcome: self.outcome.after_read(
                    bytes.len() as int,
                    got,
                    out.error is Some,
                    got,
                ),
                over: out.error is Some,
            }
        }
    }

    /// The stream after the other side ended it.
    pub open spec fn after_end(self) -> StreamState {
        if self.over {
            self
        } else {
            StreamState { outcome: self.outcome.after_disconnect(), over: true, ..self }
        }
    }
}

/// The stream after several reads.
pub open spec fn stream_after(start: StreamState, parts: Seq<Seq<u8>>) -> StreamState
    decreases parts.len(),
{
    if parts.len() == 0 {
        start
    } else {
        stream_after(start, parts.drop_last()).after_read(parts.last())
    }
}

/// All bytes of the reads, one after the other.
pub open spec fn joined(parts: Seq<Seq<u8>>) -> Seq<u8>
    decreases parts.len(),
{
    if parts.len() == 0 {
        Seq::empty()
    } else {
        joined(parts.drop_last()) + parts.last()
    }
}

/// A count that goes up twice goes up by the sum.
proof fn lemma_counted_twice(count: u64, a: int, b: int)
    requires
        0 <= a,
        0 <= b,
    ensures
        tcp::counted(tcp::counted(count, a), b) == tcp::counted(count, a + b),
{
    let m = wire::u64_count();
    vstd::arithmetic::div_mod::lemma_add_mod_noop(count + a, b, m);
    vstd::arithmetic::div_mod::lemma_mod_twice(count + a, m);
    vstd::arithmetic::div_mod::lemma_add_mod_noop((count + a) % m, b, m);
}

/// Whether a stream that began with the given counts is where it is once its bytes, of the
/// given number, have come to `whole`: the submissions are handed on and counted, and
/// reading is over for good exactly where there was a framing error, which counts once.
pub open spec fn comes_to(
    outcome: TcpReceiveOutcome,
    bytes: Seq<u8>,
    whole: Drained,
    end: StreamState,
) -> bool {
    &&& end.forwarded == whole.submissions
    &&& end.over == (whole.error is Some)
    &&& end.outcome == (TcpReceiveOutcome {
        bytes_read: end.outcome.bytes_read,
        submissions_forwarded: tcp::counted(
            outcome.submissions_forwarded,
            whole.submissions.len() as int,
        ),
        submissions_dropped_bad: if whole.error is Some {
            tcp::counted(outcome.submissions_dropped_bad, 1)
        } else {
            outcome.submissions_dropped_bad
        },
        ..outcome
    })
    &&& !end.over ==> end.held == bytes.skip(whole.used)
    &&& !end.over ==> end.outcome.bytes_read == tcp::counted(
        outcome.bytes_read,
        bytes.len() as int,
    )
}

/// One more read.
proof fn lemma_one_more_read(
    outcome: TcpReceiveOutcome,
    first: Seq<u8>,
    last: Seq<u8>,
    one: Drained,
    two: Drained,
    whole: Drained,
    before: StreamState,
)
    requires
        comes_to(outcome, first, one, before),
        one.error is None,
        0 <= one.used <= first.len(),
        0 <= two.used <= before.held.len() + last.len(),
        two == submission::drained(before.held + last),
        whole.submissions == one.submissions + two.submissions,
        whole.used == one.used + two.used,
        whole.error == two.error,
    ensures
        comes_to(outcome, first + last, whole, before.after_read(last)),
{
    lemma_counted_twice(
        outcome.submissions_forwarded,
        one.submissions.len() as int,
        two.submissions.len() as int,
    );
    lemma_counted_twice(outcome.bytes_read, first.len() as int, last.len() as int);
    if two.error is None {
        assert((before.held + last).skip(two.used) =~= (first + last).skip(one.used + two.used));
    }
}

/// However a stream is cut into reads, of whatever number, the same comes of it as if all
/// bytes came at once.
pub proof fn lemma_any_reads(outcome: TcpReceiveOutcome, parts: Seq<Seq<u8>>)
    ensures
        comes_to(
            outcome,
            joined(parts),
            submission::drained(joined(parts)),
            stream_after(StreamState::start(outcome), parts),
        ),
    decreases parts.len(),
{
    let start = StreamState::start(outcome);
    if parts.len() == 0 {
        assert(joined(parts).skip(0) =~= Seq::empty());
    } else {
        let rest = parts.drop_last();
        let first = joined(rest);
        let last = parts.last();
        let before = stream_after(start, rest);
        let one = submission::drained(first);
        let two = submission::drained(before.held + last);
        lemma_any_reads(outcome, rest);
        submission::lemma_chunking(first, last);
        submission::lemma_remainder_is_short(first);
        submission::lemma_remainder_is_short(before.held + last);
        if one.error is None {
            lemma_one_more_read(
                outcome,
                first,
                last,
                one,
                two,
                submission::drained(first + last),
                before,
            );
        }
    }
}

/// Of a stream that holds whole frames and then, in front of any other bytes, a framing
/// error or an unfinished frame, exactly the submissions of the frames are handed on, in
/// order, however it is cut into reads. A framing error counts as one, and the end of the
/// stream then counts no more; else the end counts as one.
pub proof fn lemma_stream_of_frames(
    outcome: TcpReceiveOutcome,
    subs: Seq<SubmissionView>,
    rest: Seq<u8>,
    parts: Seq<Seq<u8>>,
)
    requires
        forall|i: int| 0 <= i < subs.len() ==> submission::framable(#[trigger] subs[i]),
        submission::deserialized(rest) is Err,
        joined(parts) == submission::frames(subs) + rest,
    ensures
        ({
            let end = stream_after(StreamState::start(outcome), parts).after_end();
            let bad = submission::deserialized(rest)->Err_0 != DeserializeError::Incomplete;
            &&& end.over
            &&& end.forwarded == subs
            &&& end.outcome.submissions_forwarded == tcp::counted(
                outcome.submissions_forwarded,
                subs.len() as int,
            )
            &&& end.outcome.submissions_dropped_bad == if bad {
                tcp::counted(outcome.submissions_dropped_bad, 1)
            } else {
                outcome.submissions_dropped_bad
            }
            &&& end.outcome.streams_disconnected == if bad {
                outcome.streams_disconnected
            } else {
                tcp::counted(outcome.streams_disconnected, 1)
            }
        }),
{
    lemma_any_reads(outcome, parts);
    submission::lemma_back_to_back(subs, rest);
    assert(subs + submission::drained(rest).submissions =~= subs);
}

/// A count goes up by what is counted, and starts over at `2^64`.
pub proof fn lemma_counted_is(count: u64, n: int)
    requires
        0 <= n,
    ensures
        count + n <= u64::MAX ==> tcp::counted(count, n) == count + n,
        u64::MAX < count + n <= 2 * u64::MAX ==> tcp::counted(count, n) == count + n
            - 0x1_0000_0000_0000_0000,
{
    if count + n <= u64::MAX {
        vstd::arithmetic::div_mod::lemma_small_mod((count + n) as nat, wire::u64_count() as nat);
    }
}

/// A read adds its bytes and the submissions that were handed on, and bad framing where all
/// of them were; an end adds one to the streams that ended. Nothing else is counted by either.
pub proof fn lemma_read_is_counted(
    o: TcpReceiveOutcome,
    n: int,
    submissions: int,
    bad: bool,
    forwarded: int,
)
    requires
        0 <= n,
        0 <= forwarded <= submissions,
        o.bytes_read + n <= u64::MAX,
        o.submissions_forwarded + forwarded <= u64::MAX,
        o.submissions_dropped_bad < u64::MAX,
        o.streams_disconnected < u64::MAX,
    ensures
        ({
            let after = o.after_read(n, submissions, bad, forwarded);
            &&& after.bytes_read == o.bytes_read + n
            &&& after.submissions_forwarded == o.submissions_forwarded + forwarded
            &&& bad && forwarded == submissions ==> after.submissions_dropped_bad
                == o.submissions_dropped_bad + 1
            &&& !(bad && forwarded == submissions) ==> after.submissions_dropped_bad
                == o.submissions_dropped_bad
            &&& after.streams_accepted == o.streams_accepted
            &&& after.streams_rejected == o.streams_rejected
            &&& after.streams_replaced == o.streams_replaced
            &&& after.streams_disconnected == o.streams_disconnected
        }),
        ({
            let after = o.after_disconnect();
            &&& after.streams_disconnected == o.streams_disconnected + 1
            &&& after.bytes_read == o.bytes_read
            &&& after.submissions_forwarded == o.submissions_forwarded
            &&& after.submissions_dropped_bad == o.submissions_dropped_bad
            &&& after.streams_accepted == o.streams_accepted
            &&& after.streams_rejected == o.streams_rejected
            &&& after.streams_replaced == o.streams_replaced
        }),
{
    lemma_counted_is(o.bytes_read, n);
    lemma_counted_is(o.submissions_forwarded, forwarded);
    lemma_counted_is(o.submissions_dropped_bad, 1);
    lemma_counted_is(o.streams_disconnected, 1);
}

/// One handshake: a contestant that is let in is active from then on and counts as accepted,
/// and as replaced where it was active before; one that is not counts as rejected.
pub proof fn lemma_handshake_is(v: StreamsView, id: u64)
    requires
        v.outcome.streams_accepted < u64::MAX,
        v.outcome.streams_replaced < u64::MAX,
        v.outcome.streams_rejected < u64::MAX,
    ensures
        ({
            let after = v.after(Handshake::Accepted { id });
            &&& forall|other: u64| #[trigger]
                after.active.contains(other) <==> other == id || v.active.contains(other)
            &&& after.outcome.streams_accepted == v.outcome.streams_accepted + 1
            &&& v.active.contains(id) ==> after.outcome.streams_replaced
                == v.outcome.streams_replaced + 1
            &&& !v.active.contains(id) ==> after.outcome.streams_replaced
                == v.outcome.streams_replaced
            &&& after.outcome.streams_rejected == v.outcome.streams_rejected
            &&& after.outcome.streams_disconnected == v.outcome.streams_disconnected
            &&& after.outcome.bytes_read == v.outcome.bytes_read
            &&& after.outcome.submissions_forwarded == v.outcome.submissions_forwarded
            &&& after.outcome.submissions_dropped_bad == v.outcome.submissions_dropped_bad
        }),
        ({
            let after = v.after(Handshake::Rejected);
            &&& after.active == v.active
            &&& after.outcome.streams_rejected == v.outcome.streams_rejected + 1
            &&& after.outcome.streams_accepted == v.outcome.streams_accepted
            &&& after.outcome.streams_replaced == v.outcome.streams_replaced
            &&& after.outcome.streams_disconnected == v.outcome.streams_disconnected
            &&& after.outcome.bytes_read == v.outcome.bytes_read
            &&& after.outcome.submissions_forwarded == v.outcome.submissions_forwarded
            &&& after.outcome.submissions_dropped_bad == v.outcome.submissions_dropped_bad
        }),
        StreamsView::start().active == Set::<u64>::empty(),
        StreamsView::start().outcome.streams_accepted == 0,
        StreamsView::start().outcome.streams_rejected == 0,
        StreamsView::start().outcome.streams_replaced == 0,
        StreamsView::start().outcome.streams_disconnected == 0,
        StreamsView::start().outcome.bytes_read == 0,
        StreamsView::start().outcome.submissions_forwarded == 0,
        StreamsView::start().outcome.submissions_dropped_bad == 0,
{
    lemma_counted_is(v.outcome.streams_accepted, 1);
    lemma_counted_is(v.outcome.streams_replaced, 1);
    lemma_counted_is(v.outcome.streams_rejected, 1);
}

/// What is taken off a stream: the submission at its front and then what is behind it, until
/// the bytes hold no whole one, or a bad one, which is the error.
pub proof fn lemma_drained_is(buf: Seq<u8>)
    ensures
        ({
            let out = submission::drained(buf);
            match submission::deserialized(buf) {
                Ok((sub, used)) => {
                    let rest = submission::drained(buf.skip(used as int));
                    &&& out.submissions.len() == rest.submissions.len() + 1
                    &&& out.submissions[0] == sub
                    &&& out.submissions.skip(1) == rest.submissions
                    &&& out.used == used + rest.used
                    &&& out.error == rest.error
                },
                Err(e) => {
                    &&& out.submissions.len() == 0
                    &&& out.used == 0
                    &&& e == DeserializeError::Incomplete ==> out.error is None
                    &&& e != DeserializeError::Incomplete ==> out.error == Some(e)
                },
            }
        }),
{
    if let Ok((sub, used)) = submission::deserialized(buf) {
        let rest = submission::drained(buf.skip(used as int));
        assert((seq![sub] + rest.submissions).skip(1) =~= rest.submissions);
    }
}

/// What is held of a stream after a read is what stands behind the submissions that were
/// taken off it, and nothing once the framing is bad.
pub proof fn lemma_held_is(held: Seq<u8>, bytes: Seq<u8>)
    ensures
        ({
            let stream = held + bytes;
            let out = submission::drained(stream);
            let after = tcp::held_after(held, bytes);
            &&& 0 <= out.used <= stream.len()
            &&& out.error is Some ==> after.len() == 0
            &&& out.error is None ==> stream == stream.take(out.used) + after
        }),
{
    let stream = held + bytes;
    let out = submission::drained(stream);
    submission::lemma_remainder_is_short(stream);
    if out.error is None {
        assert(stream =~= stream.take(out.used) + stream.skip(out.used));
    }
}

} // verus!
