//! The submission streams: who may open one, what is read off it, and what is counted.
use super::http::HttpServerState;
use crate::protocol::submission;
use crate::protocol::submission::{
    drain_submissions, DeserializeError, RouteSubmission, MAX_SUBMISSION_WIRE_SIZE,
};
use crate::protocol::wire;
use crate::text;
use std::collections::HashSet;
use vstd::prelude::*;
use vstd::string::StringExecFns;

verus! {

/// Bytes that are held of one stream. A whole submission fits.
pub const SUBMISSION_READ_BUF: usize = 4096;

/// Responses that may wait to be written to one stream.
pub const RESPONSE_CHANNEL_CAP: usize = 1024;

/// Bytes that a contestant sends first on a stream.
pub const HANDSHAKE_SIZE: usize = 8;

/// What became of the streams. Counts wrap around.
#[derive(Debug, Clone, Copy, Default, PartialEq, Eq, Structural)]
pub struct TcpReceiveOutcome {
    pub streams_accepted: u64,
    pub streams_rejected: u64,
    pub streams_replaced: u64,
    pub streams_disconnected: u64,
    pub bytes_read: u64,
    pub submissions_forwarded: u64,
    pub submissions_dropped_bad: u64,
}

/// A count that went up by `n`.
pub open spec fn counted(count: u64, n: int) -> u64 {
    ((count + n) % wire::u64_count()) as u64
}

fn count_up(count: u64, n: u64) -> (r: u64)
    ensures
        r == counted(count, n as int),
{
    count.wrapping_add(n)
}

impl TcpReceiveOutcome {
    /// Nothing has happened yet.
    pub open spec fn zero() -> Self {
        TcpReceiveOutcome {
            streams_accepted: 0,
            streams_rejected: 0,
            streams_replaced: 0,
            streams_disconnected: 0,
            bytes_read: 0,
            submissions_forwarded: 0,
            submissions_dropped_bad: 0,
        }
    }

    pub fn new() -> (r: Self)
        ensures
            r == Self::zero(),
    {
        TcpReceiveOutcome {
            streams_accepted: 0,
            streams_rejected: 0,
            streams_replaced: 0,
            streams_disconnected: 0,
            bytes_read: 0,
            submissions_forwarded: 0,
            submissions_dropped_bad: 0,
        }
    }

    /// The counts after a stream ended or failed.
    pub open spec fn after_disconnect(self) -> TcpReceiveOutcome {
        TcpReceiveOutcome {
            streams_disconnected: counted(self.streams_disconnected, 1),
            ..self
        }
    }

    /// Counts a stream that ended or failed.
    pub fn on_disconnected(&mut self)
        ensures
            *final(self) == old(self).after_disconnect(),
    {
        self.streams_disconnected = count_up(self.streams_disconnected, 1);
    }

    /// The counts after a read of `n` bytes that gave so many submissions, of which
    /// `forwarded` were handed on. Where all were, bad framing behind them counts too.
    pub open spec fn after_read(
        self,
        n: int,
        submissions: int,
        bad: bool,
        forwarded: int,
    ) -> TcpReceiveOutcome {
        TcpReceiveOutcome {
            bytes_read: counted(self.bytes_read, n),
            submissions_forwarded: counted(self.submissions_forwarded, forwarded),
            submissions_dropped_bad: if bad && forwarded == submissions {
                counted(self.submissions_dropped_bad, 1)
            } else {
                self.submissions_dropped_bad
            },
            ..self
        }
    }

    /// Counts a read of `n` bytes and what came of it, given how many of the submissions
    /// were handed on: all of them, unless nobody takes any more. Tells whether the stream is
    /// read on.
    pub fn on_read(&mut self, n: usize, received: &Received, forwarded: usize) -> (go_on: bool)
        requires
            forwarded <= received.submissions@.len(),
        ensures
            go_on == (forwarded == received.submissions@.len() && received.error is None),
            *final(self) == old(self).after_read(
                n as int,
                received.submissions@.len() as int,
                received.error is Some,
                forwarded as int,
            ),
    {
        self.bytes_read = count_up(self.bytes_read, n as u64);
        self.submissions_forwarded = count_up(self.submissions_forwarded, forwarded as u64);
        if forwarded < received.submissions.len() {
            return false;
        }
        if received.error.is_some() {
            self.submissions_dropped_bad = count_up(self.submissions_dropped_bad, 1);
            return false;
        }
        true
    }
}

/// Why a handshake is refused: nobody registered under the id.
#[derive(Debug, Clone, Copy, PartialEq, Eq, Structural)]
pub struct NotRegistered {
    pub id: u64,
}

impl NotRegistered {
    /// What the error says.
    pub open spec fn text(self) -> Seq<char> {
        "contestant id "@ + text::decimal(self.id as nat) + " not registered"@
    }

    /// The error in words.
    pub fn message(&self) -> (r: String)
        ensures
            r@ == self.text(),
    {
        let mut r = String::from_str("contestant id ");
        text::push_decimal(&mut r, self.id as u128);
        r.append(" not registered");
        r
    }
}

/// Reads the id off the first bytes of a stream. Only registered contestants are let in.
pub fn read_handshake(bytes: &[u8; 8], state: &HttpServerState) -> (r: Result<u64, NotRegistered>)
    ensures
        r == {
            let id = wire::u64_at(bytes@, 0);
            if state@.registered.contains(id) {
                Ok::<u64, NotRegistered>(id)
            } else {
                Err(NotRegistered { id })
            }
        },
{
    let id: u64 = wire::get_u64(bytes.as_slice(), 0);
    if state.is_registered(id) {
        Ok(id)
    } else {
        Err(NotRegistered { id })
    }
}

/// The contestants that have opened a stream, and what was counted so far.
pub struct Streams {
    active: HashSet<u64>,
    outcome: TcpReceiveOutcome,
}

/// What a [`Streams`] holds.
pub struct StreamsView {
    pub active: Set<u64>,
    pub outcome: TcpReceiveOutcome,
}

/// How the handshake of a stream came out.
pub enum Handshake {
    /// A registered contestant is let in.
    Accepted { id: u64 },
    Rejected,
}

impl StreamsView {
    /// Nobody has opened a stream yet.
    pub open spec fn start() -> StreamsView {
        StreamsView { active: Set::empty(), outcome: TcpReceiveOutcome::zero() }
    }

    /// The streams after one more handshake.
    pub open spec fn after(self, handshake: Handshake) -> StreamsView {
        match handshake {
            Handshake::Accepted { id } => StreamsView {
                active: self.active.insert(id),
                outcome: TcpReceiveOutcome {
                    streams_accepted: counted(self.outcome.streams_accepted, 1),
                    streams_replaced: if self.active.contains(id) {
                        counted(self.outcome.streams_replaced, 1)
                    } else {
                        self.outcome.streams_replaced
                    },
                    ..self.outcome
                },
            },
            Handshake::Rejected => StreamsView {
                outcome: TcpReceiveOutcome {
                    streams_rejected: counted(self.outcome.streams_rejected, 1),
                    ..self.outcome
                },
                ..self
            },
        }
    }
}

impl View for Streams {
    type V = StreamsView;

    closed spec fn view(&self) -> StreamsView {
        StreamsView { active: self.active@, outcome: self.outcome }
    }
}

impl Streams {
    pub fn new() -> (r: Self)
        ensures
            r@ == StreamsView::start(),
    {
        broadcast use vstd::std_specs::hash::group_hash_axioms;

        let r = Streams { active: HashSet::new(), outcome: TcpReceiveOutcome::new() };
        assert(r@.active =~= Set::<u64>::empty());
        r
    }

    /// Counts a stream whose handshake failed.
    pub fn on_rejected(&mut self)
        ensures
            final(self)@ == old(self)@.after(Handshake::Rejected),
    {
        self.outcome.streams_rejected = count_up(self.outcome.streams_rejected, 1);
    }

    /// Lets a contestant's stream in. Tells whether it takes the place of an earlier one,
    /// which is then to be dropped: a contestant has one stream at most.
    pub fn on_accepted(&mut self, id: u64) -> (replaces: bool)
        ensures
            replaces == old(self)@.active.contains(id),
            final(self)@ == old(self)@.after(Handshake::Accepted { id }),
    {
        broadcast use vstd::std_specs::hash::group_hash_axioms;

        let ghost before = self.active@;
        let fresh: bool = self.active.insert(id);
        if !fresh {
            self.outcome.streams_replaced = count_up(self.outcome.streams_replaced, 1);
            assert(self.active@ =~= before.insert(id));
        }
        self.outcome.streams_accepted = count_up(self.outcome.streams_accepted, 1);
        !fresh
    }

    /// What was counted so far.
    pub fn outcome(&self) -> (r: TcpReceiveOutcome)
        ensures
            r == self@.outcome,
    {
        self.outcome
    }
}

/// What came off a stream with one read.
pub struct Received {
    /// Whole submissions, in order.
    pub submissions: Vec<RouteSubmission>,
    /// The framing error behind them, if there is one: the stream is then dropped.
    pub error: Option<DeserializeError>,
}

/// What is held of a stream after one more read: the bytes behind the last whole submission,
/// and nothing after a framing error.
pub open spec fn held_after(held: Seq<u8>, bytes: Seq<u8>) -> Seq<u8> {
    let out = submission::drained(held + bytes);
    if out.error is None {
        (held + bytes).skip(out.used)
    } else {
        Seq::empty()
    }
}

/// The bytes of a stream that make no whole submission yet.
pub struct SubmissionReader {
    acc: Vec<u8>,
}

impl View for SubmissionReader {
    type V = Seq<u8>;

    closed spec fn view(&self) -> Seq<u8> {
        self.acc@
    }
}

impl SubmissionReader {
    /// Whether what is held is shorter than the largest submission.
    pub open spec fn wf(self) -> bool {
        self@.len() < MAX_SUBMISSION_WIRE_SIZE
    }

    pub fn new() -> (r: Self)
        ensures
            r.wf(),
            r@ == Seq::<u8>::empty(),
    {
        SubmissionReader { acc: Vec::new() }
    }

    /// The number of bytes that may be read next. There is always room for some.
    pub fn room(&self) -> (r: usize)
        requires
            self.wf(),
        ensures
            r == SUBMISSION_READ_BUF - self@.len(),
            r > 0,
    {
        SUBMISSION_READ_BUF - self.acc.len()
    }

    /// Takes in bytes that were read, and gives the submissions that are whole now. After a
    /// framing error nothing is held any more.
    pub fn receive(&mut self, bytes: &[u8]) -> (r: Received)
        requires
            old(self).wf(),
        ensures
            final(self).wf(),
            ({
                let out = submission::drained(old(self)@ + bytes@);
                &&& submission::views(r.submissions@) == out.submissions
                &&& r.error == out.error
                &&& final(self)@ == held_after(old(self)@, bytes@)
            }),
    {
        let ghost before = self.acc@;
        let n: usize = bytes.len();
        let mut i: usize = 0;
        while i < n
            invariant
                i <= n == bytes@.len(),
                self.acc@ == before + bytes@.take(i as int),
            decreases n - i,
        {
            self.acc.push(bytes[i]);
            i = i + 1;
            assert(self.acc@ =~= before + bytes@.take(i as int));
        }
        assert(self.acc@ =~= before + bytes@);
        let ghost stream = self.acc@;
        let (submissions, used, error) = drain_submissions(self.acc.as_slice());
        let mut rest: Vec<u8> = Vec::new();
        if error.is_none() {
            let len: usize = self.acc.len();
            let mut k: usize = used;
            while k < len
                invariant
                    used <= k <= len == stream.len(),
                    self.acc@ == stream,
                    rest@ == stream.subrange(used as int, k as int),
                decreases len - k,
            {
                rest.push(self.acc[k]);
                k = k + 1;
                assert(rest@ =~= stream.subrange(used as int, k as int));
            }
            assert(rest@ =~= stream.skip(used as int));
        }
        self.acc = rest;
        Received { submissions, error }
    }
}

} // verus!
