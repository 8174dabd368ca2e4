use super::wire;
use crate::text;
use vstd::prelude::*;
use vstd::slice::slice_subrange;
use vstd::string::StringExecFns;

verus! {

/// Trade direction of one leg.
#[derive(Debug, Clone, Copy, PartialEq, Eq, Structural)]
pub enum Direction {
    /// Pay quote, receive base. `0` on the wire.
    Buy,
    /// Pay base, receive quote. `1` on the wire.
    Sell,
}

#[derive(Debug, Clone, Copy, PartialEq, Eq, Structural)]
pub struct RouteSubmissionLeg {
    /// Pair to trade on.
    pub pair_id: u64,
    pub direction: Direction,
    /// Price the contestant claims is current, in atomic-quote per 1 whole base.
    /// Must equal the pair's price at evaluation time or the submission is rejected.
    pub price: u64,
    /// Amount to fill on this leg, in atomic units of base: the base amount
    /// received by a `Buy`, the base amount spent by a `Sell`.
    pub volume: u64,
}

#[derive(Debug, Clone)]
pub struct RouteSubmission {
    /// Chosen by the contestant, echoed in the response.
    pub sub_id: u64,
    pub legs: Vec<RouteSubmissionLeg>,
}

/// What a [`RouteSubmission`] holds.
pub struct SubmissionView {
    pub sub_id: u64,
    pub legs: Seq<RouteSubmissionLeg>,
}

impl View for RouteSubmission {
    type V = SubmissionView;

    open spec fn view(&self) -> SubmissionView {
        SubmissionView { sub_id: self.sub_id, legs: self.legs@ }
    }
}

/// `[sub_id u64 LE][num_legs u8]`. Leg payload follows.
pub const SUBMISSION_HEADER_WIRE_SIZE: usize = 9;

/// Hard cap on legs per submission. Anything above is a framing error.
pub const MAX_LEGS: u8 = 32;

/// Bytes of the largest valid submission: a header and [`MAX_LEGS`] legs.
pub const MAX_SUBMISSION_WIRE_SIZE: usize = 809;

impl RouteSubmissionLeg {
    /// On-the-wire bytes per submission leg.
    pub const WIRE_SIZE: usize = 25;
}

#[derive(Debug, Clone, Copy, PartialEq, Eq, Structural)]
pub enum DeserializeError {
    /// Not enough bytes for a full submission yet. The caller should buffer more.
    Incomplete,
    /// `num_legs == 0`: empty submissions are not valid.
    EmptySubmission,
    /// `num_legs > MAX_LEGS`: almost certainly a desync.
    TooManyLegs { got: u8, max: u8 },
    /// `direction` was neither `Buy` nor `Sell`: almost certainly a desync.
    BadDirection { value: u8 },
}

impl DeserializeError {
    /// What the error says.
    pub open spec fn text(self) -> Seq<char> {
        match self {
            DeserializeError::Incomplete => "incomplete submission"@,
            DeserializeError::EmptySubmission => "submission has zero legs"@,
            DeserializeError::TooManyLegs { got, max } => "submission has "@ + text::decimal(
                got as nat,
            ) + " legs (max "@ + text::decimal(max as nat) + ")"@,
            DeserializeError::BadDirection { value } => "leg direction "@ + text::decimal(
                value as nat,
            ) + " is neither 0 (buy) nor 1 (sell)"@,
        }
    }

    /// The error in words.
    pub fn message(&self) -> (r: String)
        ensures
            r@ == self.text(),
    {
        match self {
            DeserializeError::Incomplete => String::from_str("incomplete submission"),
            DeserializeError::EmptySubmission => String::from_str("submission has zero legs"),
            DeserializeError::TooManyLegs { got, max } => {
                let mut r = String::from_str("submission has ");
                text::push_decimal(&mut r, *got as u128);
                r.append(" legs (max ");
                text::push_decimal(&mut r, *max as u128);
                r.append(")");
                r
            },
            DeserializeError::BadDirection { value } => {
                let mut r = String::from_str("leg direction ");
                text::push_decimal(&mut r, *value as u128);
                r.append(" is neither 0 (buy) nor 1 (sell)");
                r
            },
        }
    }
}

/// The byte that stands for a direction.
pub open spec fn direction_byte(d: Direction) -> u8 {
    match d {
        Direction::Buy => 0,
        Direction::Sell => 1,
    }
}

/// The bytes of one leg.
pub open spec fn leg_frame(leg: RouteSubmissionLeg) -> Seq<u8> {
    wire::le64(leg.pair_id) + seq![direction_byte(leg.direction)] + wire::le64(leg.price)
        + wire::le64(leg.volume)
}

/// The bytes of several legs, in order.
pub open spec fn legs_frame(legs: Seq<RouteSubmissionLeg>) -> Seq<u8>
    decreases legs.len(),
{
    if legs.len() == 0 {
        Seq::empty()
    } else {
        leg_frame(legs[0]) + legs_frame(legs.drop_first())
    }
}

/// The bytes of one submission.
pub open spec fn submission_frame(sub: SubmissionView) -> Seq<u8> {
    wire::le64(sub.sub_id) + seq![sub.legs.len() as u8] + legs_frame(sub.legs)
}

/// Where leg `i` of the frame at the front of a buffer starts.
pub open spec fn leg_offset(i: int) -> int {
    9 + 25 * i
}

/// The leg whose bytes start at `at`, taking any direction byte but `0` for a sell.
pub open spec fn leg_at(buf: Seq<u8>, at: int) -> RouteSubmissionLeg {
    RouteSubmissionLeg {
        pair_id: wire::u64_at(buf, at),
        direction: if buf[at + 8] == 0 {
            Direction::Buy
        } else {
            Direction::Sell
        },
        price: wire::u64_at(buf, at + 9),
        volume: wire::u64_at(buf, at + 17),
    }
}

/// The first byte that is no direction among those of the legs `i..n`.
pub open spec fn bad_direction(buf: Seq<u8>, i: int, n: int) -> Option<u8>
    decreases n - i,
{
    if i >= n {
        None
    } else if buf[leg_offset(i) + 8] > 1 {
        Some(buf[leg_offset(i) + 8])
    } else {
        bad_direction(buf, i + 1, n)
    }
}

/// What [`RouteSubmission::deserialize`] makes of a buffer: the submission at its
/// front with the number of bytes that it takes, or why there is none.
pub open spec fn deserialized(buf: Seq<u8>) -> Result<(SubmissionView, nat), DeserializeError> {
    let n = buf[8] as int;
    if buf.len() < 9 {
        Err(DeserializeError::Incomplete)
    } else if n == 0 {
        Err(DeserializeError::EmptySubmission)
    } else if n > MAX_LEGS {
        Err(DeserializeError::TooManyLegs { got: buf[8], max: MAX_LEGS })
    } else if buf.len() < leg_offset(n) {
        Err(DeserializeError::Incomplete)
    } else if let Some(value) = bad_direction(buf, 0, n) {
        Err(DeserializeError::BadDirection { value })
    } else {
        Ok(
            (
                SubmissionView {
                    sub_id: wire::u64_at(buf, 0),
                    legs: Seq::new(n as nat, |i: int| leg_at(buf, leg_offset(i))),
                },
                leg_offset(n) as nat,
            ),
        )
    }
}

proof fn lemma_bad_direction_found(buf: Seq<u8>, i: int, j: int, n: int)
    requires
        0 <= i <= j < n,
        buf[leg_offset(j) + 8] > 1,
        forall|k: int| i <= k < j ==> buf[#[trigger] leg_offset(k) + 8] <= 1,
    ensures
        bad_direction(buf, i, n) == Some(buf[leg_offset(j) + 8]),
    decreases j - i,
{
    if i < j {
        assert(buf[leg_offset(i) + 8] <= 1);
        lemma_bad_direction_found(buf, i + 1, j, n);
    }
}

proof fn lemma_no_bad_direction(buf: Seq<u8>, i: int, n: int)
    requires
        0 <= i <= n,
        forall|k: int| i <= k < n ==> buf[#[trigger] leg_offset(k) + 8] <= 1,
    ensures
        bad_direction(buf, i, n) is None,
    decreases n - i,
{
    if i < n {
        assert(buf[leg_offset(i) + 8] <= 1);
        lemma_no_bad_direction(buf, i + 1, n);
    }
}

impl RouteSubmission {
    /// Tries to parse one submission off the front of `buf`. Returns the parsed
    /// submission and the number of bytes consumed.
    pub fn deserialize(buf: &[u8]) -> (r: Result<(Self, usize), DeserializeError>)
        ensures
            match r {
                Ok((sub, used)) => deserialized(buf@) == Ok::<_, DeserializeError>(
                    (sub@, used as nat),
                ) && used <= buf@.len(),
                Err(e) => deserialized(buf@) == Err::<(SubmissionView, nat), _>(e),
            },
    {
        if buf.len() < SUBMISSION_HEADER_WIRE_SIZE {
            return Err(DeserializeError::Incomplete);
        }
        let sub_id: u64 = wire::get_u64(buf, 0);
        let num_legs_byte: u8 = buf[8];
        if num_legs_byte == 0 {
            return Err(DeserializeError::EmptySubmission);
        }
        if num_legs_byte > MAX_LEGS {
            return Err(DeserializeError::TooManyLegs { got: num_legs_byte, max: MAX_LEGS });
        }
        let num_legs: usize = num_legs_byte as usize;
        let total: usize = SUBMISSION_HEADER_WIRE_SIZE + num_legs * RouteSubmissionLeg::WIRE_SIZE;
        if buf.len() < total {
            return Err(DeserializeError::Incomplete);
        }
        let mut legs: Vec<RouteSubmissionLeg> = Vec::with_capacity(num_legs);
        let mut i: usize = 0;
        while i < num_legs
            invariant
                i <= num_legs == buf@[8] as int,
                0 < num_legs <= 32,
                total == leg_offset(num_legs as int) <= buf@.len(),
                legs@.len() == i,
                forall|k: int|
                    0 <= k < i ==> legs@[k] == leg_at(buf@, #[trigger] leg_offset(k)),
                forall|k: int| 0 <= k < i ==> buf@[#[trigger] leg_offset(k) + 8] <= 1,
            decreases num_legs - i,
        {
            let off: usize = SUBMISSION_HEADER_WIRE_SIZE + i * RouteSubmissionLeg::WIRE_SIZE;
            assert(off == leg_offset(i as int));
            assert(off + 25 <= total);
            let pair_id: u64 = wire::get_u64(buf, off);
            let dir_val: u8 = buf[off + 8];
            let direction = match dir_val {
                0 => Direction::Buy,
                1 => Direction::Sell,
                _ => {
                    proof {
                        lemma_bad_direction_found(buf@, 0, i as int, num_legs as int);
                    }
                    return Err(DeserializeError::BadDirection { value: dir_val });
                },
            };
            let price: u64 = wire::get_u64(buf, off + 9);
            let volume: u64 = wire::get_u64(buf, off + 17);
            legs.push(RouteSubmissionLeg { pair_id, direction, price, volume });
            i = i + 1;
        }
        proof {
            lemma_no_bad_direction(buf@, 0, num_legs as int);
            assert(legs@ =~= Seq::new(
                num_legs as nat,
                |i: int| leg_at(buf@, leg_offset(i)),
            )) by {
                assert forall|k: int| 0 <= k < num_legs implies legs@[k] == leg_at(
                    buf@,
                    leg_offset(k),
                ) by {
                    let o = leg_offset(k);
                }
            }
        }
        Ok((RouteSubmission { sub_id, legs }, total))
    }
}

/// Whether a submission can be framed: it has a leg and not too many.
pub open spec fn framable(sub: SubmissionView) -> bool {
    1 <= sub.legs.len() <= MAX_LEGS
}

proof fn lemma_leg_frame(leg: RouteSubmissionLeg)
    ensures
        leg_frame(leg).len() == 25,
        leg_frame(leg).subrange(0, 8) == wire::le64(leg.pair_id),
        leg_frame(leg)[8] == direction_byte(leg.direction),
        leg_frame(leg).subrange(9, 17) == wire::le64(leg.price),
        leg_frame(leg).subrange(17, 25) == wire::le64(leg.volume),
{
    wire::lemma_le64(leg.pair_id);
    wire::lemma_le64(leg.price);
    wire::lemma_le64(leg.volume);
    let f = leg_frame(leg);
    assert(f.subrange(0, 8) =~= wire::le64(leg.pair_id));
    assert(f.subrange(9, 17) =~= wire::le64(leg.price));
    assert(f.subrange(17, 25) =~= wire::le64(leg.volume));
}

proof fn lemma_legs_frame_len(legs: Seq<RouteSubmissionLeg>)
    ensures
        legs_frame(legs).len() == 25 * legs.len(),
    decreases legs.len(),
{
    if legs.len() > 0 {
        lemma_leg_frame(legs[0]);
        lemma_legs_frame_len(legs.drop_first());
    }
}

proof fn lemma_legs_frame_at(legs: Seq<RouteSubmissionLeg>, i: int)
    requires
        0 <= i < legs.len(),
    ensures
        legs_frame(legs).len() == 25 * legs.len(),
        legs_frame(legs).subrange(25 * i, 25 * i + 25) == leg_frame(legs[i]),
    decreases legs.len(),
{
    lemma_legs_frame_len(legs);
    lemma_leg_frame(legs[0]);
    let rest = legs.drop_first();
    lemma_legs_frame_len(rest);
    if i == 0 {
        assert(legs_frame(legs).subrange(0, 25) =~= leg_frame(legs[0]));
    } else {
        lemma_legs_frame_at(rest, i - 1);
        assert(legs_frame(legs).subrange(25 * i, 25 * i + 25) =~= legs_frame(rest).subrange(
            25 * (i - 1),
            25 * (i - 1) + 25,
        ));
    }
}

/// Where the bytes of a leg stand, the leg is read.
proof fn lemma_leg_at(buf: Seq<u8>, at: int, leg: RouteSubmissionLeg)
    requires
        0 <= at,
        at + 25 <= buf.len(),
        buf.subrange(at, at + 25) == leg_frame(leg),
    ensures
        leg_at(buf, at) == leg,
        buf[at + 8] <= 1,
{
    lemma_leg_frame(leg);
    let f = buf.subrange(at, at + 25);
    assert(buf.subrange(at, at + 8) =~= f.subrange(0, 8));
    assert(buf.subrange(at + 9, at + 17) =~= f.subrange(9, 17));
    assert(buf.subrange(at + 17, at + 25) =~= f.subrange(17, 25));
    assert(buf[at + 8] == f[8]);
    wire::lemma_u64_at_of(buf, at, leg.pair_id);
    wire::lemma_u64_at_of(buf, at + 9, leg.price);
    wire::lemma_u64_at_of(buf, at + 17, leg.volume);
}

/// The frame of a submission takes a header and its legs.
pub proof fn lemma_frame_len(sub: SubmissionView)
    ensures
        submission_frame(sub).len() == leg_offset(sub.legs.len() as int),
        framable(sub) ==> submission_frame(sub).len() <= MAX_SUBMISSION_WIRE_SIZE,
{
    wire::lemma_le64(sub.sub_id);
    lemma_legs_frame_len(sub.legs);
}

/// A submission that was framed is read back, whatever follows its bytes.
pub proof fn lemma_frame_roundtrip(sub: SubmissionView, rest: Seq<u8>)
    requires
        framable(sub),
    ensures
        deserialized(submission_frame(sub) + rest) == Ok::<_, DeserializeError>(
            (sub, submission_frame(sub).len()),
        ),
{
    let frame = submission_frame(sub);
    let buf = frame + rest;
    let n = sub.legs.len() as int;
    lemma_frame_len(sub);
    wire::lemma_le64(sub.sub_id);
    lemma_legs_frame_len(sub.legs);
    assert(buf.subrange(0, 8) =~= wire::le64(sub.sub_id));
    wire::lemma_u64_at_of(buf, 0, sub.sub_id);
    assert(buf[8] == n);
    assert forall|k: int| 0 <= k < n implies leg_at(buf, #[trigger] leg_offset(k)) == sub.legs[k]
        && buf[leg_offset(k) + 8] <= 1 by {
        lemma_legs_frame_at(sub.legs, k);
        assert(buf.subrange(leg_offset(k), leg_offset(k) + 25) =~= legs_frame(sub.legs).subrange(
            25 * k,
            25 * k + 25,
        ));
        lemma_leg_at(buf, leg_offset(k), sub.legs[k]);
    }
    lemma_no_bad_direction(buf, 0, n);
    let read = Seq::new(n as nat, |i: int| leg_at(buf, leg_offset(i)));
    assert forall|k: int| 0 <= k < n implies #[trigger] read[k] == sub.legs[k] by {
        let at = leg_offset(k);
    }
    assert(read =~= sub.legs);
}

proof fn lemma_leg_frame_of(buf: Seq<u8>, at: int)
    requires
        0 <= at,
        at + 25 <= buf.len(),
        buf[at + 8] <= 1,
    ensures
        leg_frame(leg_at(buf, at)) == buf.subrange(at, at + 25),
{
    wire::lemma_u64_at(buf, at);
    wire::lemma_u64_at(buf, at + 9);
    wire::lemma_u64_at(buf, at + 17);
    assert(leg_frame(leg_at(buf, at)) =~= buf.subrange(at, at + 25));
}

proof fn lemma_legs_frame_of(buf: Seq<u8>, i: int, n: int)
    requires
        0 <= i <= n,
        leg_offset(n) <= buf.len(),
        bad_direction(buf, i, n) is None,
    ensures
        legs_frame(Seq::new((n - i) as nat, |k: int| leg_at(buf, leg_offset(i + k))))
            == buf.subrange(leg_offset(i), leg_offset(n)),
    decreases n - i,
{
    let legs = Seq::new((n - i) as nat, |k: int| leg_at(buf, leg_offset(i + k)));
    if i < n {
        lemma_legs_frame_of(buf, i + 1, n);
        lemma_leg_frame_of(buf, leg_offset(i));
        assert(legs.drop_first() =~= Seq::new(
            (n - i - 1) as nat,
            |k: int| leg_at(buf, leg_offset(i + 1 + k)),
        ));
        assert(legs_frame(legs) =~= buf.subrange(leg_offset(i), leg_offset(n)));
    } else {
        assert(legs_frame(legs) =~= buf.subrange(leg_offset(i), leg_offset(n)));
    }
}

/// What is read off the front of a buffer is the frame of the submission that comes out.
pub proof fn lemma_parsed_frame(buf: Seq<u8>)
    requires
        deserialized(buf) is Ok,
    ensures
        ({
            let (sub, used) = deserialized(buf)->Ok_0;
            &&& framable(sub)
            &&& used <= buf.len()
            &&& submission_frame(sub) == buf.take(used as int)
        }),
{
    let n = buf[8] as int;
    let (sub, used) = deserialized(buf)->Ok_0;
    wire::lemma_u64_at(buf, 0);
    lemma_legs_frame_of(buf, 0, n);
    assert(sub.legs =~= Seq::new(n as nat, |k: int| leg_at(buf, leg_offset(0 + k))));
    lemma_frame_len(sub);
    assert(submission_frame(sub) =~= buf.take(used as int));
}

/// Once a buffer is known to hold a submission, or none that is valid, more bytes do not
/// change that.
pub proof fn lemma_verdict_stands(buf: Seq<u8>, rest: Seq<u8>)
    requires
        deserialized(buf) != Err::<(SubmissionView, nat), _>(DeserializeError::Incomplete),
    ensures
        deserialized(buf + rest) == deserialized(buf),
{
    let all = buf + rest;
    assert(all[8] == buf[8]);
    let n = buf[8] as int;
    if 0 < n <= MAX_LEGS {
        lemma_bad_direction_stands(buf, rest, 0, n);
        if deserialized(buf) is Ok {
            wire::lemma_u64_at_prefix(buf, rest, 0);
            let (sub, used) = deserialized(buf)->Ok_0;
            let legs = Seq::new(n as nat, |i: int| leg_at(all, leg_offset(i)));
            assert forall|k: int| 0 <= k < n implies #[trigger] legs[k] == sub.legs[k] by {
                let at = leg_offset(k);
                wire::lemma_u64_at_prefix(buf, rest, at);
                wire::lemma_u64_at_prefix(buf, rest, at + 9);
                wire::lemma_u64_at_prefix(buf, rest, at + 17);
                assert(all[at + 8] == buf[at + 8]);
            }
            assert(legs =~= sub.legs);
        }
    }
}

proof fn lemma_bad_direction_stands(buf: Seq<u8>, rest: Seq<u8>, i: int, n: int)
    requires
        0 <= i <= n,
        leg_offset(n) <= buf.len(),
    ensures
        bad_direction(buf + rest, i, n) == bad_direction(buf, i, n),
    decreases n - i,
{
    if i < n {
        assert((buf + rest)[leg_offset(i) + 8] == buf[leg_offset(i) + 8]);
        lemma_bad_direction_stands(buf, rest, i + 1, n);
    }
}

/// A buffer that holds no whole submission yet is shorter than the largest one.
pub proof fn lemma_incomplete_is_short(buf: Seq<u8>)
    requires
        deserialized(buf) == Err::<(SubmissionView, nat), _>(DeserializeError::Incomplete),
    ensures
        buf.len() < MAX_SUBMISSION_WIRE_SIZE,
{
}

/// What a buffer holds: the submissions at its front, the bytes that they take, and the
/// framing error behind them, if there is one.
pub struct Drained {
    pub submissions: Seq<SubmissionView>,
    pub used: int,
    pub error: Option<DeserializeError>,
}

/// What comes off a buffer, one submission after the other, until the bytes make no whole
/// submission or a bad one.
pub open spec fn drained(buf: Seq<u8>) -> Drained
    decreases buf.len(),
{
    match deserialized(buf) {
        Ok((sub, used)) => {
            proof {
                lemma_parsed_frame(buf);
                lemma_frame_len(sub);
            }
            let rest = drained(buf.skip(used as int));
            Drained {
                submissions: seq![sub] + rest.submissions,
                used: used + rest.used,
                error: rest.error,
            }
        },
        Err(DeserializeError::Incomplete) => Drained {
            submissions: Seq::empty(),
            used: 0,
            error: None,
        },
        Err(e) => Drained { submissions: Seq::empty(), used: 0, error: Some(e) },
    }
}

/// What is left of a drained buffer, where nothing is wrong with it, is too short to fill
/// the buffer: more can be read.
pub proof fn lemma_remainder_is_short(buf: Seq<u8>)
    ensures
        0 <= drained(buf).used <= buf.len(),
        drained(buf).error is None ==> buf.len() - drained(buf).used < MAX_SUBMISSION_WIRE_SIZE,
        drained(buf).error is None ==> deserialized(buf.skip(drained(buf).used)) == Err::<
            (SubmissionView, nat),
            _,
        >(DeserializeError::Incomplete),
    decreases buf.len(),
{
    if deserialized(buf) is Ok {
        let (sub, used) = deserialized(buf)->Ok_0;
        lemma_parsed_frame(buf);
        lemma_frame_len(sub);
        lemma_remainder_is_short(buf.skip(used as int));
        let rest = drained(buf.skip(used as int));
        assert(buf.skip(used as int).skip(rest.used) =~= buf.skip(used + rest.used));
    } else if drained(buf).error is None {
        assert(buf.skip(0) =~= buf);
    }
}

/// However a stream of bytes is cut into reads, the same submissions come off it, and the
/// same error: draining one part, and then what is left of it with the next, gives what
/// draining both at once gives.
pub proof fn lemma_chunking(first: Seq<u8>, second: Seq<u8>)
    ensures
        ({
            let one = drained(first);
            let whole = drained(first + second);
            if one.error is Some {
                whole == one
            } else {
                let two = drained(first.skip(one.used) + second);
                &&& whole.submissions == one.submissions + two.submissions
                &&& whole.used == one.used + two.used
                &&& whole.error == two.error
            }
        }),
    decreases first.len(),
{
    let all = first + second;
    match deserialized(first) {
        Ok((sub, used)) => {
            lemma_parsed_frame(first);
            lemma_frame_len(sub);
            lemma_verdict_stands(first, second);
            let rest = first.skip(used as int);
            lemma_chunking(rest, second);
            lemma_remainder_is_short(rest);
            assert(all.skip(used as int) =~= rest + second);
            let one = drained(first);
            let inner = drained(rest);
            assert(first.skip(one.used) =~= rest.skip(inner.used));
            if one.error is None {
                let two = drained(first.skip(one.used) + second);
                assert(drained(all).submissions =~= one.submissions + two.submissions);
            }
        },
        Err(DeserializeError::Incomplete) => {
            assert(first.skip(0) =~= first);
            assert(drained(first).submissions + drained(all).submissions
                =~= drained(all).submissions);
        },
        Err(e) => {
            lemma_verdict_stands(first, second);
        },
    }
}

/// The frames of several submissions, one after the other.
pub open spec fn frames(subs: Seq<SubmissionView>) -> Seq<u8>
    decreases subs.len(),
{
    if subs.len() == 0 {
        Seq::empty()
    } else {
        submission_frame(subs[0]) + frames(subs.drop_first())
    }
}

/// Submissions that are sent back to back all come off the stream, in order.
pub proof fn lemma_back_to_back(subs: Seq<SubmissionView>, rest: Seq<u8>)
    requires
        forall|i: int| 0 <= i < subs.len() ==> framable(#[trigger] subs[i]),
    ensures
        drained(frames(subs) + rest).submissions == subs + drained(rest).submissions,
        drained(frames(subs) + rest).used == frames(subs).len() + drained(rest).used,
        drained(frames(subs) + rest).error == drained(rest).error,
    decreases subs.len(),
{
    if subs.len() == 0 {
        assert(frames(subs) + rest =~= rest);
        assert(subs + drained(rest).submissions =~= drained(rest).submissions);
    } else {
        let frame = submission_frame(subs[0]);
        let tail = subs.drop_first();
        let behind = frames(tail) + rest;
        assert(framable(subs[0]));
        assert forall|i: int| 0 <= i < tail.len() implies framable(#[trigger] tail[i]) by {
            assert(tail[i] == subs[i + 1]);
        }
        lemma_back_to_back(tail, rest);
        lemma_frame_roundtrip(subs[0], behind);
        lemma_frame_len(subs[0]);
        assert(frames(subs) + rest =~= frame + behind);
        assert((frame + behind).skip(frame.len() as int) =~= behind);
        assert(seq![subs[0]] + (tail + drained(rest).submissions) =~= subs
            + drained(rest).submissions);
    }
}

/// The contents of submissions.
pub open spec fn views(subs: Seq<RouteSubmission>) -> Seq<SubmissionView> {
    Seq::new(subs.len(), |i: int| subs[i]@)
}

/// Parses as many submissions off the front of a buffer as it holds. Returns them with the
/// number of bytes they take and the framing error behind them, if there is one.
pub fn drain_submissions(buf: &[u8]) -> (r: (
    Vec<RouteSubmission>,
    usize,
    Option<DeserializeError>,
))
    ensures
        views(r.0@) == drained(buf@).submissions,
        r.1 == drained(buf@).used,
        r.1 <= buf@.len(),
        r.2 == drained(buf@).error,
        r.2 is None ==> buf@.len() - r.1 < MAX_SUBMISSION_WIRE_SIZE,
{
    let mut subs: Vec<RouteSubmission> = Vec::new();
    let mut cursor: usize = 0;
    let len: usize = buf.len();
    let ghost whole = drained(buf@);
    proof {
        lemma_remainder_is_short(buf@);
        assert(buf@.skip(0) =~= buf@);
        assert(views(subs@) + whole.submissions =~= whole.submissions);
    }
    loop
        invariant
            cursor <= len == buf@.len(),
            whole == drained(buf@),
            0 <= whole.used <= len,
            whole.error is None ==> len - whole.used < MAX_SUBMISSION_WIRE_SIZE,
            views(subs@) + drained(buf@.skip(cursor as int)).submissions == whole.submissions,
            cursor + drained(buf@.skip(cursor as int)).used == whole.used,
            drained(buf@.skip(cursor as int)).error == whole.error,
        decreases len - cursor,
    {
        let rest = slice_subrange(buf, cursor, len);
        assert(rest@ =~= buf@.skip(cursor as int));
        match RouteSubmission::deserialize(rest) {
            Ok((sub, used)) => {
                let ghost before = views(subs@);
                let ghost tail = drained(rest@.skip(used as int)).submissions;
                proof {
                    lemma_parsed_frame(rest@);
                    lemma_frame_len(sub@);
                    assert(rest@.skip(used as int) =~= buf@.skip(cursor + used));
                }
                subs.push(sub);
                assert(views(subs@) =~= before.push(sub@));
                assert(views(subs@) + tail =~= before + (seq![sub@] + tail));
                cursor = cursor + used;
            },
            Err(DeserializeError::Incomplete) => {
                assert(views(subs@) + Seq::<SubmissionView>::empty() =~= views(subs@));
                return (subs, cursor, None);
            },
            Err(e) => {
                assert(views(subs@) + Seq::<SubmissionView>::empty() =~= views(subs@));
                return (subs, cursor, Some(e));
            },
        }
    }
}

/// The answer to one submission.
#[derive(Debug, Clone, Copy, PartialEq, Eq, Structural)]
pub struct SubmissionResponse {
    pub sub_id: u64,
    /// 1 = accepted, 0 = rejected.
    pub ok: u8,
    /// Contestant's balance after this submission, in atomic-USD. Signed.
    pub balance: i64,
}

/// The bytes of a response.
pub open spec fn response_frame(r: SubmissionResponse) -> Seq<u8> {
    wire::le64(r.sub_id) + seq![r.ok] + wire::le64(wire::unsigned_bits(r.balance))
}

/// The response whose bytes stand at the front of a buffer.
pub open spec fn response_at(s: Seq<u8>) -> SubmissionResponse {
    SubmissionResponse {
        sub_id: wire::u64_at(s, 0),
        ok: s[8],
        balance: wire::signed_bits(wire::u64_at(s, 9)) as i64,
    }
}

impl SubmissionResponse {
    /// On-the-wire bytes per response: `sub_id u64`, `ok u8`, `balance i64`.
    pub const WIRE_SIZE: usize = 17;

    pub fn to_bytes(&self) -> (r: [u8; 17])
        ensures
            r@ == response_frame(*self),
    {
        let mut out: Vec<u8> = Vec::new();
        wire::put_u64(&mut out, self.sub_id);
        out.push(self.ok);
        wire::put_u64(&mut out, wire::to_unsigned(self.balance));
        assert(out@ =~= response_frame(*self));
        proof {
            wire::lemma_le64(self.sub_id);
            wire::lemma_le64(wire::unsigned_bits(self.balance));
        }
        let mut buf: [u8; 17] = [0u8;17];
        let mut i: usize = 0;
        while i < 17
            invariant
                i <= 17,
                out@.len() == 17,
                forall|k: int| 0 <= k < i ==> buf@[k] == #[trigger] out@[k],
            decreases 17 - i,
        {
            buf[i] = out[i];
            i = i + 1;
        }
        assert(buf@ =~= out@);
        buf
    }
}

/// A response that was written is read back.
pub proof fn lemma_response_roundtrip(r: SubmissionResponse, rest: Seq<u8>)
    ensures
        response_frame(r).len() == SubmissionResponse::WIRE_SIZE,
        response_at(response_frame(r) + rest) == r,
{
    let bits = wire::unsigned_bits(r.balance);
    let s = response_frame(r) + rest;
    wire::lemma_le64(r.sub_id);
    wire::lemma_le64(bits);
    assert(s.subrange(0, 8) =~= wire::le64(r.sub_id));
    assert(s.subrange(9, 17) =~= wire::le64(bits));
    wire::lemma_u64_at_of(s, 0, r.sub_id);
    wire::lemma_u64_at_of(s, 9, bits);
}

} // verus!
