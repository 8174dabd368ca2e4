//! Where each number stands on the wire.
use super::feed;
use super::feed::PriceUpdate;
use super::market;
use super::market::MarketView;
use super::submission;
use super::submission::{DeserializeError, Direction, SubmissionResponse, SubmissionView};
use super::wire;
use vstd::arithmetic::power::pow;
use vstd::prelude::*;

verus! {

/// Byte `k` of a number is its digit number `k` to the base 256, the least significant first.
pub proof fn lemma_bytes_are_digits(x: u64, k: int)
    requires
        0 <= k < 8,
    ensures
        wire::le64(x).len() == 8,
        wire::le64(x)[k] == x as int / pow(256, k as nat) % 256,
{
    wire::lemma_le_bytes_len(x as nat, 8);
    lemma_le_bytes_digit(x as nat, 8, k);
}

proof fn lemma_le_bytes_digit(x: nat, n: nat, k: int)
    requires
        0 <= k < n,
    ensures
        wire::le_bytes(x, n).len() == n,
        wire::le_bytes(x, n)[k] == x as int / pow(256, k as nat) % 256,
    decreases n,
{
    reveal(pow);
    wire::lemma_le_bytes_len(x, n);
    if k > 0 {
        lemma_le_bytes_digit(x / 256, (n - 1) as nat, k - 1);
        let p = pow(256, (k - 1) as nat);
        vstd::arithmetic::power::lemma_pow_positive(256, (k - 1) as nat);
        vstd::arithmetic::div_mod::lemma_div_denominator(x as int, 256, p);
        assert(pow(256, k as nat) == 256 * p);
    } else {
        assert(pow(256, 0) == 1);
    }
}

proof fn lemma_le_value_step(s: Seq<u8>, i: int)
    requires
        0 <= i < s.len(),
    ensures
        wire::le_value(s.skip(i)) == s[i] + 256 * wire::le_value(s.skip(i + 1)),
{
    assert(s.skip(i).drop_first() =~= s.skip(i + 1));
}

/// The number at a place is the sum of the eight bytes from there on, each worth 256 times as
/// much as the one before it.
pub proof fn lemma_number_is_sum_of_bytes(s: Seq<u8>, at: int)
    requires
        0 <= at,
        at + 8 <= s.len(),
    ensures
        wire::u64_at(s, at) == s[at] + 0x100 * s[at + 1] + 0x1_0000 * s[at + 2] + 0x100_0000 * s[at
            + 3] + 0x1_0000_0000 * s[at + 4] + 0x100_0000_0000 * s[at + 5] + 0x1_0000_0000_0000
            * s[at + 6] + 0x100_0000_0000_0000 * s[at + 7],
{
    let t = s.subrange(at, at + 8);
    wire::lemma_u64_at(s, at);
    lemma_le_value_step(t, 0);
    lemma_le_value_step(t, 1);
    lemma_le_value_step(t, 2);
    lemma_le_value_step(t, 3);
    lemma_le_value_step(t, 4);
    lemma_le_value_step(t, 5);
    lemma_le_value_step(t, 6);
    lemma_le_value_step(t, 7);
    assert(t.skip(0) =~= t);
    assert(t.skip(8) =~= Seq::<u8>::empty());
}

/// A signed number and its bits differ by `2^64` where it is negative, and are the same where
/// it is not.
pub proof fn lemma_signed_bits_are(x: i64, y: u64)
    ensures
        wire::signed_bits(wire::unsigned_bits(x)) == x,
        x >= 0 ==> wire::unsigned_bits(x) == x,
        x < 0 ==> wire::unsigned_bits(x) == x + 0x1_0000_0000_0000_0000,
        y < 0x8000_0000_0000_0000 ==> wire::signed_bits(y) == y,
        y >= 0x8000_0000_0000_0000 ==> wire::signed_bits(y) == y - 0x1_0000_0000_0000_0000,
{
}

/// The bytes of a market: the two fees, the bytes of the tokens and the tokens, each an id and
/// its decimals; the bytes of the pairs and the pairs, each an id, base, quote, price and
/// volume.
pub proof fn lemma_market_layout(m: MarketView, i: int)
    requires
        market::serializable(m),
    ensures
        ({
            let s = market::market_image(m);
            let nt = m.tokens.len() as int;
            let np = m.pairs.len() as int;
            let pairs_from = 32 + 16 * nt;
            &&& s.len() == 32 + 16 * nt + 40 * np
            &&& wire::u64_at(s, 0) == m.fee.static_atomic_usd
            &&& wire::u64_at(s, 8) == m.fee.variable_bps
            &&& wire::u64_at(s, 16) == 16 * nt
            &&& wire::u64_at(s, 24 + 16 * nt) == 40 * np
            &&& 0 <= i < nt ==> {
                &&& wire::u64_at(s, 24 + 16 * i) == m.tokens[i].id
                &&& wire::u64_at(s, 32 + 16 * i) == m.tokens[i].decimals
            }
            &&& 0 <= i < np ==> {
                &&& wire::u64_at(s, pairs_from + 40 * i) == m.pairs[i].id
                &&& wire::u64_at(s, pairs_from + 40 * i + 8) == m.pairs[i].base
                &&& wire::u64_at(s, pairs_from + 40 * i + 16) == m.pairs[i].quote
                &&& wire::u64_at(s, pairs_from + 40 * i + 24) == m.pairs[i].price
                &&& wire::u64_at(s, pairs_from + 40 * i + 32) == m.pairs[i].volume
            }
        }),
{
    let s = market::market_image(m);
    market::lemma_market_image_len(m);
    market::lemma_market_roundtrip(m, Seq::empty());
    assert(s + Seq::<u8>::empty() =~= s);
    let read = market::market_at(s);
    assert(read.tokens.len() == m.tokens.len());
    assert(read.pairs.len() == m.pairs.len());
    assert(market::tokens_len(s) == 16 * m.tokens.len());
    if 0 <= i < m.tokens.len() {
        assert(read.tokens[i] == m.tokens[i]);
    }
    if 0 <= i < m.pairs.len() {
        assert(read.pairs[i] == m.pairs[i]);
    }
}

/// What is read off the bytes of a market is what stands at those places.
pub proof fn lemma_market_is_read_at(s: Seq<u8>, i: int)
    requires
        s.len() >= 24,
    ensures
        ({
            let m = market::market_at(s);
            let tokens_len = wire::u64_at(s, 16) as int;
            let pairs_len = wire::u64_at(s, 24 + tokens_len) as int;
            let from = 32 + tokens_len;
            &&& m.fee.static_atomic_usd == wire::u64_at(s, 0)
            &&& m.fee.variable_bps == wire::u64_at(s, 8)
            &&& m.tokens.len() == tokens_len / 16
            &&& m.pairs.len() == pairs_len / 40
            &&& 0 <= i < m.tokens.len() ==> {
                &&& m.tokens[i].id == wire::u64_at(s, 24 + 16 * i)
                &&& m.tokens[i].decimals == wire::u64_at(s, 32 + 16 * i)
            }
            &&& 0 <= i < m.pairs.len() ==> {
                &&& m.pairs[i].id == wire::u64_at(s, from + 40 * i)
                &&& m.pairs[i].base == wire::u64_at(s, from + 40 * i + 8)
                &&& m.pairs[i].quote == wire::u64_at(s, from + 40 * i + 16)
                &&& m.pairs[i].price == wire::u64_at(s, from + 40 * i + 24)
                &&& m.pairs[i].volume == wire::u64_at(s, from + 40 * i + 32)
            }
            &&& market::lengths_stated(s) <==> (24 + tokens_len <= s.len() ==> 32 + tokens_len
                <= s.len())
        }),
{
}

/// What is read off the front of a stream. With less than nine bytes, or less than the legs
/// need that the ninth byte announces, nothing is known yet; that byte must be from 1 to 32,
/// and each leg must have 0 or 1 for its direction. Then the submission is what stands there.
pub proof fn lemma_submission_is_read_at(buf: Seq<u8>, i: int)
    ensures
        ({
            let r = submission::deserialized(buf);
            let n = buf[8] as int;
            let whole = 9 + 25 * n;
            let bad = exists|k: int| 0 <= k < n && buf[#[trigger] leg_from(k) + 8] > 1;
            &&& buf.len() < 9 ==> r == Err::<(SubmissionView, nat), _>(DeserializeError::Incomplete)
            &&& buf.len() >= 9 && n == 0 ==> r == Err::<(SubmissionView, nat), _>(
                DeserializeError::EmptySubmission,
            )
            &&& buf.len() >= 9 && n > 32 ==> r == Err::<(SubmissionView, nat), _>(
                DeserializeError::TooManyLegs { got: buf[8], max: 32 },
            )
            &&& 9 <= buf.len() < whole && 1 <= n <= 32 ==> r == Err::<(SubmissionView, nat), _>(
                DeserializeError::Incomplete,
            )
            &&& 9 <= buf.len() && whole <= buf.len() && 1 <= n <= 32 ==> {
                &&& bad ==> r is Err && r->Err_0 is BadDirection
                &&& !bad ==> r is Ok
            }
            &&& r is Ok ==> {
                let (sub, used) = r->Ok_0;
                &&& used == whole
                &&& sub.sub_id == wire::u64_at(buf, 0)
                &&& sub.legs.len() == n
                &&& 0 <= i < n ==> {
                    &&& sub.legs[i].pair_id == wire::u64_at(buf, 9 + 25 * i)
                    &&& sub.legs[i].direction == Direction::Buy <==> buf[17 + 25 * i] == 0
                    &&& sub.legs[i].direction == Direction::Sell <==> buf[17 + 25 * i] == 1
                    &&& sub.legs[i].price == wire::u64_at(buf, 18 + 25 * i)
                    &&& sub.legs[i].volume == wire::u64_at(buf, 26 + 25 * i)
                }
            }
        }),
{
    let n = buf[8] as int;
    if 9 <= buf.len() && 9 + 25 * n <= buf.len() && 1 <= n <= 32 {
        lemma_bad_direction_is(buf, 0, n);
        if submission::deserialized(buf) is Ok && 0 <= i < n {
            assert(buf[leg_from(i) + 8] <= 1);
        }
    }
}

/// Where the bytes of leg `k` start.
pub open spec fn leg_from(k: int) -> int {
    9 + 25 * k
}

/// The first direction that is none is the one that is told.
pub proof fn lemma_first_bad_direction(buf: Seq<u8>, k: int)
    requires
        buf.len() >= 9,
        1 <= buf[8] <= 32,
        9 + 25 * buf[8] <= buf.len(),
        0 <= k < buf[8],
        buf[17 + 25 * k] > 1,
        forall|j: int| 0 <= j < k ==> buf[#[trigger] leg_from(j) + 8] <= 1,
    ensures
        submission::deserialized(buf) == Err::<(SubmissionView, nat), _>(
            DeserializeError::BadDirection { value: buf[17 + 25 * k] },
        ),
{
    lemma_bad_direction_at(buf, 0, k, buf[8] as int);
}

proof fn lemma_bad_direction_at(buf: Seq<u8>, i: int, k: int, n: int)
    requires
        0 <= i <= k < n,
        buf[leg_from(k) + 8] > 1,
        forall|j: int| i <= j < k ==> buf[#[trigger] leg_from(j) + 8] <= 1,
    ensures
        submission::bad_direction(buf, i, n) == Some(buf[leg_from(k) + 8]),
    decreases k - i,
{
    if i < k {
        assert(buf[leg_from(i) + 8] <= 1);
        lemma_bad_direction_at(buf, i + 1, k, n);
    }
}

proof fn lemma_bad_direction_is(buf: Seq<u8>, i: int, n: int)
    requires
        0 <= i <= n,
    ensures
        submission::bad_direction(buf, i, n) is Some <==> exists|k: int|
            i <= k < n && buf[#[trigger] leg_from(k) + 8] > 1,
        submission::bad_direction(buf, i, n) is None ==> forall|k: int|
            i <= k < n ==> buf[#[trigger] leg_from(k) + 8] <= 1,
    decreases n - i,
{
    if i < n {
        lemma_bad_direction_is(buf, i + 1, n);
        assert(leg_from(i) == submission::leg_offset(i));
        if submission::bad_direction(buf, i, n) is Some {
            if buf[leg_from(i) + 8] <= 1 {
                let k = choose|k: int| i + 1 <= k < n && buf[#[trigger] leg_from(k) + 8] > 1;
                assert(buf[leg_from(k) + 8] > 1);
            }
        } else {
            assert forall|k: int| i <= k < n implies buf[#[trigger] leg_from(k) + 8] <= 1 by {
                if k > i {
                    assert(i + 1 <= k < n);
                }
            }
        }
    }
}

/// The bytes of an update: its number, pair, price and volume.
pub proof fn lemma_update_layout(u: PriceUpdate)
    ensures
        feed::update_frame(u).len() == 32,
        wire::u64_at(feed::update_frame(u), 0) == u.seq,
        wire::u64_at(feed::update_frame(u), 8) == u.token_pair_id,
        wire::u64_at(feed::update_frame(u), 16) == u.price,
        wire::u64_at(feed::update_frame(u), 24) == u.volume,
{
    feed::lemma_update_roundtrip(u, Seq::empty());
    let s = feed::update_frame(u);
    assert(s + Seq::<u8>::empty() =~= s);
}

/// The bytes of a response: the number of the submission, whether it was accepted, and the
/// bits of the balance.
pub proof fn lemma_response_layout(r: SubmissionResponse)
    ensures
        ({
            let s = submission::response_frame(r);
            &&& s.len() == 17
            &&& wire::u64_at(s, 0) == r.sub_id
            &&& s[8] == r.ok
            &&& r.balance >= 0 ==> wire::u64_at(s, 9) == r.balance
            &&& r.balance < 0 ==> wire::u64_at(s, 9) == r.balance + 0x1_0000_0000_0000_0000
        }),
{
    let s = submission::response_frame(r);
    submission::lemma_response_roundtrip(r, Seq::empty());
    let bits = wire::unsigned_bits(r.balance);
    wire::lemma_le64(r.sub_id);
    wire::lemma_le64(bits);
    assert(s.subrange(0, 8) =~= wire::le64(r.sub_id));
    assert(s.subrange(9, 17) =~= wire::le64(bits));
    wire::lemma_u64_at_of(s, 0, r.sub_id);
    wire::lemma_u64_at_of(s, 9, bits);
}

/// An update that is entered gives its pair the new price and pool, and leaves its tokens and
/// all other pairs alone; a replay enters one tick after the other.
pub proof fn lemma_update_is_entered(
    pairs: Seq<market::TokenPair>,
    ticks: Seq<feed::FeedTick>,
    update: PriceUpdate,
    k: int,
)
    requires
        update.token_pair_id < pairs.len(),
        0 <= k < ticks.len(),
    ensures
        ({
            let after = feed::refreshed(pairs, update);
            let at = update.token_pair_id as int;
            &&& after.len() == pairs.len()
            &&& after[at].price == update.price
            &&& after[at].volume == update.volume
            &&& after[at].id == pairs[at].id
            &&& after[at].base == pairs[at].base
            &&& after[at].quote == pairs[at].quote
            &&& forall|x: int|
                0 <= x < pairs.len() && x != at ==> #[trigger] after[x] == pairs[x]
        }),
        feed::replayed(pairs, ticks, 0) == pairs,
        feed::replayed(pairs, ticks, k + 1) == feed::refreshed(
            feed::replayed(pairs, ticks, k),
            ticks[k].update,
        ),
{
}

} // verus!
