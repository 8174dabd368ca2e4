//! What a settled route has paid, received, taken and been charged, leg by leg, in terms of
//! the fields of its legs and of the market.
use super::contestant::Contestant;
use super::evaluate;
use super::evaluate::Book;
use crate::protocol::market::{Token, TokenPair};
use crate::protocol::submission::{Direction, RouteSubmissionLeg};
use vstd::arithmetic::power::pow;
use vstd::prelude::*;

verus! {

/// In an executed route every leg after the first pays the very token, and the very atomic
/// amount, that the leg before it received: a buy pays `volume * price / 10^decimals` of the
/// quote and receives `volume` of the base, a sell the other way round.
pub proof fn lemma_chain_is_exact(
    book: Book,
    legs: Seq<RouteSubmissionLeg>,
    contestant_id: u64,
    contestants: Map<u64, Contestant>,
    pairs_after: Seq<TokenPair>,
    contestants_after: Map<u64, Contestant>,
    answer: (u8, i64),
    i: int,
)
    requires
        evaluate::settled(
            book,
            legs,
            contestant_id,
            contestants,
            pairs_after,
            contestants_after,
            answer,
        ),
        answer.0 == 1,
        0 < i < legs.len(),
    ensures
        ({
            let leg = legs[i];
            let last = legs[i - 1];
            let pair = book.pairs[leg.pair_id as int];
            let prior = book.pairs[last.pair_id as int];
            let quote = leg.volume * leg.price / pow(
                10,
                book.tokens[pair.base as int].decimals as nat,
            );
            let prior_quote = last.volume * last.price / pow(
                10,
                book.tokens[prior.base as int].decimals as nat,
            );
            &&& leg.direction == Direction::Buy && last.direction == Direction::Buy
                ==> pair.quote == prior.base && quote == last.volume
            &&& leg.direction == Direction::Buy && last.direction == Direction::Sell
                ==> pair.quote == prior.quote && quote == prior_quote
            &&& leg.direction == Direction::Sell && last.direction == Direction::Buy
                ==> pair.base == prior.base && leg.volume == last.volume
            &&& leg.direction == Direction::Sell && last.direction == Direction::Sell
                ==> pair.base == prior.quote && leg.volume == prior_quote
        }),
{
    evaluate::lemma_accepts_reaches(book, legs, 0);
    assert(book.fills(legs, i));
    assert(book.fills(legs, i - 1));
    assert(book.input(legs[i]) == book.output(legs[i - 1]));
}

/// An executed route begins by buying for USD and ends by selling for USD; every leg is on a
/// pair of the market, at the price that the pair has.
pub proof fn lemma_executed_legs_are_live(
    book: Book,
    legs: Seq<RouteSubmissionLeg>,
    contestant_id: u64,
    contestants: Map<u64, Contestant>,
    pairs_after: Seq<TokenPair>,
    contestants_after: Map<u64, Contestant>,
    answer: (u8, i64),
)
    requires
        evaluate::settled(
            book,
            legs,
            contestant_id,
            contestants,
            pairs_after,
            contestants_after,
            answer,
        ),
        answer.0 == 1,
    ensures
        contestants.dom().contains(contestant_id),
        contestants[contestant_id].balance >= 0,
        legs.len() >= 2,
        legs[0].direction == Direction::Buy,
        book.pairs[legs[0].pair_id as int].quote == 0,
        legs[legs.len() - 1].direction == Direction::Sell,
        book.pairs[legs[legs.len() - 1].pair_id as int].quote == 0,
        forall|i: int|
            0 <= i < legs.len() ==> {
                &&& (#[trigger] legs[i]).pair_id < book.pairs.len()
                &&& book.pairs[legs[i].pair_id as int].base < book.tokens.len()
                &&& legs[i].price == book.pairs[legs[i].pair_id as int].price
                &&& legs[i].volume <= book.pairs[legs[i].pair_id as int].volume
            },
{
    evaluate::lemma_accepts_reaches(book, legs, 0);
    assert forall|i: int| 0 <= i < legs.len() implies {
        &&& (#[trigger] legs[i]).pair_id < book.pairs.len()
        &&& book.pairs[legs[i].pair_id as int].base < book.tokens.len()
        &&& legs[i].price == book.pairs[legs[i].pair_id as int].price
        &&& legs[i].volume <= book.pairs[legs[i].pair_id as int].volume
    } by {
        assert(book.fills(legs, i));
        evaluate::lemma_consumed_monotonic(legs, legs[i].pair_id, 0, i);
    }
}

/// The volume of the legs, among the first `n`, on each pair: an independent count.
pub proof fn lemma_consumed_adds_up(
    legs: Seq<RouteSubmissionLeg>,
    leg: RouteSubmissionLeg,
    pair_id: u64,
)
    ensures
        evaluate::consumed(Seq::empty(), pair_id, 0) == 0,
        evaluate::consumed(legs.push(leg), pair_id, legs.len() as int + 1) == evaluate::consumed(
            legs,
            pair_id,
            legs.len() as int,
        ) + if leg.pair_id == pair_id {
            leg.volume as int
        } else {
            0
        },
{
    lemma_consumed_prefix(legs, legs.push(leg), pair_id, legs.len() as int);
}

proof fn lemma_consumed_prefix(
    a: Seq<RouteSubmissionLeg>,
    b: Seq<RouteSubmissionLeg>,
    pair_id: u64,
    n: int,
)
    requires
        forall|i: int| 0 <= i < n ==> #[trigger] a[i] == b[i],
    ensures
        evaluate::consumed(a, pair_id, n) == evaluate::consumed(b, pair_id, n),
    decreases n,
{
    if n > 0 {
        lemma_consumed_prefix(a, b, pair_id, n - 1);
        assert(a[n - 1] == b[n - 1]);
    }
}

/// What the legs take from one pool is the sum of their volumes on it: nothing where no leg
/// is on the pair, and the volume of the leg where exactly one is.
proof fn lemma_consumed_by(legs: Seq<RouteSubmissionLeg>, i: int, pair_id: u64, n: int)
    requires
        0 <= n <= legs.len(),
        forall|j: int|
            0 <= j < legs.len() && j != i ==> (#[trigger] legs[j]).pair_id != pair_id,
        0 <= i < legs.len() ==> legs[i].pair_id == pair_id,
    ensures
        evaluate::consumed(legs, pair_id, n) == if 0 <= i < n {
            legs[i].volume as int
        } else {
            0
        },
    decreases n,
{
    if n > 0 {
        lemma_consumed_by(legs, i, pair_id, n - 1);
        if n - 1 != i {
            assert(legs[n - 1].pair_id != pair_id);
        }
    }
}

/// An executed route takes from the pool of each pair the volume of its leg on it, where
/// there is one such leg, and nothing from the pools of pairs that it does not trade on;
/// nothing else of any pair changes.
pub proof fn lemma_executed_takes_leg_volumes(
    book: Book,
    legs: Seq<RouteSubmissionLeg>,
    contestant_id: u64,
    contestants: Map<u64, Contestant>,
    pairs_after: Seq<TokenPair>,
    contestants_after: Map<u64, Contestant>,
    answer: (u8, i64),
    x: int,
)
    requires
        evaluate::settled(
            book,
            legs,
            contestant_id,
            contestants,
            pairs_after,
            contestants_after,
            answer,
        ),
        answer.0 == 1,
        0 <= x < book.pairs.len() <= u64::MAX,
    ensures
        pairs_after.len() == book.pairs.len(),
        pairs_after[x].id == book.pairs[x].id,
        pairs_after[x].base == book.pairs[x].base,
        pairs_after[x].quote == book.pairs[x].quote,
        pairs_after[x].price == book.pairs[x].price,
        (forall|j: int| 0 <= j < legs.len() ==> (#[trigger] legs[j]).pair_id != x)
            ==> pairs_after[x].volume == book.pairs[x].volume,
        forall|i: int|
            0 <= i < legs.len() && (#[trigger] legs[i]).pair_id == x && (forall|j: int|
                0 <= j < legs.len() && j != i ==> (#[trigger] legs[j]).pair_id != x)
                ==> pairs_after[x].volume == book.pairs[x].volume - legs[i].volume,
{
    let n = legs.len() as int;
    evaluate::lemma_accepts_reaches(book, legs, 0);
    evaluate::lemma_pool_covers_total(book, legs, x as u64, n);
    evaluate::lemma_consumed_monotonic(legs, x as u64, 0, n);
    if forall|j: int| 0 <= j < legs.len() ==> (#[trigger] legs[j]).pair_id != x {
        lemma_consumed_by(legs, -1, x as u64, n);
    }
    assert forall|i: int|
        0 <= i < legs.len() && (#[trigger] legs[i]).pair_id == x && (forall|j: int|
            0 <= j < legs.len() && j != i ==> (#[trigger] legs[j]).pair_id
                != x) implies pairs_after[x].volume == book.pairs[x].volume - legs[i].volume by {
        lemma_consumed_by(legs, i, x as u64, n);
    }
}

/// A route executes exactly where it is a loop through USD at live prices, no prefix of its
/// legs takes more from a pool than the pool holds, and each leg pays what the one before it
/// received.
pub proof fn lemma_executes_when_owed(book: Book, legs: Seq<RouteSubmissionLeg>)
    ensures
        book.accepts(legs) <==> {
            &&& legs.len() >= 2
            &&& legs[0].direction == Direction::Buy
            &&& legs[legs.len() - 1].direction == Direction::Sell
            &&& legs[0].pair_id < book.pairs.len()
            &&& legs[legs.len() - 1].pair_id < book.pairs.len()
            &&& book.pairs[legs[0].pair_id as int].quote == 0
            &&& book.pairs[legs[legs.len() - 1].pair_id as int].quote == 0
            &&& forall|i: int|
                0 <= i < legs.len() ==> {
                    &&& (#[trigger] legs[i]).pair_id < book.pairs.len()
                    &&& book.pairs[legs[i].pair_id as int].base < book.tokens.len()
                    &&& legs[i].price == book.pairs[legs[i].pair_id as int].price
                    &&& evaluate::consumed(legs, legs[i].pair_id, i + 1)
                        <= book.pairs[legs[i].pair_id as int].volume
                }
            &&& forall|i: int|
                0 < i < legs.len() ==> hands_on(book.tokens, book.pairs, legs[i - 1], #[trigger] legs[i])
        },
{
    let n = legs.len() as int;
    if book.accepts(legs) {
        evaluate::lemma_accepts_reaches(book, legs, 0);
        assert forall|i: int| 0 <= i < legs.len() implies {
            &&& (#[trigger] legs[i]).pair_id < book.pairs.len()
            &&& book.pairs[legs[i].pair_id as int].base < book.tokens.len()
            &&& legs[i].price == book.pairs[legs[i].pair_id as int].price
            &&& evaluate::consumed(legs, legs[i].pair_id, i + 1)
                <= book.pairs[legs[i].pair_id as int].volume
        } by {
            assert(book.fills(legs, i));
        }
        assert forall|i: int| 0 < i < legs.len() implies hands_on(
            book.tokens,
            book.pairs,
            legs[i - 1],
            #[trigger] legs[i],
        ) by {
            assert(book.fills(legs, i));
        }
    } else if book.loops_through_usd(legs) {
        evaluate::lemma_first_unfilled_from(book, legs, 0);
        lemma_first_unfilled_is(book, legs, 0);
        let k = book.first_unfilled(legs, 0);
        assert(!book.fills(legs, k));
        assert(legs[k] == legs[k]);
        if k > 0 {
            assert(legs[k - 1] == legs[k - 1]);
        }
    }
}

/// Whether one leg pays the token and the atomic amount that the other received.
pub open spec fn hands_on(
    tokens: Seq<Token>,
    pairs: Seq<TokenPair>,
    from: RouteSubmissionLeg,
    to: RouteSubmissionLeg,
) -> bool {
    let given = pairs[from.pair_id as int];
    let taken = pairs[to.pair_id as int];
    let given_quote = from.volume * from.price / pow(
        10,
        tokens[given.base as int].decimals as nat,
    );
    let taken_quote = to.volume * to.price / pow(10, tokens[taken.base as int].decimals as nat);
    match (from.direction, to.direction) {
        (Direction::Buy, Direction::Buy) => given.base == taken.quote && from.volume
            == taken_quote,
        (Direction::Buy, Direction::Sell) => given.base == taken.base && from.volume
            == to.volume,
        (Direction::Sell, Direction::Buy) => given.quote == taken.quote && given_quote
            == taken_quote,
        (Direction::Sell, Direction::Sell) => given.quote == taken.base && given_quote
            == to.volume,
    }
}

/// A leg fills exactly where its pair is known, it names the live price, the pool holds its
/// volume and that of the earlier legs on the pair, and it pays what the leg before it
/// received.
pub proof fn lemma_leg_fills_when_owed(book: Book, legs: Seq<RouteSubmissionLeg>, i: int)
    requires
        0 <= i < legs.len(),
    ensures
        book.fills(legs, i) <==> {
            &&& legs[i].pair_id < book.pairs.len()
            &&& book.pairs[legs[i].pair_id as int].base < book.tokens.len()
            &&& legs[i].price == book.pairs[legs[i].pair_id as int].price
            &&& evaluate::consumed(legs, legs[i].pair_id, i + 1)
                <= book.pairs[legs[i].pair_id as int].volume
            &&& i > 0 ==> hands_on(book.tokens, book.pairs, legs[i - 1], legs[i])
        },
{
}

proof fn lemma_first_unfilled_is(book: Book, legs: Seq<RouteSubmissionLeg>, i: int)
    requires
        0 <= i <= legs.len(),
    ensures
        ({
            let k = book.first_unfilled(legs, i);
            &&& i <= k <= legs.len()
            &&& k < legs.len() ==> !book.fills(legs, k)
            &&& forall|j: int| i <= j < k ==> #[trigger] book.fills(legs, j)
        }),
    decreases legs.len() - i,
{
    if i < legs.len() && book.fills(legs, i) {
        lemma_first_unfilled_is(book, legs, i + 1);
    }
}

/// The fee of a leg is the flat fee and, on a known pair, the variable fee on what its volume
/// is worth in USD: `volume * price / 10^decimals`, by the live USD price and the decimals of
/// the token that is traded.
pub proof fn lemma_leg_fee_is(book: Book, leg: RouteSubmissionLeg)
    ensures
        leg.pair_id < book.pairs.len() && book.pairs[leg.pair_id as int].base < book.tokens.len()
            ==> ({
            let base = book.pairs[leg.pair_id as int].base as int;
            let usd_price = book.pairs[book.usd_pair_of_token[base] as int].price;
            let value = leg.volume * usd_price / pow(10, book.tokens[base].decimals as nat);
            book.leg_fee(leg) == book.fee.static_atomic_usd + book.fee.variable_bps * value
                / 10_000
        }),
        !(leg.pair_id < book.pairs.len() && book.pairs[leg.pair_id as int].base
            < book.tokens.len()) ==> book.leg_fee(leg) == book.fee.static_atomic_usd,
{
}

/// On a USD pair at the live price the variable fee is charged on the USD that change hands;
/// trading one whole token costs the variable fee on its price, whatever its decimals are.
pub proof fn lemma_whole_token_fee(book: Book, leg: RouteSubmissionLeg)
    requires
        leg.pair_id < book.pairs.len(),
        book.pairs[leg.pair_id as int].base < book.tokens.len(),
        book.pairs[leg.pair_id as int].base < book.usd_pair_of_token.len(),
        book.usd_pair_of_token[book.pairs[leg.pair_id as int].base as int] == leg.pair_id,
        leg.price == book.pairs[leg.pair_id as int].price,
    ensures
        ({
            let base = book.pairs[leg.pair_id as int].base as int;
            let whole = pow(10, book.tokens[base].decimals as nat);
            &&& book.leg_fee(leg) == book.fee.static_atomic_usd + book.fee.variable_bps * (
            leg.volume * leg.price / whole) / 10_000
            &&& leg.volume == whole ==> book.leg_fee(leg) == book.fee.static_atomic_usd
                + book.fee.variable_bps * leg.price / 10_000
        }),
{
    let base = book.pairs[leg.pair_id as int].base as int;
    let whole = pow(10, book.tokens[base].decimals as nat);
    vstd::arithmetic::power::lemma_pow_positive(10, book.tokens[base].decimals as nat);
    vstd::arithmetic::div_mod::lemma_div_multiples_vanish(leg.price as int, whole);
    assert(whole * leg.price == leg.price * whole) by (nonlinear_arith);
}

/// Fees add up leg by leg.
pub proof fn lemma_fees_add_up(
    book: Book,
    legs: Seq<RouteSubmissionLeg>,
    leg: RouteSubmissionLeg,
)
    ensures
        book.fees(Seq::empty(), 0) == 0,
        book.fees(legs.push(leg), legs.len() as int + 1) == book.fees(legs, legs.len() as int)
            + book.leg_fee(leg),
{
    lemma_fees_prefix(book, legs, legs.push(leg), legs.len() as int);
}

proof fn lemma_fees_prefix(
    book: Book,
    a: Seq<RouteSubmissionLeg>,
    b: Seq<RouteSubmissionLeg>,
    n: int,
)
    requires
        forall|i: int| 0 <= i < n ==> #[trigger] a[i] == b[i],
    ensures
        book.fees(a, n) == book.fees(b, n),
    decreases n,
{
    if n > 0 {
        lemma_fees_prefix(book, a, b, n - 1);
        assert(a[n - 1] == b[n - 1]);
    }
}

/// What is charged: one flat fee for what is no loop through USD; the fee of every leg where
/// all fill; and where leg `k` is the first that does not, the fees of the legs up to and
/// with it.
pub proof fn lemma_charge_is(book: Book, legs: Seq<RouteSubmissionLeg>)
    ensures
        legs.len() < 2 ==> book.charge(legs) == book.fee.static_atomic_usd,
        legs.len() >= 2 && (legs[0].direction == Direction::Sell || legs[legs.len() - 1].direction
            == Direction::Buy) ==> book.charge(legs) == book.fee.static_atomic_usd,
        legs.len() >= 2 && (legs[0].pair_id >= book.pairs.len() || legs[legs.len() - 1].pair_id
            >= book.pairs.len()) ==> book.charge(legs) == book.fee.static_atomic_usd,
        legs.len() >= 2 && legs[0].pair_id < book.pairs.len() && legs[legs.len() - 1].pair_id
            < book.pairs.len() && (book.pairs[legs[0].pair_id as int].quote != 0
            || book.pairs[legs[legs.len() - 1].pair_id as int].quote != 0) ==> book.charge(legs)
            == book.fee.static_atomic_usd,
        book.accepts(legs) ==> book.charge(legs) == book.fees(legs, legs.len() as int),
        book.loops_through_usd(legs) && !book.accepts(legs) ==> exists|k: int|
            {
                &&& 0 <= k < legs.len()
                &&& book.reaches(legs, k)
                &&& !book.fills(legs, k)
                &&& book.charge(legs) == #[trigger] book.fees(legs, k + 1)
            },
{
    if book.loops_through_usd(legs) {
        lemma_first_unfilled_is(book, legs, 0);
        let k = book.first_unfilled(legs, 0);
        if k < legs.len() {
            assert(book.charge(legs) == book.fees(legs, k + 1));
        }
    }
}

/// The settled balance: an executed route adds the USD that its last leg receives and takes
/// off the USD that its first leg pays and the fees of all its legs; a rejected one costs what
/// it is charged. Amounts are meant that fit an `i64`.
pub proof fn lemma_balance_settles(
    book: Book,
    legs: Seq<RouteSubmissionLeg>,
    contestant_id: u64,
    contestants: Map<u64, Contestant>,
    pairs_after: Seq<TokenPair>,
    contestants_after: Map<u64, Contestant>,
    answer: (u8, i64),
)
    requires
        evaluate::settled(
            book,
            legs,
            contestant_id,
            contestants,
            pairs_after,
            contestants_after,
            answer,
        ),
        contestants.dom().contains(contestant_id),
        contestants[contestant_id].balance >= 0,
        book.evaluable(legs, contestants[contestant_id].balance),
        book.charge(legs) <= i64::MAX,
    ensures
        contestants_after[contestant_id].balance == answer.1,
        answer.0 == 0 || answer.0 == 1,
        answer.0 == 0 ==> answer.1 == contestants[contestant_id].balance - book.charge(legs),
        answer.0 == 1 ==> ({
            let first = legs[0];
            let last = legs[legs.len() - 1];
            let bought = book.pairs[first.pair_id as int].base as int;
            let sold = book.pairs[last.pair_id as int].base as int;
            let paid = first.volume * first.price / pow(10, book.tokens[bought].decimals as nat);
            let received = last.volume * last.price / pow(10, book.tokens[sold].decimals as nat);
            0 <= paid <= i64::MAX && 0 <= received <= i64::MAX ==> answer.1
                == contestants[contestant_id].balance + received - paid - book.charge(legs)
        }),
{
    if book.loops_through_usd(legs) {
        lemma_first_unfilled_is(book, legs, 0);
        let k = book.first_unfilled(legs, 0);
        evaluate::lemma_fees_nonneg(book, legs, k);
        evaluate::lemma_fees_nonneg(book, legs, k + 1);
    }
}

/// A contestant that does not take part is answered with a rejection and a balance of zero,
/// and nothing changes.
pub proof fn lemma_unknown_is_noop(
    book: Book,
    legs: Seq<RouteSubmissionLeg>,
    contestant_id: u64,
    contestants: Map<u64, Contestant>,
    pairs_after: Seq<TokenPair>,
    contestants_after: Map<u64, Contestant>,
    answer: (u8, i64),
)
    requires
        evaluate::settled(
            book,
            legs,
            contestant_id,
            contestants,
            pairs_after,
            contestants_after,
            answer,
        ),
        !contestants.dom().contains(contestant_id),
    ensures
        answer == (0u8, 0i64),
        contestants_after == contestants,
        pairs_after == book.pairs,
{
}

/// Whether the machine can work out a leg: its tables hold the base token of the leg's pair,
/// and the products that it takes fit a `u64`.
pub open spec fn leg_fits(book: Book, leg: RouteSubmissionLeg) -> bool {
    let base = book.pairs[leg.pair_id as int].base as int;
    let usd_price = book.pairs[book.usd_pair_of_token[base] as int].price;
    let value = leg.volume * usd_price / pow(10, book.tokens[base].decimals as nat);
    leg.pair_id < book.pairs.len() && base < book.tokens.len() ==> {
        &&& base < book.usd_pair_of_token.len()
        &&& book.usd_pair_of_token[base] < book.pairs.len()
        &&& book.tokens[base].decimals <= 19
        &&& leg.volume * usd_price <= u64::MAX
        &&& book.fee.variable_bps * value <= u64::MAX
        &&& leg.volume * leg.price <= u64::MAX
    }
}

proof fn lemma_fees_grow(book: Book, legs: Seq<RouteSubmissionLeg>, i: int, n: int)
    requires
        i <= n,
    ensures
        book.fees(legs, i) <= book.fees(legs, n),
    decreases n - i,
{
    if i < n {
        lemma_fees_grow(book, legs, i, n - 1);
        if n > 0 {
            evaluate::lemma_leg_fee_nonneg(book, legs[n - 1]);
        }
    }
}

/// An answer is owed wherever the numbers are small enough: the products of every leg fit,
/// the volumes and the fees of all legs together fit an `i64`, and so do the balance with
/// what the last leg receives and without what is paid and charged.
pub proof fn lemma_answer_is_owed(book: Book, legs: Seq<RouteSubmissionLeg>, balance: i64)
    requires
        forall|i: int| 0 <= i < legs.len() ==> leg_fits(book, #[trigger] legs[i]),
        forall|id: u64| #[trigger] evaluate::consumed(legs, id, legs.len() as int) <= u64::MAX,
        book.fees(legs, legs.len() as int) <= 0x1fff_ffff_ffff_ffff,
        book.fee.static_atomic_usd <= 0x1fff_ffff_ffff_ffff,
        balance <= 0x1fff_ffff_ffff_ffff,
        forall|i: int|
            0 <= i < legs.len() && (#[trigger] legs[i]).pair_id < book.pairs.len()
                && book.pairs[legs[i].pair_id as int].base < book.tokens.len() ==> legs[i].volume
                * legs[i].price / pow(
                10,
                book.tokens[book.pairs[legs[i].pair_id as int].base as int].decimals as nat,
            ) <= 0x1fff_ffff_ffff_ffff,
    ensures
        book.evaluable(legs, balance),
{
    let n = legs.len() as int;
    evaluate::lemma_fees_nonneg(book, legs, n);
    if book.loops_through_usd(legs) {
        assert forall|i: int| 0 <= i < n && book.reaches(legs, i) implies #[trigger] book.computes(
            legs,
            i,
        ) by {
            assert(leg_fits(book, legs[i]));
            lemma_fees_grow(book, legs, i + 1, n);
            evaluate::lemma_consumed_monotonic(legs, legs[i].pair_id, i + 1, n);
        }
        lemma_first_unfilled_is(book, legs, 0);
        let k = book.first_unfilled(legs, 0);
        lemma_fees_grow(book, legs, k, n);
        evaluate::lemma_fees_nonneg(book, legs, k);
        if k < n {
            lemma_fees_grow(book, legs, k + 1, n);
            evaluate::lemma_fees_nonneg(book, legs, k + 1);
        }
        if book.accepts(legs) {
            assert(book.fills(legs, 0));
            assert(book.fills(legs, n - 1));
            let first = legs[0];
            let last = legs[n - 1];
            lemma_quote_nonneg(book, first);
            lemma_quote_nonneg(book, last);
            assert(leg_fits(book, first));
            assert(leg_fits(book, last));
        }
    }
}

proof fn lemma_quote_nonneg(book: Book, leg: RouteSubmissionLeg)
    ensures
        book.quote_atomic(leg) >= 0,
{
    vstd::arithmetic::power::lemma_pow_positive(
        10,
        book.tokens[book.pair(leg).base as int].decimals as nat,
    );
    assert(leg.volume * leg.price >= 0) by (nonlinear_arith);
    vstd::arithmetic::div_mod::lemma_div_pos_is_pos(
        leg.volume * leg.price,
        book.base_scale(leg),
    );
}

} // verus!
