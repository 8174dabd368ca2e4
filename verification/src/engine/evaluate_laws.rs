//! What holds of every evaluated route.
use super::contestant::Contestant;
use super::evaluate;
use super::evaluate::{Amount, Book};
use crate::generation::generate_market;
use crate::generation::math;
use crate::protocol::market::{Fee, TokenPair, USD_TOKEN_ID};
use crate::protocol::submission::{Direction, RouteSubmissionLeg};
use vstd::prelude::*;

verus! {

/// A submission changes the balance of its own contestant only, and neither adds a
/// contestant nor removes one.
pub proof fn lemma_others_untouched(
    book: Book,
    legs: Seq<RouteSubmissionLeg>,
    contestant_id: u64,
    contestants: Map<u64, Contestant>,
    pairs_after: Seq<TokenPair>,
    contestants_after: Map<u64, Contestant>,
    answer: (u8, i64),
)
    requires
        evaluate::settled(
            book,
            legs,
            contestant_id,
            contestants,
            pairs_after,
            contestants_after,
            answer,
        ),
    ensures
        contestants_after.dom() == contestants.dom(),
        forall|other: u64|
            other != contestant_id && contestants.dom().contains(other)
                ==> #[trigger] contestants_after[other] == contestants[other],
        contestants.dom().contains(contestant_id) ==> contestants_after[contestant_id]._id
            == contestants[contestant_id]._id && contestants_after[contestant_id].balance
            == answer.1,
{
    assert(contestants_after.dom() =~= contestants.dom());
}

/// A route executes as a whole or not at all: a rejected one leaves every pool as it was.
pub proof fn lemma_rejected_takes_nothing(
    book: Book,
    legs: Seq<RouteSubmissionLeg>,
    contestant_id: u64,
    contestants: Map<u64, Contestant>,
    pairs_after: Seq<TokenPair>,
    contestants_after: Map<u64, Contestant>,
    answer: (u8, i64),
)
    requires
        evaluate::settled(
            book,
            legs,
            contestant_id,
            contestants,
            pairs_after,
            contestants_after,
            answer,
        ),
        answer.0 != 1,
    ensures
        pairs_after == book.pairs,
{
}

/// An executed route takes from each pool what its legs on that pair add up to, never more
/// than the pool holds, and moves no price.
pub proof fn lemma_executed_takes_volumes(
    book: Book,
    legs: Seq<RouteSubmissionLeg>,
    contestant_id: u64,
    contestants: Map<u64, Contestant>,
    pairs_after: Seq<TokenPair>,
    contestants_after: Map<u64, Contestant>,
    answer: (u8, i64),
    x: int,
)
    requires
        evaluate::settled(
            book,
            legs,
            contestant_id,
            contestants,
            pairs_after,
            contestants_after,
            answer,
        ),
        answer.0 == 1,
        0 <= x < book.pairs.len() <= u64::MAX,
    ensures
        pairs_after.len() == book.pairs.len(),
        pairs_after[x].price == book.pairs[x].price,
        pairs_after[x].volume == book.pairs[x].volume - evaluate::consumed(
            legs,
            x as u64,
            legs.len() as int,
        ),
{
    evaluate::lemma_accepts_reaches(book, legs, 0);
    evaluate::lemma_pool_covers_total(book, legs, x as u64, legs.len() as int);
    evaluate::lemma_consumed_monotonic(legs, x as u64, 0, legs.len() as int);
}

/// An underwater contestant is turned away: nothing is charged and nothing changes.
pub proof fn lemma_underwater_is_noop(
    book: Book,
    legs: Seq<RouteSubmissionLeg>,
    contestant_id: u64,
    contestants: Map<u64, Contestant>,
    pairs_after: Seq<TokenPair>,
    contestants_after: Map<u64, Contestant>,
    answer: (u8, i64),
)
    requires
        evaluate::settled(
            book,
            legs,
            contestant_id,
            contestants,
            pairs_after,
            contestants_after,
            answer,
        ),
        contestants.dom().contains(contestant_id),
        contestants[contestant_id].balance < 0,
    ensures
        answer == (0u8, contestants[contestant_id].balance),
        contestants_after == contestants,
        pairs_after == book.pairs,
{
}

/// Every route that is looked at is charged at least one flat fee, whether it executes or
/// not.
pub proof fn lemma_charge_at_least_flat_fee(book: Book, legs: Seq<RouteSubmissionLeg>)
    ensures
        book.charge(legs) >= book.fee.static_atomic_usd,
{
    let n = legs.len() as int;
    let k = book.first_unfilled(legs, 0);
    if book.loops_through_usd(legs) {
        evaluate::lemma_first_unfilled_from(book, legs, 0);
        let m = if k < n {
            k + 1
        } else {
            k
        };
        evaluate::lemma_fees_nonneg(book, legs, m - 1);
        lemma_leg_fee(book, legs[m - 1]);
    }
}

proof fn lemma_leg_fee(book: Book, leg: RouteSubmissionLeg)
    ensures
        book.leg_fee(leg) >= book.fee.static_atomic_usd,
{
    let free = Book { fee: Fee { static_atomic_usd: 0, ..book.fee }, ..book };
    evaluate::lemma_leg_fee_nonneg(free, leg);
    assert(free.knows(leg) == book.knows(leg));
    if book.knows(leg) {
        assert(free.usd_value(leg) == book.usd_value(leg));
    }
}

/// A rejected route costs what it is charged, as long as that fits an `i64`.
pub proof fn lemma_rejected_pays_charge(
    book: Book,
    legs: Seq<RouteSubmissionLeg>,
    balance: i64,
)
    requires
        balance >= 0,
        !book.accepts(legs),
        book.charge(legs) <= i64::MAX,
    ensures
        book.balance_after(legs, balance as int) == balance - book.charge(legs),
        book.balance_after(legs, balance as int) <= balance - book.fee.static_atomic_usd,
{
    lemma_charge_at_least_flat_fee(book, legs);
}

/// Buying and selling back on one pair loses the fees of the two legs, and nothing else.
pub proof fn lemma_round_trip_loses_fees(
    book: Book,
    legs: Seq<RouteSubmissionLeg>,
    balance: i64,
)
    requires
        balance >= 0,
        book.accepts(legs),
        legs.len() == 2,
        legs[0].pair_id == legs[1].pair_id,
        book.fees(legs, 2) <= i64::MAX,
    ensures
        book.balance_after(legs, balance as int) == balance - book.fees(legs, 2),
        legs[0].volume == legs[1].volume,
        evaluate::consumed(legs, legs[0].pair_id, 2) == 2 * legs[0].volume,
{
    evaluate::lemma_accepts_reaches(book, legs, 0);
    assert(book.fills(legs, 0));
    assert(book.fills(legs, 1));
    evaluate::lemma_fees_nonneg(book, legs, 2);
    assert(book.input(legs[1]) == book.output(legs[0]));
    assert(book.charge(legs) == book.fees(legs, 2));
    reveal_with_fuel(evaluate::consumed, 3);
}

proof fn lemma_floor(a: int, b: int, d: int)
    requires
        d > 0,
        a <= b,
    ensures
        a / d <= b / d,
{
    vstd::arithmetic::div_mod::lemma_div_is_ordered(a, b, d);
}

/// Worth of `v` atomic units sold on across a pair, at a price that is rounded down: never
/// more than what they are worth directly.
proof fn lemma_sell_across(v: int, pa: int, pb: int, fa: int, fb: int)
    requires
        v >= 0,
        pa >= 0,
        pb > 0,
        fa > 0,
        fb > 0,
    ensures
        (v * (pa * fb / pb) / fa) * pb / fb <= v * pa / fa,
{
    let price = pa * fb / pb;
    let q = v * price / fa;
    let direct = v * pa / fa;
    vstd::arithmetic::div_mod::lemma_fundamental_div_mod(pa * fb, pb);
    assert(0 <= (pa * fb) % pb < pb) by (nonlinear_arith)
        requires
            pb > 0,
    ;
    assert(price * pb <= pa * fb) by (nonlinear_arith)
        requires
            pa * fb == pb * price + (pa * fb) % pb,
            (pa * fb) % pb >= 0,
    ;
    vstd::arithmetic::div_mod::lemma_fundamental_div_mod(v * price, fa);
    assert(0 <= (v * price) % fa < fa) by (nonlinear_arith)
        requires
            fa > 0,
    ;
    assert(q * fa <= v * price) by (nonlinear_arith)
        requires
            v * price == fa * q + (v * price) % fa,
            (v * price) % fa >= 0,
    ;
    assert(q * fa * pb <= v * price * pb) by (nonlinear_arith)
        requires
            q * fa <= v * price,
            pb > 0,
    ;
    assert(v * price * pb <= v * pa * fb) by (nonlinear_arith)
        requires
            price * pb <= pa * fb,
            v >= 0,
    ;
    let out = q * pb / fb;
    vstd::arithmetic::div_mod::lemma_fundamental_div_mod(q * pb, fb);
    assert(0 <= (q * pb) % fb < fb) by (nonlinear_arith)
        requires
            fb > 0,
    ;
    assert(out * fb <= q * pb) by (nonlinear_arith)
        requires
            q * pb == fb * out + (q * pb) % fb,
            (q * pb) % fb >= 0,
    ;
    assert(out * fa <= v * pa) by (nonlinear_arith)
        requires
            out * fb <= q * pb,
            q * fa * pb <= v * price * pb,
            v * price * pb <= v * pa * fb,
            fa > 0,
            fb > 0,
    ;
    assert(out <= direct) by {
        vstd::arithmetic::div_mod::lemma_div_multiples_vanish(out, fa);
        assert(fa * out == out * fa) by (nonlinear_arith);
        lemma_floor(out * fa, v * pa, fa);
    }
}

/// What an amount is worth at the live USD prices, in atomic-USD rounded down.
pub open spec fn worth(book: Book, a: Amount) -> int {
    if a.token == USD_TOKEN_ID {
        a.atomic
    } else {
        a.atomic * book.pairs[a.token - 1].price / math::ten_to(
            book.tokens[a.token as int].decimals as int,
        )
    }
}

/// Whether a leg sells, or buys for USD.
pub open spec fn never_buys_across(book: Book, leg: RouteSubmissionLeg) -> bool {
    leg.direction == Direction::Sell || book.pair(leg).quote == USD_TOKEN_ID
}

/// In equilibrium a leg that fills, and sells or buys for USD, receives at most the worth of
/// what it pays.
proof fn lemma_leg_gains_nothing(book: Book, leg: RouteSubmissionLeg)
    requires
        generate_market::laid_out(book.tokens, book.pairs),
        generate_market::in_equilibrium(book.tokens, book.pairs),
        forall|t: int| 0 <= t < book.tokens.len() - 1 ==> (#[trigger] book.pairs[t]).price > 0,
        book.knows(leg),
        leg.price == book.pair(leg).price,
        never_buys_across(book, leg),
    ensures
        0 <= worth(book, book.output(leg)) <= worth(book, book.input(leg)),
        0 <= book.output(leg).atomic,
{
    let x = leg.pair_id as int;
    let pair = book.pairs[x];
    let v = leg.volume as int;
    let fa = book.base_scale(leg);
    if x < book.tokens.len() - 1 {
        assert(pair.base == x + 1 && pair.quote == USD_TOKEN_ID);
    }
    assert(1 <= pair.base < book.tokens.len());
    vstd::arithmetic::power::lemma_pow_positive(10, book.tokens[pair.base as int].decimals as nat);
    let pa = book.pairs[pair.base - 1].price as int;
    assert(v * leg.price >= 0) by (nonlinear_arith)
        requires
            v >= 0,
    ;
    vstd::arithmetic::div_mod::lemma_div_pos_is_pos(v * leg.price, fa);
    assert(v * pa >= 0) by (nonlinear_arith)
        requires
            v >= 0,
            pa >= 0,
    ;
    vstd::arithmetic::div_mod::lemma_div_pos_is_pos(v * pa, fa);
    if pair.quote != USD_TOKEN_ID {
        assert(1 <= pair.quote < book.tokens.len());
        vstd::arithmetic::power::lemma_pow_positive(
            10,
            book.tokens[pair.quote as int].decimals as nat,
        );
        let pb = book.pairs[pair.quote - 1].price as int;
        let fb = math::ten_to(book.tokens[pair.quote as int].decimals as int);
        assert(pair.price == pa * fb / pb);
        lemma_sell_across(v, pa, pb, fa, fb);
        let q = book.quote_atomic(leg);
        assert(q * pb >= 0) by (nonlinear_arith)
            requires
                q >= 0,
                pb >= 0,
        ;
        vstd::arithmetic::div_mod::lemma_div_pos_is_pos(q * pb, fb);
    }
}

/// The worth of what a route holds never grows from leg to leg.
proof fn lemma_worth_never_grows(book: Book, legs: Seq<RouteSubmissionLeg>, i: int)
    requires
        generate_market::laid_out(book.tokens, book.pairs),
        generate_market::in_equilibrium(book.tokens, book.pairs),
        forall|t: int| 0 <= t < book.tokens.len() - 1 ==> (#[trigger] book.pairs[t]).price > 0,
        0 <= i < legs.len(),
        book.reaches(legs, legs.len() as int),
        forall|j: int| 0 <= j < legs.len() ==> never_buys_across(book, #[trigger] legs[j]),
    ensures
        0 <= worth(book, book.output(legs[i])) <= worth(book, book.input(legs[0])),
        0 <= book.output(legs[i]).atomic,
    decreases i,
{
    assert(book.fills(legs, i));
    assert(never_buys_across(book, legs[i]));
    lemma_leg_gains_nothing(book, legs[i]);
    if i > 0 {
        lemma_worth_never_grows(book, legs, i - 1);
    }
}

/// In equilibrium there is no free money in a loop: a route of any length that executes, and
/// whose every leg sells or buys for USD, gains nothing.
pub proof fn lemma_no_gain_in_equilibrium(book: Book, legs: Seq<RouteSubmissionLeg>)
    requires
        generate_market::laid_out(book.tokens, book.pairs),
        generate_market::in_equilibrium(book.tokens, book.pairs),
        forall|t: int| 0 <= t < book.tokens.len() - 1 ==> (#[trigger] book.pairs[t]).price > 0,
        book.accepts(legs),
        forall|j: int| 0 <= j < legs.len() ==> never_buys_across(book, #[trigger] legs[j]),
        book.input(legs[0]).atomic <= i64::MAX,
    ensures
        book.output(legs[legs.len() - 1]).atomic <= book.input(legs[0]).atomic,
        book.gain(legs) <= 0,
{
    evaluate::lemma_accepts_reaches(book, legs, 0);
    lemma_worth_never_grows(book, legs, legs.len() - 1);
}

} // verus!
