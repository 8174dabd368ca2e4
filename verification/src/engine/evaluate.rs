//! Evaluation of one submitted route against the live market.
use crate::engine::contestant::Contestant;
use crate::generation::math;
use crate::protocol::market::{Fee, Token, TokenPair, USD_TOKEN_ID};
use crate::protocol::submission::{Direction, RouteSubmission, RouteSubmissionLeg};
use crate::protocol::wire;
use std::collections::HashMap;
use vstd::prelude::*;

verus! {

/// The live market that a route is evaluated against.
pub struct Book {
    pub tokens: Seq<Token>,
    pub pairs: Seq<TokenPair>,
    /// For each token, the index in `pairs` of its USD pair.
    pub usd_pair_of_token: Seq<usize>,
    pub fee: Fee,
}

/// A token and how much of it changes hands, in atomic units.
pub struct Amount {
    pub token: u64,
    pub atomic: int,
}

/// Base volume that the first `n` legs take from the pool of `pair_id`.
pub open spec fn consumed(legs: Seq<RouteSubmissionLeg>, pair_id: u64, n: int) -> int
    decreases n,
{
    if n <= 0 {
        0
    } else {
        consumed(legs, pair_id, n - 1) + if legs[n - 1].pair_id == pair_id {
            legs[n - 1].volume as int
        } else {
            0
        }
    }
}

impl Book {
    /// The pair that a leg trades on.
    pub open spec fn pair(self, leg: RouteSubmissionLeg) -> TokenPair {
        self.pairs[leg.pair_id as int]
    }

    /// Whether the leg names a pair of the market whose base token exists.
    pub open spec fn knows(self, leg: RouteSubmissionLeg) -> bool {
        &&& leg.pair_id < self.pairs.len()
        &&& self.pair(leg).base < self.tokens.len()
    }

    /// Atomic units in one whole base token of the leg's pair.
    pub open spec fn base_scale(self, leg: RouteSubmissionLeg) -> int {
        math::ten_to(self.tokens[self.pair(leg).base as int].decimals as int)
    }

    /// The live USD price of the leg's base token.
    pub open spec fn base_usd_price(self, leg: RouteSubmissionLeg) -> int {
        self.pairs[self.usd_pair_of_token[self.pair(leg).base as int] as int].price as int
    }

    /// What the leg's volume is worth, in atomic-USD.
    pub open spec fn usd_value(self, leg: RouteSubmissionLeg) -> int {
        leg.volume * self.base_usd_price(leg) / self.base_scale(leg)
    }

    /// The fee of one leg: the flat fee, and for a known pair the variable fee.
    pub open spec fn leg_fee(self, leg: RouteSubmissionLeg) -> int {
        self.fee.static_atomic_usd + if self.knows(leg) {
            self.fee.variable_bps * self.usd_value(leg) / 10_000
        } else {
            0
        }
    }

    /// The fees of the first `n` legs together.
    pub open spec fn fees(self, legs: Seq<RouteSubmissionLeg>, n: int) -> int
        decreases n,
    {
        if n <= 0 {
            0
        } else {
            self.fees(legs, n - 1) + self.leg_fee(legs[n - 1])
        }
    }

    /// The quote side of the leg's trade, in atomic units.
    pub open spec fn quote_atomic(self, leg: RouteSubmissionLeg) -> int {
        leg.volume * leg.price / self.base_scale(leg)
    }

    /// What the leg pays.
    pub open spec fn input(self, leg: RouteSubmissionLeg) -> Amount {
        match leg.direction {
            Direction::Buy => Amount {
                token: self.pair(leg).quote,
                atomic: self.quote_atomic(leg),
            },
            Direction::Sell => Amount { token: self.pair(leg).base, atomic: leg.volume as int },
        }
    }

    /// What the leg receives.
    pub open spec fn output(self, leg: RouteSubmissionLeg) -> Amount {
        match leg.direction {
            Direction::Buy => Amount { token: self.pair(leg).base, atomic: leg.volume as int },
            Direction::Sell => Amount {
                token: self.pair(leg).quote,
                atomic: self.quote_atomic(leg),
            },
        }
    }

    /// Whether the route has at least two legs, starts by paying USD and ends by
    /// receiving USD.
    pub open spec fn loops_through_usd(self, legs: Seq<RouteSubmissionLeg>) -> bool {
        let first = legs[0];
        let last = legs[legs.len() - 1];
        &&& legs.len() >= 2
        &&& first.pair_id < self.pairs.len()
        &&& self.pair(first).quote == USD_TOKEN_ID
        &&& first.direction == Direction::Buy
        &&& last.pair_id < self.pairs.len()
        &&& self.pair(last).quote == USD_TOKEN_ID
        &&& last.direction == Direction::Sell
    }

    /// Whether the pool of leg `i` still holds its volume and that of every earlier
    /// leg on the same pair.
    pub open spec fn pool_covers(self, legs: Seq<RouteSubmissionLeg>, i: int) -> bool {
        consumed(legs, legs[i].pair_id, i + 1) <= self.pair(legs[i]).volume
    }

    /// Whether leg `i` fills: its pair is known, its price is the live one, the pool
    /// covers it, and it pays exactly what the leg before it received.
    pub open spec fn fills(self, legs: Seq<RouteSubmissionLeg>, i: int) -> bool {
        &&& self.knows(legs[i])
        &&& legs[i].price == self.pair(legs[i]).price
        &&& self.pool_covers(legs, i)
        &&& i > 0 ==> self.input(legs[i]) == self.output(legs[i - 1])
    }

    /// Whether every leg before leg `i` fills.
    pub open spec fn reaches(self, legs: Seq<RouteSubmissionLeg>, i: int) -> bool {
        forall|j: int| 0 <= j < i ==> #[trigger] self.fills(legs, j)
    }

    /// The first of the legs from `i` on that does not fill, or their number.
    pub open spec fn first_unfilled(self, legs: Seq<RouteSubmissionLeg>, i: int) -> int
        decreases legs.len() - i,
    {
        if i < legs.len() && self.fills(legs, i) {
            self.first_unfilled(legs, i + 1)
        } else {
            i
        }
    }

    /// Whether the route executes: a loop through USD whose legs all fill.
    pub open spec fn accepts(self, legs: Seq<RouteSubmissionLeg>) -> bool {
        &&& self.loops_through_usd(legs)
        &&& self.first_unfilled(legs, 0) == legs.len()
    }

    /// The fees that the route is charged: one flat fee where it is no loop through
    /// USD, else the fee of every leg up to and with the first that does not fill.
    pub open spec fn charge(self, legs: Seq<RouteSubmissionLeg>) -> int {
        let k = self.first_unfilled(legs, 0);
        if !self.loops_through_usd(legs) {
            self.fee.static_atomic_usd as int
        } else if k < legs.len() {
            self.fees(legs, k + 1)
        } else {
            self.fees(legs, k)
        }
    }

    /// Balance after the route, for a contestant whose balance is not negative. Sums
    /// of atomic-USD enter it as the `i64` with the same bits.
    pub open spec fn balance_after(self, legs: Seq<RouteSubmissionLeg>, balance: int) -> int {
        let fees = wire::signed_bits(self.charge(legs) as u64);
        if self.accepts(legs) {
            balance + (self.gain(legs) - fees)
        } else {
            balance - fees
        }
    }

    /// USD received by the last leg less USD paid by the first.
    pub open spec fn gain(self, legs: Seq<RouteSubmissionLeg>) -> int {
        wire::signed_bits(self.output(legs[legs.len() - 1]).atomic as u64) - wire::signed_bits(
            self.input(legs[0]).atomic as u64,
        )
    }

    /// The pairs after the route has taken its volumes from their pools.
    pub open spec fn pairs_after(self, legs: Seq<RouteSubmissionLeg>) -> Seq<TokenPair> {
        Seq::new(
            self.pairs.len(),
            |i: int|
                TokenPair {
                    volume: (self.pairs[i].volume - consumed(
                        legs,
                        i as u64,
                        legs.len() as int,
                    )) as u64,
                    ..self.pairs[i]
                },
        )
    }

    /// Whether the machine can work out leg `i`: the tables hold its base token and
    /// every product and sum that it takes fits a `u64`.
    pub open spec fn computes(self, legs: Seq<RouteSubmissionLeg>, i: int) -> bool {
        let leg = legs[i];
        let base = self.pair(leg).base as int;
        &&& self.knows(leg) ==> {
            &&& base < self.usd_pair_of_token.len()
            &&& self.usd_pair_of_token[base] < self.pairs.len()
            &&& self.tokens[base].decimals <= math::MAX_DECIMALS
            &&& leg.volume * self.base_usd_price(leg) <= u64::MAX
            &&& self.fee.variable_bps * self.usd_value(leg) <= u64::MAX
            &&& leg.price == self.pair(leg).price ==> {
                &&& consumed(legs, leg.pair_id, i + 1) <= u64::MAX
                &&& self.pool_covers(legs, i) ==> leg.volume * leg.price <= u64::MAX
            }
        }
        &&& self.fees(legs, i + 1) <= u64::MAX
    }

    /// Whether the machine can evaluate the route for a contestant with `balance`:
    /// it can work out every leg that is reached, and the settled balance, with the
    /// sums that lead to it, fits an `i64`.
    pub open spec fn evaluable(self, legs: Seq<RouteSubmissionLeg>, balance: i64) -> bool {
        balance >= 0 ==> {
            &&& self.loops_through_usd(legs) ==> forall|i: int|
                0 <= i < legs.len() && self.reaches(legs, i) ==> #[trigger] self.computes(legs, i)
            &&& self.accepts(legs) ==> {
                &&& i64::MIN <= self.gain(legs) <= i64::MAX
                &&& i64::MIN <= self.gain(legs) - wire::signed_bits(
                    self.charge(legs) as u64,
                ) <= i64::MAX
            }
            &&& i64::MIN <= self.balance_after(legs, balance as int) <= i64::MAX
        }
    }
}

proof fn lemma_first_unfilled(book: Book, legs: Seq<RouteSubmissionLeg>, i: int)
    requires
        0 <= i <= legs.len(),
        book.reaches(legs, i),
    ensures
        book.first_unfilled(legs, 0) == book.first_unfilled(legs, i),
    decreases i,
{
    if i > 0 {
        assert(book.fills(legs, i - 1));
        assert(book.reaches(legs, i - 1));
        lemma_first_unfilled(book, legs, i - 1);
    }
}

proof fn lemma_computes_up_to(book: Book, legs: Seq<RouteSubmissionLeg>, k: int)
    requires
        0 <= k < legs.len(),
        book.reaches(legs, k),
        forall|j: int| 0 <= j < k ==> #[trigger] book.computes(legs, j),
    ensures
        !book.fills(legs, k) && book.computes(legs, k) ==> forall|i: int|
            0 <= i < legs.len() && book.reaches(legs, i) ==> #[trigger] book.computes(legs, i),
{
}

pub(crate) proof fn lemma_fees_nonneg(book: Book, legs: Seq<RouteSubmissionLeg>, n: int)
    ensures
        book.fees(legs, n) >= 0,
    decreases n,
{
    if n > 0 {
        lemma_fees_nonneg(book, legs, n - 1);
        lemma_leg_fee_nonneg(book, legs[n - 1]);
    }
}

pub(crate) proof fn lemma_leg_fee_nonneg(book: Book, leg: RouteSubmissionLeg)
    ensures
        book.leg_fee(leg) >= 0,
{
    if book.knows(leg) {
        let price = book.base_usd_price(leg);
        let scale = book.base_scale(leg);
        let bps = book.fee.variable_bps as int;
        let value = book.usd_value(leg);
        vstd::arithmetic::power::lemma_pow_positive(
            10,
            book.tokens[book.pair(leg).base as int].decimals as nat,
        );
        assert(leg.volume * price >= 0) by (nonlinear_arith)
            requires
                price >= 0,
        ;
        assert(value >= 0) by {
            vstd::arithmetic::div_mod::lemma_div_pos_is_pos(leg.volume * price, scale);
        }
        assert(bps * value >= 0) by (nonlinear_arith)
            requires
                bps >= 0,
                value >= 0,
        ;
    }
}

pub(crate) proof fn lemma_consumed_monotonic(
    legs: Seq<RouteSubmissionLeg>,
    pair_id: u64,
    i: int,
    n: int,
)
    requires
        i <= n,
    ensures
        consumed(legs, pair_id, i) <= consumed(legs, pair_id, n),
    decreases n - i,
{
    if i < n {
        lemma_consumed_monotonic(legs, pair_id, i, n - 1);
    }
}

pub(crate) proof fn lemma_pool_covers_total(
    book: Book,
    legs: Seq<RouteSubmissionLeg>,
    pair_id: u64,
    n: int,
)
    requires
        0 <= n <= legs.len(),
        book.reaches(legs, n),
        pair_id < book.pairs.len(),
    ensures
        consumed(legs, pair_id, n) <= book.pairs[pair_id as int].volume,
    decreases n,
{
    if n > 0 {
        assert(book.fills(legs, n - 1));
        assert(book.reaches(legs, n - 1));
        lemma_pool_covers_total(book, legs, pair_id, n - 1);
    }
}

pub(crate) proof fn lemma_accepts_reaches(book: Book, legs: Seq<RouteSubmissionLeg>, i: int)
    requires
        0 <= i <= legs.len(),
        book.reaches(legs, i),
        book.first_unfilled(legs, i) == legs.len(),
    ensures
        book.reaches(legs, legs.len() as int),
    decreases legs.len() - i,
{
    if i < legs.len() {
        lemma_first_unfilled_from(book, legs, i + 1);
        lemma_accepts_reaches(book, legs, i + 1);
    }
}

pub(crate) proof fn lemma_first_unfilled_from(book: Book, legs: Seq<RouteSubmissionLeg>, i: int)
    ensures
        i <= legs.len() ==> i <= book.first_unfilled(legs, i) <= legs.len(),
    decreases legs.len() - i,
{
    if i < legs.len() && book.fills(legs, i) {
        lemma_first_unfilled_from(book, legs, i + 1);
    }
}

proof fn lemma_consumed_nonneg(legs: Seq<RouteSubmissionLeg>, pair_id: u64, n: int)
    ensures
        consumed(legs, pair_id, n) >= 0,
    decreases n,
{
    if n > 0 {
        lemma_consumed_nonneg(legs, pair_id, n - 1);
    }
}

/// The book that the arguments of an evaluation describe.
pub open spec fn book_of(
    tokens: Seq<Token>,
    pairs: Seq<TokenPair>,
    usd_pair_of_token: Seq<usize>,
    fee: Fee,
) -> Book {
    Book { tokens, pairs, usd_pair_of_token, fee }
}

/// What an evaluation comes to: the pairs and the contestants as it leaves them, and its
/// answer.
pub struct Settlement {
    pub pairs: Seq<TokenPair>,
    pub contestants: Map<u64, Contestant>,
    pub answer: (u8, i64),
}

/// The one outcome that an evaluation has.
pub open spec fn settlement(
    book: Book,
    legs: Seq<RouteSubmissionLeg>,
    contestant_id: u64,
    contestants: Map<u64, Contestant>,
) -> Settlement {
    let contestant = contestants[contestant_id];
    if !contestants.dom().contains(contestant_id) {
        // An unknown contestant is rejected and nothing changes.
        Settlement { pairs: book.pairs, contestants, answer: (0u8, 0i64) }
    } else if contestant.balance < 0 {
        // An underwater contestant is rejected, without fees.
        Settlement { pairs: book.pairs, contestants, answer: (0u8, contestant.balance) }
    } else {
        let balance = book.balance_after(legs, contestant.balance as int) as i64;
        let paid = contestants.insert(contestant_id, Contestant { balance, ..contestant });
        if book.accepts(legs) {
            Settlement {
                pairs: book.pairs_after(legs),
                contestants: paid,
                answer: (1u8, balance),
            }
        } else {
            Settlement { pairs: book.pairs, contestants: paid, answer: (0u8, balance) }
        }
    }
}

/// Whether an evaluation comes to its outcome: leaves the pairs and the contestants so, and
/// answers so.
pub open spec fn settled(
    book: Book,
    legs: Seq<RouteSubmissionLeg>,
    contestant_id: u64,
    contestants: Map<u64, Contestant>,
    pairs_after: Seq<TokenPair>,
    contestants_after: Map<u64, Contestant>,
    answer: (u8, i64),
) -> bool {
    settlement(book, legs, contestant_id, contestants) == (Settlement {
        pairs: pairs_after,
        contestants: contestants_after,
        answer,
    })
}

/// How the legs of a route came out.
enum Walk {
    /// A number that the walk needed does not fit the machine.
    Overflow,
    /// A leg did not fill; the fees up to and with it.
    Rejected { fees: u64 },
    /// Every leg filled.
    Filled { paid: u64, received: u64, fees: u64 },
}

/// The scale of the leg's base token and the leg's fee, where they fit a `u64`.
fn leg_cost(
    tokens: &[Token],
    pairs: &[TokenPair],
    usd_pair_of_token: &[usize],
    fee: Fee,
    leg: RouteSubmissionLeg,
) -> (r: Option<(u64, u64)>)
    requires
        book_of(tokens@, pairs@, usd_pair_of_token@, fee).knows(leg),
    ensures
        ({
            let book = book_of(tokens@, pairs@, usd_pair_of_token@, fee);
            let base = book.pair(leg).base as int;
            let fits = {
                &&& base < usd_pair_of_token@.len()
                &&& usd_pair_of_token@[base] < pairs@.len()
                &&& tokens@[base].decimals <= math::MAX_DECIMALS
                &&& leg.volume * book.base_usd_price(leg) <= u64::MAX
                &&& fee.variable_bps * book.usd_value(leg) <= u64::MAX
                &&& book.leg_fee(leg) <= u64::MAX
            };
            match r {
                Some((scale, leg_fee)) => {
                    &&& fits
                    &&& scale == book.base_scale(leg)
                    &&& scale >= 1
                    &&& leg_fee == book.leg_fee(leg)
                },
                None => !fits,
            }
        }),
{
    let ghost book = book_of(tokens@, pairs@, usd_pair_of_token@, fee);
    let pair = pairs[leg.pair_id as usize];
    let base: usize = pair.base as usize;
    if base >= usd_pair_of_token.len() {
        return None;
    }
    let usd_pair: usize = usd_pair_of_token[base];
    if usd_pair >= pairs.len() {
        return None;
    }
    if tokens[base].decimals > math::MAX_DECIMALS {
        return None;
    }
    let scale: u64 = math::pow10(tokens[base].decimals);
    proof {
        math::lemma_ten_to_fits(tokens@[base as int].decimals as int);
    }
    let gross: u64 = match leg.volume.checked_mul(pairs[usd_pair].price) {
        Some(v) => v,
        None => return None,
    };
    let usd_value: u64 = gross / scale;
    let scaled: u64 = match fee.variable_bps.checked_mul(usd_value) {
        Some(v) => v,
        None => return None,
    };
    match fee.static_atomic_usd.checked_add(scaled / 10_000) {
        Some(leg_fee) => Some((scale, leg_fee)),
        None => None,
    }
}

/// Walks the legs in order until one does not fill.
fn walk(
    tokens: &[Token],
    pairs: &[TokenPair],
    usd_pair_of_token: &[usize],
    fee: Fee,
    legs: &Vec<RouteSubmissionLeg>,
) -> (r: Walk)
    requires
        book_of(tokens@, pairs@, usd_pair_of_token@, fee).loops_through_usd(legs@),
    ensures
        ({
            let book = book_of(tokens@, pairs@, usd_pair_of_token@, fee);
            let computes = forall|i: int|
                0 <= i < legs@.len() && book.reaches(legs@, i) ==> #[trigger] book.computes(
                    legs@,
                    i,
                );
            match r {
                Walk::Overflow => !computes,
                Walk::Rejected { fees } => {
                    &&& computes
                    &&& !book.accepts(legs@)
                    &&& fees == book.charge(legs@)
                },
                Walk::Filled { paid, received, fees } => {
                    &&& computes
                    &&& book.accepts(legs@)
                    &&& fees == book.charge(legs@)
                    &&& paid == book.input(legs@[0]).atomic
                    &&& received == book.output(legs@[legs@.len() - 1]).atomic
                },
            }
        }),
{
    let ghost book = book_of(tokens@, pairs@, usd_pair_of_token@, fee);
    let n: usize = legs.len();
    let mut prev_output_token: u64 = 0;
    let mut prev_output_amount: u64 = 0;
    let mut paid: u64 = 0;
    let mut total_fees: u64 = 0;
    let mut pool_consumption: HashMap<u64, u64> = HashMap::new();
    let mut i: usize = 0;
    while i < n
        invariant
            book == book_of(tokens@, pairs@, usd_pair_of_token@, fee),
            n == legs@.len() >= 2,
            i <= n,
            book.loops_through_usd(legs@),
            book.reaches(legs@, i as int),
            forall|j: int| 0 <= j < i ==> #[trigger] book.computes(legs@, j),
            total_fees == book.fees(legs@, i as int),
            forall|id: u64|
                #![trigger consumed(legs@, id, i as int)]
                consumed(legs@, id, i as int) == if pool_consumption@.dom().contains(id) {
                    pool_consumption@[id] as int
                } else {
                    0
                },
            i > 0 ==> book.output(legs@[i - 1]) == (Amount {
                token: prev_output_token,
                atomic: prev_output_amount as int,
            }),
            i > 0 ==> paid == book.input(legs@[0]).atomic,
        decreases n - i,
    {
        broadcast use vstd::std_specs::hash::group_hash_axioms;

        let leg = legs[i];
        assert(leg == legs@[i as int]);
        let known: bool = leg.pair_id < pairs.len() as u64 && pairs[leg.pair_id as usize].base
            < tokens.len() as u64;
        assert(known == book.knows(leg));
        if !known {
            proof {
                lemma_first_unfilled(book, legs@, i as int);
                lemma_computes_up_to(book, legs@, i as int);
            }
            assert(book.computes(legs@, i as int) == (book.fees(legs@, i + 1) <= u64::MAX));
            return match total_fees.checked_add(fee.static_atomic_usd) {
                Some(fees) => Walk::Rejected { fees },
                None => Walk::Overflow,
            };
        }
        let pair = pairs[leg.pair_id as usize];
        let (scale, leg_fee) = match leg_cost(tokens, pairs, usd_pair_of_token, fee, leg) {
            Some(v) => v,
            None => {
                proof {
                    lemma_fees_nonneg(book, legs@, i as int);
                    assert(!book.computes(legs@, i as int));
                }
                return Walk::Overflow;
            },
        };
        total_fees = match total_fees.checked_add(leg_fee) {
            Some(v) => v,
            None => {
                assert(!book.computes(legs@, i as int));
                return Walk::Overflow;
            },
        };
        // The price must match the current state exactly.
        if leg.price != pair.price {
            proof {
                lemma_first_unfilled(book, legs@, i as int);
                lemma_computes_up_to(book, legs@, i as int);
            }
            return Walk::Rejected { fees: total_fees };
        }
        // Per-pair volume cap, accumulated over the legs of this route.
        let ghost before = consumed(legs@, leg.pair_id, i as int);
        let consumed_so_far: u64 = match pool_consumption.get(&leg.pair_id) {
            Some(v) => *v,
            None => 0,
        };
        assert(consumed_so_far == before);
        assert(consumed(legs@, leg.pair_id, i + 1) == before + leg.volume);
        let new_consumed: u64 = match consumed_so_far.checked_add(leg.volume) {
            Some(v) => v,
            None => {
                assert(!book.computes(legs@, i as int));
                return Walk::Overflow;
            },
        };
        if new_consumed > pair.volume {
            proof {
                lemma_first_unfilled(book, legs@, i as int);
                lemma_computes_up_to(book, legs@, i as int);
            }
            return Walk::Rejected { fees: total_fees };
        }
        let ghost pool_before = pool_consumption@;
        pool_consumption.insert(leg.pair_id, new_consumed);
        assert forall|id: u64|
            #![trigger consumed(legs@, id, i + 1)]
            consumed(legs@, id, i + 1) == if pool_consumption@.dom().contains(id) {
                pool_consumption@[id] as int
            } else {
                0
            } by {
            assert(consumed(legs@, id, i as int) == if pool_before.dom().contains(id) {
                pool_before[id] as int
            } else {
                0
            });
        }
        let gross: u64 = match leg.volume.checked_mul(leg.price) {
            Some(v) => v,
            None => {
                assert(!book.computes(legs@, i as int));
                return Walk::Overflow;
            },
        };
        let quote_atomic: u64 = gross / scale;
        let (input_token, input_amount, output_token, output_amount): (u64, u64, u64, u64) =
            match leg.direction {
            Direction::Buy => (pair.quote, quote_atomic, pair.base, leg.volume),
            Direction::Sell => (pair.base, leg.volume, pair.quote, quote_atomic),
        };
        assert(book.computes(legs@, i as int));
        // Chain continuity: token and exact amount.
        if i == 0 {
            paid = input_amount;
        } else if input_token != prev_output_token || input_amount != prev_output_amount {
            proof {
                assert(book.input(leg) != book.output(legs@[i - 1]));
                lemma_first_unfilled(book, legs@, i as int);
                lemma_computes_up_to(book, legs@, i as int);
            }
            return Walk::Rejected { fees: total_fees };
        }
        assert(book.fills(legs@, i as int));
        prev_output_token = output_token;
        prev_output_amount = output_amount;
        i = i + 1;
    }
    proof {
        lemma_first_unfilled(book, legs@, n as int);
    }
    Walk::Filled { paid, received: prev_output_amount, fees: total_fees }
}

/// Takes the volumes of an accepted route from the pools.
fn take_volumes(pairs: &mut [TokenPair], legs: &Vec<RouteSubmissionLeg>)
    requires
        forall|i: int| 0 <= i < legs@.len() ==> (#[trigger] legs@[i]).pair_id < old(pairs)@.len(),
        forall|k: int|
            0 <= k < old(pairs)@.len() ==> consumed(legs@, k as u64, legs@.len() as int) <= (
            #[trigger] old(pairs)@[k]).volume,
    ensures
        final(pairs)@.len() == old(pairs)@.len(),
        forall|k: int|
            0 <= k < old(pairs)@.len() ==> #[trigger] final(pairs)@[k] == (TokenPair {
                volume: (old(pairs)@[k].volume - consumed(
                    legs@,
                    k as u64,
                    legs@.len() as int,
                )) as u64,
                ..old(pairs)@[k]
            }),
{
    let n: usize = legs.len();
    let mut i: usize = 0;
    while i < n
        invariant
            i <= n == legs@.len(),
            pairs@.len() == old(pairs)@.len(),
            forall|i: int|
                0 <= i < legs@.len() ==> (#[trigger] legs@[i]).pair_id < old(pairs)@.len(),
            forall|k: int|
                0 <= k < old(pairs)@.len() ==> consumed(legs@, k as u64, legs@.len() as int) <= (
                #[trigger] old(pairs)@[k]).volume,
            forall|k: int|
                0 <= k < pairs@.len() ==> #[trigger] pairs@[k] == (TokenPair {
                    volume: (old(pairs)@[k].volume - consumed(legs@, k as u64, i as int)) as u64,
                    ..old(pairs)@[k]
                }),
        decreases n - i,
    {
        let leg = legs[i];
        assert(leg.pair_id == legs@[i as int].pair_id);
        let at: usize = leg.pair_id as usize;
        let pair = pairs[at];
        proof {
            let k = at as int;
            assert(k as u64 == leg.pair_id);
            assert(consumed(legs@, k as u64, i + 1) == consumed(legs@, k as u64, i as int)
                + leg.volume);
            lemma_consumed_monotonic(legs@, k as u64, i + 1, n as int);
            lemma_consumed_nonneg(legs@, k as u64, i as int);
            assert(old(pairs)@[k].volume >= 0);
        }
        pairs[at] = TokenPair {
            id: pair.id,
            base: pair.base,
            quote: pair.quote,
            price: pair.price,
            volume: pair.volume - leg.volume,
        };
        i = i + 1;
    }
}

/// Charges `fees` to a contestant whose route was rejected.
fn bail(
    contestants: &mut HashMap<u64, Contestant>,
    contestant_id: u64,
    contestant: Contestant,
    fees: u64,
) -> (r: Option<(u8, i64)>)
    ensures
        ({
            let balance = contestant.balance - wire::signed_bits(fees);
            if i64::MIN <= balance <= i64::MAX {
                &&& r == Some((0u8, balance as i64))
                &&& final(contestants)@ == old(contestants)@.insert(
                    contestant_id,
                    (Contestant { balance: balance as i64, ..contestant }),
                )
            } else {
                &&& r is None
                &&& final(contestants)@ == old(contestants)@
            }
        }),
{
    match contestant.balance.checked_sub(wire::to_signed(fees)) {
        Some(balance) => {
            contestants.insert(contestant_id, Contestant { _id: contestant._id, balance });
            Some((0, balance))
        },
        None => None,
    }
}

/// Evaluates a route like [`evaluate`]; `None`, with nothing changed, where a number
/// that the evaluation needs does not fit the machine.
pub fn try_evaluate(
    tokens: &[Token],
    pairs: &mut [TokenPair],
    usd_pair_of_token: &[usize],
    fee: Fee,
    contestants: &mut HashMap<u64, Contestant>,
    contestant_id: u64,
    submission: &RouteSubmission,
) -> (r: Option<(u8, i64)>)
    ensures
        ({
            let book = book_of(tokens@, old(pairs)@, usd_pair_of_token@, fee);
            let evaluable = old(contestants)@.dom().contains(contestant_id) ==> book.evaluable(
                submission.legs@,
                old(contestants)@[contestant_id].balance,
            );
            match r {
                Some(answer) => {
                    &&& evaluable
                    &&& settled(
                        book,
                        submission.legs@,
                        contestant_id,
                        old(contestants)@,
                        final(pairs)@,
                        final(contestants)@,
                        answer,
                    )
                },
                None => {
                    &&& !evaluable
                    &&& final(pairs)@ == old(pairs)@
                    &&& final(contestants)@ == old(contestants)@
                },
            }
        }),
{
    broadcast use vstd::std_specs::hash::group_hash_axioms;

    let contestant = match contestants.get(&contestant_id) {
        Some(contestant) => *contestant,
        None => return Some((0, 0)),
    };
    // Underwater contestants get an immediate no-op rejection: no fees, no processing.
    if contestant.balance < 0 {
        return Some((0, contestant.balance));
    }
    let ghost book = book_of(tokens@, pairs@, usd_pair_of_token@, fee);
    let legs = &submission.legs;
    let n: usize = legs.len();
    // Structural rejects each cost one static fee.
    if n < 2 {
        return bail(contestants, contestant_id, contestant, fee.static_atomic_usd);
    }
    let first = legs[0];
    let last = legs[n - 1];
    if first.pair_id >= pairs.len() as u64 || last.pair_id >= pairs.len() as u64 {
        return bail(contestants, contestant_id, contestant, fee.static_atomic_usd);
    }
    if pairs[first.pair_id as usize].quote != USD_TOKEN_ID || first.direction != Direction::Buy {
        return bail(contestants, contestant_id, contestant, fee.static_atomic_usd);
    }
    if pairs[last.pair_id as usize].quote != USD_TOKEN_ID || last.direction != Direction::Sell {
        return bail(contestants, contestant_id, contestant, fee.static_atomic_usd);
    }
    assert(book.loops_through_usd(legs@));
    let (paid, received, fees): (u64, u64, u64) = match walk(
        tokens,
        pairs,
        usd_pair_of_token,
        fee,
        legs,
    ) {
        Walk::Overflow => return None,
        Walk::Rejected { fees } => return bail(contestants, contestant_id, contestant, fees),
        Walk::Filled { paid, received, fees } => (paid, received, fees),
    };
    let gain: i64 = match wire::to_signed(received).checked_sub(wire::to_signed(paid)) {
        Some(v) => v,
        None => return None,
    };
    let delta: i64 = match gain.checked_sub(wire::to_signed(fees)) {
        Some(v) => v,
        None => return None,
    };
    let balance: i64 = match contestant.balance.checked_add(delta) {
        Some(v) => v,
        None => return None,
    };
    proof {
        lemma_accepts_reaches(book, legs@, 0);
        assert forall|k: int|
            0 <= k < pairs@.len() implies consumed(legs@, k as u64, n as int) <= (
        #[trigger] pairs@[k]).volume by {
            lemma_pool_covers_total(book, legs@, k as u64, n as int);
        }
        assert forall|i: int| 0 <= i < legs@.len() implies (#[trigger] legs@[i]).pair_id
            < pairs@.len() by {
            assert(book.fills(legs@, i));
        }
    }
    take_volumes(pairs, legs);
    assert(pairs@ =~= book.pairs_after(legs@));
    contestants.insert(contestant_id, Contestant { _id: contestant._id, balance });
    Some((1, balance))
}

/// Evaluates a route against the live market and settles it: the answer is `1` where
/// the whole route executed and `0` where it was rejected, with the contestant's
/// balance after it.
pub fn evaluate(
    tokens: &[Token],
    pairs: &mut [TokenPair],
    usd_pair_of_token: &[usize],
    fee: Fee,
    contestants: &mut HashMap<u64, Contestant>,
    contestant_id: u64,
    submission: &RouteSubmission,
) -> (r: (u8, i64))
    requires
        old(contestants)@.dom().contains(contestant_id) ==> book_of(
            tokens@,
            old(pairs)@,
            usd_pair_of_token@,
            fee,
        ).evaluable(submission.legs@, old(contestants)@[contestant_id].balance),
    ensures
        settled(
            book_of(tokens@, old(pairs)@, usd_pair_of_token@, fee),
            submission.legs@,
            contestant_id,
            old(contestants)@,
            final(pairs)@,
            final(contestants)@,
            r,
        ),
{
    match try_evaluate(
        tokens,
        pairs,
        usd_pair_of_token,
        fee,
        contestants,
        contestant_id,
        submission,
    ) {
        Some(answer) => answer,
        None => (0, 0),
    }
}

} // verus!
