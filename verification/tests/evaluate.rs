use std::collections::HashMap;

use arbitrage_arena::engine::contestant::Contestant;
use arbitrage_arena::engine::evaluate::{evaluate, try_evaluate};
use arbitrage_arena::protocol::market::{Fee, Token, TokenPair};
use arbitrage_arena::protocol::submission::{Direction, RouteSubmission, RouteSubmissionLeg};

fn fee() -> Fee {
    Fee {
        static_atomic_usd: 1_000, // 0.001 USD (with usd_decimals=6)
        variable_bps: 10,         // 0.1%
    }
}

// Three-token market with usd_decimals=6:
//   token 0 = USD (decimals 6)
//   token 1 = A   (decimals 6, $2 / A)
//   token 2 = B   (decimals 6, $3 / B)
// Pairs:
//   pair 0: A/USD (base=1, quote=0), price = 2_000_000 (atomic-USD per 1 whole A)
//   pair 1: B/USD (base=2, quote=0), price = 3_000_000
//   pair 2: A/B  (base=1, quote=2), price computed so A and B agree on USD value:
//           1 A = $2 = 2/3 B, so price = (2/3) * 10^6 = 666_666 atomic-B per 1 whole A
fn setup() -> (Vec<TokenPair>, Vec<Token>, Vec<usize>, HashMap<u64, Contestant>) {
    let pairs = vec![
        TokenPair {
            id: 0,
            base: 1,
            quote: 0,
            price: 2_000_000,
            volume: 1_000_000_000,
        },
        TokenPair {
            id: 1,
            base: 2,
            quote: 0,
            price: 3_000_000,
            volume: 1_000_000_000,
        },
        TokenPair {
            id: 2,
            base: 1,
            quote: 2,
            price: 666_666,
            volume: 1_000_000_000,
        },
    ];
    let tokens = vec![
        Token { id: 0, decimals: 6 },
        Token { id: 1, decimals: 6 },
        Token { id: 2, decimals: 6 },
    ];
    // token 0 (USD) is unused as base, so the sentinel never gets read.
    // token 1 (A) → pair 0 (A/USD); token 2 (B) → pair 1 (B/USD).
    let usd_pair_of_token = vec![usize::MAX, 0, 1];
    let mut contestants = HashMap::new();
    contestants.insert(42, Contestant::new(42, 1_000_000_000));
    (pairs, tokens, usd_pair_of_token, contestants)
}

fn leg(pair_id: u64, direction: Direction, price: u64, volume: u64) -> RouteSubmissionLeg {
    RouteSubmissionLeg {
        pair_id,
        direction,
        price,
        volume,
    }
}

fn submission(legs: Vec<RouteSubmissionLeg>) -> RouteSubmission {
    RouteSubmission { sub_id: 1, legs }
}

#[test]
fn rejects_too_few_legs() {
    let (mut s, m, u, mut c) = setup();
    let sub = submission(vec![leg(0, Direction::Buy, 2_000_000, 1_000_000)]);
    let (ok, _) = evaluate(&m, &mut s, &u, fee(), &mut c, 42, &sub);
    assert_eq!(ok, 0);
    // Malformed (< 2 legs) submissions still pay the static fee.
    assert_eq!(c[&42].balance, 1_000_000_000_i64 - fee().static_atomic_usd as i64);
}

#[test]
fn rejects_unknown_contestant() {
    let (mut s, m, u, mut c) = setup();
    let sub = submission(vec![
        leg(0, Direction::Buy, 2_000_000, 1_000_000),
        leg(0, Direction::Sell, 2_000_000, 1_000_000),
    ]);
    let (ok, bal) = evaluate(&m, &mut s, &u, fee(), &mut c, 99, &sub);
    assert_eq!(ok, 0);
    assert_eq!(bal, 0);
}

#[test]
fn rejects_price_mismatch() {
    let (mut s, m, u, mut c) = setup();
    let start_balance = c[&42].balance;
    let sub = submission(vec![
        leg(0, Direction::Buy, 1_999_999, 1_000_000),
        leg(0, Direction::Sell, 2_000_000, 1_000_000),
    ]);
    let (ok, _) = evaluate(&m, &mut s, &u, fee(), &mut c, 42, &sub);
    assert_eq!(ok, 0);
    // Leg 0 fee was computed before the price check failed: static (1_000)
    // + 10 bps × $2 atomic (= 2_000) = 3_000.
    assert_eq!(c[&42].balance, start_balance - 3_000);
}

#[test]
fn rejects_first_leg_not_usd() {
    let (mut s, m, u, mut c) = setup();
    let start_balance = c[&42].balance;
    let sub = submission(vec![
        leg(2, Direction::Buy, 666_666, 1_000_000),
        leg(1, Direction::Sell, 3_000_000, 666_666),
    ]);
    let (ok, _) = evaluate(&m, &mut s, &u, fee(), &mut c, 42, &sub);
    assert_eq!(ok, 0);
    // Structural pre-loop reject: one static fee.
    assert_eq!(c[&42].balance, start_balance - fee().static_atomic_usd as i64);
}

#[test]
fn rejects_chain_amount_mismatch() {
    let (mut s, m, u, mut c) = setup();
    let start_balance = c[&42].balance;
    // leg 0 outputs 1_000_000 atomic-A; leg 1 tries to sell 2_000_000 atomic-A.
    let sub = submission(vec![
        leg(0, Direction::Buy, 2_000_000, 1_000_000),
        leg(0, Direction::Sell, 2_000_000, 2_000_000),
    ]);
    let (ok, _) = evaluate(&m, &mut s, &u, fee(), &mut c, 42, &sub);
    assert_eq!(ok, 0);
    // Both legs had their fees computed before the chain mismatch fired.
    // leg 0: 3_000 (static + 10 bps × $2). leg 1: 1_000 + 10 bps × $4 = 5_000.
    assert_eq!(c[&42].balance, start_balance - (3_000 + 5_000));
}

#[test]
fn rejects_volume_over_pool() {
    let (mut s, m, u, mut c) = setup();
    let start_balance = c[&42].balance;
    s[0].volume = 500_000; // less than what we try to fill
    let sub = submission(vec![
        leg(0, Direction::Buy, 2_000_000, 1_000_000),
        leg(0, Direction::Sell, 2_000_000, 1_000_000),
    ]);
    let (ok, _) = evaluate(&m, &mut s, &u, fee(), &mut c, 42, &sub);
    assert_eq!(ok, 0);
    assert_eq!(s[0].volume, 500_000); // unchanged
                                      // Leg 0 fee was charged before the volume cap fired.
    assert_eq!(c[&42].balance, start_balance - 3_000);
}

#[test]
fn intra_submission_pool_depletion_enforced() {
    let (mut s, m, u, mut c) = setup();
    let start_balance = c[&42].balance;
    // Pool has 1.5M; both legs together want 2M.
    s[0].volume = 1_500_000;
    let sub = submission(vec![
        leg(0, Direction::Buy, 2_000_000, 1_000_000),
        leg(0, Direction::Sell, 2_000_000, 1_000_000),
    ]);
    let (ok, _) = evaluate(&m, &mut s, &u, fee(), &mut c, 42, &sub);
    assert_eq!(ok, 0);
    assert_eq!(s[0].volume, 1_500_000); // unchanged
                                        // Leg 0 fee + leg 1 fee charged before leg 1's volume cap fired.
    assert_eq!(c[&42].balance, start_balance - (3_000 + 3_000));
}

#[test]
fn round_trip_two_legs_loses_fees() {
    // Buy 1 whole A for $2, immediately Sell 1 whole A for $2.
    // Net USD: 0. Two legs of fees: each = static + variable_bps * $2.
    let (mut s, m, u, mut c) = setup();
    let start_balance = c[&42].balance;
    let start_pool = s[0].volume;

    let sub = submission(vec![
        leg(0, Direction::Buy, 2_000_000, 1_000_000),
        leg(0, Direction::Sell, 2_000_000, 1_000_000),
    ]);
    let (ok, bal) = evaluate(&m, &mut s, &u, fee(), &mut c, 42, &sub);
    assert_eq!(ok, 1);
    // Expected fee per leg: static (1_000) + 10 bps of $2 atomic = 10 * 2_000_000 / 10_000 = 2_000.
    // Total = 2 * 3_000 = 6_000.
    let expected = start_balance - 6_000;
    assert_eq!(bal, expected);
    assert_eq!(c[&42].balance, expected);
    // Pool was depleted by 2_000_000 (sum of both leg volumes).
    assert_eq!(s[0].volume, start_pool - 2_000_000);
}

#[test]
fn submission_pushes_balance_negative() {
    // Same round-trip as `round_trip_two_legs_loses_fees`, but the
    // contestant starts with less than the 6_000 in fees. The trade
    // still executes; the balance just dips underwater.
    let (mut s, m, u, mut c) = setup();
    c.get_mut(&42).unwrap().balance = 1_000;
    let sub = submission(vec![
        leg(0, Direction::Buy, 2_000_000, 1_000_000),
        leg(0, Direction::Sell, 2_000_000, 1_000_000),
    ]);
    let (ok, bal) = evaluate(&m, &mut s, &u, fee(), &mut c, 42, &sub);
    assert_eq!(ok, 1);
    // Net delta = -6_000 (round-trip on same pair, just fees); 1_000 - 6_000 = -5_000.
    assert_eq!(bal, -5_000);
    assert_eq!(c[&42].balance, -5_000);
}

#[test]
fn rejects_when_balance_already_negative() {
    // Underwater contestants get an immediate no-op rejection — no fees,
    // no state mutation, no processing.
    let (mut s, m, u, mut c) = setup();
    c.get_mut(&42).unwrap().balance = -42;
    let start_pool = s[0].volume;
    let sub = submission(vec![
        leg(0, Direction::Buy, 2_000_000, 1_000_000),
        leg(0, Direction::Sell, 2_000_000, 1_000_000),
    ]);
    let (ok, bal) = evaluate(&m, &mut s, &u, fee(), &mut c, 42, &sub);
    assert_eq!(ok, 0);
    assert_eq!(bal, -42);
    assert_eq!(c[&42].balance, -42); // unchanged
    assert_eq!(s[0].volume, start_pool); // pool untouched
}

#[test]
fn three_leg_round_trip_succeeds() {
    // A -> B -> A round trip via cross pair, then back to USD.
    // 1 whole A -> 0.666666 B (price 666_666 atomic-B per 1 whole A)
    // 0.666666 B -> ? A at the same price (Buy A on A/B pair)
    // For an exact return, leg 2: Buy on A/B pair: input atomic-B = volume * price / 10^base_dec
    //   leg2.volume must round-trip back to 1 whole A; with integer math we have to engineer this.
    // Simpler: do USD -> A -> USD using two USD pairs A/USD and B/USD via cross.
    // Use Buy USD->A, Sell A on A/B for B, Sell B->USD.
    let (mut s, m, u, mut c) = setup();
    let start_balance = c[&42].balance;
    // leg 0: Buy on A/USD: spend 1 A * 2_000_000 = 2_000_000 atomic-USD, receive 1_000_000 atomic-A.
    // leg 1: Sell on A/B: spend 1_000_000 atomic-A, receive 1_000_000 * 666_666 / 10^6 = 666_666 atomic-B.
    // leg 2: Sell on B/USD: spend 666_666 atomic-B, receive 666_666 * 3_000_000 / 10^6 = 1_999_998 atomic-USD.
    // Net USD: 1_999_998 - 2_000_000 = -2 atomic-USD (rounding).
    // Fees: 3 legs, each = static + variable_bps * (leg.volume * usd_price[base] / 10^base.dec) / 10000.
    //   leg0 base=A, usd_value = 10^6 * 2_000_000 / 10^6 = 2_000_000.
    //        fee = 1000 + 10*2_000_000/10_000 = 3000.
    //   leg1 base=A, usd_value = 2_000_000. fee = 3000.
    //   leg2 base=B, usd_value = 666_666 * 3_000_000 / 10^6 = 1_999_998. fee = 1000 + 1999 = 2999.
    // Total fees = 8999.
    // Net delta = -2 - 8999 = -9001.
    let sub = submission(vec![
        leg(0, Direction::Buy, 2_000_000, 1_000_000),
        leg(2, Direction::Sell, 666_666, 1_000_000),
        leg(1, Direction::Sell, 3_000_000, 666_666),
    ]);
    let (ok, bal) = evaluate(&m, &mut s, &u, fee(), &mut c, 42, &sub);
    assert_eq!(ok, 1, "should succeed");
    assert_eq!(bal, start_balance - 9001);
}

#[test]
fn round_trip_leaves_other_pools_and_contestants() {
    let (mut s, m, u, mut c) = setup();
    c.insert(7, Contestant::new(7, 5));
    let before = s.clone();
    let sub = submission(vec![
        leg(0, Direction::Buy, 2_000_000, 1_000_000),
        leg(0, Direction::Sell, 2_000_000, 1_000_000),
    ]);
    let (ok, _) = evaluate(&m, &mut s, &u, fee(), &mut c, 42, &sub);
    assert_eq!(ok, 1);
    assert_eq!(c[&7].balance, 5);
    assert_eq!(s[1], before[1]);
    assert_eq!(s[2], before[2]);
    assert_eq!(s[0].price, before[0].price);
}

#[test]
fn unknown_pair_in_the_middle_costs_a_flat_fee() {
    let (mut s, m, u, mut c) = setup();
    let sub = submission(vec![
        leg(0, Direction::Buy, 2_000_000, 1_000_000),
        leg(9, Direction::Sell, 1, 1_000_000),
        leg(1, Direction::Sell, 3_000_000, 666_666),
    ]);
    let before = s.clone();
    let (ok, bal) = evaluate(&m, &mut s, &u, fee(), &mut c, 42, &sub);
    assert_eq!(ok, 0);
    assert_eq!(bal, 1_000_000_000 - 3_000 - 1_000);
    assert_eq!(s, before);
}

#[test]
fn last_leg_must_sell_for_usd() {
    let (mut s, m, u, mut c) = setup();
    let sub = submission(vec![
        leg(0, Direction::Buy, 2_000_000, 1_000_000),
        leg(2, Direction::Sell, 666_666, 1_000_000),
    ]);
    assert_eq!(evaluate(&m, &mut s, &u, fee(), &mut c, 42, &sub), (0, 999_999_000));
    let sub = submission(vec![
        leg(0, Direction::Buy, 2_000_000, 1_000_000),
        leg(0, Direction::Buy, 2_000_000, 1_000_000),
    ]);
    assert_eq!(evaluate(&m, &mut s, &u, fee(), &mut c, 42, &sub), (0, 999_998_000));
}

#[test]
fn a_mispriced_cross_pair_pays() {
    let (mut s, m, u, mut c) = setup();
    s[2].price = 700_000;
    let sub = submission(vec![
        leg(0, Direction::Buy, 2_000_000, 1_000_000),
        leg(2, Direction::Sell, 700_000, 1_000_000),
        leg(1, Direction::Sell, 3_000_000, 700_000),
    ]);
    // 2_100_000 come back for 2_000_000; fees 3_000 + 3_000 + 3_100.
    assert_eq!(evaluate(&m, &mut s, &u, fee(), &mut c, 42, &sub), (1, 1_000_000_000 + 100_000 - 9_100));
}

#[test]
fn a_long_loop_of_sells_in_equilibrium_gains_nothing() {
    let (mut s, mut m, mut u, mut c) = setup();
    // C at $7, and B/C at 3/7.
    m.push(Token { id: 3, decimals: 6 });
    s.insert(2, TokenPair { id: 2, base: 3, quote: 0, price: 7_000_000, volume: 1_000_000_000 });
    s[3].id = 3;
    s.push(TokenPair { id: 4, base: 2, quote: 3, price: 428_571, volume: 1_000_000_000 });
    u.push(2);
    let sub = submission(vec![
        leg(0, Direction::Buy, 2_000_000, 1_000_000),
        leg(3, Direction::Sell, 666_666, 1_000_000),
        leg(4, Direction::Sell, 428_571, 666_666),
        leg(2, Direction::Sell, 7_000_000, 285_713),
    ]);
    // 1_999_991 come back for 2_000_000; fees 3_000 + 3_000 + 2_999 + 2_999.
    assert_eq!(evaluate(&m, &mut s, &u, fee(), &mut c, 42, &sub), (1, 1_000_000_000 - 9 - 11_998));
}

#[test]
fn numbers_that_do_not_fit_change_nothing() {
    let (mut s, m, u, mut c) = setup();
    let sub = submission(vec![
        leg(0, Direction::Buy, 2_000_000, u64::MAX),
        leg(0, Direction::Sell, 2_000_000, u64::MAX),
    ]);
    let before = s.clone();
    assert_eq!(try_evaluate(&m, &mut s, &u, fee(), &mut c, 42, &sub), None);
    assert_eq!(s, before);
    assert_eq!(c[&42].balance, 1_000_000_000);
    // Nobody looks at the route of a contestant who is underwater or unknown.
    c.get_mut(&42).unwrap().balance = -1;
    assert_eq!(try_evaluate(&m, &mut s, &u, fee(), &mut c, 42, &sub), Some((0, -1)));
    assert_eq!(try_evaluate(&m, &mut s, &u, fee(), &mut c, 99, &sub), Some((0, 0)));
}

#[test]
fn a_balance_that_does_not_fit_changes_nothing() {
    let (mut s, m, u, mut c) = setup();
    c.get_mut(&42).unwrap().balance = 0;
    let dear = Fee { static_atomic_usd: 1 << 63, variable_bps: 0 };
    // As an `i64` the fee is the least number, which cannot be taken off zero.
    let sub = submission(vec![]);
    assert_eq!(try_evaluate(&m, &mut s, &u, dear, &mut c, 42, &sub), None);
    assert_eq!(c[&42].balance, 0);
}

#[test]
fn contestants_start_with_whole_usd() {
    let c = Contestant::new_with_decimals(3, 100, 6);
    assert_eq!((c._id, c.balance), (3, 100_000_000));
    assert_eq!(Contestant::new_with_decimals(3, -2, 18).balance, -2_000_000_000_000_000_000);
}
