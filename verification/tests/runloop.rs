use std::collections::HashMap;

use arbitrage_arena::engine::contestant::Contestant;
use arbitrage_arena::engine::runloop::{usd_pair_index, Action, Runloop, SUBMISSION_DRAIN_LIMIT};
use arbitrage_arena::generation::config::{GenerationConfig, Range};
use arbitrage_arena::generation::generate_feed::generate_feed;
use arbitrage_arena::generation::generate_market::generate_market;
use arbitrage_arena::protocol::feed::{FeedTick, PriceUpdate};
use arbitrage_arena::protocol::market::{Fee, Market, Token, TokenPair};
use arbitrage_arena::protocol::submission::{Direction, RouteSubmission, RouteSubmissionLeg};

fn market() -> Market {
    Market {
        fee: Fee { static_atomic_usd: 1_000, variable_bps: 10 },
        tokens: vec![Token { id: 0, decimals: 6 }, Token { id: 1, decimals: 6 }],
        pairs: vec![TokenPair { id: 0, base: 1, quote: 0, price: 2_000_000, volume: 10_000_000 }],
    }
}

fn tick(delay_us: u64, price: u64) -> FeedTick {
    FeedTick { delay_us, update: PriceUpdate { seq: 0, token_pair_id: 0, price, volume: 5_000_000 } }
}

fn contestants() -> HashMap<u64, Contestant> {
    let mut c = HashMap::new();
    c.insert(42, Contestant::new(42, 1_000_000));
    c
}

fn round_trip(price: u64) -> RouteSubmission {
    let leg = |direction: Direction| RouteSubmissionLeg { pair_id: 0, direction, price, volume: 1_000_000 };
    RouteSubmission { sub_id: 5, legs: vec![leg(Direction::Buy), leg(Direction::Sell)] }
}

#[test]
fn ticks_go_out_when_they_are_due() {
    let feed = vec![tick(100, 2_100_000), tick(20, 2_200_000)];
    assert!(Runloop::can_run(&feed, &market()));
    let mut run = Runloop::new(feed, market(), contestants());
    assert!(run.has_room());

    // 100 us to go: sleep all but the slack of 50 us.
    assert_eq!(run.on_read(0, 10_000), Action::Sleep { ns: 40_000 });
    run.on_waited(0, 10_000, 51_000);
    // 49 us to go: spin.
    assert_eq!(run.on_read(51_000, 51_000), Action::Spin);
    run.on_waited(51_000, 51_000, 51_100);
    // Due, 12 us late.
    let action = run.on_read(111_000, 112_000);
    assert_eq!(action, Action::Send { update: tick(0, 2_100_000).update });
    assert!(run.is_sending());
    run.on_sent(111_000, 112_000, Some(3), 113_000);
    assert!(!run.is_sending());
    // The second one is due at 120 us, exactly now; nobody takes it.
    assert_eq!(run.on_read(120_000, 120_000), Action::Send { update: tick(0, 2_200_000).update });
    run.on_sent(120_000, 120_000, None, 120_500);
    assert_eq!(run.on_read(121_000, 121_000), Action::Stop);

    assert_eq!(run.sample_counts(), [5, 2, 2, 5, 2, 1]);
    let out = run.finish([3, 1, 1, 3, 1, 1], [5, 2, 2, 5, 2, 1]);
    assert_eq!((out.dispatched, out.udp_dispatch_errors), (1, 1));
    assert_eq!((out.late_ticks, out.final_overshoot_ns), (1, 0));
    assert_eq!((out.overshoot_stats.max, out.overshoot_stats.count), (12_000, 2));
    assert_eq!((out.udp_queue_depth_stats.name, out.udp_queue_depth_stats.unit), ("udp_queue_depth", "items"));
    assert_eq!(out.udp_queue_depth_stats.max, 3);
    assert_eq!(out.send_stats.total, 1_500);
    assert_eq!(out.wait_stats.total, 41_000 + 100);
    assert_eq!((out.read_stats.name, out.iter_stats.name), ("read", "iter"));
}

#[test]
fn submissions_are_settled_at_the_price_that_is_shown() {
    let mut run = Runloop::new(vec![tick(0, 3_000_000)], market(), contestants());
    // At the opening price: fees of 3_000 for each leg.
    let r = run.on_submission(42, &round_trip(2_000_000)).unwrap();
    assert_eq!((r.sub_id, r.ok, r.balance), (5, 1, 1_000_000 - 6_000));
    assert!(matches!(run.on_read(0, 0), Action::Send { .. }));
    run.on_sent(0, 0, Some(0), 0);
    // The old price is no longer good: one leg's fee, 1_000 + 10 bps of $3.
    let r = run.on_submission(42, &round_trip(2_000_000)).unwrap();
    assert_eq!((r.ok, r.balance), (0, 994_000 - 4_000));
    let r = run.on_submission(42, &round_trip(3_000_000)).unwrap();
    assert_eq!((r.ok, r.balance), (1, 990_000 - 8_000));
    let r = run.on_submission(1, &round_trip(3_000_000)).unwrap();
    assert_eq!((r.ok, r.balance), (0, 0));
    assert!(run.may_lose_response());
    run.on_response_dropped();

    let out = run.finish([0; 6], [0; 6]);
    assert_eq!((out.submissions_received, out.submissions_ok, out.submissions_fail), (4, 2, 2));
    assert_eq!(out.responses_dropped, 1);
}

#[test]
fn a_whole_run_keeps_the_order_of_feed_and_arrival() {
    let feed = vec![tick(0, 3_000_000), tick(1, 4_000_000), tick(1, 5_000_000)];
    let mut run = Runloop::new(feed.clone(), market(), contestants());
    let mut sent = Vec::new();
    let mut answers = Vec::new();
    let mut now = 0;
    let mut sub_id = 100;
    loop {
        // Two messages before each look at the feed, good at the price of the tick before.
        for price in [2_000_000 + 1_000_000 * sent.len() as u64, 1] {
            let mut sub = round_trip(price);
            sub.sub_id = sub_id;
            sub_id += 1;
            answers.push(run.on_submission(42, &sub).unwrap());
        }
        match run.on_read(now, now) {
            Action::Stop => break,
            Action::Send { update } => {
                sent.push(update);
                run.on_sent(now, now, Some(0), now);
            }
            _ => run.on_waited(now, now, now),
        }
        now += 1_000;
    }
    assert_eq!(sent, feed.iter().map(|t| t.update).collect::<Vec<_>>());
    assert_eq!(answers.iter().map(|a| a.sub_id).collect::<Vec<_>>(), (100..sub_id).collect::<Vec<_>>());
    assert_eq!(answers.iter().map(|a| a.ok).collect::<Vec<_>>(), vec![1, 0, 1, 0, 1, 0, 1, 0]);
    // Each fill costs the two fees at its price, each failure one.
    let fee = |price: u64| 1_000 + price as i64 / 1_000;
    let mut balance = 1_000_000;
    for (i, a) in answers.iter().enumerate() {
        let live = 2_000_000 + 1_000_000 * (i as u64 / 2);
        balance -= if i % 2 == 0 { 2 * fee(live) } else { fee(live) };
        assert_eq!(a.balance, balance);
    }
    assert_eq!(run.sample_counts(), [4, 0, 3, 4, 3, 3]);
}

#[test]
fn no_more_responses_are_lost_than_submissions_received() {
    let mut run = Runloop::new(vec![], market(), contestants());
    assert!(!run.may_lose_response());
    run.on_submission(42, &round_trip(1)).unwrap();
    assert!(run.may_lose_response());
    run.on_response_dropped();
    assert!(!run.may_lose_response());
    let out = run.finish([0; 6], [0; 6]);
    assert_eq!((out.submissions_received, out.responses_dropped), (1, 1));
}

#[test]
fn the_feed_is_looked_at_after_so_many_submissions() {
    assert!(Runloop::drains_on(0));
    assert!(Runloop::drains_on(SUBMISSION_DRAIN_LIMIT - 1));
    assert!(!Runloop::drains_on(SUBMISSION_DRAIN_LIMIT));
    let run = Runloop::new(vec![], market(), contestants());
    assert!(run.knows(42) && !run.knows(1));
}

#[test]
fn a_submission_that_does_not_fit_is_not_counted() {
    let mut run = Runloop::new(vec![], market(), contestants());
    let mut sub = round_trip(2_000_000);
    sub.legs[0].volume = u64::MAX;
    assert!(run.on_submission(42, &sub).is_none());
    assert_eq!(run.on_read(0, 5), Action::Stop);
    let out = run.finish([1; 6], [1; 6]);
    assert_eq!(out.submissions_received, 0);
    assert_eq!((out.read_stats.count, out.read_stats.total), (1, 5));
}

#[test]
fn feeds_that_cannot_run_are_told() {
    let mut m = market();
    assert!(!Runloop::can_run(&vec![tick(u64::MAX, 1), tick(1, 1)], &m));
    let mut t = tick(0, 1);
    t.update.token_pair_id = 1;
    assert!(!Runloop::can_run(&vec![t], &m));
    m.pairs[0].base = 2;
    assert!(!Runloop::can_run(&vec![], &m));
}

#[test]
fn usd_pairs_are_indexed_by_token() {
    let pair = |base: u64, quote: u64| TokenPair { id: 0, base, quote, price: 1, volume: 1 };
    let pairs = vec![pair(2, 0), pair(2, 1), pair(1, 0), pair(1, 0)];
    assert_eq!(usd_pair_index(4, &pairs), vec![usize::MAX, 3, 0, usize::MAX]);
    assert_eq!(SUBMISSION_DRAIN_LIMIT, 64);
}

#[test]
fn a_whole_run_ends_at_the_prices_of_the_feed() {
    let cfg = GenerationConfig {
        decimals: Range { min: 6, max: 6 },
        usd_decimals: 6,
        price_usd: Range { min: 1, max: 100 },
        volume_usd: Range { min: 100, max: 1_000 },
        token_count: 6,
        pair_count: 10,
        static_fee_atomic_usd: 10,
        variable_fee_bps: 1,
        arb_count: 60,
        updates_per_ms: 2,
        rebalance_delay_us: Range { min: 5, max: 50 },
        price_perturb_bps: Range { min: 10, max: 100 },
        volume_perturb_bps: Range { min: 10, max: 100 },
    };
    let market = generate_market(&cfg, 1).unwrap();
    let feed = generate_feed(&market, &cfg, 2).unwrap();
    assert!(Runloop::can_run(&feed, &market));
    let mut last: Vec<u64> = market.pairs.iter().map(|p| p.price).collect();
    for t in &feed {
        last[t.update.token_pair_id as usize] = t.update.price;
    }
    let mut run = Runloop::new(feed, market.clone(), contestants());
    let trade = |pair_id: u64, price: u64| {
        let leg = |direction: Direction| RouteSubmissionLeg { pair_id, direction, price, volume: 10 };
        RouteSubmission { sub_id: 1, legs: vec![leg(Direction::Buy), leg(Direction::Sell)] }
    };
    let mut sent = 0;
    while let Action::Send { update } = run.on_read(0, u128::MAX) {
        run.on_sent(0, 0, Some(0), 0);
        // Trading takes from the pools, and leaves prices to the feed.
        if update.token_pair_id < 5 {
            assert_eq!(run.on_submission(42, &trade(update.token_pair_id, update.price)).unwrap().ok, 1);
        }
        sent += 1;
    }
    assert!(sent >= 60);
    for pair in 0..5 {
        assert_eq!(run.on_submission(42, &trade(pair, last[pair as usize])).unwrap().ok, 1);
    }
    for p in &market.pairs[5..] {
        let base = last[p.base as usize - 1];
        let quote = last[p.quote as usize - 1];
        assert_eq!(last[p.id as usize], base * 1_000_000 / quote);
    }
}
