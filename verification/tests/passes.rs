//! The passes of feed generation, one by one.
use rand::SeedableRng;
use rand_pcg::Pcg64Mcg;

use arbitrage_arena::generation::config::{GenerationConfig, Range};
use arbitrage_arena::generation::dedupe::dedupe;
use arbitrage_arena::generation::emission::{emit, order_events, perturb, read_prices, recompute_price, Tick};
use arbitrage_arena::generation::schedule::{build_adjacency, schedule_events, Event, EventKind};
use arbitrage_arena::generation::volumes::{volume_bounds, walk_volumes};
use arbitrage_arena::protocol::market::{Token, TokenPair};

fn config() -> GenerationConfig {
    GenerationConfig {
        decimals: Range { min: 6, max: 6 },
        usd_decimals: 6,
        price_usd: Range { min: 1, max: 10 },
        volume_usd: Range { min: 100, max: 1_000 },
        token_count: 3,
        pair_count: 3,
        static_fee_atomic_usd: 1,
        variable_fee_bps: 1,
        arb_count: 40,
        updates_per_ms: 20,
        rebalance_delay_us: Range { min: 5, max: 50 },
        price_perturb_bps: Range { min: 10, max: 100 },
        volume_perturb_bps: Range { min: 100, max: 100 },
    }
}

fn tokens() -> Vec<Token> {
    vec![Token { id: 0, decimals: 6 }, Token { id: 1, decimals: 6 }, Token { id: 2, decimals: 6 }]
}

fn pairs() -> Vec<TokenPair> {
    vec![
        TokenPair { id: 0, base: 1, quote: 0, price: 2_000_000, volume: 100_000_000 },
        TokenPair { id: 1, base: 2, quote: 0, price: 3_000_000, volume: 100_000_000 },
        TokenPair { id: 2, base: 1, quote: 2, price: 666_666, volume: 100_000_000 },
    ]
}

fn rebalance(t: u64, pair_idx: usize) -> Event {
    Event { t, kind: EventKind::Rebalance { pair_idx } }
}

#[test]
fn adjacency_leaves_usd_out() {
    let adj = build_adjacency(3, &pairs());
    assert_eq!(adj, vec![vec![], vec![0, 2], vec![1, 2]]);
}

#[test]
fn offsets_ascend_within_each_window() {
    let cfg = config();
    let adj = build_adjacency(3, &pairs());
    let mut rng = Pcg64Mcg::seed_from_u64(8);
    let events = schedule_events(&cfg, &adj, &mut rng).unwrap();
    assert_eq!(events.len(), 80);
    let times: Vec<u64> = events.iter().filter(|e| matches!(e.kind, EventKind::Mispricing { .. })).map(|e| e.t).collect();
    assert_eq!(times.len(), 40);
    assert!(times.windows(2).all(|w| w[0] <= w[1]));
    assert!(times[..20].iter().all(|t| *t < 1_000));
    assert!(times[20..].iter().all(|t| *t >= 1_000 && *t < 2_000));
    assert!(times[0] < times[19]);
}

#[test]
fn rebalances_follow_their_mispricing() {
    let cfg = config();
    let adj = build_adjacency(3, &pairs());
    let mut rng = Pcg64Mcg::seed_from_u64(9);
    let events = schedule_events(&cfg, &adj, &mut rng).unwrap();
    for block in events.chunks(2) {
        match (block[0].kind, block[1].kind) {
            (EventKind::Mispricing { token, main_pair_idx, delta_bps, .. }, EventKind::Rebalance { pair_idx }) => {
                assert!(adj[token].contains(&main_pair_idx) && adj[token].contains(&pair_idx));
                assert_ne!(main_pair_idx, pair_idx);
                assert!((10..=100).contains(&delta_bps));
                let wait = block[1].t - block[0].t;
                assert!((5..=50).contains(&wait));
            }
            other => panic!("unexpected block {other:?}"),
        }
    }
}

#[test]
fn events_of_one_time_keep_their_order() {
    let mut events = vec![rebalance(9, 0), rebalance(3, 1), rebalance(9, 2), rebalance(3, 3), rebalance(1, 4)];
    order_events(&mut events);
    assert_eq!(
        events,
        vec![rebalance(1, 4), rebalance(3, 1), rebalance(3, 3), rebalance(9, 0), rebalance(9, 2)]
    );
}

#[test]
fn perturbation_rounds_down_and_clamps() {
    assert_eq!(perturb(1_000_001, 50, true, 0, u64::MAX), 1_005_001);
    assert_eq!(perturb(1_000_001, 50, false, 0, u64::MAX), 995_000);
    assert_eq!(perturb(1_000, 9_999, false, 10, 20), 10);
    assert_eq!(perturb(1_000, 9_999, true, 10, 20), 20);
}

#[test]
fn prices_move_as_events_come() {
    let cfg = config();
    let opening = read_prices(&cfg, &tokens(), &pairs());
    assert_eq!(opening, vec![1_000_000, 2_000_000, 3_000_000]);
    assert_eq!(recompute_price(&pairs()[2], &opening, &tokens()), 666_666);
    let events = vec![
        Event { t: 1, kind: EventKind::Mispricing { token: 1, delta_bps: 100, sign_positive: true, main_pair_idx: 2 } },
        rebalance(2, 0),
        rebalance(3, 1),
    ];
    let ticks = emit(&cfg, &tokens(), &pairs(), &opening, &events);
    assert_eq!(
        ticks,
        vec![
            Tick { t: 1, pair_idx: 2, price: 673_333, is_main: true },
            Tick { t: 2, pair_idx: 0, price: 2_020_000, is_main: false },
            Tick { t: 3, pair_idx: 1, price: 3_000_000, is_main: false },
        ]
    );
}

#[test]
fn a_cluster_changes_its_price_once() {
    let follow = |t: u64, price: u64| Tick { t, pair_idx: 0, price, is_main: false };
    let mut reverted = std::collections::HashSet::new();
    for seed in 0..50 {
        let mut ticks: Vec<Tick> = (0..4).map(|t| follow(t, 9)).collect();
        let mut rng = Pcg64Mcg::seed_from_u64(seed);
        dedupe(&mut ticks, &pairs()[..1].to_vec(), &mut rng);
        let keep = ticks.iter().take_while(|t| t.price == 2_000_000).count();
        assert!(ticks[keep..].iter().all(|t| t.price == 9));
        assert!(keep < 4, "the last tick keeps its price");
        reverted.insert(keep);
    }
    assert_eq!(reverted.len(), 4);
}

#[test]
fn main_ticks_and_lone_ticks_stay() {
    let before = vec![
        Tick { t: 0, pair_idx: 0, price: 7, is_main: true },
        Tick { t: 1, pair_idx: 0, price: 7, is_main: false },
        Tick { t: 2, pair_idx: 0, price: 7, is_main: false },
        Tick { t: 3, pair_idx: 0, price: 8, is_main: false },
        Tick { t: 4, pair_idx: 1, price: 5, is_main: false },
    ];
    let mut ticks = before.clone();
    dedupe(&mut ticks, &pairs(), &mut Pcg64Mcg::seed_from_u64(1));
    assert_eq!(ticks, before);
}

#[test]
fn pools_walk_within_their_bounds() {
    let cfg = config();
    let pu = vec![1_000_000, 2_000_000, 3_000_000];
    let (lo, hi) = volume_bounds(&cfg, &tokens(), &pairs(), &pu);
    assert_eq!(lo, vec![50_000_000, 33_333_333, 50_000_000]);
    assert_eq!(hi, vec![500_000_000, 333_333_333, 500_000_000]);
    let ticks: Vec<Tick> = (0..200).map(|t| Tick { t, pair_idx: 0, price: 1, is_main: false }).collect();
    let shown = walk_volumes(&cfg, &ticks, &lo, &hi, &pairs(), &mut Pcg64Mcg::seed_from_u64(2));
    let mut pool: u64 = 100_000_000;
    for v in shown {
        assert!(v == pool * 10_100 / 10_000 || v == pool * 9_900 / 10_000 || v == 50_000_000 || v == 500_000_000);
        assert!((50_000_000..=500_000_000).contains(&v));
        pool = v;
    }
}
