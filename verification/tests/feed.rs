use arbitrage_arena::protocol::feed::{apply_update, duration_us, FeedTick, PriceUpdate};
use arbitrage_arena::protocol::market::TokenPair;

fn update() -> PriceUpdate {
    PriceUpdate { seq: 1, token_pair_id: 0x0203, price: u64::MAX, volume: 5 }
}

#[test]
fn update_bytes() {
    let mut expected = Vec::new();
    expected.extend_from_slice(&1u64.to_le_bytes());
    expected.extend_from_slice(&0x0203u64.to_le_bytes());
    expected.extend_from_slice(&u64::MAX.to_le_bytes());
    expected.extend_from_slice(&5u64.to_le_bytes());
    assert_eq!(update().as_bytes().to_vec(), expected);
    assert_eq!(expected.len(), PriceUpdate::WIRE_SIZE);
}

#[test]
fn a_written_update_is_read_back() {
    let mut packet = update().as_bytes().to_vec();
    assert_eq!(PriceUpdate::from_bytes(&packet), Some(update()));
    packet.push(9);
    assert_eq!(PriceUpdate::from_bytes(&packet), Some(update()));
    assert_eq!(PriceUpdate::from_bytes(&packet[..31]), None);
}

#[test]
fn an_update_touches_its_pair_only() {
    let pair = |id: u64| TokenPair { id, base: 1, quote: 0, price: 10, volume: 20 };
    let mut pairs = vec![pair(0), pair(1)];
    apply_update(&mut pairs, PriceUpdate { seq: 0, token_pair_id: 1, price: 11, volume: 21 });
    assert_eq!(pairs, vec![pair(0), TokenPair { price: 11, volume: 21, ..pair(1) }]);
}

#[test]
fn durations_add_up() {
    let tick = |delay_us: u64| FeedTick { delay_us, update: update() };
    assert_eq!(duration_us(&[]), Some(0));
    assert_eq!(duration_us(&[tick(3), tick(0), tick(4)]), Some(7));
    assert_eq!(duration_us(&[tick(u64::MAX), tick(1)]), None);
}
