use arbitrage_arena::protocol::market::{
    parse_market, serialize_market, states_lengths, Cursor, Fee, Market, Token, TokenPair, PAIR_SIZE, TOKEN_SIZE,
};

fn fee() -> Fee {
    Fee {
        static_atomic_usd: 10_000,
        variable_bps: 5,
    }
}

fn serialize_fee_block() -> Vec<u8> {
    let mut v = Vec::new();
    v.extend_from_slice(&10_000u64.to_le_bytes());
    v.extend_from_slice(&5u64.to_le_bytes());
    v
}

#[test]
fn empty_market() {
    let m = Market {
        fee: fee(),
        tokens: vec![],
        pairs: vec![],
    };
    let mut expected = serialize_fee_block();
    expected.extend_from_slice(&0u64.to_le_bytes()); // tokens_byte_len
    expected.extend_from_slice(&0u64.to_le_bytes()); // pairs_byte_len
    assert_eq!(serialize_market(&m), expected);
}

#[test]
fn one_token_one_pair() {
    let m = Market {
        fee: fee(),
        tokens: vec![Token { id: 1, decimals: 6 }],
        pairs: vec![TokenPair {
            id: 2,
            base: 3,
            quote: 1,
            price: 4,
            volume: 5,
        }],
    };

    let mut expected = serialize_fee_block();
    expected.extend_from_slice(&(TOKEN_SIZE as u64).to_le_bytes());
    expected.extend_from_slice(&1u64.to_le_bytes());
    expected.extend_from_slice(&6u64.to_le_bytes());
    expected.extend_from_slice(&(PAIR_SIZE as u64).to_le_bytes());
    expected.extend_from_slice(&2u64.to_le_bytes());
    expected.extend_from_slice(&3u64.to_le_bytes());
    expected.extend_from_slice(&1u64.to_le_bytes());
    expected.extend_from_slice(&4u64.to_le_bytes());
    expected.extend_from_slice(&5u64.to_le_bytes());

    assert_eq!(serialize_market(&m), expected);
}

#[test]
fn size_accounting() {
    let m = Market {
        fee: fee(),
        tokens: vec![Token { id: 0, decimals: 6 }, Token { id: 1, decimals: 6 }],
        pairs: vec![
            TokenPair {
                id: 0,
                base: 0,
                quote: 1,
                price: 100,
                volume: 1000,
            },
            TokenPair {
                id: 1,
                base: 1,
                quote: 0,
                price: 200,
                volume: 2000,
            },
        ],
    };

    // 16 fee + 8 tokens_len + 2*16 tokens + 8 pairs_len + 2*40 pairs
    assert_eq!(serialize_market(&m).len(), 16 + 8 + 32 + 8 + 80);
}

fn small_market() -> Market {
    Market {
        fee: fee(),
        tokens: vec![Token { id: 0, decimals: 6 }, Token { id: 1, decimals: 4 }],
        pairs: vec![TokenPair { id: 0, base: 1, quote: 0, price: u64::MAX, volume: 0x0102_0304_0506_0708 }],
    }
}

#[test]
fn a_written_market_is_read_back() {
    let m = small_market();
    let mut bytes = serialize_market(&m);
    for _ in 0..2 {
        assert!(states_lengths(&bytes));
        let read = parse_market(&bytes).unwrap();
        assert_eq!(read.fee, m.fee);
        assert_eq!(read.tokens, m.tokens);
        assert_eq!(read.pairs, m.pairs);
        bytes.extend_from_slice(&[1, 2, 3]);
    }
}

#[test]
fn parts_that_are_cut_short() {
    let bytes = serialize_market(&small_market());
    // 24 bytes before the tokens, 32 of tokens, 8 of length, 40 of pairs.
    assert_eq!(bytes.len(), 104);
    assert_eq!(parse_market(&bytes[..103]).unwrap_err(), "EOF at 64 reading 40 bytes");
    assert_eq!(parse_market(&bytes[..40]).unwrap_err(), "EOF at 24 reading 32 bytes");
    assert!(!states_lengths(&bytes[..23]));
    assert!(!states_lengths(&bytes[..60]));
    assert!(states_lengths(&bytes[..64]));
}

#[test]
fn lengths_beyond_any_buffer() {
    let mut bytes = serialize_market(&small_market());
    bytes[16..24].copy_from_slice(&u64::MAX.to_le_bytes());
    assert!(states_lengths(&bytes));
    assert_eq!(parse_market(&bytes).unwrap_err(), "EOF at 24 reading 18446744073709551615 bytes");
}

#[test]
fn bytes_that_make_no_whole_token_are_passed_over() {
    let mut bytes = Vec::new();
    bytes.extend_from_slice(&1u64.to_le_bytes());
    bytes.extend_from_slice(&2u64.to_le_bytes());
    bytes.extend_from_slice(&20u64.to_le_bytes());
    bytes.extend_from_slice(&5u64.to_le_bytes());
    bytes.extend_from_slice(&6u64.to_le_bytes());
    bytes.extend_from_slice(&[9; 4]);
    bytes.extend_from_slice(&39u64.to_le_bytes());
    bytes.extend_from_slice(&[9; 39]);
    let m = parse_market(&bytes).unwrap();
    assert_eq!(m.tokens, vec![Token { id: 5, decimals: 6 }]);
    assert!(m.pairs.is_empty());
}

#[test]
fn a_cursor_stops_at_the_end() {
    let bytes = [1, 0, 0, 0, 0, 0, 0, 0, 7, 8];
    let mut c = Cursor::new(&bytes);
    assert_eq!(c.read_u64(), Ok(1));
    assert_eq!(c.read_u64(), Err("EOF at 8 reading 8 bytes".to_string()));
    assert_eq!(c.read(2), Ok(&bytes[8..]));
    assert_eq!(c.read(0), Ok(&bytes[10..]));
    assert_eq!(c.read(1), Err("EOF at 10 reading 1 bytes".to_string()));
    assert_eq!(c.pos, 10);
}
