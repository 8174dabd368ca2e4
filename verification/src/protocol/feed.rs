use super::market::TokenPair;
use super::wire;
use vstd::prelude::*;

verus! {

/// One price update, as the feed sends it.
#[derive(Debug, Clone, Copy, PartialEq, Eq, Structural)]
pub struct PriceUpdate {
    /// Monotonically increasing per-run counter.
    pub seq: u64,
    /// Pair this tick refers to.
    pub token_pair_id: u64,
    /// New price for the pair, in atomic-quote per 1 whole base.
    pub price: u64,
    /// New available pool size for the pair, in atomic units of base.
    pub volume: u64,
}

/// The bytes of an update: `seq | pair id | price | volume`, each a little-endian `u64`.
pub open spec fn update_frame(u: PriceUpdate) -> Seq<u8> {
    wire::words(seq![u.seq, u.token_pair_id, u.price, u.volume])
}

/// The update whose bytes stand at the front of a buffer.
pub open spec fn update_at(s: Seq<u8>) -> PriceUpdate {
    PriceUpdate {
        seq: wire::u64_at(s, 0),
        token_pair_id: wire::u64_at(s, 8),
        price: wire::u64_at(s, 16),
        volume: wire::u64_at(s, 24),
    }
}

impl PriceUpdate {
    /// On-the-wire bytes per update.
    pub const WIRE_SIZE: usize = 32;

    pub fn as_bytes(&self) -> (r: [u8; 32])
        ensures
            r@ == update_frame(*self),
    {
        let mut out: Vec<u8> = Vec::new();
        wire::put_u64(&mut out, self.seq);
        wire::put_u64(&mut out, self.token_pair_id);
        wire::put_u64(&mut out, self.price);
        wire::put_u64(&mut out, self.volume);
        proof {
            let w0 = Seq::<u64>::empty();
            let w1 = w0.push(self.seq);
            let w2 = w1.push(self.token_pair_id);
            let w3 = w2.push(self.price);
            wire::lemma_words_push(w0, self.seq);
            wire::lemma_words_push(w1, self.token_pair_id);
            wire::lemma_words_push(w2, self.price);
            wire::lemma_words_push(w3, self.volume);
            assert(w3.push(self.volume) =~= seq![
                self.seq,
                self.token_pair_id,
                self.price,
                self.volume,
            ]);
            assert(out@ =~= update_frame(*self));
            wire::lemma_words_len(w3.push(self.volume));
        }
        let mut buf: [u8; 32] = [0u8;32];
        let mut i: usize = 0;
        while i < 32
            invariant
                i <= 32,
                out@.len() == 32,
                forall|k: int| 0 <= k < i ==> buf@[k] == #[trigger] out@[k],
            decreases 32 - i,
        {
            buf[i] = out[i];
            i = i + 1;
        }
        assert(buf@ =~= out@);
        buf
    }

    /// Reads an update off the front of a packet; `None` where the packet is too short.
    pub fn from_bytes(buf: &[u8]) -> (r: Option<PriceUpdate>)
        ensures
            r == if buf@.len() < PriceUpdate::WIRE_SIZE {
                None
            } else {
                Some(update_at(buf@))
            },
    {
        if buf.len() < PriceUpdate::WIRE_SIZE {
            return None;
        }
        Some(
            PriceUpdate {
                seq: wire::get_u64(buf, 0),
                token_pair_id: wire::get_u64(buf, 8),
                price: wire::get_u64(buf, 16),
                volume: wire::get_u64(buf, 24),
            },
        )
    }
}

/// An update that was written is read back, whatever follows its bytes.
pub proof fn lemma_update_roundtrip(u: PriceUpdate, rest: Seq<u8>)
    ensures
        update_frame(u).len() == PriceUpdate::WIRE_SIZE,
        update_at(update_frame(u) + rest) == u,
{
    let ws = seq![u.seq, u.token_pair_id, u.price, u.volume];
    wire::lemma_words_len(ws);
    wire::lemma_words_at(ws, rest, 0);
    wire::lemma_words_at(ws, rest, 1);
    wire::lemma_words_at(ws, rest, 2);
    wire::lemma_words_at(ws, rest, 3);
}

/// One step of the feed: an update, and how long after the one before it is due.
#[derive(Debug, Clone, Copy, PartialEq, Eq, Structural)]
pub struct FeedTick {
    pub delay_us: u64,
    pub update: PriceUpdate,
}

/// The pairs of a market after an update: the pair it names has the new price and pool.
pub open spec fn refreshed(pairs: Seq<TokenPair>, update: PriceUpdate) -> Seq<TokenPair> {
    let at = update.token_pair_id as int;
    pairs.update(at, TokenPair { price: update.price, volume: update.volume, ..pairs[at] })
}

/// The pairs of a market after the first `k` ticks of a feed.
pub open spec fn replayed(pairs: Seq<TokenPair>, feed: Seq<FeedTick>, k: int) -> Seq<TokenPair>
    decreases k,
{
    if k <= 0 {
        pairs
    } else {
        refreshed(replayed(pairs, feed, k - 1), feed[k - 1].update)
    }
}

/// The time of tick number `k - 1`: the sum of the first `k` delays.
pub open spec fn elapsed(feed: Seq<FeedTick>, k: int) -> int
    decreases k,
{
    if k <= 0 {
        0
    } else {
        elapsed(feed, k - 1) + feed[k - 1].delay_us
    }
}

/// The elapsed time never falls.
pub proof fn lemma_elapsed_grows(feed: Seq<FeedTick>, j: int, k: int)
    requires
        0 <= j <= k <= feed.len(),
    ensures
        0 <= elapsed(feed, j) <= elapsed(feed, k),
    decreases k,
{
    if k > 0 {
        if j < k {
            lemma_elapsed_grows(feed, j, k - 1);
        } else {
            lemma_elapsed_grows(feed, j - 1, k - 1);
        }
    }
}

/// The time that a feed takes, in microseconds; `None` where it does not fit a `u64`.
pub fn duration_us(feed: &[FeedTick]) -> (r: Option<u64>)
    ensures
        match r {
            Some(t) => t == elapsed(feed@, feed@.len() as int),
            None => elapsed(feed@, feed@.len() as int) > u64::MAX,
        },
{
    let n: usize = feed.len();
    let mut t: u64 = 0;
    let mut i: usize = 0;
    while i < n
        invariant
            i <= n == feed@.len(),
            t == elapsed(feed@, i as int),
        decreases n - i,
    {
        t = match t.checked_add(feed[i].delay_us) {
            Some(sum) => sum,
            None => {
                proof {
                    lemma_elapsed_grows(feed@, i + 1, n as int);
                }
                return None;
            },
        };
        i = i + 1;
    }
    Some(t)
}

/// Enters an update into the pair that it names.
pub fn apply_update(pairs: &mut Vec<TokenPair>, update: PriceUpdate)
    requires
        update.token_pair_id < old(pairs)@.len(),
    ensures
        final(pairs)@ == refreshed(old(pairs)@, update),
{
    let n: usize = pairs.len();
    assert(update.token_pair_id < n);
    let at: usize = update.token_pair_id as usize;
    let pair = pairs[at];
    pairs.set(at, TokenPair { price: update.price, volume: update.volume, ..pair });
}

} // verus!
