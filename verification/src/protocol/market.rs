use super::wire;
use crate::text;
use vstd::prelude::*;
use vstd::slice::slice_subrange;
use vstd::string::StringExecFns;

verus! {

/// Flat and variable fee schedule applied uniformly to every leg.
#[derive(Debug, Clone, Copy, PartialEq, Eq, Structural)]
pub struct Fee {
    /// Flat per-leg fee, in atomic-USD. Charged once per leg regardless of fill size.
    pub static_atomic_usd: u64,
    /// Variable per-leg fee in basis points (1 bps = 0.01%) of the leg's USD value.
    pub variable_bps: u64,
}

#[derive(Debug, Clone, Copy, PartialEq, Eq, Structural)]
pub struct Token {
    /// Sequential id assigned at generation time. Id 0 is USD.
    pub id: u64,
    /// Number of base-10 digits between 1 whole token and 1 atomic unit:
    /// with `decimals = 6`, 1 token is 10^6 atomic units.
    pub decimals: u64,
}

#[derive(Debug, Clone, Copy, PartialEq, Eq, Structural)]
pub struct TokenPair {
    /// Id assigned at generation time.
    pub id: u64,
    /// Id of the base side of this pair.
    pub base: u64,
    /// Id of the quote side of this pair.
    pub quote: u64,
    /// Price in atomic-quote per 1 whole base. With `b` base decimals,
    /// `quote_atomic = base_atomic * price / 10^b`.
    pub price: u64,
    /// Available pool size on this pair, in atomic units of base.
    pub volume: u64,
}

#[derive(Debug, Clone)]
pub struct Market {
    pub fee: Fee,
    /// All existing tokens. Token id 0 is always USD.
    pub tokens: Vec<Token>,
    /// All tradable pairs. The first `tokens.len() - 1` entries are USD pairs,
    /// the rest are non-USD/non-USD cross pairs.
    pub pairs: Vec<TokenPair>,
}

/// What a [`Market`] holds.
pub struct MarketView {
    pub fee: Fee,
    pub tokens: Seq<Token>,
    pub pairs: Seq<TokenPair>,
}

impl View for Market {
    type V = MarketView;

    open spec fn view(&self) -> MarketView {
        MarketView { fee: self.fee, tokens: self.tokens@, pairs: self.pairs@ }
    }
}

/// The id of the USD token.
pub const USD_TOKEN_ID: u64 = 0;

/// Bytes that one token takes on the wire.
pub const TOKEN_SIZE: usize = 16;

/// Bytes that one pair takes on the wire.
pub const PAIR_SIZE: usize = 40;

/// The numbers that stand for tokens on the wire: `id | decimals` each.
pub open spec fn token_words(tokens: Seq<Token>) -> Seq<u64>
    decreases tokens.len(),
{
    if tokens.len() == 0 {
        Seq::empty()
    } else {
        token_words(tokens.drop_last()).push(tokens.last().id).push(tokens.last().decimals)
    }
}

/// The numbers that stand for pairs on the wire: `id | base | quote | price | volume` each.
pub open spec fn pair_words(pairs: Seq<TokenPair>) -> Seq<u64>
    decreases pairs.len(),
{
    if pairs.len() == 0 {
        Seq::empty()
    } else {
        let p = pairs.last();
        pair_words(pairs.drop_last()).push(p.id).push(p.base).push(p.quote).push(p.price).push(
            p.volume,
        )
    }
}

/// The numbers before the tokens: both fees and the bytes that the tokens take.
pub open spec fn head_words(market: MarketView) -> Seq<u64> {
    seq![
        market.fee.static_atomic_usd,
        market.fee.variable_bps,
        (market.tokens.len() * TOKEN_SIZE) as u64,
    ]
}

/// The numbers before the pairs.
pub open spec fn front_words(market: MarketView) -> Seq<u64> {
    (head_words(market) + token_words(market.tokens)).push(
        (market.pairs.len() * PAIR_SIZE) as u64,
    )
}

/// The numbers that stand for a market on the wire.
pub open spec fn market_words(market: MarketView) -> Seq<u64> {
    front_words(market) + pair_words(market.pairs)
}

/// The bytes of a market. All integers are little-endian, in fixed order, without
/// delimiters:
///
/// ```text
/// static_atomic_usd (u64) | variable_bps (u64)
/// tokens_byte_len   (u64) | tokens
/// pairs_byte_len    (u64) | pairs
/// ```
pub open spec fn market_image(market: MarketView) -> Seq<u8> {
    wire::words(market_words(market))
}

/// Whether the lengths that a market's bytes hold fit.
pub open spec fn serializable(market: MarketView) -> bool {
    market.tokens.len() * TOKEN_SIZE <= u64::MAX && market.pairs.len() * PAIR_SIZE <= u64::MAX
}

/// Appends a number to those already written.
fn put_word(out: &mut Vec<u8>, x: u64, Ghost(ws): Ghost<Seq<u64>>)
    requires
        old(out)@ == wire::words(ws),
    ensures
        final(out)@ == wire::words(ws.push(x)),
{
    wire::put_u64(out, x);
    proof {
        wire::lemma_words_push(ws, x);
    }
}

/// Writes a market as bytes.
pub fn serialize_market(market: &Market) -> (r: Vec<u8>)
    requires
        serializable(market@),
    ensures
        r@ == market_image(market@),
{
    let ghost view = market@;
    let mut out: Vec<u8> = Vec::new();
    let ghost none = Seq::<u64>::empty();
    put_word(&mut out, market.fee.static_atomic_usd, Ghost(none));
    let ghost w1 = none.push(market.fee.static_atomic_usd);
    put_word(&mut out, market.fee.variable_bps, Ghost(w1));
    let ghost w2 = w1.push(market.fee.variable_bps);
    put_word(&mut out, market.tokens.len() as u64 * TOKEN_SIZE as u64, Ghost(w2));
    let ghost head = head_words(view);
    assert(w2.push((market.tokens@.len() * TOKEN_SIZE) as u64) =~= head);
    let mut i: usize = 0;
    assert(head + token_words(market.tokens@.take(0)) =~= head);
    while i < market.tokens.len()
        invariant
            i <= market.tokens@.len(),
            out@ == wire::words(head + token_words(market.tokens@.take(i as int))),
        decreases market.tokens@.len() - i,
    {
        let t = market.tokens[i];
        let ghost done = head + token_words(market.tokens@.take(i as int));
        put_word(&mut out, t.id, Ghost(done));
        put_word(&mut out, t.decimals, Ghost(done.push(t.id)));
        i = i + 1;
        proof {
            let next = market.tokens@.take(i as int);
            assert(next.drop_last() =~= market.tokens@.take(i - 1));
            assert(done.push(t.id).push(t.decimals) =~= head + token_words(next));
        }
    }
    assert(market.tokens@.take(i as int) =~= market.tokens@);
    put_word(
        &mut out,
        market.pairs.len() as u64 * PAIR_SIZE as u64,
        Ghost(head + token_words(market.tokens@)),
    );
    let ghost front = front_words(view);
    let mut j: usize = 0;
    assert(front + pair_words(market.pairs@.take(0)) =~= front);
    while j < market.pairs.len()
        invariant
            j <= market.pairs@.len(),
            out@ == wire::words(front + pair_words(market.pairs@.take(j as int))),
        decreases market.pairs@.len() - j,
    {
        let p = market.pairs[j];
        let ghost done = front + pair_words(market.pairs@.take(j as int));
        put_word(&mut out, p.id, Ghost(done));
        put_word(&mut out, p.base, Ghost(done.push(p.id)));
        put_word(&mut out, p.quote, Ghost(done.push(p.id).push(p.base)));
        put_word(&mut out, p.price, Ghost(done.push(p.id).push(p.base).push(p.quote)));
        put_word(
            &mut out,
            p.volume,
            Ghost(done.push(p.id).push(p.base).push(p.quote).push(p.price)),
        );
        j = j + 1;
        proof {
            let next = market.pairs@.take(j as int);
            assert(next.drop_last() =~= market.pairs@.take(j - 1));
            assert(done.push(p.id).push(p.base).push(p.quote).push(p.price).push(p.volume)
                =~= front + pair_words(next));
        }
    }
    assert(market.pairs@.take(j as int) =~= market.pairs@);
    out
}

/// What is said of an early end.
pub open spec fn eof_text(at: nat, want: nat) -> Seq<char> {
    "EOF at "@ + text::decimal(at) + " reading "@ + text::decimal(want) + " bytes"@
}

fn eof_message(at: usize, want: u64) -> (r: String)
    ensures
        r@ == eof_text(at as nat, want as nat),
{
    let mut r = String::from_str("EOF at ");
    text::push_decimal(&mut r, at as u128);
    r.append(" reading ");
    text::push_decimal(&mut r, want as u128);
    r.append(" bytes");
    r
}

/// A place in a buffer that is read from front to back.
pub struct Cursor<'a> {
    pub buf: &'a [u8],
    pub pos: usize,
}

impl<'a> Cursor<'a> {
    /// Whether the place lies in the buffer.
    pub open spec fn wf(self) -> bool {
        self.pos <= self.buf@.len()
    }

    pub fn new(bytes: &'a [u8]) -> (r: Self)
        ensures
            r.buf@ == bytes@,
            r.pos == 0,
            r.wf(),
    {
        Cursor { buf: bytes, pos: 0 }
    }

    /// Reads the next `n` bytes.
    pub fn read(&mut self, n: usize) -> (r: Result<&'a [u8], String>)
        requires
            old(self).wf(),
        ensures
            final(self).wf(),
            final(self).buf@ == old(self).buf@,
            old(self).pos + n <= old(self).buf@.len() ==> {
                &&& r is Ok
                &&& r->Ok_0@ == old(self).buf@.subrange(old(self).pos as int, old(self).pos + n)
                &&& final(self).pos == old(self).pos + n
            },
            old(self).pos + n > old(self).buf@.len() ==> {
                &&& r is Err
                &&& r->Err_0@ == eof_text(old(self).pos as nat, n as nat)
                &&& final(self).pos == old(self).pos
            },
    {
        let len: usize = self.buf.len();
        if n > len - self.pos {
            return Err(eof_message(self.pos, n as u64));
        }
        let slice = slice_subrange(self.buf, self.pos, self.pos + n);
        self.pos = self.pos + n;
        Ok(slice)
    }

    /// Reads the next `n` bytes, a number that need not fit a `usize`.
    fn read_long(&mut self, n: u64) -> (r: Result<&'a [u8], String>)
        requires
            old(self).wf(),
        ensures
            final(self).wf(),
            final(self).buf@ == old(self).buf@,
            old(self).pos + n <= old(self).buf@.len() ==> {
                &&& r is Ok
                &&& r->Ok_0@ == old(self).buf@.subrange(old(self).pos as int, old(self).pos + n)
                &&& final(self).pos == old(self).pos + n
            },
            old(self).pos + n > old(self).buf@.len() ==> {
                &&& r is Err
                &&& r->Err_0@ == eof_text(old(self).pos as nat, n as nat)
            },
    {
        if n > usize::MAX as u64 {
            assert(self.buf@.len() == self.buf.len());
            return Err(eof_message(self.pos, n));
        }
        self.read(n as usize)
    }

    /// Reads the next eight bytes as a number.
    pub fn read_u64(&mut self) -> (r: Result<u64, String>)
        requires
            old(self).wf(),
        ensures
            final(self).wf(),
            final(self).buf@ == old(self).buf@,
            old(self).pos + 8 <= old(self).buf@.len() ==> {
                &&& r == Ok::<u64, String>(wire::u64_at(old(self).buf@, old(self).pos as int))
                &&& final(self).pos == old(self).pos + 8
            },
            old(self).pos + 8 > old(self).buf@.len() ==> {
                &&& r is Err
                &&& r->Err_0@ == eof_text(old(self).pos as nat, 8)
                &&& final(self).pos == old(self).pos
            },
    {
        let ghost at = self.pos as int;
        let ghost whole = self.buf@;
        match self.read(wire::U64_SIZE) {
            Ok(bytes) => {
                assert(bytes@.subrange(0, 8) =~= whole.subrange(at, at + 8));
                Ok(wire::get_u64(bytes, 0))
            },
            Err(e) => Err(e),
        }
    }
}

/// Where the tokens start.
pub open spec fn tokens_at() -> int {
    24
}

/// The number of bytes that the tokens take, as a buffer states it.
pub open spec fn tokens_len(s: Seq<u8>) -> u64 {
    wire::u64_at(s, 16)
}

/// The number of bytes that the pairs take, as a buffer states it.
pub open spec fn pairs_len(s: Seq<u8>) -> u64 {
    wire::u64_at(s, tokens_at() + tokens_len(s))
}

/// Where the pairs start.
pub open spec fn pairs_at(s: Seq<u8>) -> int {
    tokens_at() + tokens_len(s) + 8
}

/// Whether a buffer holds the numbers that say how long the tokens and the pairs are.
pub open spec fn lengths_stated(s: Seq<u8>) -> bool {
    &&& s.len() >= tokens_at()
    &&& tokens_at() + tokens_len(s) <= s.len() ==> pairs_at(s) <= s.len()
}

/// The token whose bytes start at `at`.
pub open spec fn token_at(s: Seq<u8>, at: int) -> Token {
    Token { id: wire::u64_at(s, at), decimals: wire::u64_at(s, at + 8) }
}

/// The pair whose bytes start at `at`.
pub open spec fn pair_at(s: Seq<u8>, at: int) -> TokenPair {
    TokenPair {
        id: wire::u64_at(s, at),
        base: wire::u64_at(s, at + 8),
        quote: wire::u64_at(s, at + 16),
        price: wire::u64_at(s, at + 24),
        volume: wire::u64_at(s, at + 32),
    }
}

/// The market that stands at the front of a buffer that is long enough. Bytes at the end
/// of the tokens or the pairs that make no whole one are passed over.
pub open spec fn market_at(s: Seq<u8>) -> MarketView {
    MarketView {
        fee: Fee { static_atomic_usd: wire::u64_at(s, 0), variable_bps: wire::u64_at(s, 8) },
        tokens: Seq::new(
            (tokens_len(s) / 16) as nat,
            |i: int| token_at(s, tokens_at() + 16 * i),
        ),
        pairs: Seq::new((pairs_len(s) / 40) as nat, |i: int| pair_at(s, pairs_at(s) + 40 * i)),
    }
}

/// Tells whether a buffer states the lengths of the tokens and the pairs.
pub fn states_lengths(bytes: &[u8]) -> (r: bool)
    ensures
        r == lengths_stated(bytes@),
{
    let len: usize = bytes.len();
    if len < 24 {
        return false;
    }
    let tokens_len: u64 = wire::get_u64(bytes, 16);
    tokens_len > (len - 24) as u64 || tokens_len + 8 <= (len - 24) as u64
}

/// Reads the tokens that a slice holds.
fn parse_tokens(bytes: &[u8]) -> (r: Vec<Token>)
    ensures
        r@ == Seq::new((bytes@.len() / 16) as nat, |i: int| token_at(bytes@, 16 * i)),
{
    let n: usize = bytes.len() / TOKEN_SIZE;
    let mut tokens: Vec<Token> = Vec::new();
    let mut i: usize = 0;
    while i < n
        invariant
            i <= n == bytes@.len() / 16,
            bytes@.len() <= usize::MAX,
            tokens@.len() == i,
            forall|k: int| 0 <= k < i ==> #[trigger] tokens@[k] == token_at(bytes@, 16 * k),
        decreases n - i,
    {
        let at: usize = i * TOKEN_SIZE;
        tokens.push(Token { id: wire::get_u64(bytes, at), decimals: wire::get_u64(bytes, at + 8) });
        i = i + 1;
    }
    assert(tokens@ =~= Seq::new((bytes@.len() / 16) as nat, |i: int| token_at(bytes@, 16 * i)));
    tokens
}

/// Reads the pairs that a slice holds.
fn parse_pairs(bytes: &[u8]) -> (r: Vec<TokenPair>)
    ensures
        r@ == Seq::new((bytes@.len() / 40) as nat, |i: int| pair_at(bytes@, 40 * i)),
{
    let n: usize = bytes.len() / PAIR_SIZE;
    let mut pairs: Vec<TokenPair> = Vec::new();
    let mut i: usize = 0;
    while i < n
        invariant
            i <= n == bytes@.len() / 40,
            bytes@.len() <= usize::MAX,
            pairs@.len() == i,
            forall|k: int| 0 <= k < i ==> #[trigger] pairs@[k] == pair_at(bytes@, 40 * k),
        decreases n - i,
    {
        let at: usize = i * PAIR_SIZE;
        pairs.push(
            TokenPair {
                id: wire::get_u64(bytes, at),
                base: wire::get_u64(bytes, at + 8),
                quote: wire::get_u64(bytes, at + 16),
                price: wire::get_u64(bytes, at + 24),
                volume: wire::get_u64(bytes, at + 32),
            },
        );
        i = i + 1;
    }
    assert(pairs@ =~= Seq::new((bytes@.len() / 40) as nat, |i: int| pair_at(bytes@, 40 * i)));
    pairs
}

proof fn lemma_sub_words(s: Seq<u8>, from: int, to: int, at: int)
    requires
        0 <= from <= to <= s.len(),
        0 <= at,
        from + at + 8 <= to,
    ensures
        wire::u64_at(s.subrange(from, to), at) == wire::u64_at(s, from + at),
{
    assert(s.subrange(from, to).subrange(at, at + 8) =~= s.subrange(from + at, from + at + 8));
}

/// Reads a market off the front of a buffer that states the lengths of its parts.
pub fn parse_market(bytes: &[u8]) -> (r: Result<Market, String>)
    requires
        lengths_stated(bytes@),
    ensures
        if tokens_at() + tokens_len(bytes@) > bytes@.len() {
            r is Err && r->Err_0@ == eof_text(tokens_at() as nat, tokens_len(bytes@) as nat)
        } else if pairs_at(bytes@) + pairs_len(bytes@) > bytes@.len() {
            r is Err && r->Err_0@ == eof_text(pairs_at(bytes@) as nat, pairs_len(bytes@) as nat)
        } else {
            r is Ok && r->Ok_0@ == market_at(bytes@)
        },
{
    let ghost s = bytes@;
    let mut cursor = Cursor::new(bytes);
    let static_atomic_usd: u64 = match cursor.read_u64() {
        Ok(x) => x,
        Err(e) => return Err(e),
    };
    let variable_bps: u64 = match cursor.read_u64() {
        Ok(x) => x,
        Err(e) => return Err(e),
    };
    let fee = Fee { static_atomic_usd, variable_bps };
    let token_bytes: u64 = match cursor.read_u64() {
        Ok(x) => x,
        Err(e) => return Err(e),
    };
    let tokens = match cursor.read_long(token_bytes) {
        Ok(part) => parse_tokens(part),
        Err(e) => return Err(e),
    };
    let pair_bytes: u64 = match cursor.read_u64() {
        Ok(x) => x,
        Err(e) => return Err(e),
    };
    let pairs = match cursor.read_long(pair_bytes) {
        Ok(part) => parse_pairs(part),
        Err(e) => return Err(e),
    };
    proof {
        let t0 = tokens_at();
        let t1 = t0 + tokens_len(s);
        let p0 = pairs_at(s);
        let p1 = p0 + pairs_len(s);
        assert forall|i: int| 0 <= i < tokens@.len() implies #[trigger] tokens@[i] == token_at(
            s,
            t0 + 16 * i,
        ) by {
            lemma_sub_words(s, t0, t1, 16 * i);
            lemma_sub_words(s, t0, t1, 16 * i + 8);
        }
        assert forall|i: int| 0 <= i < pairs@.len() implies #[trigger] pairs@[i] == pair_at(
            s,
            p0 + 40 * i,
        ) by {
            lemma_sub_words(s, p0, p1, 40 * i);
            lemma_sub_words(s, p0, p1, 40 * i + 8);
            lemma_sub_words(s, p0, p1, 40 * i + 16);
            lemma_sub_words(s, p0, p1, 40 * i + 24);
            lemma_sub_words(s, p0, p1, 40 * i + 32);
        }
        assert(tokens@ =~= market_at(s).tokens);
        assert(pairs@ =~= market_at(s).pairs);
    }
    Ok(Market { fee, tokens, pairs })
}

proof fn lemma_token_words(tokens: Seq<Token>, i: int)
    requires
        0 <= i < tokens.len(),
    ensures
        token_words(tokens).len() == 2 * tokens.len(),
        token_words(tokens)[2 * i] == tokens[i].id,
        token_words(tokens)[2 * i + 1] == tokens[i].decimals,
    decreases tokens.len(),
{
    lemma_token_words_len(tokens.drop_last());
    if i < tokens.len() - 1 {
        lemma_token_words(tokens.drop_last(), i);
    }
}

proof fn lemma_token_words_len(tokens: Seq<Token>)
    ensures
        token_words(tokens).len() == 2 * tokens.len(),
    decreases tokens.len(),
{
    if tokens.len() > 0 {
        lemma_token_words_len(tokens.drop_last());
    }
}

proof fn lemma_pair_words(pairs: Seq<TokenPair>, i: int)
    requires
        0 <= i < pairs.len(),
    ensures
        pair_words(pairs).len() == 5 * pairs.len(),
        pair_words(pairs)[5 * i] == pairs[i].id,
        pair_words(pairs)[5 * i + 1] == pairs[i].base,
        pair_words(pairs)[5 * i + 2] == pairs[i].quote,
        pair_words(pairs)[5 * i + 3] == pairs[i].price,
        pair_words(pairs)[5 * i + 4] == pairs[i].volume,
    decreases pairs.len(),
{
    lemma_pair_words_len(pairs.drop_last());
    if i < pairs.len() - 1 {
        lemma_pair_words(pairs.drop_last(), i);
    }
}

proof fn lemma_pair_words_len(pairs: Seq<TokenPair>)
    ensures
        pair_words(pairs).len() == 5 * pairs.len(),
    decreases pairs.len(),
{
    if pairs.len() > 0 {
        lemma_pair_words_len(pairs.drop_last());
    }
}

/// The bytes of a market take sixteen for the fees, eight for each length, and those of its
/// tokens and pairs.
pub proof fn lemma_market_image_len(market: MarketView)
    ensures
        market_image(market).len() == 16 + 8 + market.tokens.len() * TOKEN_SIZE + 8
            + market.pairs.len() * PAIR_SIZE,
{
    lemma_token_words_len(market.tokens);
    lemma_pair_words_len(market.pairs);
    wire::lemma_words_len(market_words(market));
}

/// A market that was written is read back, whatever follows its bytes. Its tokens take a
/// multiple of 16 bytes, its pairs one of 40.
pub proof fn lemma_market_roundtrip(market: MarketView, rest: Seq<u8>)
    requires
        serializable(market),
    ensures
        ({
            let s = market_image(market) + rest;
            &&& lengths_stated(s)
            &&& tokens_len(s) % 16 == 0
            &&& pairs_len(s) % 40 == 0
            &&& tokens_at() + tokens_len(s) <= s.len()
            &&& pairs_at(s) + pairs_len(s) <= s.len()
            &&& market_at(s) == market
        }),
{
    let ws = market_words(market);
    let s = market_image(market) + rest;
    let nt = market.tokens.len() as int;
    let np = market.pairs.len() as int;
    lemma_market_image_len(market);
    lemma_token_words_len(market.tokens);
    lemma_pair_words_len(market.pairs);
    let tw = token_words(market.tokens);
    let pw = pair_words(market.pairs);
    assert forall|k: int| 0 <= k < ws.len() implies wire::u64_at(s, 8 * k) == #[trigger] ws[k] by {
        wire::lemma_words_at(ws, rest, k);
    }
    assert(ws[0] == market.fee.static_atomic_usd);
    assert(ws[1] == market.fee.variable_bps);
    assert(ws[2] == nt * 16);
    assert(tokens_len(s) == nt * 16);
    assert(ws[3 + 2 * nt] == np * 40);
    assert(pairs_len(s) == np * 40);
    let read = market_at(s);
    assert forall|i: int| 0 <= i < nt implies #[trigger] read.tokens[i] == market.tokens[i] by {
        lemma_token_words(market.tokens, i);
        assert(ws[3 + 2 * i] == tw[2 * i]);
        assert(ws[3 + 2 * i + 1] == tw[2 * i + 1]);
    }
    assert forall|i: int| 0 <= i < np implies #[trigger] read.pairs[i] == market.pairs[i] by {
        lemma_pair_words(market.pairs, i);
        let at = 4 + 2 * nt + 5 * i;
        assert(ws[at] == pw[5 * i]);
        assert(ws[at + 1] == pw[5 * i + 1]);
        assert(ws[at + 2] == pw[5 * i + 2]);
        assert(ws[at + 3] == pw[5 * i + 3]);
        assert(ws[at + 4] == pw[5 * i + 4]);
    }
    assert(read.tokens =~= market.tokens);
    assert(read.pairs =~= market.pairs);
}

} // verus!
