//! Little-endian integers on the wire.
use vstd::prelude::*;

verus! {

/// Bytes that one `u64` takes on the wire.
pub const U64_SIZE: usize = 8;

/// The `n` low bytes of `x`, least significant first.
pub open spec fn le_bytes(x: nat, n: nat) -> Seq<u8>
    decreases n,
{
    if n == 0 {
        Seq::empty()
    } else {
        seq![(x % 256) as u8] + le_bytes(x / 256, (n - 1) as nat)
    }
}

/// The number that `s` writes, least significant byte first.
pub open spec fn le_value(s: Seq<u8>) -> nat
    decreases s.len(),
{
    if s.len() == 0 {
        0
    } else {
        s[0] as nat + 256 * le_value(s.drop_first())
    }
}

/// The eight bytes of a `u64`.
pub open spec fn le64(x: u64) -> Seq<u8> {
    le_bytes(x as nat, 8)
}

/// The `u64` that stands in `s` at `at`.
pub open spec fn u64_at(s: Seq<u8>, at: int) -> u64 {
    le_value(s.subrange(at, at + 8)) as u64
}

/// `2^64`, the number of `u64` values.
pub open spec fn u64_count() -> int {
    0x1_0000_0000_0000_0000
}

/// The `u64` with the same bits as the `i64` `x`.
pub open spec fn unsigned_bits(x: i64) -> u64 {
    (if x < 0 {
        x + u64_count()
    } else {
        x as int
    }) as u64
}

/// The `i64` with the same bits as the `u64` `x`.
pub open spec fn signed_bits(x: u64) -> int {
    if x > i64::MAX {
        x - u64_count()
    } else {
        x as int
    }
}

pub open spec fn byte_count(n: nat) -> nat
    decreases n,
{
    if n == 0 {
        1
    } else {
        256 * byte_count((n - 1) as nat)
    }
}

proof fn lemma_byte_count_8()
    ensures
        byte_count(8) == u64_count(),
{
    reveal_with_fuel(byte_count, 9);
}

pub proof fn lemma_le_bytes_len(x: nat, n: nat)
    ensures
        le_bytes(x, n).len() == n,
    decreases n,
{
    if n > 0 {
        lemma_le_bytes_len(x / 256, (n - 1) as nat);
    }
}

/// Reading back what was written gives the number.
pub proof fn lemma_le_value_of_bytes(x: nat, n: nat)
    requires
        x < byte_count(n),
    ensures
        le_value(le_bytes(x, n)) == x,
    decreases n,
{
    if n > 0 {
        let rest = le_bytes(x / 256, (n - 1) as nat);
        lemma_le_value_of_bytes(x / 256, (n - 1) as nat);
        assert((seq![(x % 256) as u8] + rest).drop_first() =~= rest);
    }
}

/// Writing what was read gives the bytes.
pub proof fn lemma_le_bytes_of_value(s: Seq<u8>)
    ensures
        le_bytes(le_value(s), s.len()) =~= s,
        le_value(s) < byte_count(s.len()),
    decreases s.len(),
{
    if s.len() > 0 {
        lemma_le_bytes_of_value(s.drop_first());
        let x = le_value(s);
        assert(x % 256 == s[0] && x / 256 == le_value(s.drop_first()));
        assert(seq![s[0]] + s.drop_first() =~= s);
    }
}

/// A `u64` survives the wire, and so do the eight bytes of one.
pub proof fn lemma_le64(x: u64)
    ensures
        le64(x).len() == 8,
        le_value(le64(x)) == x,
{
    lemma_le_bytes_len(x as nat, 8);
    lemma_byte_count_8();
    lemma_le_value_of_bytes(x as nat, 8);
}

/// The number at `at` is the one whose bytes stand there.
pub proof fn lemma_u64_at(s: Seq<u8>, at: int)
    requires
        0 <= at,
        at + 8 <= s.len(),
    ensures
        u64_at(s, at) == le_value(s.subrange(at, at + 8)),
        le64(u64_at(s, at)) =~= s.subrange(at, at + 8),
{
    lemma_le_bytes_of_value(s.subrange(at, at + 8));
    lemma_byte_count_8();
}

/// Where the bytes of `x` stand, `x` is read.
pub proof fn lemma_u64_at_of(s: Seq<u8>, at: int, x: u64)
    requires
        0 <= at,
        at + 8 <= s.len(),
        s.subrange(at, at + 8) == le64(x),
    ensures
        u64_at(s, at) == x,
{
    lemma_le64(x);
}

/// Appends the eight bytes of `x`.
pub fn put_u64(out: &mut Vec<u8>, x: u64)
    ensures
        final(out)@ == old(out)@ + le64(x),
{
    let mut rest: u64 = x;
    let mut i: usize = 0;
    assert(old(out)@ + le_bytes(x as nat, 8) =~= old(out)@ + le64(x));
    while i < 8
        invariant
            i <= 8,
            out@ + le_bytes(rest as nat, (8 - i) as nat) == old(out)@ + le64(x),
        decreases 8 - i,
    {
        let ghost before = out@;
        out.push((rest % 256) as u8);
        assert(out@ + le_bytes((rest / 256) as nat, (8 - i - 1) as nat) =~= before + le_bytes(
            rest as nat,
            (8 - i) as nat,
        ));
        rest = rest / 256;
        i = i + 1;
    }
    assert(out@ =~= out@ + le_bytes(rest as nat, 0));
}

/// Reads the `u64` at `at`.
pub fn get_u64(buf: &[u8], at: usize) -> (x: u64)
    requires
        at + 8 <= buf@.len(),
    ensures
        x == u64_at(buf@, at as int),
{
    let mut x: u64 = 0;
    let mut i: usize = 8;
    let len: usize = buf.len();
    let ghost s = buf@.subrange(at as int, at + 8);
    proof {
        lemma_byte_count_8();
        assert(s.skip(8) =~= Seq::<u8>::empty());
    }
    while i > 0
        invariant
            i <= 8,
            at + 8 <= len == buf@.len(),
            s == buf@.subrange(at as int, at + 8),
            x == le_value(s.skip(i as int)),
        decreases i,
    {
        i = i - 1;
        proof {
            let tail = s.skip(i as int);
            assert(tail.drop_first() =~= s.skip(i + 1));
            lemma_le_bytes_of_value(tail);
            lemma_byte_count_le(tail.len());
        }
        x = x * 256 + buf[at + i] as u64;
    }
    assert(s.skip(0) =~= s);
    x
}

proof fn lemma_byte_count_le(n: nat)
    requires
        n <= 8,
    ensures
        byte_count(n) <= u64_count(),
{
    reveal_with_fuel(byte_count, 9);
}

/// Reinterprets an `i64` as the `u64` with the same bits.
pub fn to_unsigned(x: i64) -> (r: u64)
    ensures
        r == unsigned_bits(x),
{
    let r: u64 = x as u64;
    assert(x < 0 ==> r == x + 0x1_0000_0000_0000_0000) by (bit_vector)
        requires
            r == x as u64,
    ;
    assert(x >= 0 ==> r == x) by (bit_vector)
        requires
            r == x as u64,
    ;
    r
}

/// Reinterprets a `u64` as the `i64` with the same bits.
pub fn to_signed(x: u64) -> (r: i64)
    ensures
        r == signed_bits(x),
{
    let r: i64 = x as i64;
    assert(x > 0x7fff_ffff_ffff_ffff ==> r == x - 0x1_0000_0000_0000_0000) by (bit_vector)
        requires
            r == x as i64,
    ;
    assert(x <= 0x7fff_ffff_ffff_ffff ==> r == x) by (bit_vector)
        requires
            r == x as i64,
    ;
    r
}

/// The bytes of several `u64`s, one after the other.
pub open spec fn words(ws: Seq<u64>) -> Seq<u8>
    decreases ws.len(),
{
    if ws.len() == 0 {
        Seq::empty()
    } else {
        words(ws.drop_last()) + le64(ws.last())
    }
}

/// One more number appends its bytes.
pub proof fn lemma_words_push(ws: Seq<u64>, x: u64)
    ensures
        words(ws.push(x)) == words(ws) + le64(x),
{
    assert(ws.push(x).drop_last() =~= ws);
}

pub proof fn lemma_words_len(ws: Seq<u64>)
    ensures
        words(ws).len() == 8 * ws.len(),
    decreases ws.len(),
{
    if ws.len() > 0 {
        lemma_words_len(ws.drop_last());
        lemma_le64(ws.last());
    }
}

/// Numbers that were written one after the other are read back, whatever follows them.
pub proof fn lemma_words_at(ws: Seq<u64>, rest: Seq<u8>, i: int)
    requires
        0 <= i < ws.len(),
    ensures
        u64_at(words(ws) + rest, 8 * i) == ws[i],
    decreases ws.len(),
{
    let front = ws.drop_last();
    let last = le64(ws.last());
    lemma_words_len(front);
    lemma_le64(ws.last());
    assert(words(ws) + rest =~= words(front) + (last + rest));
    if i < ws.len() - 1 {
        lemma_words_at(front, last + rest, i);
    } else {
        assert((words(ws) + rest).subrange(8 * i, 8 * i + 8) =~= last);
        lemma_u64_at_of(words(ws) + rest, 8 * i, ws.last());
    }
}

/// What follows does not change what is read.
pub proof fn lemma_u64_at_prefix(s: Seq<u8>, rest: Seq<u8>, at: int)
    requires
        0 <= at,
        at + 8 <= s.len(),
    ensures
        u64_at(s + rest, at) == u64_at(s, at),
{
    assert((s + rest).subrange(at, at + 8) =~= s.subrange(at, at + 8));
}

} // verus!
