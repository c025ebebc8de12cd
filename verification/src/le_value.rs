//! Byte strings read as unsigned numbers, least or most significant byte
//! first, as the machine reads opcodes, register numbers and addresses.
use vstd::prelude::*;

verus! {

/// `256` raised to `k`.
pub open spec fn pow256(k: nat) -> nat
    decreases k,
{
    if k == 0 {
        1
    } else {
        256 * pow256((k - 1) as nat)
    }
}

/// The unsigned number whose little-endian bytes are `s`.
pub open spec fn le_value(s: Seq<u8>) -> nat
    decreases s.len(),
{
    if s.len() == 0 {
        0
    } else {
        s[0] as nat + 256 * le_value(s.drop_first())
    }
}

/// The width of a machine word (`usize`) in bytes.
pub open spec fn word_bytes() -> nat {
    (usize::BITS / 8) as nat
}

/// The number of bytes the machine reads out of `len` available bytes: at
/// most the width of a `usize`.
pub open spec fn word_prefix_len(len: nat) -> nat {
    if len < word_bytes() {
        len
    } else {
        word_bytes()
    }
}

/// The value of a byte string as the machine reads it: the first eight bytes
/// at most, little-endian.
pub open spec fn word_value(s: Seq<u8>) -> nat {
    le_value(s.take(word_prefix_len(s.len()) as int))
}

/// The unsigned number `s` stands for in the given byte order: least
/// significant byte first on a little-endian machine, most significant first
/// on a big-endian one.
pub open spec fn ordered_value(s: Seq<u8>, little_endian: bool) -> nat {
    if little_endian {
        le_value(s)
    } else {
        le_value(s.reverse())
    }
}

/// A register number or an address as the machine reads it out of an
/// operand's bytes: the first eight bytes at most, in its byte order.
pub open spec fn word_value_in(s: Seq<u8>, little_endian: bool) -> nat {
    ordered_value(s.take(word_prefix_len(s.len()) as int), little_endian)
}

/// Appending a byte to a string read most significant byte first shifts its
/// value up a byte and adds the new one.
pub proof fn lemma_le_value_reverse_push(s: Seq<u8>, x: u8)
    ensures
        le_value(s.push(x).reverse()) == le_value(s.reverse()) * 256 + x,
{
    let r = s.push(x).reverse();
    assert(r.drop_first() =~= s.reverse());
    assert(r[0] == x);
}

pub proof fn lemma_pow256_positive(k: nat)
    ensures
        pow256(k) >= 1,
    decreases k,
{
    if k > 0 {
        lemma_pow256_positive((k - 1) as nat);
    }
}

pub proof fn lemma_pow256_monotone(a: nat, b: nat)
    requires
        a <= b,
    ensures
        pow256(a) <= pow256(b),
    decreases b,
{
    if a < b {
        lemma_pow256_monotone(a, (b - 1) as nat);
        lemma_pow256_positive((b - 1) as nat);
    }
}

/// A machine word holds exactly `256^word_bytes()` values.
pub proof fn lemma_pow256_word()
    ensures
        word_bytes() == 4 || word_bytes() == 8,
        pow256(word_bytes()) == usize::MAX + 1,
{
    reveal_with_fuel(pow256, 9);
    assert(usize::BITS == 32 || usize::BITS == 64);
}

/// The width of a machine word in bytes, as an executable value.
pub fn word_size() -> (n: usize)
    ensures
        n == word_bytes(),
        n == 4 || n == 8,
{
    proof {
        lemma_pow256_word();
    }
    if usize::BITS == 64 {
        8
    } else {
        4
    }
}

/// A little-endian value of `k` bytes is below `256^k`.
pub proof fn lemma_le_value_bound(s: Seq<u8>)
    ensures
        le_value(s) < pow256(s.len()),
    decreases s.len(),
{
    if s.len() > 0 {
        lemma_le_value_bound(s.drop_first());
        assert(s.drop_first().len() == s.len() - 1);
    }
}

/// The little-endian value of `s[i..n]`, computed from the last byte down.
fn le_value_of_range(s: &[u8], start: usize, end: usize) -> (v: usize)
    requires
        start <= end <= s@.len(),
        end - start <= word_bytes(),
    ensures
        v as nat == le_value(s@.subrange(start as int, end as int)),
{
    let mut v: usize = 0;
    let mut i: usize = end;
    proof {
        assert(s@.subrange(end as int, end as int) =~= Seq::<u8>::empty());
    }
    while i > start
        invariant
            start <= i <= end <= s@.len(),
            end - start <= word_bytes(),
            v as nat == le_value(s@.subrange(i as int, end as int)),
        decreases i - start,
    {
        let ghost tail = s@.subrange(i as int, end as int);
        proof {
            lemma_le_value_bound(tail);
            lemma_pow256_word();
            lemma_pow256_monotone(tail.len(), (word_bytes() - 1) as nat);
            assert(s@.subrange(i - 1, end as int).drop_first() =~= tail);
        }
        i = i - 1;
        v = (s[i] as usize) + 256 * v;
    }
    v
}

/// The value of the first `n` bytes of `s`, most significant byte first.
pub fn be_value_of_prefix(s: &[u8], n: usize) -> (v: usize)
    requires
        n <= word_bytes(),
        n <= s@.len(),
    ensures
        v as nat == le_value(s@.take(n as int).reverse()),
{
    let mut v: usize = 0;
    proof {
        assert(s@.take(0).reverse() =~= Seq::<u8>::empty());
        lemma_pow256_word();
    }
    for i in 0..n
        invariant
            n <= word_bytes(),
            n <= s@.len(),
            v as nat == le_value(s@.take(i as int).reverse()),
            v < pow256(i as nat),
    {
        let byte: u8 = s[i];
        proof {
            assert(s@.take(i + 1) =~= s@.take(i as int).push(byte));
            lemma_le_value_reverse_push(s@.take(i as int), byte);
            lemma_pow256_word();
            lemma_pow256_monotone((i + 1) as nat, word_bytes());
            assert(pow256((i + 1) as nat) == 256 * pow256(i as nat));
        }
        v = v * 256 + byte as usize;
    }
    v
}

/// Reads a register number or an address from an operand's bytes: the first
/// `min(buf.len(), 8)` bytes in the machine's byte order.
pub fn buf_as_word(buf: &[u8], little_endian: bool) -> (v: usize)
    ensures
        v as nat == word_value_in(buf@, little_endian),
{
    let w = word_size();
    let n: usize = if buf.len() < w { buf.len() } else { w };
    if little_endian {
        proof {
            assert(buf@.subrange(0, n as int) =~= buf@.take(n as int));
        }
        le_value_of_range(buf, 0, n)
    } else {
        be_value_of_prefix(buf, n)
    }
}

/// Reads a machine word from `buf`: the first `min(buf.len(), 8)` bytes,
/// little-endian, zero-extended.
pub fn buf_as_usize(buf: &[u8]) -> (v: usize)
    ensures
        v as nat == word_value(buf@),
{
    let w = word_size();
    let n: usize = if buf.len() < w { buf.len() } else { w };
    proof {
        assert(buf@.subrange(0, n as int) =~= buf@.take(n as int));
    }
    le_value_of_range(buf, 0, n)
}

/// Reads a machine word from the first `min(len, 8)` bytes of `buf`.
pub fn buf_as_usize_len(buf: &[u8], len: usize) -> (v: usize)
    requires
        word_prefix_len(len as nat) <= buf@.len(),
    ensures
        v as nat == le_value(buf@.take(word_prefix_len(len as nat) as int)),
{
    let w = word_size();
    let n: usize = if len < w { len } else { w };
    proof {
        assert(buf@.subrange(0, n as int) =~= buf@.take(n as int));
    }
    le_value_of_range(buf, 0, n)
}

} // verus!
