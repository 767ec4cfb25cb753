//! Integers as bytes.

use vstd::prelude::*;

verus! {

/// `n` as four bytes, the most significant first.
pub open spec fn be32(n: u32) -> Seq<u8> {
    seq![
        (n / 0x100_0000) as u8,
        (n / 0x1_0000 % 0x100) as u8,
        (n / 0x100 % 0x100) as u8,
        (n % 0x100) as u8,
    ]
}

/// `n` as eight bytes, the most significant first.
pub open spec fn be64(n: u64) -> Seq<u8> {
    be32((n / 0x1_0000_0000) as u32) + be32((n % 0x1_0000_0000) as u32)
}

/// `n` as four bytes, the least significant first.
pub open spec fn le32(n: u32) -> Seq<u8> {
    seq![
        (n % 0x100) as u8,
        (n / 0x100 % 0x100) as u8,
        (n / 0x1_0000 % 0x100) as u8,
        (n / 0x100_0000) as u8,
    ]
}

/// `n` as two bytes, the least significant first.
pub open spec fn le16(n: u16) -> Seq<u8> {
    seq![(n % 0x100) as u8, (n / 0x100) as u8]
}

/// The number whose four bytes, the least significant first, start at `at`.
pub open spec fn le32_at(bytes: Seq<u8>, at: int) -> u32 {
    (bytes[at] + bytes[at + 1] * 0x100 + bytes[at + 2] * 0x1_0000 + bytes[at + 3]
        * 0x100_0000) as u32
}

/// The number whose two bytes, the least significant first, start at `at`.
pub open spec fn le16_at(bytes: Seq<u8>, at: int) -> u16 {
    (bytes[at] + bytes[at + 1] * 0x100) as u16
}

/// The signed number that the 32 bits of `n` stand for in two's complement.
pub open spec fn signed32(n: u32) -> i32 {
    if n < 0x8000_0000 {
        n as i32
    } else {
        (n - 0x1_0000_0000) as i32
    }
}

/// The signed number that the 16 bits of `n` stand for in two's complement.
pub open spec fn signed16(n: u16) -> i16 {
    if n < 0x8000 {
        n as i16
    } else {
        (n - 0x1_0000) as i16
    }
}

/// The 32 bits that stand for `n` in two's complement.
pub open spec fn unsigned32(n: i32) -> u32 {
    if n >= 0 {
        n as u32
    } else {
        (n + 0x1_0000_0000) as u32
    }
}

/// The 16 bits that stand for `n` in two's complement.
pub open spec fn unsigned16(n: i16) -> u16 {
    if n >= 0 {
        n as u16
    } else {
        (n + 0x1_0000) as u16
    }
}

/// Appends `n` as four bytes, the most significant first.
pub fn push_be32(out: &mut Vec<u8>, n: u32)
    ensures
        final(out)@ == old(out)@ + be32(n),
{
    out.push((n / 0x100_0000) as u8);
    out.push((n / 0x1_0000 % 0x100) as u8);
    out.push((n / 0x100 % 0x100) as u8);
    out.push((n % 0x100) as u8);
    assert(out@ =~= old(out)@ + be32(n));
}

/// Appends `n` as eight bytes, the most significant first.
pub fn push_be64(out: &mut Vec<u8>, n: u64)
    ensures
        final(out)@ == old(out)@ + be64(n),
{
    push_be32(out, (n / 0x1_0000_0000) as u32);
    push_be32(out, (n % 0x1_0000_0000) as u32);
    assert(out@ =~= old(out)@ + be64(n));
}

/// Appends `n` as four bytes, the least significant first.
pub fn push_le32(out: &mut Vec<u8>, n: u32)
    ensures
        final(out)@ == old(out)@ + le32(n),
{
    out.push((n % 0x100) as u8);
    out.push((n / 0x100 % 0x100) as u8);
    out.push((n / 0x1_0000 % 0x100) as u8);
    out.push((n / 0x100_0000) as u8);
    assert(out@ =~= old(out)@ + le32(n));
}

/// Appends `n` as two bytes, the least significant first.
pub fn push_le16(out: &mut Vec<u8>, n: u16)
    ensures
        final(out)@ == old(out)@ + le16(n),
{
    out.push((n % 0x100) as u8);
    out.push((n / 0x100) as u8);
    assert(out@ =~= old(out)@ + le16(n));
}

/// The number whose four bytes, the least significant first, start at `at`.
pub fn read_le32(bytes: &[u8], at: usize) -> (n: u32)
    requires
        at + 4 <= bytes@.len(),
    ensures
        n == le32_at(bytes@, at as int),
{
    bytes[at] as u32 + bytes[at + 1] as u32 * 0x100 + bytes[at + 2] as u32 * 0x1_0000
        + bytes[at + 3] as u32 * 0x100_0000
}

/// The number whose two bytes, the least significant first, start at `at`.
pub fn read_le16(bytes: &[u8], at: usize) -> (n: u16)
    requires
        at + 2 <= bytes@.len(),
    ensures
        n == le16_at(bytes@, at as int),
{
    bytes[at] as u16 + bytes[at + 1] as u16 * 0x100
}

/// The signed number that the 32 bits of `n` stand for.
pub fn to_signed32(n: u32) -> (s: i32)
    ensures
        s == signed32(n),
{
    if n < 0x8000_0000 {
        n as i32
    } else {
        (n as i64 - 0x1_0000_0000) as i32
    }
}

/// The signed number that the 16 bits of `n` stand for.
pub fn to_signed16(n: u16) -> (s: i16)
    ensures
        s == signed16(n),
{
    if n < 0x8000 {
        n as i16
    } else {
        (n as i32 - 0x1_0000) as i16
    }
}

/// The 32 bits that stand for `n`.
pub fn to_unsigned32(n: i32) -> (u: u32)
    ensures
        u == unsigned32(n),
{
    if n >= 0 {
        n as u32
    } else {
        (n as i64 + 0x1_0000_0000) as u32
    }
}

/// The 16 bits that stand for `n`.
pub fn to_unsigned16(n: i16) -> (u: u16)
    ensures
        u == unsigned16(n),
{
    if n >= 0 {
        n as u16
    } else {
        (n as i32 + 0x1_0000) as u16
    }
}

/// Four bytes written at `at` read back as the number that they were written from.
pub proof fn le32_reads_back(bytes: Seq<u8>, at: int, n: u32)
    requires
        0 <= at,
        at + 4 <= bytes.len(),
        bytes.subrange(at, at + 4) == le32(n),
    ensures
        le32_at(bytes, at) == n,
{
    let field = bytes.subrange(at, at + 4);
    assert(field[0] == bytes[at]);
    assert(field[1] == bytes[at + 1]);
    assert(field[2] == bytes[at + 2]);
    assert(field[3] == bytes[at + 3]);
    assert(n == (n % 0x100) + (n / 0x100 % 0x100) * 0x100 + (n / 0x1_0000 % 0x100) * 0x1_0000 + (n
        / 0x100_0000) * 0x100_0000);
}

/// Two bytes written at `at` read back as the number that they were written from.
pub proof fn le16_reads_back(bytes: Seq<u8>, at: int, n: u16)
    requires
        0 <= at,
        at + 2 <= bytes.len(),
        bytes.subrange(at, at + 2) == le16(n),
    ensures
        le16_at(bytes, at) == n,
{
    let field = bytes.subrange(at, at + 2);
    assert(field[0] == bytes[at]);
    assert(field[1] == bytes[at + 1]);
}

/// The first `n` of `words`, each as four bytes, the least significant first.
pub open spec fn le32_words(words: Seq<u32>, n: int) -> Seq<u8>
    decreases n,
{
    if n <= 0 {
        Seq::empty()
    } else {
        le32_words(words, n - 1) + le32(words[n - 1])
    }
}

/// All of `words`, each as four bytes, the least significant first.
pub open spec fn le32_all(words: Seq<u32>) -> Seq<u8> {
    le32_words(words, words.len() as int)
}

/// Word `i` of encoded words takes the four bytes from `4 * i` on.
pub proof fn lemma_le32_words(words: Seq<u32>, n: int, i: int)
    requires
        0 <= i < n <= words.len(),
    ensures
        le32_words(words, n).len() == 4 * n,
        le32_words(words, n).subrange(4 * i, 4 * i + 4) == le32(words[i]),
    decreases n,
{
    lemma_le32_words_len(words, n);
    lemma_le32_words_len(words, n - 1);
    let before = le32_words(words, n - 1);
    if i < n - 1 {
        lemma_le32_words(words, n - 1, i);
        assert(le32_words(words, n).subrange(4 * i, 4 * i + 4) =~= before.subrange(
            4 * i,
            4 * i + 4,
        ));
    } else {
        assert(le32_words(words, n).subrange(4 * i, 4 * i + 4) =~= le32(words[i]));
    }
}

/// Encoded words take four bytes each.
pub proof fn lemma_le32_words_len(words: Seq<u32>, n: int)
    requires
        0 <= n <= words.len(),
    ensures
        le32_words(words, n).len() == 4 * n,
    decreases n,
{
    if n > 0 {
        lemma_le32_words_len(words, n - 1);
    }
}

/// Only the first `n` words matter to the encoding of the first `n` words.
pub proof fn lemma_le32_words_agree(a: Seq<u32>, b: Seq<u32>, n: int)
    requires
        0 <= n <= a.len(),
        n <= b.len(),
        forall|i: int| 0 <= i < n ==> #[trigger] a[i] == b[i],
    ensures
        le32_words(a, n) == le32_words(b, n),
    decreases n,
{
    if n > 0 {
        lemma_le32_words_agree(a, b, n - 1);
        assert(a[n - 1] == b[n - 1]);
    }
}

/// Words that lie at `at` within `bytes` read back.
pub proof fn le32_words_read_back(bytes: Seq<u8>, at: int, words: Seq<u32>, i: int)
    requires
        0 <= at,
        at + 4 * words.len() <= bytes.len(),
        bytes.subrange(at, at + 4 * words.len()) == le32_all(words),
        0 <= i < words.len(),
    ensures
        le32_at(bytes, at + 4 * i) == words[i],
{
    lemma_le32_words(words, words.len() as int, i);
    assert(bytes.subrange(at + 4 * i, at + 4 * i + 4) =~= bytes.subrange(
        at,
        at + 4 * words.len(),
    ).subrange(4 * i, 4 * i + 4));
    le32_reads_back(bytes, at + 4 * i, words[i]);
}

/// A signed number reads back from the bits that stand for it.
pub proof fn signed_reads_back(n: i32, m: i16)
    ensures
        signed32(unsigned32(n)) == n,
        signed16(unsigned16(m)) == m,
{
}

/// `n` zero bytes.
pub open spec fn zeros(n: int) -> Seq<u8> {
    Seq::new(n as nat, |i: int| 0u8)
}

/// Appends `n` zero bytes.
pub fn push_zeros(out: &mut Vec<u8>, n: usize)
    ensures
        final(out)@ == old(out)@ + zeros(n as int),
{
    let ghost before = out@;
    let mut i: usize = 0;
    assert(out@ =~= before + zeros(0));
    while i < n
        invariant
            i <= n,
            out@ == before + zeros(i as int),
        decreases n - i,
    {
        out.push(0);
        i += 1;
        assert(out@ =~= before + zeros(i as int));
    }
}

/// Appends `words`, each as four bytes, the least significant first.
pub fn push_le32_all(out: &mut Vec<u8>, words: &Vec<u32>)
    ensures
        final(out)@ == old(out)@ + le32_all(words@),
{
    let ghost before = out@;
    let mut i: usize = 0;
    assert(out@ =~= before + le32_words(words@, 0));
    while i < words.len()
        invariant
            i <= words@.len(),
            out@ == before + le32_words(words@, i as int),
        decreases words@.len() - i,
    {
        push_le32(out, words[i]);
        i += 1;
        assert(out@ =~= before + le32_words(words@, i as int));
    }
}

/// The encoding of two lists of words is the encoding of both together.
pub proof fn lemma_le32_all_concat(a: Seq<u32>, b: Seq<u32>)
    ensures
        le32_all(a + b) == le32_all(a) + le32_all(b),
{
    lemma_le32_concat_to(a, b, b.len() as int);
}

proof fn lemma_le32_concat_to(a: Seq<u32>, b: Seq<u32>, n: int)
    requires
        0 <= n <= b.len(),
    ensures
        le32_words(a + b, a.len() + n) == le32_all(a) + le32_words(b, n),
    decreases n,
{
    if n == 0 {
        lemma_le32_words_agree(a + b, a, a.len() as int);
        assert(le32_all(a) + le32_words(b, 0) =~= le32_all(a));
    } else {
        lemma_le32_concat_to(a, b, n - 1);
        assert((a + b)[a.len() + n - 1] == b[n - 1]);
        assert(le32_words(a + b, a.len() + n) =~= le32_all(a) + le32_words(b, n));
    }
}

} // verus!
