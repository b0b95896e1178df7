//! USHA0, an experimental 256-bit digest of a byte sequence.
//!
//! The digest is defined by [`usha0_digest`] over sequences of bytes;
//! [`usha0`] computes it. It is a toy for measuring diffusion, not a secure
//! hash.

use crate::bits::{
    add64, be_bytes_u64, be_u64, load_be_u64, push_be_u64, push_zeros, rotate_left_64,
    rotate_right_64, rotl64, rotr64, wrapping_add_64, zeros,
};
use vstd::prelude::*;

verus! {

/// Number of zero bytes after the length field, for a message of `len` bytes:
/// the least number that brings the total to a multiple of 128.
pub open spec fn padding_zeros(len: nat) -> nat {
    ((128 - (len + 8) % 128) % 128) as nat
}

/// What is appended to a message of `len` bytes: its length as a 64-bit
/// big-endian number, then the zero bytes.
pub open spec fn padding(len: nat) -> Seq<u8> {
    be_bytes_u64(len as u64) + zeros(padding_zeros(len))
}

/// The padded message: a whole number of 128-byte chunks.
pub open spec fn padded(m: Seq<u8>) -> Seq<u8> {
    m + padding(m.len())
}

/// The chunk of `p` with index `i`.
pub open spec fn chunk(p: Seq<u8>, i: int) -> Seq<u8> {
    p.subrange(128 * i, 128 * i + 128)
}

/// The 48 words a chunk starts from: its sixteen big-endian 64-bit words,
/// then zeros.
pub open spec fn load_words(c: Seq<u8>) -> Seq<u64> {
    Seq::new(
        48,
        |i: int|
            if i < 16 {
                be_u64(c, 8 * i)
            } else {
                0u64
            },
    )
}

/// Fills word `j` from four earlier words, for `16 <= j < 32`.
pub open spec fn fill_step(e: Seq<u64>, j: int) -> Seq<u64> {
    e.update(j, rotl64(e[j - 2] ^ rotr64(e[j - 3], 9) ^ e[j - 7] ^ rotl64(e[j - 13], 2), 5))
}

/// The words after the first `n` fill steps, which start at word 16.
pub open spec fn fill(e: Seq<u64>, n: nat) -> Seq<u64>
    decreases n,
{
    if n == 0 {
        e
    } else {
        fill_step(fill(e, (n - 1) as nat), 15 + n as int)
    }
}

/// The eight assignments of stir step `j`, in order, for `20 <= j < 48`.
/// Each reads the words as the assignments before it left them.
pub open spec fn stir_step(e: Seq<u64>, j: int) -> Seq<u64> {
    let e1 = e.update(j, e[j] ^ ((rotl64(e[j - 15], 3) & 0xAF421F4D) ^ e[j - 19]));
    let e2 = e1.update(j - 3, rotr64(e1[j - 8], 12) & 0xC35BD342);
    let e3 = e2.update(j - 7, e2[j - 7] & (rotr64(e2[j - 9], 17) ^ 0x623144AF));
    let e4 = e3.update(j - 2, rotr64(e3[j - 15], 33) & 0xF3512FC1);
    let e5 = e4.update(j - 6, (rotr64(e4[j - 5], 63) | 0xF3512FC1) ^ e4[j - 1]);
    let e6 = e5.update(j - 17, rotl64(e5[j - 19], 42) ^ (0xF3512FC1 & e5[j - 15]));
    let e7 = e6.update(j - 3, rotl64(e6[j - 4], 27));
    e7.update(j - 9, e7[j] ^ e7[j - 5] ^ e7[j - 7])
}

/// The words after the first `n` stir steps, which start at word 20.
pub open spec fn stir(e: Seq<u64>, n: nat) -> Seq<u64>
    decreases n,
{
    if n == 0 {
        e
    } else {
        stir_step(stir(e, (n - 1) as nat), 19 + n as int)
    }
}

/// The 48 words that one chunk is extended to.
pub open spec fn extend(c: Seq<u8>) -> Seq<u64> {
    stir(fill(load_words(c), 16), 28)
}

/// The extended message: the extensions of the first `n` chunks of `p`, one
/// after the other.
#[verifier::opaque]
pub open spec fn extended(p: Seq<u8>, n: nat) -> Seq<u64>
    decreases n,
{
    if n == 0 {
        Seq::empty()
    } else {
        extended(p, (n - 1) as nat) + extend(chunk(p, n - 1))
    }
}

/// The state before the first word: every entry is 6.
pub open spec fn initial_state() -> Seq<u64> {
    Seq::new(32, |i: int| 6u64)
}

/// The state after mixing in word `b` at position `p`, the word's index in
/// the extended message modulo 32. The assignments happen in order; a later
/// one reads and overwrites what an earlier one left.
pub open spec fn mix_step(s: Seq<u64>, p: int, b: u64) -> Seq<u64> {
    let m1 = s.update(p, s[p] ^ b);
    let m2 = m1.update((p + 5) % 32, m1[(p + 5) % 32] ^ (m1[(p + 3) % 32] & b));
    let m3 = m2.update((p + 17) % 32, m2[(p + 17) % 32] & b);
    let m4 = m3.update((p + 8) % 32, m3[(p + 8) % 32] | (b ^ (m3[p] & !m3[(p + 18) % 32])));
    let m5 = if p == 0 {
        m4.update((p + 12) % 32, rotr64(m4[(p + 65) % 32], 7))
    } else if p <= 16 {
        let t1 = m4.update(
            p,
            add64(add64(m4[(p + 3) % 32], m4[(p + 3) % 32] | m4[(p + 1) % 32]), m4[p]),
        );
        let t2 = t1.update((p + 213) % 32, !t1[(p + 26) % 32]);
        t2.update((p + 46) % 32, rotl64(t2[(p + 72) % 32], 3))
    } else {
        let t1 = m4.update(p, m4[p] & 0x53);
        t1.update((p + 23) % 32, rotl64(t1[(p + 75) % 32], 5))
    };
    m5.update(p, rotl64(m5[p], 55))
}

/// The state after mixing in the first `n` words of `x`.
pub open spec fn mix_pass(s: Seq<u64>, x: Seq<u64>, n: nat) -> Seq<u64>
    decreases n,
{
    if n == 0 {
        s
    } else {
        mix_step(mix_pass(s, x, (n - 1) as nat), (n - 1) % 32, x[n - 1])
    }
}

/// The state after `r` passes over the whole of `x`.
#[verifier::opaque]
pub open spec fn mix_rounds(s: Seq<u64>, x: Seq<u64>, r: nat) -> Seq<u64>
    decreases r,
{
    if r == 0 {
        s
    } else {
        mix_pass(mix_rounds(s, x, (r - 1) as nat), x, x.len())
    }
}

/// The first four words of the state in big-endian order: 32 bytes.
pub open spec fn serialize(s: Seq<u64>) -> Seq<u8> {
    be_bytes_u64(s[0]) + be_bytes_u64(s[1]) + be_bytes_u64(s[2]) + be_bytes_u64(s[3])
}

/// The USHA0 digest of `m`.
pub open spec fn usha0_digest(m: Seq<u8>) -> Seq<u8> {
    let p = padded(m);
    serialize(mix_rounds(initial_state(), extended(p, p.len() / 128), 32))
}

/// The number of padding zeros, computed from the length's remainder.
proof fn lemma_padding_zeros(len: nat)
    ensures
        padding_zeros(len) == (128 - (len % 128 + 8) % 128) % 128,
        len % 128 + 8 + padding_zeros(len) == (if len % 128 <= 120 {
            128int
        } else {
            256int
        }),
{
}

/// The padded message is its chunks: the whole chunks of the message itself,
/// then one or two chunks that hold its last bytes and the padding.
pub proof fn lemma_padded_layout(m: Seq<u8>)
    ensures
        padded(m).len() % 128 == 0,
        padded(m).len() / 128 == m.len() / 128 + (if m.len() % 128 <= 120 {
            1int
        } else {
            2int
        }),
        forall|i: int| 0 <= i < m.len() / 128 ==> #[trigger] chunk(padded(m), i) == chunk(m, i),
{
    let len = m.len();
    let tail: int = if len % 128 <= 120 {
        128
    } else {
        256
    };
    lemma_padding_zeros(len);
    assert(padding(len).len() == 8 + padding_zeros(len));
    assert(padded(m).len() == len + 8 + padding_zeros(len));
    assert(padded(m).len() == 128 * (len / 128) + tail);
    assert forall|i: int| 0 <= i < len / 128 implies #[trigger] chunk(padded(m), i) == chunk(
        m,
        i,
    ) by {
        assert(128 * i + 128 <= len);
        assert(chunk(padded(m), i) =~= chunk(m, i));
    }
}

/// A chunk of the padded message past the message's whole chunks is the same
/// chunk of the tail: the message's last bytes followed by the padding.
proof fn lemma_tail_chunk(m: Seq<u8>, tail: Seq<u8>, j: int)
    requires
        tail == m.subrange(m.len() - m.len() % 128, m.len() as int) + padding(m.len()),
        0 <= j,
        128 * j + 128 <= tail.len(),
    ensures
        chunk(padded(m), m.len() / 128 + j) == chunk(tail, j),
{
    assert(chunk(padded(m), m.len() / 128 + j) =~= chunk(tail, j));
}

/// One fill step on the words.
fn fill_word(e: &mut Vec<u64>, j: usize)
    requires
        old(e)@.len() == 48,
        16 <= j < 32,
    ensures
        final(e)@ == fill_step(old(e)@, j as int),
{
    let x = e[j - 2] ^ rotate_right_64(e[j - 3], 9) ^ e[j - 7] ^ rotate_left_64(e[j - 13], 2);
    e[j] = rotate_left_64(x, 5);
}

/// One stir step on the words.
fn stir_words(e: &mut Vec<u64>, j: usize)
    requires
        old(e)@.len() == 48,
        20 <= j < 48,
    ensures
        final(e)@ == stir_step(old(e)@, j as int),
{
    e[j] = e[j] ^ ((rotate_left_64(e[j - 15], 3) & 0xAF421F4D) ^ e[j - 19]);
    e[j - 3] = rotate_right_64(e[j - 8], 12) & 0xC35BD342;
    e[j - 7] = e[j - 7] & (rotate_right_64(e[j - 9], 17) ^ 0x623144AF);
    e[j - 2] = rotate_right_64(e[j - 15], 33) & 0xF3512FC1;
    e[j - 6] = (rotate_right_64(e[j - 5], 63) | 0xF3512FC1) ^ e[j - 1];
    e[j - 17] = rotate_left_64(e[j - 19], 42) ^ (0xF3512FC1 & e[j - 15]);
    e[j - 3] = rotate_left_64(e[j - 4], 27);
    e[j - 9] = e[j] ^ e[j - 5] ^ e[j - 7];
}

/// Appends to `out` the extension of the chunk of `bytes` that starts at `at`.
fn extend_chunk(bytes: &[u8], at: usize, out: &mut Vec<u64>)
    requires
        at + 128 <= bytes@.len(),
    ensures
        final(out)@ == old(out)@ + extend(bytes@.subrange(at as int, at + 128)),
{
    let ghost c = bytes@.subrange(at as int, at + 128);
    let len = bytes.len();
    let mut e: Vec<u64> = Vec::new();
    let mut i: usize = 0;
    while i < 16
        invariant
            i <= 16,
            len == bytes@.len(),
            at + 128 <= len,
            c == bytes@.subrange(at as int, at + 128),
            e@.len() == i,
            forall|k: int| 0 <= k < i ==> e@[k] == be_u64(c, 8 * k),
        decreases 16 - i,
    {
        let word = load_be_u64(bytes, at + 8 * i);
        assert(word == be_u64(c, 8 * i)) by {
            assert(c[8 * i] == bytes@[at + 8 * i]);
            assert(c[8 * i + 1] == bytes@[at + 8 * i + 1]);
            assert(c[8 * i + 2] == bytes@[at + 8 * i + 2]);
            assert(c[8 * i + 3] == bytes@[at + 8 * i + 3]);
            assert(c[8 * i + 4] == bytes@[at + 8 * i + 4]);
            assert(c[8 * i + 5] == bytes@[at + 8 * i + 5]);
            assert(c[8 * i + 6] == bytes@[at + 8 * i + 6]);
            assert(c[8 * i + 7] == bytes@[at + 8 * i + 7]);
        }
        e.push(word);
        i = i + 1;
    }
    while i < 48
        invariant
            16 <= i <= 48,
            e@.len() == i,
            forall|k: int| 0 <= k < 16 ==> e@[k] == be_u64(c, 8 * k),
            forall|k: int| 16 <= k < i ==> e@[k] == 0,
        decreases 48 - i,
    {
        e.push(0u64);
        i = i + 1;
    }
    assert(e@ =~= load_words(c));
    let mut j: usize = 16;
    while j < 32
        invariant
            16 <= j <= 32,
            e@.len() == 48,
            e@ == fill(load_words(c), (j - 16) as nat),
        decreases 32 - j,
    {
        fill_word(&mut e, j);
        j = j + 1;
    }
    let mut j: usize = 20;
    while j < 48
        invariant
            20 <= j <= 48,
            e@.len() == 48,
            e@ == stir(fill(load_words(c), 16), (j - 20) as nat),
        decreases 48 - j,
    {
        stir_words(&mut e, j);
        j = j + 1;
    }
    let mut k: usize = 0;
    while k < 48
        invariant
            k <= 48,
            e@.len() == 48,
            out@ == old(out)@ + e@.subrange(0, k as int),
        decreases 48 - k,
    {
        out.push(e[k]);
        k = k + 1;
    }
    assert(e@.subrange(0, 48) =~= e@);
}

/// Mixes word `b` into the state at position `p`.
fn mix_word(s: &mut Vec<u64>, p: usize, b: u64)
    requires
        old(s)@.len() == 32,
        p < 32,
    ensures
        final(s)@ == mix_step(old(s)@, p as int, b),
        final(s)@.len() == 32,
{
    s[p] = s[p] ^ b;
    s[(p + 5) % 32] = s[(p + 5) % 32] ^ (s[(p + 3) % 32] & b);
    s[(p + 17) % 32] = s[(p + 17) % 32] & b;
    s[(p + 8) % 32] = s[(p + 8) % 32] | (b ^ (s[p] & !s[(p + 18) % 32]));
    if p == 0 {
        s[(p + 12) % 32] = rotate_right_64(s[(p + 65) % 32], 7);
    } else if p <= 16 {
        s[p] = wrapping_add_64(
            wrapping_add_64(s[(p + 3) % 32], s[(p + 3) % 32] | s[(p + 1) % 32]),
            s[p],
        );
        s[(p + 213) % 32] = !s[(p + 26) % 32];
        s[(p + 46) % 32] = rotate_left_64(s[(p + 72) % 32], 3);
    } else {
        s[p] = s[p] & 0x53;
        s[(p + 23) % 32] = rotate_left_64(s[(p + 75) % 32], 5);
    }
    s[p] = rotate_left_64(s[p], 55);
}

/// The message's bytes past its last whole chunk, followed by the padding.
fn padding_tail(message: &[u8]) -> (tail: Vec<u8>)
    ensures
        tail@ == message@.subrange(
            message@.len() - message@.len() % 128,
            message@.len() as int,
        ) + padding(message@.len()),
        tail@.len() == (if message@.len() % 128 <= 120 {
            128int
        } else {
            256int
        }),
{
    let len = message.len();
    let rest = len % 128;
    let start = len - rest;
    let mut tail: Vec<u8> = Vec::new();
    let mut i: usize = start;
    while i < len
        invariant
            start <= i <= len,
            len == message@.len(),
            tail@ == message@.subrange(start as int, i as int),
        decreases len - i,
    {
        tail.push(message[i]);
        i = i + 1;
    }
    proof {
        lemma_padding_zeros(len as nat);
    }
    let ghost last = tail@;
    push_be_u64(&mut tail, len as u64);
    push_zeros(&mut tail, (128 - (rest + 8) % 128) % 128);
    assert(tail@ == last + padding(len as nat)) by {
        assert(tail@ =~= last + (be_bytes_u64(len as u64) + zeros(padding_zeros(len as nat))));
    }
    tail
}

/// USHA0 of `message`: 32 bytes.
pub fn usha0(message: &[u8]) -> (digest: Vec<u8>)
    ensures
        digest@ == usha0_digest(message@),
        digest@.len() == 32,
{
    let ghost p = padded(message@);
    proof {
        lemma_padded_layout(message@);
    }
    let len = message.len();
    let whole = len / 128;
    let mut x: Vec<u64> = Vec::new();
    proof {
        reveal(extended);
    }
    let mut i: usize = 0;
    while i < whole
        invariant
            i <= whole,
            len == message@.len(),
            whole == len / 128,
            p == padded(message@),
            forall|k: int| 0 <= k < whole ==> #[trigger] chunk(p, k) == chunk(message@, k),
            x@ == extended(p, i as nat),
        decreases whole - i,
    {
        proof {
            reveal(extended);
        }
        extend_chunk(message, 128 * i, &mut x);
        i = i + 1;
    }
    let tail = padding_tail(message);
    let chunks = tail.len() / 128;
    let mut j: usize = 0;
    while j < chunks
        invariant
            j <= chunks,
            chunks == tail@.len() / 128,
            tail@.len() % 128 == 0,
            whole == message@.len() / 128,
            p == padded(message@),
            tail@ == message@.subrange(
                message@.len() - message@.len() % 128,
                message@.len() as int,
            ) + padding(message@.len()),
            x@ == extended(p, (whole + j) as nat),
        decreases chunks - j,
    {
        proof {
            reveal(extended);
            lemma_tail_chunk(message@, tail@, j as int);
        }
        extend_chunk(tail.as_slice(), 128 * j, &mut x);
        j = j + 1;
    }
    let mut s: Vec<u64> = Vec::new();
    let mut k: usize = 0;
    while k < 32
        invariant
            k <= 32,
            s@.len() == k,
            forall|q: int| 0 <= q < k ==> s@[q] == 6,
        decreases 32 - k,
    {
        s.push(6u64);
        k = k + 1;
    }
    assert(s@ =~= initial_state());
    proof {
        reveal(mix_rounds);
    }
    let n = x.len();
    let mut r: usize = 0;
    while r < 32
        invariant
            r <= 32,
            n == x@.len(),
            s@.len() == 32,
            s@ == mix_rounds(initial_state(), x@, r as nat),
        decreases 32 - r,
    {
        let ghost before = s@;
        let mut i: usize = 0;
        while i < n
            invariant
                i <= n,
                n == x@.len(),
                s@.len() == 32,
                s@ == mix_pass(before, x@, i as nat),
            decreases n - i,
        {
            mix_word(&mut s, i % 32, x[i]);
            i = i + 1;
        }
        proof {
            reveal(mix_rounds);
        }
        r = r + 1;
    }
    let mut digest: Vec<u8> = Vec::new();
    push_be_u64(&mut digest, s[0]);
    push_be_u64(&mut digest, s[1]);
    push_be_u64(&mut digest, s[2]);
    push_be_u64(&mut digest, s[3]);
    digest
}

/// Every digest is 32 bytes long.
pub proof fn lemma_usha0_length(m: Seq<u8>)
    ensures
        usha0_digest(m).len() == 32,
{
}

/// `usha0` is a function of the message's bytes: whatever two calls on equal
/// messages return is the same 32 bytes, the digest of those bytes.
pub proof fn lemma_usha0_deterministic(m1: &[u8], m2: &[u8], d1: Vec<u8>, d2: Vec<u8>)
    requires
        m1@ == m2@,
        call_ensures(usha0, (m1,), d1),
        call_ensures(usha0, (m2,), d2),
    ensures
        d1@ == d2@,
        d1@ == usha0_digest(m1@),
        d1@.len() == 32,
{
}

} // verus!
