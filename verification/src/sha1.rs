//! The SHA-1 message digest of a byte sequence.
//!
//! The digest is defined by [`sha1_digest`] over sequences of bytes; [`sha1`]
//! computes it.

use crate::bits::{
    add32, be_bytes_u32, be_bytes_u64, be_u32, load_be_u32, push_be_u32, push_be_u64, push_zeros,
    rotate_left_32, rotl32, wrapping_add_32, zeros,
};
use vstd::arithmetic::div_mod::lemma_add_mod_noop_right;
use vstd::prelude::*;

verus! {

/// Five 32-bit registers: the chaining value between blocks, and the working
/// variables inside one block.
#[derive(Clone, Copy)]
pub struct Registers {
    pub a: u32,
    pub b: u32,
    pub c: u32,
    pub d: u32,
    pub e: u32,
}

/// The chaining value before the first block.
pub open spec fn initial_registers() -> Registers {
    Registers { a: 0x67452301, b: 0xEFCDAB89, c: 0x98BADCFE, d: 0x10325476, e: 0xC3D2E1F0 }
}

/// Number of zero bytes between the `0x80` marker and the length field, for a
/// message of `len` bytes: the least number that brings the total to 56 modulo 64.
pub open spec fn padding_zeros(len: nat) -> nat {
    ((55 - len) % 64) as nat
}

/// What is appended to a message of `len` bytes: the marker, the zero bytes,
/// and the message's length in bits as a 64-bit big-endian number.
pub open spec fn padding(len: nat) -> Seq<u8> {
    seq![0x80u8] + zeros(padding_zeros(len)) + be_bytes_u64((8 * len) as u64)
}

/// The padded message: a whole number of 64-byte blocks.
pub open spec fn padded(m: Seq<u8>) -> Seq<u8> {
    m + padding(m.len())
}

/// The block of `p` with index `i`.
pub open spec fn block(p: Seq<u8>, i: int) -> Seq<u8> {
    p.subrange(64 * i, 64 * i + 64)
}

/// Word `t` of the message schedule of one block, for `0 <= t < 80`.
pub open spec fn schedule(blk: Seq<u8>, t: int) -> u32
    decreases t,
{
    if t < 16 {
        be_u32(blk, 4 * t)
    } else {
        rotl32(
            schedule(blk, t - 3) ^ schedule(blk, t - 8) ^ schedule(blk, t - 14) ^ schedule(
                blk,
                t - 16,
            ),
            1,
        )
    }
}

/// The logical function of round `t`.
pub open spec fn round_function(t: int, b: u32, c: u32, d: u32) -> u32 {
    if t < 20 {
        (b & c) | ((!b) & d)
    } else if t < 40 {
        b ^ c ^ d
    } else if t < 60 {
        (b & c) | (b & d) | (c & d)
    } else {
        b ^ c ^ d
    }
}

/// The additive constant of round `t`.
pub open spec fn round_constant(t: int) -> u32 {
    if t < 20 {
        0x5A827999
    } else if t < 40 {
        0x6ED9EBA1
    } else if t < 60 {
        0x8F1BBCDC
    } else {
        0xCA62C1D6
    }
}

/// The working variables after round `t`, which consumes schedule word `w`.
pub open spec fn round(v: Registers, w: u32, t: int) -> Registers {
    Registers {
        a: ((rotl32(v.a, 5) + round_function(t, v.b, v.c, v.d) + v.e + w + round_constant(t))
            % 0x1_0000_0000) as u32,
        b: v.a,
        c: rotl32(v.b, 30),
        d: v.c,
        e: v.d,
    }
}

/// The working variables after the first `n` rounds of a block.
pub open spec fn rounds(h: Registers, blk: Seq<u8>, n: nat) -> Registers
    decreases n,
{
    if n == 0 {
        h
    } else {
        round(rounds(h, blk, (n - 1) as nat), schedule(blk, n - 1), n - 1)
    }
}

/// The chaining value after one block: the eighty rounds, added back
/// register by register modulo 2^32.
pub open spec fn compress(h: Registers, blk: Seq<u8>) -> Registers {
    let v = rounds(h, blk, 80);
    Registers {
        a: add32(v.a, h.a),
        b: add32(v.b, h.b),
        c: add32(v.c, h.c),
        d: add32(v.d, h.d),
        e: add32(v.e, h.e),
    }
}

/// The chaining value after the first `n` blocks of `p`.
#[verifier::opaque]
pub open spec fn absorb(p: Seq<u8>, n: nat) -> Registers
    decreases n,
{
    if n == 0 {
        initial_registers()
    } else {
        compress(absorb(p, (n - 1) as nat), block(p, n - 1))
    }
}

/// The five registers in big-endian order: twenty bytes.
pub open spec fn serialize(h: Registers) -> Seq<u8> {
    be_bytes_u32(h.a) + be_bytes_u32(h.b) + be_bytes_u32(h.c) + be_bytes_u32(h.d) + be_bytes_u32(
        h.e,
    )
}

/// The SHA-1 digest of `m`.
pub open spec fn sha1_digest(m: Seq<u8>) -> Seq<u8> {
    serialize(absorb(padded(m), padded(m).len() / 64))
}

/// The padded message is its blocks: the whole blocks of the message itself,
/// then one or two blocks that hold its last bytes and the padding.
pub proof fn lemma_padded_layout(m: Seq<u8>)
    ensures
        padded(m).len() % 64 == 0,
        padded(m).len() / 64 == m.len() / 64 + (if m.len() % 64 < 56 {
            1int
        } else {
            2int
        }),
        forall|i: int| 0 <= i < m.len() / 64 ==> #[trigger] block(padded(m), i) == block(m, i),
{
    let len = m.len();
    let tail: int = if len % 64 < 56 {
        64
    } else {
        128
    };
    lemma_padding_zeros(len);
    assert(padding(len).len() == 1 + padding_zeros(len) + 8);
    assert(padded(m).len() == len + 1 + padding_zeros(len) + 8);
    assert(padded(m).len() == 64 * (len / 64) + tail);
    assert forall|i: int| 0 <= i < len / 64 implies #[trigger] block(padded(m), i) == block(
        m,
        i,
    ) by {
        assert(64 * i + 64 <= len);
        assert(block(padded(m), i) =~= block(m, i));
    }
}

/// A block of the padded message past the message's whole blocks is the same
/// block of the tail: the message's last bytes followed by the padding.
proof fn lemma_tail_block(m: Seq<u8>, tail: Seq<u8>, j: int)
    requires
        tail == m.subrange(m.len() - m.len() % 64, m.len() as int) + padding(m.len()),
        0 <= j,
        64 * j + 64 <= tail.len(),
    ensures
        block(padded(m), m.len() / 64 + j) == block(tail, j),
{
    assert(block(padded(m), m.len() / 64 + j) =~= block(tail, j));
}

/// Adding five words one after the other modulo 2^32 gives their sum modulo 2^32.
proof fn lemma_sum_of_five(a: u32, b: u32, c: u32, d: u32, e: u32)
    ensures
        add32(a, add32(b, add32(c, add32(d, e)))) == ((a + b + c + d + e) % 0x1_0000_0000) as u32,
{
    let m = 0x1_0000_0000int;
    lemma_add_mod_noop_right(c as int, d + e, m);
    lemma_add_mod_noop_right(b as int, c + d + e, m);
    lemma_add_mod_noop_right(a as int, b + c + d + e, m);
}

/// The number of padding zeros, computed from the length's remainder.
proof fn lemma_padding_zeros(len: nat)
    ensures
        padding_zeros(len) == (119 - len % 64) % 64,
        padding_zeros(len) < 64,
        (len % 64 + 1 + padding_zeros(len) + 8) % 64 == 0,
        len % 64 + 1 + padding_zeros(len) + 8 == (if len % 64 < 56 {
            64int
        } else {
            128int
        }),
{
}

fn schedule_block(bytes: &[u8], at: usize) -> (w: [u32; 80])
    requires
        at + 64 <= bytes@.len(),
    ensures
        forall|t: int| 0 <= t < 80 ==> w@[t] == schedule(bytes@.subrange(at as int, at + 64), t),
{
    let ghost blk = bytes@.subrange(at as int, at + 64);
    let len = bytes.len();
    let mut w: [u32; 80] = [0u32; 80];
    let mut t: usize = 0;
    while t < 16
        invariant
            t <= 16,
            len == bytes@.len(),
            at + 64 <= len,
            blk == bytes@.subrange(at as int, at + 64),
            forall|j: int| 0 <= j < t ==> w@[j] == schedule(blk, j),
        decreases 16 - t,
    {
        let word = load_be_u32(bytes, at + 4 * t);
        assert(word == be_u32(blk, 4 * t)) by {
            assert(blk[4 * t] == bytes@[at + 4 * t]);
            assert(blk[4 * t + 1] == bytes@[at + 4 * t + 1]);
            assert(blk[4 * t + 2] == bytes@[at + 4 * t + 2]);
            assert(blk[4 * t + 3] == bytes@[at + 4 * t + 3]);
        }
        w[t] = word;
        t = t + 1;
    }
    while t < 80
        invariant
            16 <= t <= 80,
            forall|j: int| 0 <= j < t ==> w@[j] == schedule(blk, j),
        decreases 80 - t,
    {
        let w3 = w[t - 3];
        let w8 = w[t - 8];
        let w14 = w[t - 14];
        let w16 = w[t - 16];
        assert(w3 == schedule(blk, t - 3) && w8 == schedule(blk, t - 8) && w14 == schedule(
            blk,
            t - 14,
        ) && w16 == schedule(blk, t - 16));
        w[t] = rotate_left_32(w3 ^ w8 ^ w14 ^ w16, 1);
        t = t + 1;
    }
    w
}

/// One round on the working variables.
fn round_step(v: Registers, w: u32, t: usize) -> (r: Registers)
    requires
        t < 80,
    ensures
        r == round(v, w, t as int),
{
    let f: u32;
    let k: u32;
    if t < 20 {
        f = (v.b & v.c) | ((!v.b) & v.d);
        k = 0x5A827999;
    } else if t < 40 {
        f = v.b ^ v.c ^ v.d;
        k = 0x6ED9EBA1;
    } else if t < 60 {
        f = (v.b & v.c) | (v.b & v.d) | (v.c & v.d);
        k = 0x8F1BBCDC;
    } else {
        f = v.b ^ v.c ^ v.d;
        k = 0xCA62C1D6;
    }
    let r = rotate_left_32(v.a, 5);
    let a = wrapping_add_32(r, wrapping_add_32(f, wrapping_add_32(v.e, wrapping_add_32(w, k))));
    proof {
        lemma_sum_of_five(r, f, v.e, w, k);
    }
    Registers { a, b: v.a, c: rotate_left_32(v.b, 30), d: v.c, e: v.d }
}

fn compress_block(h: Registers, bytes: &[u8], at: usize) -> (r: Registers)
    requires
        at + 64 <= bytes@.len(),
    ensures
        r == compress(h, bytes@.subrange(at as int, at + 64)),
{
    let ghost blk = bytes@.subrange(at as int, at + 64);
    let w = schedule_block(bytes, at);
    let mut v = h;
    let mut t: usize = 0;
    while t < 80
        invariant
            t <= 80,
            forall|j: int| 0 <= j < 80 ==> w@[j] == schedule(blk, j),
            v == rounds(h, blk, t as nat),
        decreases 80 - t,
    {
        let word = w[t];
        assert(word == schedule(blk, t as int));
        v = round_step(v, word, t);
        t = t + 1;
    }
    Registers {
        a: wrapping_add_32(v.a, h.a),
        b: wrapping_add_32(v.b, h.b),
        c: wrapping_add_32(v.c, h.c),
        d: wrapping_add_32(v.d, h.d),
        e: wrapping_add_32(v.e, h.e),
    }
}

/// The message's bytes past its last whole block, followed by the padding.
fn padding_tail(message: &[u8]) -> (tail: Vec<u8>)
    requires
        message@.len() < 0x2000_0000_0000_0000,
    ensures
        tail@ == message@.subrange(
            message@.len() - message@.len() % 64,
            message@.len() as int,
        ) + padding(message@.len()),
        tail@.len() == (if message@.len() % 64 < 56 {
            64int
        } else {
            128int
        }),
{
    let len = message.len();
    let rest = len % 64;
    let start = len - rest;
    let mut tail: Vec<u8> = Vec::new();
    let mut i: usize = start;
    while i < len
        invariant
            start <= i <= len,
            len == message@.len(),
            tail@ == message@.subrange(start as int, i as int),
        decreases len - i,
    {
        tail.push(message[i]);
        i = i + 1;
    }
    proof {
        lemma_padding_zeros(len as nat);
    }
    let ghost last = tail@;
    tail.push(0x80u8);
    push_zeros(&mut tail, (119 - rest) % 64);
    push_be_u64(&mut tail, 8 * (len as u64));
    assert(tail@ == last + padding(len as nat)) by {
        assert(tail@ =~= last + (seq![0x80u8] + zeros(padding_zeros(len as nat)) + be_bytes_u64(
            (8 * len) as u64,
        )));
    }
    tail
}

/// SHA-1 of `message`: twenty bytes.
pub fn sha1(message: &[u8]) -> (digest: Vec<u8>)
    requires
        message@.len() < 0x2000_0000_0000_0000,
    ensures
        digest@ == sha1_digest(message@),
        digest@.len() == 20,
{
    let ghost p = padded(message@);
    proof {
        lemma_padded_layout(message@);
    }
    let len = message.len();
    let whole = len / 64;
    let mut h = Registers {
        a: 0x67452301,
        b: 0xEFCDAB89,
        c: 0x98BADCFE,
        d: 0x10325476,
        e: 0xC3D2E1F0,
    };
    proof {
        reveal(absorb);
    }
    let mut i: usize = 0;
    while i < whole
        invariant
            i <= whole,
            len == message@.len(),
            whole == len / 64,
            p == padded(message@),
            forall|k: int| 0 <= k < whole ==> #[trigger] block(p, k) == block(message@, k),
            h == absorb(p, i as nat),
        decreases whole - i,
    {
        proof {
            reveal(absorb);
        }
        h = compress_block(h, message, 64 * i);
        i = i + 1;
    }
    let tail = padding_tail(message);
    let blocks = tail.len() / 64;
    let mut j: usize = 0;
    while j < blocks
        invariant
            j <= blocks,
            blocks == tail@.len() / 64,
            tail@.len() % 64 == 0,
            whole == message@.len() / 64,
            p == padded(message@),
            tail@ == message@.subrange(
                message@.len() - message@.len() % 64,
                message@.len() as int,
            ) + padding(message@.len()),
            h == absorb(p, (whole + j) as nat),
        decreases blocks - j,
    {
        proof {
            reveal(absorb);
            lemma_tail_block(message@, tail@, j as int);
        }
        h = compress_block(h, tail.as_slice(), 64 * j);
        j = j + 1;
    }
    let mut digest: Vec<u8> = Vec::new();
    push_be_u32(&mut digest, h.a);
    push_be_u32(&mut digest, h.b);
    push_be_u32(&mut digest, h.c);
    push_be_u32(&mut digest, h.d);
    push_be_u32(&mut digest, h.e);
    digest
}

/// Every digest is twenty bytes long.
pub proof fn lemma_sha1_length(m: Seq<u8>)
    ensures
        sha1_digest(m).len() == 20,
{
}

/// `sha1` is a function of the message's bytes: whatever two calls on equal
/// messages return is the same twenty bytes, the digest of those bytes.
pub proof fn lemma_sha1_deterministic(m1: &[u8], m2: &[u8], d1: Vec<u8>, d2: Vec<u8>)
    requires
        m1@ == m2@,
        call_ensures(sha1, (m1,), d1),
        call_ensures(sha1, (m2,), d2),
    ensures
        d1@ == d2@,
        d1@ == sha1_digest(m1@),
        d1@.len() == 20,
{
}

} // verus!
