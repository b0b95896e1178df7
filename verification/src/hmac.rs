//! HMAC with SHA-1 as its hash: a keyed digest of twenty bytes.

use crate::bits::{push_zeros, zeros};
use crate::sha1::{lemma_sha1_length, sha1, sha1_digest};
use vstd::prelude::*;

verus! {

/// Bytes in the block that the key is brought to.
pub const BYTES_BLOCK: usize = 64;

/// Bytes in the result.
pub const BYTES_OUT: usize = 20;

/// The inner pad byte.
pub const IPAD: u8 = 0x36;

/// The outer pad byte.
pub const OPAD: u8 = 0x5C;

/// The 64-byte block that stands for a key: a key longer than 64 bytes is
/// replaced by its SHA-1 digest; what is shorter than 64 bytes is filled up
/// with zero bytes on the right.
pub open spec fn key_block(k: Seq<u8>) -> Seq<u8> {
    if k.len() > 64 {
        sha1_digest(k) + zeros(44)
    } else {
        k + zeros((64 - k.len()) as nat)
    }
}

/// Every byte of `block` combined with `pad` by exclusive or.
pub open spec fn xor_pad(block: Seq<u8>, pad: u8) -> Seq<u8> {
    Seq::new(block.len(), |i: int| block[i] ^ pad)
}

/// HMAC-SHA1 of `d` under the key `k`.
pub open spec fn hmac_sha1(k: Seq<u8>, d: Seq<u8>) -> Seq<u8> {
    let kb = key_block(k);
    sha1_digest(xor_pad(kb, OPAD) + sha1_digest(xor_pad(kb, IPAD) + d))
}

/// The key's 64-byte block.
fn normalize_key(key: &[u8]) -> (block: Vec<u8>)
    requires
        key@.len() < 0x2000_0000_0000_0000,
    ensures
        block@ == key_block(key@),
        block@.len() == 64,
{
    let mut block: Vec<u8>;
    if key.len() > BYTES_BLOCK {
        block = sha1(key);
        push_zeros(&mut block, BYTES_BLOCK - BYTES_OUT);
    } else {
        block = Vec::new();
        let mut i: usize = 0;
        while i < key.len()
            invariant
                i <= key@.len(),
                block@ == key@.subrange(0, i as int),
            decreases key@.len() - i,
        {
            block.push(key[i]);
            i = i + 1;
        }
        assert(key@.subrange(0, key@.len() as int) =~= key@);
        push_zeros(&mut block, BYTES_BLOCK - key.len());
    }
    block
}

/// The key block combined with `pad`, followed by `rest`.
fn padded_key_then(block: &Vec<u8>, pad: u8, rest: &[u8]) -> (out: Vec<u8>)
    requires
        block@.len() == 64,
    ensures
        out@ == xor_pad(block@, pad) + rest@,
{
    let mut out: Vec<u8> = Vec::new();
    let mut i: usize = 0;
    while i < 64
        invariant
            i <= 64,
            block@.len() == 64,
            out@.len() == i,
            forall|k: int| 0 <= k < i ==> out@[k] == block@[k] ^ pad,
        decreases 64 - i,
    {
        out.push(block[i] ^ pad);
        i = i + 1;
    }
    let ghost head = out@;
    assert(head =~= xor_pad(block@, pad));
    let mut j: usize = 0;
    while j < rest.len()
        invariant
            j <= rest@.len(),
            out@ == head + rest@.subrange(0, j as int),
        decreases rest@.len() - j,
    {
        out.push(rest[j]);
        j = j + 1;
    }
    assert(rest@.subrange(0, rest@.len() as int) =~= rest@);
    out
}

/// HMAC-SHA1 of `data` under `key`: twenty bytes.
pub fn hmac(key: &[u8], data: &[u8]) -> (mac: Vec<u8>)
    requires
        key@.len() < 0x2000_0000_0000_0000,
        data@.len() + 64 < 0x2000_0000_0000_0000,
    ensures
        mac@ == hmac_sha1(key@, data@),
        mac@.len() == 20,
{
    let key_padded = normalize_key(key);
    let key_ipad = padded_key_then(&key_padded, IPAD, data);
    let hashed_key_data = sha1(key_ipad.as_slice());
    let key_opad = padded_key_then(&key_padded, OPAD, hashed_key_data.as_slice());
    sha1(key_opad.as_slice())
}

/// Every MAC is twenty bytes long.
pub proof fn lemma_hmac_length(k: Seq<u8>, d: Seq<u8>)
    ensures
        hmac_sha1(k, d).len() == 20,
{
    lemma_sha1_length(xor_pad(key_block(k), OPAD) + sha1_digest(xor_pad(key_block(k), IPAD) + d));
}

/// A key of exactly 64 bytes is its own block, and a key of at most 64 bytes
/// gives the same MAC as that key filled up to 64 bytes with zero bytes.
pub proof fn lemma_hmac_key_equivalence(k: Seq<u8>, d: Seq<u8>)
    requires
        k.len() <= 64,
    ensures
        k.len() == 64 ==> key_block(k) == k,
        key_block(k + zeros((64 - k.len()) as nat)) == key_block(k),
        hmac_sha1(k + zeros((64 - k.len()) as nat), d) == hmac_sha1(k, d),
{
    let full = k + zeros((64 - k.len()) as nat);
    assert(full + zeros(0) =~= full);
    if k.len() == 64 {
        assert(full =~= k);
    }
}

} // verus!
