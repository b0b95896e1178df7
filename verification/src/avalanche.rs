//! The avalanche effect of a digest: how many bits of the output change when
//! one bit of the input is flipped.

use crate::bits::{count_ones_8, popcount8};
use crate::sha1::sha1;
use crate::usha::usha0::usha0;
use rand::Rng;
use vstd::prelude::*;

verus! {

/// Samples that a measurement takes unless told otherwise.
pub const DATAPOINTS: usize = 100;

/// Bytes in each sampled message unless told otherwise.
pub const DATABYTES: usize = 256;

/// Number of one bits in a sequence of bytes.
pub open spec fn count_ones(s: Seq<u8>) -> nat
    decreases s.len(),
{
    if s.len() == 0 {
        0
    } else {
        count_ones(s.drop_last()) + popcount8(s.last())
    }
}

/// Byte-wise exclusive or, as long as `a`: where `b` is shorter, the missing
/// bytes give zero; what `b` has beyond the length of `a` is ignored.
pub open spec fn xor_bytes(a: Seq<u8>, b: Seq<u8>) -> Seq<u8> {
    Seq::new(
        a.len(),
        |i: int|
            if i < b.len() {
                a[i] ^ b[i]
            } else {
                0u8
            },
    )
}

/// `m` with bit `bit` of byte `byte` flipped.
pub open spec fn flipped(m: Seq<u8>, byte: int, bit: int) -> Seq<u8> {
    m.update(byte, m[byte] ^ (1u8 << bit))
}

/// Number of one bits in `bytes`.
pub fn bits_set(bytes: &[u8]) -> (set: u32)
    requires
        8 * bytes@.len() <= u32::MAX,
    ensures
        set == count_ones(bytes@),
        set <= 8 * bytes@.len(),
{
    let mut set: u32 = 0;
    let mut i: usize = 0;
    while i < bytes.len()
        invariant
            i <= bytes@.len(),
            8 * bytes@.len() <= u32::MAX,
            set == count_ones(bytes@.subrange(0, i as int)),
            set <= 8 * i,
        decreases bytes@.len() - i,
    {
        assert(bytes@.subrange(0, i + 1).drop_last() =~= bytes@.subrange(0, i as int));
        set = set + count_ones_8(bytes[i]);
        i = i + 1;
    }
    assert(bytes@.subrange(0, bytes@.len() as int) =~= bytes@);
    set
}

/// Byte-wise exclusive or of `bits1` and `bits2`, as long as `bits1`.
pub fn generic_size_xor(bits1: &[u8], bits2: &[u8]) -> (output: Vec<u8>)
    ensures
        output@ == xor_bytes(bits1@, bits2@),
{
    let mut output: Vec<u8> = Vec::new();
    let mut i: usize = 0;
    while i < bits1.len()
        invariant
            i <= bits1@.len(),
            output@.len() == i,
            forall|k: int| 0 <= k < i ==> output@[k] == xor_bytes(bits1@, bits2@)[k],
        decreases bits1@.len() - i,
    {
        if i < bits2.len() {
            output.push(bits1[i] ^ bits2[i]);
        } else {
            output.push(0u8);
        }
        i = i + 1;
    }
    assert(output@ =~= xor_bytes(bits1@, bits2@));
    output
}

/// A copy of `message` with bit `bit` of byte `byte` flipped.
pub fn flip_bit(message: &[u8], byte: usize, bit: usize) -> (out: Vec<u8>)
    requires
        byte < message@.len(),
        bit < 8,
    ensures
        out@ == flipped(message@, byte as int, bit as int),
{
    let mut out: Vec<u8> = Vec::new();
    let mut i: usize = 0;
    while i < message.len()
        invariant
            i <= message@.len(),
            out@ == message@.subrange(0, i as int),
        decreases message@.len() - i,
    {
        out.push(message[i]);
        i = i + 1;
    }
    assert(message@.subrange(0, message@.len() as int) =~= message@);
    let mask: u8 = 1u8 << bit;
    out[byte] = out[byte] ^ mask;
    out
}

/// An avalanche coefficient as a fraction: of the `output_bits` bits of two
/// digests, `set_bits` differ.
#[derive(Clone, Copy, Debug)]
pub struct Coefficient {
    pub set_bits: u32,
    pub output_bits: u32,
}

impl Coefficient {
    /// The fraction lies between zero and one.
    pub open spec fn wf(self) -> bool {
        self.set_bits <= self.output_bits
    }
}

/// Whether every digest that `function` gives is `output_bits` bits wide.
pub open spec fn has_width<F: Fn(&[u8]) -> Vec<u8>>(function: F, output_bits: u32) -> bool {
    forall|m: &[u8], d: Vec<u8>| #[trigger] call_ensures(function, (m,), d) ==> 8 * d@.len() == output_bits
}

/// Whether `function` accepts every message of `sample_bytes` bytes.
pub open spec fn accepts<F: Fn(&[u8]) -> Vec<u8>>(function: F, sample_bytes: nat) -> bool {
    forall|m: &[u8]| m@.len() == sample_bytes ==> #[trigger] call_requires(function, (m,))
}

/// Whether `set_bits` is the number of bits in which a digest of `m` differs
/// from a digest of `m` with bit `bit` of byte `byte` flipped.
pub open spec fn measures_flip<F: Fn(&[u8]) -> Vec<u8>>(
    function: F,
    m: Seq<u8>,
    byte: int,
    bit: int,
    set_bits: u32,
) -> bool {
    exists|a: &[u8], b: &[u8], da: Vec<u8>, db: Vec<u8>|
        a@ == m && b@ == flipped(m, byte, bit) && #[trigger] call_ensures(function, (a,), da)
            && #[trigger] call_ensures(function, (b,), db) && set_bits == count_ones(
            xor_bytes(da@, db@),
        )
}

/// Whether `set_bits` measures the flip of some bit of some message of
/// `sample_bytes` bytes.
pub open spec fn is_sample<F: Fn(&[u8]) -> Vec<u8>>(
    function: F,
    sample_bytes: nat,
    set_bits: u32,
) -> bool {
    exists|m: Seq<u8>, byte: int, bit: int|
        m.len() == sample_bytes && 0 <= byte < sample_bytes && 0 <= bit < 8 && #[trigger] measures_flip(
            function,
            m,
            byte,
            bit,
            set_bits,
        )
}

/// The avalanche coefficient of `function` for flipping bit `bit` of byte
/// `byte` of `message`.
pub fn avalanche_coefficient<F: Fn(&[u8]) -> Vec<u8>>(
    function: &F,
    output_bits: u32,
    message: &[u8],
    byte: usize,
    bit: usize,
) -> (c: Coefficient)
    requires
        byte < message@.len(),
        bit < 8,
        accepts(*function, message@.len()),
        has_width(*function, output_bits),
    ensures
        c.output_bits == output_bits,
        c.wf(),
        measures_flip(*function, message@, byte as int, bit as int, c.set_bits),
{
    let bit_flipped = flip_bit(message, byte, bit);
    let first = function(message);
    let second = function(bit_flipped.as_slice());
    let difference = generic_size_xor(first.as_slice(), second.as_slice());
    let set_bits = bits_set(difference.as_slice());
    Coefficient { set_bits, output_bits }
}

/// `len` bytes from the thread's random number generator: rand's
/// `thread_rng` and `Rng::fill` on a byte slice. The bytes differ from call to
/// call; only their number is claimed.
#[verifier::external_body]
fn random_bytes(len: usize) -> (bytes: Vec<u8>)
    ensures
        bytes@.len() == len,
{
    let mut bytes = vec![0u8; len];
    rand::thread_rng().fill(&mut bytes[..]);
    bytes
}

/// An index below `bound` from the thread's random number generator: rand's
/// `thread_rng` and `Rng::gen_range` on `0..bound`, which panics on an empty
/// range. The index differs from call to call; only its range is claimed.
#[verifier::external_body]
fn random_below(bound: usize) -> (index: usize)
    requires
        bound > 0,
    ensures
        index < bound,
{
    rand::thread_rng().gen_range(0..bound)
}

/// `samples` avalanche coefficients of `function`, whose digests are
/// `output_bits` bits wide. Each sample draws a random message of
/// `sample_bytes` bytes, flips one random bit of it, and counts the bits in
/// which the two digests differ.
pub fn generate_data_points_for_function<F: Fn(&[u8]) -> Vec<u8>>(
    function: F,
    output_bits: u32,
    samples: usize,
    sample_bytes: usize,
) -> (data_points: Vec<Coefficient>)
    requires
        sample_bytes > 0,
        accepts(function, sample_bytes as nat),
        has_width(function, output_bits),
    ensures
        data_points@.len() == samples,
        forall|i: int|
            0 <= i < samples ==> {
                let c = #[trigger] data_points@[i];
                &&& c.output_bits == output_bits
                &&& c.wf()
                &&& is_sample(function, sample_bytes as nat, c.set_bits)
            },
{
    let mut data_points: Vec<Coefficient> = Vec::new();
    let mut i: usize = 0;
    while i < samples
        invariant
            i <= samples,
            sample_bytes > 0,
            accepts(function, sample_bytes as nat),
            has_width(function, output_bits),
            data_points@.len() == i,
            forall|k: int|
                0 <= k < i ==> {
                    let c = #[trigger] data_points@[k];
                    &&& c.output_bits == output_bits
                    &&& c.wf()
                    &&& is_sample(function, sample_bytes as nat, c.set_bits)
                },
        decreases samples - i,
    {
        let message = random_bytes(sample_bytes);
        let random_byte = random_below(sample_bytes);
        let random_bit = random_below(8);
        let coefficient = avalanche_coefficient(
            &function,
            output_bits,
            message.as_slice(),
            random_byte,
            random_bit,
        );
        assert(is_sample(function, sample_bytes as nat, coefficient.set_bits)) by {
            assert(measures_flip(
                function,
                message@,
                random_byte as int,
                random_bit as int,
                coefficient.set_bits,
            ));
        }
        data_points.push(coefficient);
        i = i + 1;
    }
    data_points
}

/// `sha1` can be measured on messages below its length limit, and its
/// digests are 160 bits wide.
pub proof fn lemma_sha1_measurable(sample_bytes: nat)
    requires
        sample_bytes < 0x2000_0000_0000_0000,
    ensures
        accepts(sha1, sample_bytes),
        has_width(sha1, 160),
{
}

/// `usha0` can be measured on messages of any length, and its digests are
/// 256 bits wide.
pub proof fn lemma_usha0_measurable(sample_bytes: nat)
    ensures
        accepts(usha0, sample_bytes),
        has_width(usha0, 256),
{
}

} // verus!
