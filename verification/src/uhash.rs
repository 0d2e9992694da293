//! The hash by which strings are interned, and a hasher for keys that are
//! hashes already.

use byteorder::{ByteOrder, NativeEndian};
use vstd::prelude::*;

verus! {

/// Multiplier applied in every mixing round and in the final scramble.
pub const MULTIPLE: u64 = 6364136223846793005u64;

/// Mask xored into the hash before its final rotation.
pub const PAD: u64 = 238757555275374294u64;

/// State of the hash before any input has been mixed in.
pub const SEED: u64 = 7387682673934926105u64;

/// The full 128-bit product of two 64-bit values, folded to 64 bits by
/// xoring its high half onto its low half.
pub open spec fn spec_folded_multiply(s: u64, by: u64) -> u64 {
    let product: u128 = ((s as nat) * (by as nat)) as u128;
    ((product & 0xffff_ffff_ffff_ffff) as u64) ^ ((product >> 64) as u64)
}

/// `x` rotated left by `n` bit positions, `n` below 64.
pub open spec fn spec_rotate_left(x: u64, n: u64) -> u64 {
    if n == 0 {
        x
    } else {
        (x << n) | (x >> ((64 - n) as u64))
    }
}

/// The bytes `data[start .. start + len]` packed into one word, the first
/// byte lowest; `len` is at most 8.
pub open spec fn spec_word(data: Seq<u8>, start: int, len: int) -> u64
    decreases len,
{
    if len <= 0 {
        0
    } else {
        spec_word(data, start, len - 1) | ((data[start + len - 1] as u64) << (((len - 1) * 8) as u64))
    }
}

/// Number of bytes that mixing round `round` consumes: eight, or what is
/// left of the input, which for the last round may be nothing.
pub open spec fn spec_round_len(data: Seq<u8>, round: int) -> int {
    if data.len() - 8 * round >= 8 {
        8
    } else if data.len() - 8 * round >= 0 {
        data.len() - 8 * round
    } else {
        0
    }
}

/// The hash state after the first `rounds` mixing rounds over `data`.
pub open spec fn spec_rounds(data: Seq<u8>, rounds: nat) -> u64
    decreases rounds,
{
    if rounds == 0 {
        SEED
    } else {
        let round: int = rounds - 1;
        let word: u64 = spec_word(data, 8 * round, spec_round_len(data, round));
        spec_folded_multiply(word ^ spec_rounds(data, (rounds - 1) as nat), MULTIPLE)
    }
}

/// The last step of the hash: scramble the state and rotate it by its own
/// low six bits.
pub open spec fn spec_finish(buffer: u64) -> u64 {
    spec_rotate_left(buffer.wrapping_mul(MULTIPLE) ^ PAD, buffer & 63)
}

/// The hash of a byte string: one mixing round per started group of eight
/// bytes, plus one for an input whose length is a multiple of eight, then
/// the final scramble.
pub open spec fn spec_ahash(data: Seq<u8>) -> u64 {
    spec_finish(spec_rounds(data, (data.len() / 8 + 1) as nat))
}

/// Multiplies to the full 128 bits and folds the product to 64.
pub fn folded_multiply(s: u64, by: u64) -> (folded: u64)
    ensures
        folded == spec_folded_multiply(s, by),
{
    assert((s as nat) * (by as nat) <= 0xffff_ffff_ffff_ffff * 0xffff_ffff_ffff_ffff)
        by (nonlinear_arith)
        requires
            s <= 0xffff_ffff_ffff_ffff,
            by <= 0xffff_ffff_ffff_ffff,
    ;
    let result: u128 = (s as u128) * (by as u128);
    ((result & 0xffff_ffff_ffff_ffff) as u64) ^ ((result >> 64) as u64)
}

/// Rotates `x` left by `n` bit positions.
fn rotate_left(x: u64, n: u64) -> (rotated: u64)
    requires
        n < 64,
    ensures
        rotated == spec_rotate_left(x, n),
{
    if n == 0 {
        x
    } else {
        (x << n) | (x >> (64 - n))
    }
}

/// Hashes a byte string.
pub fn ahash(data: &[u8]) -> (hash: u64)
    ensures
        hash == spec_ahash(data@),
{
    let mut buffer: u64 = SEED;
    let mut rindex: usize = 0;
    let mut dindex: usize = 0;
    let limit: usize = data.len() / 8 + 1;
    while rindex < limit
        invariant
            limit == data.len() / 8 + 1,
            rindex <= limit,
            dindex <= data.len(),
            dindex == if 8 * rindex <= data.len() { 8 * rindex } else { data.len() as int },
            buffer == spec_rounds(data@, rindex as nat),
        decreases limit - rindex,
    {
        let start: usize = dindex;
        let end: usize = if data.len() - dindex > 8 {
            dindex + 8
        } else {
            data.len()
        };
        let mut udata: u64 = 0;
        while dindex < end
            invariant
                start <= dindex <= end <= data.len(),
                end - start <= 8,
                start % 8 == 0,
                udata == spec_word(data@, start as int, dindex - start),
            decreases end - dindex,
        {
            let shift: u64 = ((dindex % 8) * 8) as u64;
            assert(shift == ((dindex - start) * 8) as u64);
            udata |= (data[dindex] as u64) << shift;
            dindex += 1;
        }
        assert(end - start == spec_round_len(data@, rindex as int));
        buffer = folded_multiply(udata ^ buffer, MULTIPLE);
        rindex += 1;
    }
    let low: u64 = buffer & 63;
    assert(low < 64) by (bit_vector)
        requires
            low == buffer & 63,
    ;
    rotate_left(buffer.wrapping_mul(MULTIPLE) ^ PAD, low)
}

/// The first `len` bytes of `data` packed into one word, the first byte
/// highest; `len` is at most 8.
pub open spec fn spec_word_be(data: Seq<u8>, len: int) -> u64
    decreases len,
{
    if len <= 0 {
        0
    } else {
        (spec_word_be(data, len - 1) << 8) | (data[len - 1] as u64)
    }
}

/// `byteorder::NativeEndian::read_u64`: the first eight bytes as one word
/// in the byte order of the machine, which is one of the two.
#[verifier::external_body]
fn read_native_u64(bytes: &[u8]) -> (word: u64)
    requires
        bytes@.len() >= 8,
    ensures
        word == spec_word(bytes@, 0, 8) || word == spec_word_be(bytes@, 8),
{
    NativeEndian::read_u64(bytes)
}

/// A hasher for keys that are hashes already: it adds up the words it is
/// given and hands the sum out unchanged.
#[derive(Clone, Copy, Debug)]
pub struct IdentityHasher {
    hash: u64,
}

impl Default for IdentityHasher {
    /// A hasher to which nothing has been written.
    fn default() -> (hasher: Self)
        ensures
            hasher.value() == 0,
    {
        IdentityHasher { hash: 0 }
    }
}

impl IdentityHasher {
    /// The sum of the words written so far.
    pub closed spec fn value(&self) -> u64 {
        self.hash
    }

    /// Adds a word of eight bytes, read in the byte order of the machine.
    pub fn write(&mut self, bytes: &[u8])
        requires
            bytes@.len() == 8,
        ensures
            final(self).value() == old(self).value().wrapping_add(spec_word(bytes@, 0, 8))
                || final(self).value() == old(self).value().wrapping_add(
                spec_word_be(bytes@, 8),
            ),
    {
        self.hash = self.hash.wrapping_add(read_native_u64(bytes));
    }

    /// The sum of the words written.
    pub fn finish(&self) -> (hash: u64)
        ensures
            hash == self.value(),
    {
        self.hash
    }
}

} // verus!
