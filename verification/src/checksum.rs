//! A 40-bit value packed in a `u64` whose three top bytes hold a checksum of
//! the five low bytes.

use vstd::prelude::*;

verus! {

/// The largest value (exclusive) that round-trips through a [`CheckedU40`].
pub open spec fn u40_limit() -> u64 {
    0x10000000000u64
}

/// The packed word for `value`: the low 40 bits are the value, bits 40..48
/// hold `z`, 48..56 hold `y` and 56..64 hold `x`, where with the value's
/// bytes `a b c d e` (most significant first) `x = a ^ b ^ c`,
/// `y = c ^ d ^ e` and `z = x ^ y`.
pub open spec fn encode_u40(value: u64) -> u64 {
    let a = (value & 0xff00000000u64) >> 32u64;
    let b = (value & 0x00ff000000u64) >> 24u64;
    let c = (value & 0x0000ff0000u64) >> 16u64;
    let d = (value & 0x000000ff00u64) >> 8u64;
    let e = value & 0x00000000ffu64;
    let x = a ^ b ^ c;
    let y = c ^ d ^ e;
    let z = x ^ y;
    let s = (x << 16u64) | (y << 8u64) | z;
    (s << 40u64) | value
}

/// Whether the checksum bytes of a nonzero `word` match its low 40 bits.
pub open spec fn u40_checks(word: u64) -> bool {
    let a = (word & 0xff00000000u64) >> 32u64;
    let b = (word & 0x00ff000000u64) >> 24u64;
    let c = (word & 0x0000ff0000u64) >> 16u64;
    let d = (word & 0x000000ff00u64) >> 8u64;
    let e = word & 0x00000000ffu64;
    let x = (word & 0xff00000000000000u64) >> 56u64;
    let y = (word & 0x00ff000000000000u64) >> 48u64;
    let z = (word & 0x0000ff0000000000u64) >> 40u64;
    word != 0 && (a ^ b ^ c) == x && (c ^ d ^ e) == y && (x ^ y) == z
}

/// What a packed word decodes to: `None` for zero or for a word whose
/// checksum bytes do not match its low 40 bits.
pub open spec fn decode_u40(word: u64) -> Option<u64> {
    if u40_checks(word) {
        Some(word & 0x000000ffffffffffu64)
    } else {
        None
    }
}

/// A u40 value that uses the extra padding of u64 for a checksum.
pub struct CheckedU40(u64);

impl CheckedU40 {
    /// The packed word.
    pub closed spec fn word(&self) -> u64 {
        self.0
    }

    /// Create a new checked u40 value. Values wider than 40 bits, and zero,
    /// are not supported.
    pub fn new(value: u64) -> (r: Self)
        requires
            0 < value < u40_limit(),
        ensures
            r.word() == encode_u40(value),
    {
        let a = (value & 0xff00000000) >> 32;
        let b = (value & 0x00ff000000) >> 24;
        let c = (value & 0x0000ff0000) >> 16;
        let d = (value & 0x000000ff00) >> 8;
        let e = value & 0x00000000ff;
        let x = a ^ b ^ c;
        let y = c ^ d ^ e;
        let z = x ^ y;
        let s = (x << 16) | (y << 8) | z;
        let r = (s << 40) | value;
        CheckedU40(r)
    }

    /// Wrap a raw word as it was read back from storage.
    pub fn from_word(word: u64) -> (r: Self)
        ensures
            r.word() == word,
    {
        CheckedU40(word)
    }

    /// The raw word, as it is stored.
    pub fn to_word(&self) -> (r: u64)
        ensures
            r == self.word(),
    {
        self.0
    }

    /// Verify and unpack the wrapped value.
    pub fn verify(&self) -> (r: Option<u64>)
        ensures
            r == decode_u40(self.word()),
    {
        let value = self.0;
        if value == 0 {
            return None;
        }
        let a = (value & 0xff00000000) >> 32;
        let b = (value & 0x00ff000000) >> 24;
        let c = (value & 0x0000ff0000) >> 16;
        let d = (value & 0x000000ff00) >> 8;
        let e = value & 0x00000000ff;
        let x = (value & 0xff00000000000000) >> 56;
        let y = (value & 0x00ff000000000000) >> 48;
        let z = (value & 0x0000ff0000000000) >> 40;
        let xx = a ^ b ^ c;
        let yy = c ^ d ^ e;
        let zz = x ^ y;
        if xx == x && yy == y && zz == z {
            Some(value & 0x000000ffffffffff)
        } else {
            None
        }
    }
}

/// Every value below 2^40 other than zero reads back as itself after it was
/// packed.
pub proof fn lemma_decode_encode(value: u64)
    requires
        0 < value < u40_limit(),
    ensures
        decode_u40(encode_u40(value)) == Some(value),
{
    let w = encode_u40(value);
    assert(w != 0 && w & 0x000000ffffffffffu64 == value) by (bit_vector)
        requires
            0 < value < 0x10000000000u64,
            w == encode_u40(value),
    ;
    assert(u40_checks(w)) by (bit_vector)
        requires
            0 < value < 0x10000000000u64,
            w == encode_u40(value),
    ;
}

/// A word that decodes to some value is exactly the packed form of that
/// value, and that value is a nonzero value below 2^40: a block header read
/// back as valid was written by [`CheckedU40::new`].
pub proof fn lemma_encode_decode(word: u64)
    requires
        decode_u40(word) is Some,
    ensures
        0 < decode_u40(word).unwrap() < u40_limit(),
        encode_u40(decode_u40(word).unwrap()) == word,
{
    let v = word & 0x000000ffffffffffu64;
    assert(decode_u40(word) == Some(v));
    assert(0 < v < 0x10000000000u64 && encode_u40(v) == word) by (bit_vector)
        requires
            u40_checks(word),
            v == word & 0x000000ffffffffffu64,
    ;
}

} // verus!
