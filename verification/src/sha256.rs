//! Content hashes: SHA-256 digests read as 256-bit numbers.

use vstd::prelude::*;
use crate::bytes::{
    be_bytes, be_value, lemma_be_value_bound, lemma_be_value_of_bytes, lemma_pow256_values,
};
use crate::u256::U256;

verus! {

/// The SHA-256 digest of `data`, in the 64 lowercase hexadecimal characters that
/// `sha256::digest` returns for it.
pub uninterp spec fn sha256_hex(data: Seq<u8>) -> Seq<u8>;

/// Whether `c` is an ASCII hexadecimal digit, of either case.
pub open spec fn is_hex_digit(c: u8) -> bool {
    (48 <= c <= 57) || (65 <= c <= 70) || (97 <= c <= 102)
}

/// The number from 0 to 15 that the hexadecimal digit `c` stands for.
pub open spec fn hex_digit_value(c: u8) -> nat {
    if 48 <= c <= 57 {
        (c - 48) as nat
    } else if 65 <= c <= 70 {
        (c - 55) as nat
    } else {
        (c - 87) as nat
    }
}

/// The bytes that the hexadecimal text spells, two digits to a byte.
pub open spec fn hex_bytes(text: Seq<u8>) -> Seq<u8> {
    Seq::new(
        text.len() / 2,
        |i: int| (16 * hex_digit_value(text[2 * i]) + hex_digit_value(text[2 * i + 1])) as u8,
    )
}

/// The number that the SHA-256 digest of `data` spells, most significant byte first.
pub open spec fn digest_value(data: Seq<u8>) -> nat {
    be_value(hex_bytes(sha256_hex(data))) % crate::u256::modulus()
}

/// Calls `sha256::digest` on a byte slice and hands its text back as bytes. The crate
/// hex-encodes the 32 bytes of the SHA-256 digest in lower case: the result is that text,
/// 64 hexadecimal digits.
#[verifier::external_body]
fn sha256_digest(data: &[u8]) -> (text: Vec<u8>)
    ensures
        text@ == sha256_hex(data@),
        text@.len() == 64,
        forall|i: int| 0 <= i < 64 ==> is_hex_digit(#[trigger] text@[i]),
{
    ::sha256::digest(data).into_bytes()
}

/// Calls `hex::decode`. It fails on an odd length and on any byte that is no hexadecimal
/// digit; else each pair of digits gives one byte, the first digit the high half.
#[verifier::external_body]
fn hex_decode(text: &[u8]) -> (bytes: Option<Vec<u8>>)
    ensures
        bytes.is_some() == (text@.len() % 2 == 0 && forall|i: int|
            0 <= i < text@.len() ==> is_hex_digit(#[trigger] text@[i])),
        bytes.is_some() ==> bytes.unwrap()@ == hex_bytes(text@),
{
    ::hex::decode(text).ok()
}

/// The character that `hex::encode` writes for a number from 0 to 15.
pub open spec fn hex_char(nibble: int) -> char {
    if nibble < 10 {
        (48 + nibble) as u8 as char
    } else {
        (87 + nibble) as u8 as char
    }
}

/// The text that spells the bytes in lowercase hexadecimal, two digits to a byte.
pub open spec fn hex_text(bytes: Seq<u8>) -> Seq<char> {
    Seq::new(
        2 * bytes.len(),
        |i: int|
            if i % 2 == 0 {
                hex_char(bytes[i / 2] as int / 16)
            } else {
                hex_char(bytes[i / 2] as int % 16)
            },
    )
}

/// Calls `hex::encode`, which writes each byte as two lowercase hexadecimal digits, the
/// high half first.
#[verifier::external_body]
fn hex_encode(bytes: &[u8]) -> (text: String)
    ensures
        text@ == hex_text(bytes@),
{
    ::hex::encode(bytes)
}

/// A 256-bit content hash.
#[derive(Clone, Copy, Debug, PartialEq, Eq, Structural)]
pub struct Hash(pub U256);

impl View for Hash {
    type V = nat;

    open spec fn view(&self) -> nat {
        self.0@
    }
}

/// The hash of `data`: its SHA-256 digest, read as a number.
pub open spec fn hash_of(data: Seq<u8>) -> Hash {
    Hash(U256::from_nat(digest_value(data)))
}

/// The number of `hash_of(data)` is the digest of `data`.
pub proof fn lemma_hash_of(data: Seq<u8>)
    ensures
        hash_of(data)@ == digest_value(data),
{
    U256::lemma_from_nat(digest_value(data));
}

impl Hash {
    /// Two hashes with the same number are the same hash.
    pub proof fn lemma_view_injective(self, other: Hash)
        ensures
            (self@ == other@) == (self == other),
    {
        self.0.lemma_view_injective(other.0);
    }

    /// Every hash is below two to the 256.
    pub proof fn lemma_bounded(self)
        ensures
            self@ < crate::u256::modulus(),
    {
    }

    /// The SHA-256 digest of `data`.
    pub fn hash(data: &[u8]) -> (digest: Hash)
        ensures
            digest == hash_of(data@),
            digest@ == digest_value(data@),
    {
        let text = sha256_digest(data);
        match hex_decode(text.as_slice()) {
            Some(bytes) => {
                let digest = Hash(U256::from_big_endian(bytes.as_slice()));
                proof {
                    lemma_be_value_bound(bytes@);
                    lemma_pow256_values();
                    lemma_hash_of(data@);
                    digest.lemma_view_injective(hash_of(data@));
                }
                digest
            },
            None => {
                assert(false);
                Hash(U256::zero())
            },
        }
    }

    /// Wraps a number as a hash.
    pub fn from_u256(value: U256) -> (digest: Hash)
        ensures
            digest@ == value@,
    {
        Hash(value)
    }

    /// The number of the hash.
    pub fn to_u256(&self) -> (value: U256)
        ensures
            value@ == self@,
    {
        self.0
    }

    /// Whether the hash, as a number, is at most `target`.
    pub fn matches_target(&self, target: U256) -> (meets: bool)
        ensures
            meets == (self@ <= target@),
    {
        self.0.le(&target)
    }

    /// The hash whose number is zero.
    pub open spec fn zero_value() -> Hash {
        Hash(U256 { w3: 0, w2: 0, w1: 0, w0: 0 })
    }

    /// The all-zero hash.
    pub fn zero() -> (digest: Hash)
        ensures
            digest == Self::zero_value(),
            digest@ == 0,
    {
        Hash(U256::zero())
    }

    /// The 32 bytes of the hash, most significant first.
    pub fn as_bytes(&self) -> (bytes: [u8; 32])
        ensures
            bytes@ == be_bytes(self@, 32),
    {
        let listed = self.0.to_big_endian();
        let mut bytes: [u8; 32] = [0u8; 32];
        let mut i: usize = 0;
        proof {
            crate::bytes::lemma_be_bytes_len(self@, 32);
        }
        while i < 32
            invariant
                i <= 32,
                listed@ == be_bytes(self@, 32),
                listed@.len() == 32,
                forall|k: int| 0 <= k < i ==> bytes@[k] == listed@[k],
            decreases 32 - i,
        {
            bytes[i] = listed[i];
            i += 1;
        }
        assert(bytes@ =~= listed@);
        bytes
    }

    /// The hash in 64 lowercase hexadecimal digits.
    pub fn to_hex(&self) -> (text: String)
        ensures
            text@ == hex_text(be_bytes(self@, 32)),
    {
        let bytes = self.as_bytes();
        hex_encode(bytes.as_slice())
    }

    /// Reads back what `as_bytes` wrote.
    pub fn from_bytes(bytes: &[u8]) -> (digest: Hash)
        requires
            bytes@.len() == 32,
        ensures
            digest@ == be_value(bytes@),
    {
        Hash(U256::from_big_endian(bytes))
    }
}

/// Reading the bytes of a hash gives the hash back.
pub proof fn lemma_hash_bytes_round_trip(digest: Hash)
    ensures
        be_value(be_bytes(digest@, 32)) == digest@,
{
    lemma_be_value_of_bytes(digest@, 32);
    lemma_pow256_values();
    digest.lemma_bounded();
    vstd::arithmetic::div_mod::lemma_small_mod(digest@, crate::bytes::pow256(32));
}

} // verus!
