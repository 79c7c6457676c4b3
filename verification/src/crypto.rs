//! Keys and signatures over secp256k1, held as the numbers of their standard encodings.
//! The curve arithmetic itself is done by the `ecdsa` and `k256` crates.

use vstd::prelude::*;
use vstd::slice::slice_subrange;
use ::ecdsa::signature::Signer;
use ::ecdsa::signature::Verifier;
use crate::bytes::{be_bytes, be_value, lemma_be_bytes_len};
use crate::encoding::{
    byte_string, lemma_parse_byte_string, parse_byte_string, read_byte_string, sits,
};
use crate::u256::{U256, lemma_bytes_u256, lemma_u256_bytes};

verus! {

/// Whether `VerifyingKey::verify` accepts `signature` (64 bytes, `r` then `s`) for
/// `message` under the key whose SEC1 encoding is `key`. False where either does not parse.
pub uninterp spec fn ecdsa_accepts(key: Seq<u8>, message: Seq<u8>, signature: Seq<u8>) -> bool;

/// The signature that `SigningKey::try_sign` gives for `message` under the secret scalar
/// `key`, as `r` then `s`; `None` where the scalar is no key or signing fails.
pub uninterp spec fn ecdsa_signature(key: Seq<u8>, message: Seq<u8>) -> Option<Seq<u8>>;

/// The compressed SEC1 encoding of the public key of the secret scalar `key`; `None`
/// where the scalar is no key.
pub uninterp spec fn ecdsa_public_key(key: Seq<u8>) -> Option<Seq<u8>>;

/// Parses the key with `VerifyingKey::from_sec1_bytes` and the signature with
/// `Signature::from_slice`, then calls `Verifier::verify`. The result is named, not stated.
#[verifier::external_body]
fn ecdsa_verify(key: &[u8], message: &[u8], signature: &[u8]) -> (accepted: bool)
    ensures
        accepted == ecdsa_accepts(key@, message@, signature@),
{
    match (
        ::ecdsa::VerifyingKey::<::k256::Secp256k1>::from_sec1_bytes(key),
        ::ecdsa::Signature::<::k256::Secp256k1>::from_slice(signature),
    ) {
        (Ok(k), Ok(s)) => k.verify(message, &s).is_ok(),
        _ => false,
    }
}

/// Parses the scalar with `SigningKey::from_slice` and calls `Signer::try_sign`, which
/// picks its nonce from key and message alone. A signature comes out as 64 bytes.
#[verifier::external_body]
fn ecdsa_sign(key: &[u8], message: &[u8]) -> (signature: Option<Vec<u8>>)
    ensures
        signature.is_some() == ecdsa_signature(key@, message@).is_some(),
        signature.is_some() ==> signature.unwrap()@ == ecdsa_signature(key@, message@).unwrap()
            && signature.unwrap()@.len() == 64,
{
    let k = ::ecdsa::SigningKey::<::k256::Secp256k1>::from_slice(key).ok()?;
    let s: ::ecdsa::Signature<::k256::Secp256k1> = k.try_sign(message).ok()?;
    Some(s.to_vec())
}

/// Parses the scalar with `SigningKey::from_slice` and encodes its `verifying_key` with
/// point compression: 33 bytes, the first of them 2 or 3.
#[verifier::external_body]
fn ecdsa_derive(key: &[u8]) -> (public: Option<Vec<u8>>)
    ensures
        public.is_some() == ecdsa_public_key(key@).is_some(),
        public.is_some() ==> public.unwrap()@ == ecdsa_public_key(key@).unwrap()
            && public.unwrap()@.len() == 33 && (public.unwrap()@[0] == 2 || public.unwrap()@[0]
            == 3),
{
    let k = ::ecdsa::SigningKey::<::k256::Secp256k1>::from_slice(key).ok()?;
    Some(k.verifying_key().to_encoded_point(true).as_bytes().to_vec())
}

/// Draws a key with `SigningKey::random` from the thread's generator and hands out its
/// scalar (32 bytes) and its compressed public key, which is the one `ecdsa_derive` gives
/// for that scalar.
#[verifier::external_body]
fn ecdsa_generate() -> (pair: (Vec<u8>, Vec<u8>))
    ensures
        pair.0@.len() == 32,
        pair.1@.len() == 33,
        pair.1@[0] == 2 || pair.1@[0] == 3,
        ecdsa_public_key(pair.0@) == Some(pair.1@),
{
    let k = ::ecdsa::SigningKey::<::k256::Secp256k1>::random(&mut ::rand::thread_rng());
    (k.to_bytes().to_vec(), k.verifying_key().to_encoded_point(true).as_bytes().to_vec())
}

/// A public key: a curve point, held as its x coordinate and the parity of y.
#[derive(Clone, Copy, Debug, PartialEq, Eq, Structural)]
pub struct PublicKey {
    pub odd: bool,
    pub x: U256,
}

impl PublicKey {
    /// The compressed SEC1 encoding: a tag byte, 2 for even y and 3 for odd, then x.
    pub open spec fn sec1(&self) -> Seq<u8> {
        seq![if self.odd { 3u8 } else { 2u8 }] + be_bytes(self.x@, 32)
    }

    /// The key that 33 bytes with a tag of 2 or 3 encode.
    pub open spec fn from_sec1(bytes: Seq<u8>) -> Option<PublicKey> {
        if bytes.len() == 33 && (bytes[0] == 2 || bytes[0] == 3) {
            Some(PublicKey { odd: bytes[0] == 3, x: U256::from_nat(be_value(bytes.skip(1))) })
        } else {
            None
        }
    }

    /// Decoding the encoding of a key gives the key, and encoding what was decoded gives
    /// the bytes.
    pub proof fn lemma_sec1_round_trip(self)
        ensures
            self.sec1().len() == 33,
            Self::from_sec1(self.sec1()) == Some(self),
    {
        lemma_be_bytes_len(self.x@, 32);
        lemma_u256_bytes(self.x);
        assert(self.sec1().skip(1) =~= be_bytes(self.x@, 32));
    }

    pub proof fn lemma_from_sec1_sound(bytes: Seq<u8>)
        requires
            Self::from_sec1(bytes).is_some(),
        ensures
            Self::from_sec1(bytes).unwrap().sec1() == bytes,
    {
        let rest = bytes.skip(1);
        lemma_bytes_u256(rest);
        assert(Self::from_sec1(bytes).unwrap().sec1() =~= bytes);
    }

    /// The canonical bytes of the key: a string of its 33 bytes.
    pub open spec fn encoding(&self) -> Seq<u8> {
        byte_string(self.sec1())
    }

    /// The key that stands at `at`, and where it ends.
    pub open spec fn parse(bytes: Seq<u8>, at: int) -> Option<(PublicKey, int)> {
        match parse_byte_string(bytes, at, 33) {
            Some((content, end)) => match Self::from_sec1(content) {
                Some(key) => Some((key, end)),
                None => None,
            },
            None => None,
        }
    }

    pub proof fn lemma_parse(bytes: Seq<u8>, at: int, key: PublicKey)
        requires
            sits(bytes, at, key.encoding()),
        ensures
            Self::parse(bytes, at) == Some((key, at + key.encoding().len())),
    {
        key.lemma_sec1_round_trip();
        lemma_parse_byte_string(bytes, at, key.sec1());
    }

    /// A key that is read at `at` stands there as it is written.
    pub proof fn lemma_sound(bytes: Seq<u8>, at: int)
        requires
            Self::parse(bytes, at).is_some(),
        ensures
            sits(bytes, at, Self::parse(bytes, at).unwrap().0.encoding()),
            Self::parse(bytes, at).unwrap().1 == at + Self::parse(bytes, at).unwrap().0.encoding().len(),
    {
        crate::encoding::lemma_byte_string_sound(bytes, at, 33);
        Self::lemma_from_sec1_sound(parse_byte_string(bytes, at, 33).unwrap().0);
    }

    /// Reads the key at `at`.
    pub fn read(bytes: &[u8], at: usize) -> (found: Option<(PublicKey, usize)>)
        ensures
            crate::encoding::found_is(found, Self::parse(bytes@, at as int)),
            found.is_some() ==> found.unwrap().1 <= bytes@.len(),
    {
        match read_byte_string(bytes, at, 33) {
            Some((start, end)) => match Self::from_sec1_bytes(slice_subrange(bytes, start, end)) {
                Some(key) => Some((key, end)),
                None => None,
            },
            None => None,
        }
    }

    /// The 33 bytes of the key.
    pub fn to_sec1_bytes(&self) -> (bytes: Vec<u8>)
        ensures
            bytes@ == self.sec1(),
    {
        let mut bytes: Vec<u8> = Vec::new();
        bytes.push(if self.odd { 3 } else { 2 });
        let mut rest = self.x.to_big_endian();
        bytes.append(&mut rest);
        assert(bytes@ =~= self.sec1());
        bytes
    }

    /// Reads a compressed SEC1 encoding. The point is not checked to lie on the curve:
    /// a key that does not verifies nothing.
    pub fn from_sec1_bytes(bytes: &[u8]) -> (key: Option<PublicKey>)
        ensures
            key == Self::from_sec1(bytes@),
    {
        if bytes.len() != 33 {
            return None;
        }
        let tag: u8 = bytes[0];
        if tag != 2 && tag != 3 {
            return None;
        }
        let rest = slice_subrange(bytes, 1, 33);
        assert(rest@ =~= bytes@.skip(1));
        let x = U256::from_big_endian(rest);
        proof {
            lemma_bytes_u256(rest@);
            x.lemma_view_injective(U256::from_nat(be_value(rest@)));
        }
        Some(PublicKey { odd: tag == 3, x })
    }
}

/// An ECDSA signature: the two scalars `r` and `s`.
#[derive(Clone, Copy, Debug, PartialEq, Eq, Structural)]
pub struct Signature {
    pub r: U256,
    pub s: U256,
}

/// The signature of `message` under the secret scalar `key`, where signing gives one.
pub open spec fn signature_of(key: Seq<u8>, message: Seq<u8>) -> Option<Signature> {
    match ecdsa_signature(key, message) {
        Some(bytes) => Signature::from_spec_bytes(bytes),
        None => None,
    }
}

impl Signature {
    /// The 64 bytes of the signature: `r`, then `s`.
    pub open spec fn bytes(&self) -> Seq<u8> {
        be_bytes(self.r@, 32) + be_bytes(self.s@, 32)
    }

    /// The signature that 64 bytes spell.
    pub open spec fn from_spec_bytes(bytes: Seq<u8>) -> Option<Signature> {
        if bytes.len() == 64 {
            Some(
                Signature {
                    r: U256::from_nat(be_value(bytes.take(32))),
                    s: U256::from_nat(be_value(bytes.skip(32))),
                },
            )
        } else {
            None
        }
    }

    /// Reading the bytes of a signature gives the signature.
    pub proof fn lemma_bytes_round_trip(self)
        ensures
            self.bytes().len() == 64,
            Self::from_spec_bytes(self.bytes()) == Some(self),
    {
        lemma_u256_bytes(self.r);
        lemma_u256_bytes(self.s);
        assert(self.bytes().take(32) =~= be_bytes(self.r@, 32));
        assert(self.bytes().skip(32) =~= be_bytes(self.s@, 32));
    }

    pub proof fn lemma_from_bytes_sound(bytes: Seq<u8>)
        requires
            bytes.len() == 64,
        ensures
            Self::from_spec_bytes(bytes).unwrap().bytes() == bytes,
    {
        lemma_bytes_u256(bytes.take(32));
        lemma_bytes_u256(bytes.skip(32));
        assert(Self::from_spec_bytes(bytes).unwrap().bytes() =~= bytes);
    }

    /// The canonical bytes of the signature: a string of its 64 bytes.
    pub open spec fn encoding(&self) -> Seq<u8> {
        byte_string(self.bytes())
    }

    /// The signature that stands at `at`, and where it ends.
    pub open spec fn parse(bytes: Seq<u8>, at: int) -> Option<(Signature, int)> {
        match parse_byte_string(bytes, at, 64) {
            Some((content, end)) => match Self::from_spec_bytes(content) {
                Some(signature) => Some((signature, end)),
                None => None,
            },
            None => None,
        }
    }

    pub proof fn lemma_parse(bytes: Seq<u8>, at: int, signature: Signature)
        requires
            sits(bytes, at, signature.encoding()),
        ensures
            Self::parse(bytes, at) == Some((signature, at + signature.encoding().len())),
    {
        signature.lemma_bytes_round_trip();
        lemma_parse_byte_string(bytes, at, signature.bytes());
    }

    /// A signature that is read at `at` stands there as it is written.
    pub proof fn lemma_sound(bytes: Seq<u8>, at: int)
        requires
            Self::parse(bytes, at).is_some(),
        ensures
            sits(bytes, at, Self::parse(bytes, at).unwrap().0.encoding()),
            Self::parse(bytes, at).unwrap().1 == at + Self::parse(bytes, at).unwrap().0.encoding().len(),
    {
        crate::encoding::lemma_byte_string_sound(bytes, at, 64);
        Self::lemma_from_bytes_sound(parse_byte_string(bytes, at, 64).unwrap().0);
    }

    /// Reads the signature at `at`.
    pub fn read(bytes: &[u8], at: usize) -> (found: Option<(Signature, usize)>)
        ensures
            crate::encoding::found_is(found, Self::parse(bytes@, at as int)),
            found.is_some() ==> found.unwrap().1 <= bytes@.len(),
    {
        match read_byte_string(bytes, at, 64) {
            Some((start, end)) => match Self::from_bytes(slice_subrange(bytes, start, end)) {
                Some(signature) => Some((signature, end)),
                None => None,
            },
            None => None,
        }
    }

    /// The 64 bytes of the signature.
    pub fn to_bytes(&self) -> (bytes: Vec<u8>)
        ensures
            bytes@ == self.bytes(),
    {
        let mut bytes = self.r.to_big_endian();
        let mut rest = self.s.to_big_endian();
        bytes.append(&mut rest);
        bytes
    }

    /// Reads 64 bytes as a signature; `None` for any other length.
    pub fn from_bytes(bytes: &[u8]) -> (signature: Option<Signature>)
        ensures
            signature == Self::from_spec_bytes(bytes@),
    {
        if bytes.len() != 64 {
            return None;
        }
        let first = slice_subrange(bytes, 0, 32);
        let second = slice_subrange(bytes, 32, 64);
        assert(first@ =~= bytes@.take(32));
        assert(second@ =~= bytes@.skip(32));
        let r = U256::from_big_endian(first);
        let s = U256::from_big_endian(second);
        proof {
            lemma_bytes_u256(first@);
            lemma_bytes_u256(second@);
            r.lemma_view_injective(U256::from_nat(be_value(first@)));
            s.lemma_view_injective(U256::from_nat(be_value(second@)));
        }
        Some(Signature { r, s })
    }

    /// Signs the hash of a transaction output with `private_key`. The message signed is
    /// the 32 bytes of the hash; the nonce is derived from key and message, so the same
    /// two always give the same signature.
    pub fn sign_output(output_hash: &crate::sha256::Hash, private_key: &PrivateKey) -> (signature:
        Option<Signature>)
        ensures
            signature == signature_of(private_key.scalar_bytes(), be_bytes(output_hash@, 32)),
    {
        let key = private_key.scalar.to_big_endian();
        let message = output_hash.as_bytes();
        match ecdsa_sign(key.as_slice(), message.as_slice()) {
            Some(bytes) => Signature::from_bytes(bytes.as_slice()),
            None => None,
        }
    }

    /// Whether this is a signature of `output_hash` that `public_key` accepts.
    pub fn verify(&self, output_hash: &crate::sha256::Hash, public_key: &PublicKey) -> (accepted:
        bool)
        ensures
            accepted == self.accepted_for(*output_hash, *public_key),
    {
        let key = public_key.to_sec1_bytes();
        let message = output_hash.as_bytes();
        let signature = self.to_bytes();
        ecdsa_verify(key.as_slice(), message.as_slice(), signature.as_slice())
    }

    /// Whether `public_key` accepts this signature for the 32 bytes of `output_hash`.
    pub open spec fn accepted_for(&self, output_hash: crate::sha256::Hash, public_key: PublicKey) -> bool {
        ecdsa_accepts(public_key.sec1(), be_bytes(output_hash@, 32), self.bytes())
    }
}

/// A private key: the secret scalar, with the public key that belongs to it.
#[derive(Clone, Copy)]
pub struct PrivateKey {
    scalar: U256,
    public: PublicKey,
}

impl PrivateKey {
    /// The 32 bytes of the secret scalar.
    pub closed spec fn scalar_bytes(&self) -> Seq<u8> {
        be_bytes(self.scalar@, 32)
    }

    /// The public key held with the scalar.
    pub closed spec fn public(&self) -> PublicKey {
        self.public
    }

    /// The public key held is the one that the curve gives for the scalar.
    pub open spec fn wf(&self) -> bool {
        ecdsa_public_key(self.scalar_bytes()) == Some(self.public().sec1())
    }

    /// The key of 32 scalar bytes, where the curve gives them a public key.
    pub open spec fn from_spec_bytes(bytes: Seq<u8>) -> Option<(Seq<u8>, PublicKey)> {
        if bytes.len() != 32 {
            None
        } else {
            match ecdsa_public_key(bytes) {
                Some(encoded) => match PublicKey::from_sec1(encoded) {
                    Some(public) => Some((bytes, public)),
                    None => None,
                },
                None => None,
            }
        }
    }

    /// A fresh random key.
    pub fn new_key() -> (key: PrivateKey)
        ensures
            key.wf(),
    {
        let (secret, encoded) = ecdsa_generate();
        let scalar = U256::from_big_endian(secret.as_slice());
        proof {
            lemma_bytes_u256(secret@);
            PublicKey::lemma_from_sec1_sound(encoded@);
        }
        match PublicKey::from_sec1_bytes(encoded.as_slice()) {
            Some(public) => PrivateKey { scalar, public },
            None => {
                assert(false);
                PrivateKey { scalar, public: PublicKey { odd: false, x: U256::zero() } }
            },
        }
    }

    /// The key of the 32 bytes of a secret scalar; `None` for another length or a scalar
    /// that is no key of the curve (zero, or not below the order of the group).
    pub fn from_bytes(bytes: &[u8]) -> (key: Option<PrivateKey>)
        ensures
            key.is_some() == Self::from_spec_bytes(bytes@).is_some(),
            key.is_some() ==> key.unwrap().wf() && key.unwrap().scalar_bytes() == bytes@
                && key.unwrap().public() == Self::from_spec_bytes(bytes@).unwrap().1,
    {
        if bytes.len() != 32 {
            return None;
        }
        match ecdsa_derive(bytes) {
            Some(encoded) => {
                let scalar = U256::from_big_endian(bytes);
                proof {
                    lemma_bytes_u256(bytes@);
                    PublicKey::lemma_from_sec1_sound(encoded@);
                }
                match PublicKey::from_sec1_bytes(encoded.as_slice()) {
                    Some(public) => Some(PrivateKey { scalar, public }),
                    None => None,
                }
            },
            None => None,
        }
    }

    /// The canonical bytes of the key: a string of the 32 bytes of its scalar.
    pub open spec fn encoding(&self) -> Seq<u8> {
        byte_string(self.scalar_bytes())
    }

    /// The scalar and the public key that the bytes are the canonical form of, if they
    /// are that of a key.
    pub open spec fn decoded(bytes: Seq<u8>) -> Option<(Seq<u8>, PublicKey)> {
        match parse_byte_string(bytes, 0, 32) {
            Some((scalar, end)) => if end == bytes.len() {
                Self::from_spec_bytes(scalar)
            } else {
                None
            },
            None => None,
        }
    }

    /// The canonical bytes.
    pub fn encode(&self) -> (bytes: Vec<u8>)
        ensures
            bytes@ == self.encoding(),
    {
        let mut bytes: Vec<u8> = Vec::new();
        let scalar = self.to_bytes();
        crate::encoding::push_byte_string(&mut bytes, scalar.as_slice());
        assert(bytes@ =~= self.encoding());
        bytes
    }

    /// Reads a key from its canonical bytes; `IoError` for any other bytes, and for a
    /// scalar that is no key of the curve.
    pub fn decode(bytes: &[u8]) -> (result: Result<PrivateKey, crate::error::BtcError>)
        ensures
            result.is_ok() == Self::decoded(bytes@).is_some(),
            result.is_ok() ==> result.unwrap().wf() && result.unwrap().scalar_bytes()
                == Self::decoded(bytes@).unwrap().0 && result.unwrap().public() == Self::decoded(
                bytes@,
            ).unwrap().1,
            result.is_err() ==> result == Err::<PrivateKey, crate::error::BtcError>(
                crate::error::BtcError::IoError,
            ),
    {
        match read_byte_string(bytes, 0, 32) {
            Some((start, end)) => {
                if end != bytes.len() {
                    return Err(crate::error::BtcError::IoError);
                }
                match Self::from_bytes(slice_subrange(bytes, start, end)) {
                    Some(key) => Ok(key),
                    None => Err(crate::error::BtcError::IoError),
                }
            },
            None => Err(crate::error::BtcError::IoError),
        }
    }

    /// Reading what was written of a key gives its scalar and its public key back.
    pub proof fn lemma_round_trip(&self)
        requires
            self.wf(),
        ensures
            Self::decoded(self.encoding()) == Some((self.scalar_bytes(), self.public())),
    {
        lemma_be_bytes_len(self.scalar@, 32);
        crate::codec::lemma_sits_whole(self.encoding());
        lemma_parse_byte_string(self.encoding(), 0, self.scalar_bytes());
        self.public.lemma_sec1_round_trip();
    }

    /// The 32 bytes of the secret scalar.
    pub fn to_bytes(&self) -> (bytes: Vec<u8>)
        ensures
            bytes@ == self.scalar_bytes(),
    {
        self.scalar.to_big_endian()
    }

    /// The public key that belongs to this key.
    pub fn public_key(&self) -> (public: PublicKey)
        ensures
            public == self.public(),
    {
        self.public
    }
}

/// The form in which a private key is stored: the 32 bytes of its scalar.
pub fn serialize(key: &PrivateKey) -> (bytes: Vec<u8>)
    ensures
        bytes@ == key.scalar_bytes(),
{
    key.to_bytes()
}

/// The private key that is stored as `bytes`, where they are the scalar of one.
pub fn deserialize(bytes: &[u8]) -> (key: Option<PrivateKey>)
    ensures
        key.is_some() == PrivateKey::from_spec_bytes(bytes@).is_some(),
        key.is_some() ==> key.unwrap().wf() && key.unwrap().scalar_bytes() == bytes@
            && key.unwrap().public() == PrivateKey::from_spec_bytes(bytes@).unwrap().1,
{
    PrivateKey::from_bytes(bytes)
}

} // verus!
