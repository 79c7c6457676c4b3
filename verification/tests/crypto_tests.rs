use btc_lib::crypto::{PrivateKey, PublicKey, Signature};
use btc_lib::sha256;
use btc_lib::types::{BlockHeader, Transaction, TransactionOutput};
use btc_lib::u256::U256;
use btc_lib::util::MerkleRoot;

fn paying(value: u64, key: &PrivateKey, id: u128) -> Transaction {
    Transaction::new(vec![], vec![TransactionOutput { value, unique_id: id, pubkey: key.public_key() }])
}

#[test]
fn a_signature_verifies_under_its_own_key_and_hash_only() {
    let key = PrivateKey::new_key();
    let other = PrivateKey::new_key();
    let hash = sha256::Hash::hash(b"an output");
    let signature = Signature::sign_output(&hash, &key).unwrap();
    assert!(signature.verify(&hash, &key.public_key()));
    assert!(!signature.verify(&hash, &other.public_key()));
    let mut bytes = hash.as_bytes();
    for bit in [0usize, 7, 100, 255] {
        bytes[bit / 8] ^= 1 << (bit % 8);
        assert!(!signature.verify(&sha256::Hash::from_bytes(&bytes), &key.public_key()));
        bytes[bit / 8] ^= 1 << (bit % 8);
    }
    assert!(signature.verify(&sha256::Hash::from_bytes(&bytes), &key.public_key()));
}

#[test]
fn signing_twice_gives_the_same_signature() {
    let key = PrivateKey::new_key();
    let hash = sha256::Hash::hash(b"again");
    assert_eq!(Signature::sign_output(&hash, &key), Signature::sign_output(&hash, &key));
    assert_ne!(
        Signature::sign_output(&hash, &key),
        Signature::sign_output(&sha256::Hash::hash(b"other"), &key)
    );
}

#[test]
fn a_signature_round_trips_through_its_bytes() {
    let key = PrivateKey::new_key();
    let signature = Signature::sign_output(&sha256::Hash::zero(), &key).unwrap();
    let bytes = signature.to_bytes();
    assert_eq!(bytes.len(), 64);
    assert_eq!(Signature::from_bytes(&bytes), Some(signature));
    assert_eq!(Signature::from_bytes(&bytes[..63]), None);
}

#[test]
fn a_key_that_is_no_point_verifies_nothing() {
    let key = PrivateKey::new_key();
    let hash = sha256::Hash::hash(b"x");
    let signature = Signature::sign_output(&hash, &key).unwrap();
    let nowhere = PublicKey { odd: false, x: U256 { w3: u64::MAX, w2: u64::MAX, w1: u64::MAX, w0: u64::MAX } };
    assert!(!signature.verify(&hash, &nowhere));
    let zero = Signature { r: U256::zero(), s: U256::zero() };
    assert!(!zero.verify(&hash, &key.public_key()));
}

#[test]
fn fresh_keys_differ_and_come_with_their_public_key() {
    let one = PrivateKey::new_key();
    let two = PrivateKey::new_key();
    assert_ne!(one.to_bytes(), two.to_bytes());
    assert_eq!(PrivateKey::from_bytes(&one.to_bytes()).unwrap().public_key(), one.public_key());
    assert_eq!(btc_lib::crypto::serialize(&one), one.to_bytes());
    let stored = btc_lib::crypto::deserialize(&btc_lib::crypto::serialize(&one)).unwrap();
    assert_eq!(stored.public_key(), one.public_key());
    assert!(btc_lib::crypto::deserialize(&[0u8; 32]).is_none());
    let read = PrivateKey::decode(&one.encode()).ok().unwrap();
    assert_eq!(read.to_bytes(), one.to_bytes());
    assert_eq!(read.public_key(), one.public_key());
    assert!(PrivateKey::decode(&one.to_bytes()).is_err());
}

#[test]
fn the_hash_of_nothing_and_of_abc_are_the_known_digests() {
    assert_eq!(
        sha256::Hash::hash(b"").to_hex(),
        "e3b0c44298fc1c149afbf4c8996fb92427ae41e4649b934ca495991b7852b855"
    );
    assert_eq!(
        sha256::Hash::hash(b"abc").to_hex(),
        "ba7816bf8f01cfea414140de5dae2223b00361a396177a9cb410ff61f20015ad"
    );
    assert_eq!(sha256::Hash::zero().to_hex(), "0".repeat(64));
    let digest = sha256::Hash::hash(b"abc");
    assert_eq!(digest.as_bytes()[0], 0xba);
    assert_eq!(digest.to_u256().w3, 0xba7816bf8f01cfea);
    assert_eq!(sha256::Hash::from_bytes(&digest.as_bytes()), digest);
    assert_eq!(sha256::Hash::from_u256(digest.to_u256()), digest);
}

#[test]
fn a_hash_matches_a_target_that_is_not_below_it() {
    let digest = sha256::Hash::hash(b"abc");
    assert!(digest.matches_target(digest.to_u256()));
    let (below, _) = digest.to_u256().div_rem_small(2);
    assert!(!digest.matches_target(below));
    assert!(digest.matches_target(U256 { w3: u64::MAX, w2: 0, w1: 0, w0: 0 }));
    assert!(!digest.matches_target(U256::zero()));
}

#[test]
fn the_root_of_one_transaction_is_its_hash() {
    let key = PrivateKey::new_key();
    let only = paying(5, &key, 1);
    assert_eq!(MerkleRoot::calculate(&[only.clone()]), MerkleRoot(only.hash()));
    assert_eq!(MerkleRoot::calculate(&[]), MerkleRoot(sha256::Hash::zero()));
}

#[test]
fn the_root_pairs_hashes_and_doubles_the_odd_one_out() {
    let key = PrivateKey::new_key();
    let (a, b, c) = (paying(1, &key, 1), paying(2, &key, 2), paying(3, &key, 3));
    let pair = |left: sha256::Hash, right: sha256::Hash| {
        let mut bytes = left.as_bytes().to_vec();
        bytes.extend(right.as_bytes());
        sha256::Hash::hash(&bytes)
    };
    assert_eq!(
        MerkleRoot::calculate(&[a.clone(), b.clone()]),
        MerkleRoot(pair(a.hash(), b.hash()))
    );
    assert_eq!(
        MerkleRoot::calculate(&[a.clone(), b.clone(), c.clone()]),
        MerkleRoot(pair(pair(a.hash(), b.hash()), pair(c.hash(), c.hash())))
    );
}

#[test]
fn swapping_two_transactions_changes_the_root() {
    let key = PrivateKey::new_key();
    let (a, b, c) = (paying(1, &key, 1), paying(2, &key, 2), paying(3, &key, 3));
    let root = MerkleRoot::calculate(&[a.clone(), b.clone(), c.clone()]);
    assert_eq!(root, MerkleRoot::calculate(&[a.clone(), b.clone(), c.clone()]));
    assert_ne!(root, MerkleRoot::calculate(&[b.clone(), a.clone(), c.clone()]));
    assert_ne!(root, MerkleRoot::calculate(&[a.clone(), c.clone(), b.clone()]));
    assert_ne!(root, MerkleRoot::calculate(&[c, b, a]));
}

#[test]
fn mining_stops_at_the_first_nonce_that_meets_the_target() {
    let root = MerkleRoot(sha256::Hash::zero());
    let easy = U256 { w3: u64::MAX, w2: u64::MAX, w1: u64::MAX, w0: u64::MAX };
    let mut header = BlockHeader::new(1, 41, sha256::Hash::zero(), root, easy);
    assert!(header.mine(0));
    assert_eq!(header.nonce, 41);
    let mut hopeless = BlockHeader::new(1, u64::MAX - 1, sha256::Hash::zero(), root, U256::zero());
    assert!(!hopeless.mine(3));
    assert_eq!(hopeless.nonce, 1);
    assert_eq!(hopeless.timestamp, 1);
    let hard = U256 { w3: 0x00ff_ffff_ffff_ffff, w2: u64::MAX, w1: u64::MAX, w0: u64::MAX };
    let mut header = BlockHeader::new(1, 0, sha256::Hash::zero(), root, hard);
    assert!(header.mine(100_000));
    assert!(header.hash().matches_target(hard));
    let found = header.nonce;
    for earlier in 0..found {
        let tried = BlockHeader::new(1, earlier, sha256::Hash::zero(), root, hard);
        assert!(!tried.hash().matches_target(hard));
    }
    let mut short = BlockHeader::new(1, 0, sha256::Hash::zero(), root, hard);
    if found > 0 {
        assert!(!short.mine((found - 1) as usize));
        assert_eq!(short.nonce, found - 1);
    }
}
