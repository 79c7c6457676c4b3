use btc_lib::sha256;
use btc_lib::u256::U256;

#[test]
fn hash_of_hello_matches_the_known_digest() {
    let digest = sha256::Hash::hash(b"hello");
    let hex: String = digest.as_bytes().iter().map(|b| format!("{:02x}", b)).collect();
    assert_eq!(hex, "2cf24dba5fb0a30e26e83b2ac5b9e29e1b161e5c1fa7425e73043362938b9824");
}

#[test]
fn zero_hash_matches_every_target() {
    assert!(sha256::Hash::zero().matches_target(U256::zero()));
    assert_eq!(sha256::Hash::zero().as_bytes(), [0u8; 32]);
}

#[test]
fn decimal_text_round_trips() {
    let value = U256 { w3: 1, w2: 2, w1: 3, w0: 4 };
    let text = value.to_decimal();
    assert_eq!(U256::from_decimal(&text), Some(value));
    assert_eq!(U256::from_u64(1234567890).to_decimal(), b"1234567890".to_vec());
    assert_eq!(U256::zero().to_decimal(), b"0".to_vec());
}
