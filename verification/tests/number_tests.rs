use btc_lib::error::BtcError;
use btc_lib::types::blockchain::{next_target, target_from};
use btc_lib::u256::U256;

fn big(w3: u64, w2: u64, w1: u64, w0: u64) -> U256 {
    U256 { w3, w2, w1, w0 }
}

#[test]
fn comparison_goes_by_the_most_significant_word_first() {
    assert!(big(0, 0, 0, 1).lt(&big(0, 0, 1, 0)));
    assert!(big(0, u64::MAX, u64::MAX, u64::MAX).lt(&big(1, 0, 0, 0)));
    assert!(!big(1, 0, 0, 0).lt(&big(1, 0, 0, 0)));
    assert!(big(1, 0, 0, 0).le(&big(1, 0, 0, 0)));
    assert!(!big(1, 0, 0, 1).le(&big(1, 0, 0, 0)));
    assert_eq!(big(2, 0, 0, 0).min(big(1, 9, 9, 9)), big(1, 9, 9, 9));
    assert!(U256::zero().is_zero());
    assert!(!U256::from_u64(1).is_zero());
}

#[test]
fn multiplication_carries_across_words() {
    assert_eq!(big(0, 0, 0, u64::MAX).mul_add_small(2, 1), (big(0, 0, 1, u64::MAX), 0));
    assert_eq!(
        big(u64::MAX, u64::MAX, u64::MAX, u64::MAX).mul_add_small(u64::MAX, u64::MAX),
        (U256::zero(), u64::MAX)
    );
    assert_eq!(big(1 << 62, 0, 0, 0).checked_mul_small(4), None);
    assert_eq!(big(1 << 61, 0, 0, 5).checked_mul_small(4), Some(big(1 << 63, 0, 0, 20)));
    assert_eq!(btc_lib::min_target().checked_mul_small(4), Some(big(0x3_ffff_ffff_ffff, u64::MAX, u64::MAX, u64::MAX - 3)));
}

#[test]
fn division_borrows_across_words() {
    assert_eq!(big(1, 0, 0, 0).div_rem_small(2), (big(0, 1 << 63, 0, 0), 0));
    assert_eq!(big(0, 0, 1, 1).div_rem_small(u64::MAX), (big(0, 0, 0, 1), 2));
    assert_eq!(big(0, 0, 0, 7).div_small(4), big(0, 0, 0, 1));
    assert_eq!(
        btc_lib::min_target().div_small(4),
        big(0x3fff_ffff_ffff, u64::MAX, u64::MAX, u64::MAX)
    );
}

#[test]
fn bytes_spell_the_number_most_significant_first() {
    let value = big(0x0102030405060708, 0x1112131415161718, 0x2122232425262728, 0x3132333435363738);
    let bytes = value.to_big_endian();
    assert_eq!(bytes.len(), 32);
    assert_eq!(&bytes[..9], &[1, 2, 3, 4, 5, 6, 7, 8, 0x11]);
    assert_eq!(bytes[31], 0x38);
    assert_eq!(U256::from_big_endian(&bytes), value);
    let mut reversed = bytes.clone();
    reversed.reverse();
    assert_eq!(value.to_little_endian(), reversed);
    assert_eq!(U256::from_big_endian(&[1, 0]), U256::from_u64(256));
    assert_eq!(U256::from_big_endian(&[]), U256::zero());
}

#[test]
fn decimal_text_is_written_and_read() {
    let all = big(u64::MAX, u64::MAX, u64::MAX, u64::MAX);
    let text = "115792089237316195423570985008687907853269984665640564039457584007913129639935";
    assert_eq!(all.to_decimal(), text.as_bytes().to_vec());
    assert_eq!(U256::from_decimal(text.as_bytes()), Some(all));
    let over = "115792089237316195423570985008687907853269984665640564039457584007913129639936";
    assert_eq!(U256::from_decimal(over.as_bytes()), None);
    assert_eq!(U256::from_decimal(b""), None);
    assert_eq!(U256::from_decimal(b"12a"), None);
    assert_eq!(U256::from_decimal(b"-1"), None);
    assert_eq!(U256::from_decimal(b"007"), Some(U256::from_u64(7)));
    assert_eq!(U256::from_u64(18_446_744_073_709_551_615).to_decimal(), b"18446744073709551615".to_vec());
    assert!(U256::all_decimal(b"0123456789"));
    assert!(!U256::all_decimal(b"1.5"));
}

#[test]
fn a_scaled_target_is_read_up_to_the_full_stop_and_clamped() {
    let target = U256::from_u64(1_000);
    assert_eq!(target_from(target, b"500.75"), U256::from_u64(500));
    assert_eq!(target_from(target, b"250"), U256::from_u64(250));
    assert_eq!(target_from(target, b"249.999"), U256::from_u64(250));
    assert_eq!(target_from(target, b"0.098"), U256::from_u64(250));
    assert_eq!(target_from(target, b"4000.0"), U256::from_u64(4_000));
    assert_eq!(target_from(target, b"4001"), U256::from_u64(4_000));
    let huge = "9".repeat(90);
    assert_eq!(target_from(target, huge.as_bytes()), U256::from_u64(4_000));
    assert_eq!(target_from(target, b""), target);
    assert_eq!(target_from(target, b".5"), target);
    assert_eq!(target_from(target, b"-3.5"), target);
    assert_eq!(target_from(target, b"1e+3"), target);
    let least = btc_lib::min_target();
    assert_eq!(target_from(least, least.checked_mul_small(2).unwrap().to_decimal().as_slice()), least);
    assert_eq!(target_from(least, huge.as_bytes()), least);
}

#[test]
fn the_next_target_scales_with_the_time_a_period_took() {
    let target = U256::from_u64(1_000_000);
    assert_eq!(next_target(target, 500), target);
    assert_eq!(next_target(target, 250), U256::from_u64(500_000));
    assert_eq!(next_target(target, 750), U256::from_u64(1_500_000));
    assert_eq!(next_target(target, 333), U256::from_u64(666_000));
    assert_eq!(next_target(U256::from_u64(1_001), 333), U256::from_u64(666));
    assert_eq!(next_target(target, 125), U256::from_u64(250_000));
    assert_eq!(next_target(target, 124), U256::from_u64(250_000));
    assert_eq!(next_target(target, 1), U256::from_u64(250_000));
    assert_eq!(next_target(target, 0), U256::from_u64(250_000));
    assert_eq!(next_target(target, -77), U256::from_u64(250_000));
    assert_eq!(next_target(target, 1_999), U256::from_u64(3_998_000));
    assert_eq!(next_target(target, 2_000), U256::from_u64(4_000_000));
    assert_eq!(next_target(target, i128::MAX), U256::from_u64(4_000_000));
    assert_eq!(next_target(target, i128::MIN), U256::from_u64(250_000));
    let least = btc_lib::min_target();
    assert_eq!(next_target(least, 1_000), least);
    assert_eq!(next_target(least, 250), least.div_small(2));
    let third = next_target(least, 499);
    let (expected, _) = least.mul_add_small(499, 0).0.div_rem_small(500);
    assert_eq!(third, expected);
}

#[test]
fn every_error_has_its_reason() {
    assert_eq!(BtcError::InvalidTransaction.reason(), "Invalid transaction");
    assert_eq!(BtcError::InvalidBlock.reason(), "Invalid block");
    assert_eq!(BtcError::InvalidMerkleRoot.reason(), "Invalid Merkle root");
    assert_eq!(BtcError::InvalidSignature.reason(), "Invalid signature");
    assert_eq!(BtcError::IoError.reason(), "Malformed bytes");
}

#[test]
fn the_protocol_constants_are_as_documented() {
    assert_eq!(btc_lib::INITIAL_REWARD, 50);
    assert_eq!(btc_lib::HALVING_INTERVAL, 210);
    assert_eq!(btc_lib::IDEAL_BLOCK_TIME, 10);
    assert_eq!(btc_lib::DIFFICULTY_UPDATE_INTERVAL, 50);
    assert_eq!(btc_lib::MAX_MEMPOOL_TRANSACTION_AGE, 600);
    assert_eq!(
        btc_lib::min_target().to_big_endian()[..3],
        [0u8, 0, 0xff]
    );
}
