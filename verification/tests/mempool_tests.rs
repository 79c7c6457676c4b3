use btc_lib::crypto::{PrivateKey, Signature};
use btc_lib::error::BtcError;
use btc_lib::sha256;
use btc_lib::types::{
    Block, BlockHeader, Blockchain, Transaction, TransactionInput, TransactionOutput,
};
use btc_lib::u256::U256;
use btc_lib::util::MerkleRoot;

const COIN: u64 = 100_000_000;

fn new_output(value: u64, key: &PrivateKey) -> TransactionOutput {
    TransactionOutput {
        value,
        unique_id: uuid::Uuid::new_v4().as_u128(),
        pubkey: key.public_key(),
    }
}

fn spend_of(previous: &TransactionOutput, key: &PrivateKey) -> TransactionInput {
    let hash = previous.hash();
    TransactionInput {
        prev_transaction_output_hash: hash,
        signature: Signature::sign_output(&hash, key).expect("a fresh key signs"),
    }
}

/// A chain of one block whose coinbase pays `values` to `key`, with the outputs unspent.
fn funded(key: &PrivateKey, values: &[u64]) -> (Blockchain, Vec<TransactionOutput>) {
    let outputs: Vec<TransactionOutput> = values.iter().map(|v| new_output(*v, key)).collect();
    let transactions = vec![Transaction::new(vec![], outputs.clone())];
    let root = MerkleRoot::calculate(&transactions);
    let target = U256 { w3: u64::MAX, w2: u64::MAX, w1: u64::MAX, w0: u64::MAX };
    let header = BlockHeader::new(1_000, 0, sha256::Hash::zero(), root, target);
    let mut chain = Blockchain::new();
    assert_eq!(chain.add_block(Block::new(header, transactions)), Ok(()));
    chain.rebuild_utxos();
    (chain, outputs)
}

fn hashes_of(chain: &Blockchain) -> Vec<sha256::Hash> {
    chain.mempool().iter().map(|entry| entry.1.hash()).collect()
}

#[test]
fn an_admitted_transaction_reserves_what_it_spends() {
    let key = PrivateKey::new_key();
    let (mut chain, held) = funded(&key, &[10 * COIN, 5 * COIN]);
    let transfer = Transaction::new(vec![spend_of(&held[0], &key)], vec![new_output(9 * COIN, &key)]);
    let id = transfer.hash();
    assert_eq!(chain.add_to_mempool_at(transfer, 50), Ok(()));
    assert_eq!(chain.mempool().len(), 1);
    assert_eq!(chain.mempool()[0].0, 50);
    assert_eq!(chain.mempool()[0].1.hash(), id);
    assert_eq!(chain.utxos().get(&held[0].hash()), Some((true, held[0])));
    assert_eq!(chain.utxos().get(&held[1].hash()), Some((false, held[1])));
}

#[test]
fn a_transaction_with_an_unknown_input_is_not_admitted() {
    let key = PrivateKey::new_key();
    let (mut chain, held) = funded(&key, &[10 * COIN]);
    let nowhere = new_output(3, &key);
    let transfer = Transaction::new(
        vec![spend_of(&held[0], &key), spend_of(&nowhere, &key)],
        vec![new_output(COIN, &key)],
    );
    assert_eq!(chain.add_to_mempool_at(transfer, 50), Err(BtcError::InvalidTransaction));
    assert_eq!(chain.mempool().len(), 0);
    assert_eq!(chain.utxos().get(&held[0].hash()), Some((false, held[0])));
}

#[test]
fn a_transaction_that_spends_an_output_twice_is_not_admitted() {
    let key = PrivateKey::new_key();
    let (mut chain, held) = funded(&key, &[10 * COIN]);
    let transfer = Transaction::new(
        vec![spend_of(&held[0], &key), spend_of(&held[0], &key)],
        vec![new_output(COIN, &key)],
    );
    assert_eq!(chain.add_to_mempool_at(transfer, 50), Err(BtcError::InvalidTransaction));
    assert_eq!(chain.mempool().len(), 0);
}

#[test]
fn a_transaction_that_creates_value_is_not_admitted_and_changes_nothing() {
    let key = PrivateKey::new_key();
    let (mut chain, held) = funded(&key, &[10 * COIN, 5 * COIN]);
    let honest = Transaction::new(vec![spend_of(&held[0], &key)], vec![new_output(COIN, &key)]);
    assert_eq!(chain.add_to_mempool_at(honest, 50), Ok(()));
    let greedy = Transaction::new(
        vec![spend_of(&held[0], &key)],
        vec![new_output(10 * COIN + 1, &key)],
    );
    assert_eq!(chain.add_to_mempool_at(greedy, 60), Err(BtcError::InvalidTransaction));
    assert_eq!(chain.mempool().len(), 1);
    assert_eq!(chain.utxos().get(&held[0].hash()), Some((true, held[0])));
}

#[test]
fn a_transaction_that_recreates_what_it_spends_is_replaced_by_the_next_spender() {
    let key = PrivateKey::new_key();
    let (mut chain, held) = funded(&key, &[10 * COIN, 5 * COIN]);
    let first = Transaction::new(
        vec![spend_of(&held[0], &key), spend_of(&held[1], &key)],
        vec![held[0]],
    );
    let first_id = first.hash();
    assert_eq!(chain.add_to_mempool_at(first, 50), Ok(()));
    assert_eq!(chain.utxos().get(&held[1].hash()), Some((true, held[1])));
    let second = Transaction::new(vec![spend_of(&held[0], &key)], vec![new_output(COIN, &key)]);
    let second_id = second.hash();
    assert_eq!(chain.add_to_mempool_at(second, 60), Ok(()));
    assert_eq!(chain.mempool().len(), 1);
    assert_eq!(hashes_of(&chain), vec![second_id]);
    assert!(!hashes_of(&chain).contains(&first_id));
    assert_eq!(chain.utxos().get(&held[0].hash()), Some((true, held[0])));
    assert_eq!(chain.utxos().get(&held[1].hash()), Some((false, held[1])));
}

#[test]
fn a_second_spender_of_a_reserved_output_takes_the_reservation_over() {
    let key = PrivateKey::new_key();
    let (mut chain, held) = funded(&key, &[10 * COIN]);
    let first = Transaction::new(vec![spend_of(&held[0], &key)], vec![new_output(9 * COIN, &key)]);
    let second = Transaction::new(vec![spend_of(&held[0], &key)], vec![new_output(8 * COIN, &key)]);
    let (first_id, second_id) = (first.hash(), second.hash());
    assert_eq!(chain.add_to_mempool_at(first, 50), Ok(()));
    assert_eq!(chain.add_to_mempool_at(second, 60), Ok(()));
    assert_eq!(chain.utxos().get(&held[0].hash()), Some((true, held[0])));
    assert_eq!(hashes_of(&chain), vec![second_id, first_id]);
}

#[test]
fn the_pool_is_ordered_by_decreasing_fee_and_ties_keep_their_order() {
    let key = PrivateKey::new_key();
    let (mut chain, held) = funded(&key, &[10 * COIN, 10 * COIN, 10 * COIN, 10 * COIN]);
    let fees = [2 * COIN, 5 * COIN, 2 * COIN, 7 * COIN];
    let mut ids = vec![];
    for (i, fee) in fees.iter().enumerate() {
        let transfer = Transaction::new(
            vec![spend_of(&held[i], &key)],
            vec![new_output(10 * COIN - fee, &key)],
        );
        ids.push(transfer.hash());
        assert_eq!(chain.add_to_mempool_at(transfer, 100 + i as i64), Ok(()));
    }
    assert_eq!(hashes_of(&chain), vec![ids[3], ids[1], ids[0], ids[2]]);
}

#[test]
fn cleanup_drops_what_is_too_old_and_releases_its_reservations() {
    let key = PrivateKey::new_key();
    let (mut chain, held) = funded(&key, &[10 * COIN, 10 * COIN, 10 * COIN]);
    let mut ids = vec![];
    for (i, admitted) in [0i64, 400, 401].iter().enumerate() {
        let transfer = Transaction::new(
            vec![spend_of(&held[i], &key)],
            vec![new_output(10 * COIN, &key)],
        );
        ids.push(transfer.hash());
        assert_eq!(chain.add_to_mempool_at(transfer, *admitted), Ok(()));
    }
    let age = btc_lib::MAX_MEMPOOL_TRANSACTION_AGE as i64;
    chain.cleanup_mempool_at(age);
    assert_eq!(chain.mempool().len(), 3);
    chain.cleanup_mempool_at(400 + age);
    assert_eq!(hashes_of(&chain), vec![ids[1], ids[2]]);
    assert_eq!(chain.utxos().get(&held[0].hash()), Some((false, held[0])));
    assert_eq!(chain.utxos().get(&held[1].hash()), Some((true, held[1])));
    chain.cleanup_mempool_at(401 + age);
    assert_eq!(hashes_of(&chain), vec![ids[2]]);
    chain.cleanup_mempool_at(i64::MAX);
    assert_eq!(chain.mempool().len(), 0);
    assert_eq!(chain.utxos().get(&held[2].hash()), Some((false, held[2])));
}

#[test]
fn the_clock_admits_and_keeps_a_fresh_transaction() {
    let key = PrivateKey::new_key();
    let (mut chain, held) = funded(&key, &[10 * COIN]);
    let transfer = Transaction::new(vec![spend_of(&held[0], &key)], vec![new_output(COIN, &key)]);
    assert_eq!(chain.add_to_mempool(transfer), Ok(()));
    assert!(chain.mempool()[0].0 > 1_600_000_000);
    chain.cleanup_mempool();
    assert_eq!(chain.mempool().len(), 1);
}

#[test]
fn a_block_takes_its_transactions_out_of_the_pool() {
    let key = PrivateKey::new_key();
    let (mut chain, held) = funded(&key, &[10 * COIN, 10 * COIN]);
    let included = Transaction::new(vec![spend_of(&held[0], &key)], vec![new_output(9 * COIN, &key)]);
    let waiting = Transaction::new(vec![spend_of(&held[1], &key)], vec![new_output(9 * COIN, &key)]);
    let waiting_id = waiting.hash();
    assert_eq!(chain.add_to_mempool_at(included.clone(), 10), Ok(()));
    assert_eq!(chain.add_to_mempool_at(waiting, 11), Ok(()));
    let tip = chain.blocks()[0].hash();
    let transactions = vec![
        Transaction::new(vec![], vec![new_output(51 * COIN, &key)]),
        included,
    ];
    let root = MerkleRoot::calculate(&transactions);
    let target = U256 { w3: u64::MAX, w2: u64::MAX, w1: u64::MAX, w0: u64::MAX };
    let header = BlockHeader::new(1_001, 0, tip, root, target);
    assert_eq!(chain.add_block(Block::new(header, transactions)), Ok(()));
    assert_eq!(hashes_of(&chain), vec![waiting_id]);
}
