use btc_lib::crypto::{PrivateKey, Signature};
use btc_lib::error::BtcError;
use btc_lib::sha256;
use btc_lib::types::{
    Block, BlockHeader, Blockchain, Transaction, TransactionInput, TransactionOutput, UtxoSet,
};
use btc_lib::u256::U256;
use btc_lib::util::MerkleRoot;

const COIN: u64 = 100_000_000;

fn any_target() -> U256 {
    U256 { w3: u64::MAX, w2: u64::MAX, w1: u64::MAX, w0: u64::MAX }
}

fn output(value: u64, key: &PrivateKey) -> TransactionOutput {
    TransactionOutput {
        value,
        unique_id: uuid::Uuid::new_v4().as_u128(),
        pubkey: key.public_key(),
    }
}

fn spend(previous: &TransactionOutput, key: &PrivateKey) -> TransactionInput {
    let hash = previous.hash();
    TransactionInput {
        prev_transaction_output_hash: hash,
        signature: Signature::sign_output(&hash, key).expect("a fresh key signs"),
    }
}

fn block_on(parent: sha256::Hash, timestamp: i64, transactions: Vec<Transaction>) -> Block {
    let root = MerkleRoot::calculate(&transactions);
    Block::new(BlockHeader::new(timestamp, 0, parent, root, any_target()), transactions)
}

fn genesis(key: &PrivateKey) -> Block {
    let coinbase = Transaction::new(vec![], vec![output(50 * COIN, key)]);
    block_on(sha256::Hash::zero(), 1_000, vec![coinbase])
}

#[test]
fn genesis_is_accepted_and_its_coinbase_becomes_unspent() {
    let key = PrivateKey::new_key();
    let first = genesis(&key);
    let paid = first.transactions[0].outputs[0];
    let mut chain = Blockchain::new();
    assert_eq!(chain.add_block(first), Ok(()));
    assert_eq!(chain.block_height(), 1);
    assert_eq!(chain.utxos().len(), 0);
    chain.rebuild_utxos();
    assert_eq!(chain.utxos().len(), 1);
    assert_eq!(chain.utxos().get(&paid.hash()), Some((false, paid)));
}

#[test]
fn genesis_with_a_parent_is_rejected() {
    let key = PrivateKey::new_key();
    let coinbase = Transaction::new(vec![], vec![output(50 * COIN, &key)]);
    let block = block_on(sha256::Hash::hash(b"parent"), 1_000, vec![coinbase]);
    let mut chain = Blockchain::new();
    assert_eq!(chain.add_block(block), Err(BtcError::InvalidBlock));
    assert_eq!(chain.block_height(), 0);
}

#[test]
fn wrong_parent_is_rejected() {
    let key = PrivateKey::new_key();
    let mut chain = Blockchain::new();
    assert_eq!(chain.add_block(genesis(&key)), Ok(()));
    chain.rebuild_utxos();
    let coinbase = Transaction::new(vec![], vec![output(50 * COIN, &key)]);
    let second = block_on(sha256::Hash::zero(), 2_000, vec![coinbase]);
    assert_eq!(chain.add_block(second), Err(BtcError::InvalidBlock));
    assert_eq!(chain.block_height(), 1);
}

#[test]
fn a_second_block_on_the_tip_is_accepted() {
    let key = PrivateKey::new_key();
    let mut chain = Blockchain::new();
    let first = genesis(&key);
    let tip = first.hash();
    assert_eq!(chain.add_block(first), Ok(()));
    chain.rebuild_utxos();
    let coinbase = Transaction::new(vec![], vec![output(50 * COIN, &key)]);
    let second = block_on(tip, 1_001, vec![coinbase]);
    assert_eq!(chain.add_block(second), Ok(()));
    assert_eq!(chain.block_height(), 2);
    chain.rebuild_utxos();
    assert_eq!(chain.utxos().len(), 2);
}

#[test]
fn a_block_that_is_not_later_than_the_tip_is_rejected() {
    let key = PrivateKey::new_key();
    let mut chain = Blockchain::new();
    let first = genesis(&key);
    let tip = first.hash();
    assert_eq!(chain.add_block(first), Ok(()));
    let coinbase = Transaction::new(vec![], vec![output(50 * COIN, &key)]);
    let second = block_on(tip, 1_000, vec![coinbase]);
    assert_eq!(chain.add_block(second), Err(BtcError::InvalidBlock));
}

#[test]
fn a_block_above_its_target_is_rejected() {
    let key = PrivateKey::new_key();
    let mut chain = Blockchain::new();
    let first = genesis(&key);
    let tip = first.hash();
    assert_eq!(chain.add_block(first), Ok(()));
    let transactions = vec![Transaction::new(vec![], vec![output(50 * COIN, &key)])];
    let root = MerkleRoot::calculate(&transactions);
    let header = BlockHeader::new(1_001, 0, tip, root, U256::zero());
    assert_eq!(chain.add_block(Block::new(header, transactions)), Err(BtcError::InvalidBlock));
}

#[test]
fn a_wrong_merkle_root_is_rejected() {
    let key = PrivateKey::new_key();
    let mut chain = Blockchain::new();
    let first = genesis(&key);
    let tip = first.hash();
    assert_eq!(chain.add_block(first), Ok(()));
    let transactions = vec![Transaction::new(vec![], vec![output(50 * COIN, &key)])];
    let header = BlockHeader::new(1_001, 0, tip, MerkleRoot(sha256::Hash::zero()), any_target());
    assert_eq!(
        chain.add_block(Block::new(header, transactions)),
        Err(BtcError::InvalidMerkleRoot)
    );
}

#[test]
fn an_empty_block_is_rejected() {
    let key = PrivateKey::new_key();
    let mut chain = Blockchain::new();
    let first = genesis(&key);
    let tip = first.hash();
    assert_eq!(chain.add_block(first), Ok(()));
    assert_eq!(chain.add_block(block_on(tip, 1_001, vec![])), Err(BtcError::InvalidBlock));
}

#[test]
fn a_block_that_spends_and_pays_the_fee_to_the_miner_is_accepted() {
    let key = PrivateKey::new_key();
    let mut chain = Blockchain::new();
    let first = genesis(&key);
    let paid = first.transactions[0].outputs[0];
    let tip = first.hash();
    assert_eq!(chain.add_block(first), Ok(()));
    chain.rebuild_utxos();
    let transfer = Transaction::new(vec![spend(&paid, &key)], vec![output(49 * COIN, &key)]);
    let coinbase = Transaction::new(vec![], vec![output(51 * COIN, &key)]);
    let second = block_on(tip, 1_001, vec![coinbase, transfer]);
    assert_eq!(second.calculate_miner_fees(chain.utxos()), Ok(COIN));
    assert_eq!(chain.add_block(second), Ok(()));
    chain.rebuild_utxos();
    assert_eq!(chain.utxos().len(), 2);
    assert!(!chain.utxos().contains_key(&paid.hash()));
}

#[test]
fn double_spend_within_a_block_is_rejected() {
    let key = PrivateKey::new_key();
    let mut chain = Blockchain::new();
    let first = genesis(&key);
    let paid = first.transactions[0].outputs[0];
    let tip = first.hash();
    assert_eq!(chain.add_block(first), Ok(()));
    chain.rebuild_utxos();
    let one = Transaction::new(vec![spend(&paid, &key)], vec![output(50 * COIN, &key)]);
    let two = Transaction::new(vec![spend(&paid, &key)], vec![output(50 * COIN, &key)]);
    let coinbase = Transaction::new(vec![], vec![output(50 * COIN, &key)]);
    let second = block_on(tip, 1_001, vec![coinbase, one, two]);
    assert_eq!(chain.add_block(second), Err(BtcError::InvalidTransaction));
    assert_eq!(chain.block_height(), 1);
}

#[test]
fn a_bad_signature_is_rejected() {
    let key = PrivateKey::new_key();
    let thief = PrivateKey::new_key();
    let mut chain = Blockchain::new();
    let first = genesis(&key);
    let paid = first.transactions[0].outputs[0];
    let tip = first.hash();
    assert_eq!(chain.add_block(first), Ok(()));
    chain.rebuild_utxos();
    let theft = Transaction::new(vec![spend(&paid, &thief)], vec![output(50 * COIN, &thief)]);
    let coinbase = Transaction::new(vec![], vec![output(50 * COIN, &thief)]);
    let second = block_on(tip, 1_001, vec![coinbase, theft]);
    assert_eq!(chain.add_block(second), Err(BtcError::InvalidSignature));
}

#[test]
fn an_unknown_input_is_rejected() {
    let key = PrivateKey::new_key();
    let mut chain = Blockchain::new();
    let first = genesis(&key);
    let tip = first.hash();
    assert_eq!(chain.add_block(first), Ok(()));
    chain.rebuild_utxos();
    let nowhere = output(7, &key);
    let transfer = Transaction::new(vec![spend(&nowhere, &key)], vec![output(7, &key)]);
    let coinbase = Transaction::new(vec![], vec![output(50 * COIN, &key)]);
    let second = block_on(tip, 1_001, vec![coinbase, transfer]);
    assert_eq!(chain.add_block(second), Err(BtcError::InvalidTransaction));
}

#[test]
fn halving_arithmetic_at_the_first_halving() {
    let key = PrivateKey::new_key();
    let held = output(10 * COIN, &key);
    let mut utxos = UtxoSet::new();
    utxos.insert(held.hash(), false, held);
    let transfer = Transaction::new(vec![spend(&held, &key)], vec![output(9 * COIN, &key)]);
    let fees = COIN;
    let exact = Transaction::new(vec![], vec![output(25 * COIN + fees, &key)]);
    let accepted = block_on(sha256::Hash::zero(), 1, vec![exact, transfer.clone()]);
    assert_eq!(accepted.verify_transactions(btc_lib::HALVING_INTERVAL, &utxos), Ok(()));
    let greedy = Transaction::new(vec![], vec![output(25 * COIN + fees + 1, &key)]);
    let rejected = block_on(sha256::Hash::zero(), 1, vec![greedy, transfer.clone()]);
    assert_eq!(
        rejected.verify_transactions(btc_lib::HALVING_INTERVAL, &utxos),
        Err(BtcError::InvalidTransaction)
    );
    let early = Transaction::new(vec![], vec![output(50 * COIN + fees, &key)]);
    let before = block_on(sha256::Hash::zero(), 1, vec![early, transfer]);
    assert_eq!(before.verify_transactions(btc_lib::HALVING_INTERVAL - 1, &utxos), Ok(()));
}

#[test]
fn the_reward_halves_every_interval_and_runs_out() {
    assert_eq!(btc_lib::types::block::block_reward(0), 5_000_000_000);
    assert_eq!(btc_lib::types::block::block_reward(209), 5_000_000_000);
    assert_eq!(btc_lib::types::block::block_reward(210), 2_500_000_000);
    assert_eq!(btc_lib::types::block::block_reward(420), 1_250_000_000);
    assert_eq!(btc_lib::types::block::block_reward(210 * 32), 1);
    assert_eq!(btc_lib::types::block::block_reward(210 * 33), 0);
    assert_eq!(btc_lib::types::block::block_reward(u64::MAX), 0);
}

#[test]
fn fifty_blocks_one_second_apart_quarter_the_target() {
    let key = PrivateKey::new_key();
    let mut chain = Blockchain::new();
    let mut block = genesis(&key);
    let before = chain.target();
    assert_eq!(before, btc_lib::min_target());
    for height in 0..btc_lib::DIFFICULTY_UPDATE_INTERVAL {
        let tip = block.hash();
        assert_eq!(chain.target(), before);
        assert_eq!(chain.add_block(block), Ok(()));
        let coinbase = Transaction::new(vec![], vec![output(50 * COIN, &key)]);
        block = block_on(tip, 1_001 + height as i64, vec![coinbase]);
    }
    assert_eq!(chain.block_height(), btc_lib::DIFFICULTY_UPDATE_INTERVAL);
    assert_eq!(chain.target(), before.div_small(4));
    assert!(chain.target().le(&btc_lib::min_target()));
}

#[test]
fn rebuilding_replays_the_whole_chain() {
    let key = PrivateKey::new_key();
    let mut chain = Blockchain::new();
    let first = genesis(&key);
    let paid = first.transactions[0].outputs[0];
    let tip = first.hash();
    assert_eq!(chain.add_block(first), Ok(()));
    chain.rebuild_utxos();
    let kept = output(20 * COIN, &key);
    let change = output(30 * COIN, &key);
    let transfer = Transaction::new(vec![spend(&paid, &key)], vec![kept, change]);
    let reward = output(50 * COIN, &key);
    let second = block_on(tip, 1_001, vec![Transaction::new(vec![], vec![reward]), transfer]);
    assert_eq!(chain.add_block(second), Ok(()));
    chain.rebuild_utxos();
    chain.rebuild_utxos();
    assert_eq!(chain.utxos().len(), 3);
    assert_eq!(chain.utxos().get(&kept.hash()), Some((false, kept)));
    assert_eq!(chain.utxos().get(&change.hash()), Some((false, change)));
    assert_eq!(chain.utxos().get(&reward.hash()), Some((false, reward)));
    assert_eq!(chain.utxos().get(&paid.hash()), None);
}

#[test]
fn every_accepted_block_names_the_hash_of_the_block_before_it() {
    let key = PrivateKey::new_key();
    let mut chain = Blockchain::new();
    let mut block = genesis(&key);
    for height in 0..5i64 {
        let tip = block.hash();
        assert_eq!(chain.add_block(block), Ok(()));
        let coinbase = Transaction::new(vec![], vec![output(50 * COIN, &key)]);
        block = block_on(tip, 2_000 + height, vec![coinbase]);
    }
    let stray = block_on(sha256::Hash::hash(b"stray"), 9_000, vec![]);
    assert_eq!(chain.add_block(stray), Err(BtcError::InvalidBlock));
    let blocks = chain.blocks();
    assert_eq!(blocks.len(), 5);
    assert_eq!(blocks[0].header.prev_block_hash, sha256::Hash::zero());
    for i in 1..blocks.len() {
        assert_eq!(blocks[i].header.prev_block_hash, blocks[i - 1].hash());
        assert!(blocks[i].header.timestamp > blocks[i - 1].header.timestamp);
        assert_eq!(blocks[i].header.merkle_root, MerkleRoot::calculate(&blocks[i].transactions));
    }
    let copy = chain.clone();
    assert_eq!(copy.block_height(), 5);
    assert_eq!(copy.encode(), chain.encode());
    assert!(chain.target().le(&btc_lib::min_target()));
}

fn holding(values: &[u64], key: &PrivateKey) -> (UtxoSet, Vec<TransactionOutput>) {
    let mut utxos = UtxoSet::new();
    let mut held = vec![];
    for value in values {
        let one = output(*value, key);
        utxos.insert(one.hash(), false, one);
        held.push(one);
    }
    (utxos, held)
}

#[test]
fn two_outputs_of_one_hash_in_a_block_are_rejected() {
    let key = PrivateKey::new_key();
    let (utxos, held) = holding(&[10, 10], &key);
    let twin = output(5, &key);
    let one = Transaction::new(vec![spend(&held[0], &key)], vec![twin]);
    let two = Transaction::new(vec![spend(&held[1], &key)], vec![twin]);
    let coinbase = Transaction::new(vec![], vec![output(50 * COIN + 10, &key)]);
    let block = block_on(sha256::Hash::zero(), 1, vec![coinbase, one, two]);
    assert_eq!(block.calculate_miner_fees(&utxos), Err(BtcError::InvalidTransaction));
    assert_eq!(block.verify_transactions(0, &utxos), Err(BtcError::InvalidTransaction));
}

#[test]
fn sums_that_do_not_fit_in_64_bits_are_rejected() {
    let key = PrivateKey::new_key();
    let (utxos, held) = holding(&[u64::MAX, 1], &key);
    let both = Transaction::new(
        vec![spend(&held[0], &key), spend(&held[1], &key)],
        vec![output(1, &key)],
    );
    let coinbase = Transaction::new(vec![], vec![output(50 * COIN, &key)]);
    let block = block_on(sha256::Hash::zero(), 1, vec![coinbase.clone(), both]);
    assert_eq!(block.calculate_miner_fees(&utxos), Err(BtcError::InvalidTransaction));
    let most = Transaction::new(vec![spend(&held[0], &key)], vec![output(1, &key)]);
    let block = block_on(sha256::Hash::zero(), 1, vec![coinbase, most]);
    assert_eq!(block.calculate_miner_fees(&utxos), Ok(u64::MAX - 1));
}

#[test]
fn a_transaction_that_creates_value_makes_the_block_invalid() {
    let key = PrivateKey::new_key();
    let (utxos, held) = holding(&[10, 10], &key);
    let modest = Transaction::new(vec![spend(&held[0], &key)], vec![output(1, &key)]);
    let greedy = Transaction::new(vec![spend(&held[1], &key)], vec![output(15, &key)]);
    let coinbase = Transaction::new(vec![], vec![output(50 * COIN + 4, &key)]);
    let block = block_on(sha256::Hash::zero(), 1, vec![coinbase, modest, greedy]);
    assert_eq!(block.calculate_miner_fees(&utxos), Ok(4));
    assert_eq!(block.verify_coinbase_transaction(0, &utxos), Ok(()));
    assert_eq!(block.verify_transactions(0, &utxos), Err(BtcError::InvalidTransaction));
    let more = Transaction::new(vec![spend(&held[0], &key)], vec![output(30, &key)]);
    let coinbase = Transaction::new(vec![], vec![output(50 * COIN, &key)]);
    let block = block_on(sha256::Hash::zero(), 1, vec![coinbase, more]);
    assert_eq!(block.calculate_miner_fees(&utxos), Err(BtcError::InvalidTransaction));
}

#[test]
fn a_coinbase_of_the_wrong_shape_is_rejected() {
    let key = PrivateKey::new_key();
    let (utxos, held) = holding(&[10], &key);
    let spending = Transaction::new(vec![spend(&held[0], &key)], vec![output(50 * COIN, &key)]);
    let block = block_on(sha256::Hash::zero(), 1, vec![spending]);
    assert_eq!(block.verify_coinbase_transaction(0, &utxos), Err(BtcError::InvalidTransaction));
    let empty = Transaction::new(vec![], vec![]);
    let block = block_on(sha256::Hash::zero(), 1, vec![empty]);
    assert_eq!(block.verify_coinbase_transaction(0, &utxos), Err(BtcError::InvalidTransaction));
    let none = block_on(sha256::Hash::zero(), 1, vec![]);
    assert_eq!(none.verify_coinbase_transaction(0, &utxos), Err(BtcError::InvalidBlock));
    assert_eq!(none.calculate_miner_fees(&utxos), Ok(0));
    let second_coinbase = Transaction::new(vec![], vec![output(1, &key)]);
    let coinbase = Transaction::new(vec![], vec![output(50 * COIN - 1, &key)]);
    let block = block_on(sha256::Hash::zero(), 1, vec![coinbase, second_coinbase]);
    assert_eq!(block.verify_transactions(0, &utxos), Err(BtcError::InvalidTransaction));
}

#[test]
fn a_bad_signature_is_found_before_a_later_loss_of_value() {
    let key = PrivateKey::new_key();
    let thief = PrivateKey::new_key();
    let (utxos, held) = holding(&[10, 10], &key);
    let stolen = Transaction::new(vec![spend(&held[0], &thief)], vec![output(1, &thief)]);
    let greedy = Transaction::new(vec![spend(&held[1], &key)], vec![output(12, &key)]);
    let coinbase = Transaction::new(vec![], vec![output(50 * COIN + 7, &key)]);
    let block = block_on(sha256::Hash::zero(), 1, vec![coinbase.clone(), stolen.clone(), greedy.clone()]);
    assert_eq!(block.verify_transactions(0, &utxos), Err(BtcError::InvalidSignature));
    let block = block_on(sha256::Hash::zero(), 1, vec![coinbase, greedy, stolen]);
    assert_eq!(block.verify_transactions(0, &utxos), Err(BtcError::InvalidTransaction));
}

#[test]
fn the_set_of_unspent_outputs_is_a_map() {
    let key = PrivateKey::new_key();
    let (mut utxos, held) = holding(&[1, 2, 3], &key);
    assert_eq!(utxos.len(), 3);
    assert!(utxos.contains_key(&held[1].hash()));
    utxos.set_marked(&held[1].hash(), true);
    assert_eq!(utxos.get(&held[1].hash()), Some((true, held[1])));
    utxos.insert(held[1].hash(), false, held[1]);
    assert_eq!(utxos.len(), 3);
    assert_eq!(utxos.get(&held[1].hash()), Some((false, held[1])));
    utxos.remove(&held[0].hash());
    utxos.remove(&held[0].hash());
    assert_eq!(utxos.len(), 2);
    assert_eq!(utxos.get(&held[0].hash()), None);
    utxos.set_marked(&held[0].hash(), true);
    assert_eq!(utxos.get(&held[0].hash()), None);
    let entries = utxos.as_entries().clone();
    assert!(UtxoSet::from_entries(entries.clone()).is_some());
    let mut twice = entries.clone();
    twice.push(entries[0]);
    assert!(UtxoSet::from_entries(twice).is_none());
    utxos.clear();
    assert_eq!(utxos.len(), 0);
}
