use btc_lib::crypto::{PrivateKey, PublicKey, Signature};
use btc_lib::error::BtcError;
use btc_lib::sha256;
use btc_lib::types::{
    Block, BlockHeader, Blockchain, Transaction, TransactionInput, TransactionOutput,
};
use btc_lib::u256::U256;
use btc_lib::util::MerkleRoot;
use ciborium::Value;

fn sample_output(value: u64, key: &PrivateKey) -> TransactionOutput {
    TransactionOutput {
        value,
        unique_id: uuid::Uuid::new_v4().as_u128(),
        pubkey: key.public_key(),
    }
}

fn sample_input(previous: &TransactionOutput, key: &PrivateKey) -> TransactionInput {
    let hash = previous.hash();
    TransactionInput {
        prev_transaction_output_hash: hash,
        signature: Signature::sign_output(&hash, key).unwrap(),
    }
}

fn sample_block(key: &PrivateKey, parent: sha256::Hash, timestamp: i64) -> Block {
    let held = sample_output(700, key);
    let transactions = vec![
        Transaction::new(vec![], vec![sample_output(5_000_000_000, key)]),
        Transaction::new(
            vec![sample_input(&held, key)],
            vec![sample_output(300, key), sample_output(400, key)],
        ),
    ];
    let root = MerkleRoot::calculate(&transactions);
    let target = U256 { w3: u64::MAX, w2: u64::MAX, w1: u64::MAX, w0: u64::MAX };
    Block::new(BlockHeader::new(timestamp, 77, parent, root, target), transactions)
}

fn cbor(value: &Value) -> Vec<u8> {
    let mut bytes = vec![];
    ciborium::into_writer(value, &mut bytes).unwrap();
    bytes
}

fn output_value(output: &TransactionOutput) -> Value {
    Value::Array(vec![
        Value::Integer(output.value.into()),
        Value::Bytes(output.unique_id.to_be_bytes().to_vec()),
        Value::Bytes(output.pubkey.to_sec1_bytes()),
    ])
}

fn input_value(input: &TransactionInput) -> Value {
    Value::Array(vec![
        Value::Bytes(input.prev_transaction_output_hash.as_bytes().to_vec()),
        Value::Bytes(input.signature.to_bytes()),
    ])
}

fn transaction_value(transaction: &Transaction) -> Value {
    Value::Array(vec![
        Value::Array(transaction.inputs.iter().map(input_value).collect()),
        Value::Array(transaction.outputs.iter().map(output_value).collect()),
    ])
}

#[test]
fn an_output_is_written_as_the_cbor_array_of_its_fields() {
    let key = PrivateKey::new_key();
    for value in [0u64, 23, 24, 255, 256, 65_535, 65_536, u32::MAX as u64, 1 << 32, u64::MAX] {
        let output = sample_output(value, &key);
        assert_eq!(output.encode(), cbor(&output_value(&output)));
    }
}

#[test]
fn a_block_is_written_as_the_cbor_array_of_its_fields() {
    let key = PrivateKey::new_key();
    for timestamp in [0i64, 1_700_000_000, -1, -24, -25, i64::MIN, i64::MAX] {
        let block = sample_block(&key, sha256::Hash::hash(b"parent"), timestamp);
        let header = block.header;
        let expected = Value::Array(vec![
            Value::Array(vec![
                Value::Integer(header.nonce.into()),
                Value::Bytes(header.prev_block_hash.as_bytes().to_vec()),
                Value::Integer(header.timestamp.into()),
                Value::Bytes(header.merkle_root.0.as_bytes().to_vec()),
                Value::Bytes(header.target.to_big_endian()),
            ]),
            Value::Array(block.transactions.iter().map(transaction_value).collect()),
        ]);
        assert_eq!(block.encode(), cbor(&expected));
    }
}

#[test]
fn an_output_round_trips_with_its_hash() {
    let key = PrivateKey::new_key();
    let output = sample_output(123_456_789, &key);
    let read = TransactionOutput::decode(&output.encode()).unwrap();
    assert_eq!(read, output);
    assert_eq!(read.hash(), output.hash());
}

#[test]
fn a_transaction_round_trips_with_its_hash() {
    let key = PrivateKey::new_key();
    let block = sample_block(&key, sha256::Hash::zero(), 5);
    for transaction in &block.transactions {
        let read = Transaction::decode(&transaction.encode()).unwrap();
        assert_eq!(read.inputs, transaction.inputs);
        assert_eq!(read.outputs, transaction.outputs);
        assert_eq!(read.hash(), transaction.hash());
    }
}

#[test]
fn a_block_round_trips_with_its_hash() {
    let key = PrivateKey::new_key();
    let block = sample_block(&key, sha256::Hash::hash(b"tip"), -12);
    let read = Block::decode(&block.encode()).unwrap();
    assert_eq!(read.header, block.header);
    assert_eq!(read.transactions.len(), 2);
    assert_eq!(read.transactions[1].outputs, block.transactions[1].outputs);
    assert_eq!(read.hash(), block.hash());
    assert_eq!(read.encode(), block.encode());
}

#[test]
fn bytes_that_are_no_canonical_form_are_rejected() {
    let key = PrivateKey::new_key();
    let bytes = sample_output(5, &key).encode();
    assert_eq!(TransactionOutput::decode(&bytes[..bytes.len() - 1]), Err(BtcError::IoError));
    let mut longer = bytes.clone();
    longer.push(0);
    assert_eq!(TransactionOutput::decode(&longer), Err(BtcError::IoError));
    let mut padded = bytes.clone();
    assert_eq!(padded[1], 5);
    padded.splice(1..2, [0x18, 5]);
    assert_eq!(TransactionOutput::decode(&padded), Err(BtcError::IoError));
    assert_eq!(TransactionOutput::decode(&[]), Err(BtcError::IoError));
    assert!(Block::decode(&bytes).is_err());
    assert!(Transaction::decode(&[0x82, 0x9b, 0xff, 0xff, 0xff, 0xff, 0xff, 0xff, 0xff, 0xff]).is_err());
}

#[test]
fn a_chain_round_trips_without_its_pool() {
    let key = PrivateKey::new_key();
    let first_out = sample_output(5_000_000_000, &key);
    let transactions = vec![Transaction::new(vec![], vec![first_out])];
    let root = MerkleRoot::calculate(&transactions);
    let target = U256 { w3: u64::MAX, w2: u64::MAX, w1: u64::MAX, w0: u64::MAX };
    let first = Block::new(BlockHeader::new(10, 0, sha256::Hash::zero(), root, target), transactions);
    let tip = first.hash();
    let mut chain = Blockchain::new();
    assert_eq!(chain.add_block(first), Ok(()));
    chain.rebuild_utxos();
    let next = vec![Transaction::new(vec![], vec![sample_output(5_000_000_000, &key)])];
    let root = MerkleRoot::calculate(&next);
    let second = Block::new(BlockHeader::new(11, 0, tip, root, target), next);
    assert_eq!(chain.add_block(second), Ok(()));
    let spend = Transaction::new(vec![sample_input(&first_out, &key)], vec![sample_output(1, &key)]);
    assert_eq!(chain.add_to_mempool_at(spend, 3), Ok(()));
    let bytes = chain.encode();
    let read = Blockchain::decode(&bytes).ok().unwrap();
    assert_eq!(read.block_height(), 2);
    assert_eq!(read.target(), chain.target());
    assert_eq!(read.utxos().as_entries(), chain.utxos().as_entries());
    assert_eq!(read.utxos().get(&first_out.hash()), Some((true, first_out)));
    assert_eq!(read.mempool().len(), 0);
    assert_eq!(read.blocks()[1].hash(), chain.blocks()[1].hash());
    assert_eq!(read.encode(), bytes);
}

#[test]
fn a_chain_that_is_not_linked_is_not_read() {
    let key = PrivateKey::new_key();
    let first = sample_block(&key, sha256::Hash::zero(), 1);
    let stray = sample_block(&key, sha256::Hash::hash(b"elsewhere"), 2);
    assert!(Blockchain::from_parts(vec![first.clone()], vec![], btc_lib::min_target()).is_some());
    assert!(Blockchain::from_parts(vec![first.clone(), stray], vec![], btc_lib::min_target()).is_none());
    let easy = U256 { w3: u64::MAX, w2: 0, w1: 0, w0: 0 };
    assert!(Blockchain::from_parts(vec![first], vec![], easy).is_none());
}

#[test]
fn keys_round_trip_through_their_bytes() {
    let key = PrivateKey::new_key();
    let public = key.public_key();
    assert_eq!(PublicKey::from_sec1_bytes(&public.to_sec1_bytes()), Some(public));
    let again = PrivateKey::from_bytes(&key.to_bytes()).unwrap();
    assert_eq!(again.public_key(), public);
    assert_eq!(again.to_bytes(), key.to_bytes());
    assert!(PrivateKey::from_bytes(&[0u8; 32]).is_none());
    assert!(PrivateKey::from_bytes(&[0xffu8; 32]).is_none());
    assert!(PrivateKey::from_bytes(&[1u8; 31]).is_none());
    assert!(PublicKey::from_sec1_bytes(&[4u8; 33]).is_none());
}

#[test]
fn the_public_key_of_the_scalar_one_is_the_generator() {
    let mut scalar = [0u8; 32];
    scalar[31] = 1;
    let key = PrivateKey::from_bytes(&scalar).unwrap();
    let encoded = key.public_key().to_sec1_bytes();
    let hex: String = encoded.iter().map(|b| format!("{:02x}", b)).collect();
    assert_eq!(hex, "0279be667ef9dcbbac55a06295ce870b07029bfcdb2dce28d959f2815b16f81798");
}
