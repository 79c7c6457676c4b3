use btc_lib::crypto::PrivateKey;
use btc_lib::error::BtcError;
use btc_lib::network::{frame, framed_length, Message};
use btc_lib::node::{longest_after, named_nodes, restore, take_download};
use btc_lib::sha256;
use btc_lib::types::{Block, BlockHeader, Blockchain, Transaction, TransactionOutput};
use btc_lib::u256::U256;
use btc_lib::util::MerkleRoot;

fn first_block(key: &PrivateKey) -> Block {
    let transactions = vec![Transaction::new(
        vec![],
        vec![TransactionOutput { value: 5_000_000_000, unique_id: 9, pubkey: key.public_key() }],
    )];
    let root = MerkleRoot::calculate(&transactions);
    let target = U256 { w3: u64::MAX, w2: u64::MAX, w1: u64::MAX, w0: u64::MAX };
    Block::new(BlockHeader::new(1, 0, sha256::Hash::zero(), root, target), transactions)
}

fn again(message: &Message) -> Message {
    let bytes = message.encode();
    let read = Message::decode(&bytes).expect("what was written is read");
    assert_eq!(read.encode(), bytes);
    read
}

#[test]
fn every_kind_of_message_round_trips() {
    let key = PrivateKey::new_key();
    let block = first_block(&key);
    let transaction = block.transactions[0].clone();
    let output = transaction.outputs[0];
    assert!(matches!(again(&Message::FetchUTXOs(key.public_key())), Message::FetchUTXOs(k) if k == key.public_key()));
    assert!(matches!(again(&Message::UTXOs(vec![(output, true), (output, false)])), Message::UTXOs(list) if list == vec![(output, true), (output, false)]));
    assert!(matches!(again(&Message::UTXOs(vec![])), Message::UTXOs(list) if list.is_empty()));
    assert!(matches!(again(&Message::SubmitTransaction(transaction.clone())), Message::SubmitTransaction(t) if t.hash() == transaction.hash()));
    assert!(matches!(again(&Message::NewTransaction(transaction.clone())), Message::NewTransaction(t) if t.hash() == transaction.hash()));
    assert!(matches!(again(&Message::FetchTemplate(key.public_key())), Message::FetchTemplate(k) if k == key.public_key()));
    assert!(matches!(again(&Message::Template(block.clone())), Message::Template(b) if b.hash() == block.hash()));
    assert!(matches!(again(&Message::ValidateTemplate(block.clone())), Message::ValidateTemplate(b) if b.hash() == block.hash()));
    assert!(matches!(again(&Message::TemplateValidity(true)), Message::TemplateValidity(true)));
    assert!(matches!(again(&Message::TemplateValidity(false)), Message::TemplateValidity(false)));
    assert!(matches!(again(&Message::SubmitTemplate(block.clone())), Message::SubmitTemplate(b) if b.hash() == block.hash()));
    assert!(matches!(again(&Message::DiscoverNodes), Message::DiscoverNodes));
    let names = vec!["127.0.0.1:9000".to_string(), "node.example:9001".to_string(), "żółw:1".to_string(), String::new()];
    assert!(matches!(again(&Message::NodeList(names.clone())), Message::NodeList(list) if list == names));
    assert!(matches!(again(&Message::AskDifference(u32::MAX)), Message::AskDifference(u32::MAX)));
    assert!(matches!(again(&Message::Difference(i32::MIN)), Message::Difference(i32::MIN)));
    assert!(matches!(again(&Message::Difference(7)), Message::Difference(7)));
    assert!(matches!(again(&Message::FetchBlock(123_456)), Message::FetchBlock(123_456)));
    assert!(matches!(again(&Message::NewBlock(block.clone())), Message::NewBlock(b) if b.hash() == block.hash()));
}

#[test]
fn a_message_is_the_array_of_its_tag_and_what_it_carries() {
    assert_eq!(Message::DiscoverNodes.encode(), vec![0x81, 9]);
    assert_eq!(Message::TemplateValidity(true).encode(), vec![0x82, 7, 0xf5]);
    assert_eq!(Message::AskDifference(300).encode(), vec![0x82, 11, 0x19, 0x01, 0x2c]);
    assert_eq!(Message::Difference(-1).encode(), vec![0x82, 12, 0x20]);
    assert_eq!(
        Message::NodeList(vec!["ab".to_string()]).encode(),
        vec![0x82, 10, 0x81, 0x62, b'a', b'b']
    );
}

#[test]
fn malformed_messages_are_rejected() {
    assert!(matches!(Message::decode(&[]), Err(BtcError::IoError)));
    assert!(matches!(Message::decode(&[0x82, 15]), Err(BtcError::IoError)));
    assert!(matches!(Message::decode(&[0x82, 9, 0]), Err(BtcError::IoError)));
    assert!(matches!(Message::decode(&[0x82, 9]), Err(BtcError::IoError)));
    assert!(matches!(Message::decode(&[0x81, 7]), Err(BtcError::IoError)));
    assert!(matches!(Message::decode(&[0x82, 7, 0xf6]), Err(BtcError::IoError)));
    assert!(matches!(Message::decode(&[0x82, 11, 0x1b, 0, 0, 0, 1, 0, 0, 0, 0]), Err(BtcError::IoError)));
    assert!(matches!(Message::decode(&[0x82, 10, 0x81, 0x62, 0xc3, 0x28]), Err(BtcError::IoError)));
    assert!(matches!(Message::decode(&[0x82, 10, 0x81, 0x63, b'a']), Err(BtcError::IoError)));
    assert!(matches!(Message::decode(&[0x81, 9]), Ok(Message::DiscoverNodes)));
}

#[test]
fn a_frame_is_the_length_in_eight_bytes_and_then_the_message() {
    let wire = frame(&Message::DiscoverNodes.encode());
    assert_eq!(wire, vec![0, 0, 0, 0, 0, 0, 0, 2, 0x81, 9]);
    assert_eq!(framed_length(&wire[..8]), Some(2));
    assert_eq!(framed_length(&wire[..7]), None);
    assert_eq!(framed_length(&[0, 0, 0, 0, 0, 0, 1, 0]), Some(256));
    assert_eq!(frame(&[]), vec![0u8; 8]);
    assert!(matches!(Message::decode(&wire[8..]), Ok(Message::DiscoverNodes)));
}

#[test]
fn only_a_node_list_names_nodes() {
    let names = vec!["a:1".to_string(), "b:2".to_string()];
    assert_eq!(named_nodes(Message::NodeList(names.clone())), names);
    assert!(named_nodes(Message::DiscoverNodes).is_empty());
    assert!(named_nodes(Message::Difference(3)).is_empty());
}

#[test]
fn the_longest_chain_is_the_greatest_difference_reported() {
    let start = (String::new(), 0);
    let one = longest_after(start, "a".to_string(), &Message::Difference(3));
    assert_eq!(one, ("a".to_string(), 3));
    let two = longest_after(one, "b".to_string(), &Message::Difference(3));
    assert_eq!(two, ("a".to_string(), 3));
    let three = longest_after(two, "c".to_string(), &Message::Difference(-5));
    assert_eq!(three, ("a".to_string(), 3));
    let four = longest_after(three, "d".to_string(), &Message::DiscoverNodes);
    assert_eq!(four, ("a".to_string(), 3));
    let five = longest_after(four, "e".to_string(), &Message::Difference(4));
    assert_eq!(five, ("e".to_string(), 4));
}

#[test]
fn a_downloaded_block_is_added_and_other_answers_are_passed_over() {
    let key = PrivateKey::new_key();
    let mut chain = Blockchain::new();
    assert_eq!(take_download(&mut chain, Message::DiscoverNodes), Ok(()));
    assert_eq!(chain.block_height(), 0);
    assert_eq!(take_download(&mut chain, Message::NewBlock(first_block(&key))), Ok(()));
    assert_eq!(chain.block_height(), 1);
    assert_eq!(
        take_download(&mut chain, Message::NewBlock(first_block(&key))),
        Err(BtcError::InvalidBlock)
    );
    assert_eq!(chain.block_height(), 1);
}

#[test]
fn a_stored_chain_comes_back_with_its_unspent_outputs() {
    let key = PrivateKey::new_key();
    let mut chain = Blockchain::new();
    let block = first_block(&key);
    let paid = block.transactions[0].outputs[0];
    assert_eq!(chain.add_block(block), Ok(()));
    let stored = chain.encode();
    let back = restore(&stored).ok().unwrap();
    assert_eq!(back.block_height(), 1);
    assert_eq!(back.utxos().get(&paid.hash()), Some((false, paid)));
    assert_eq!(back.target(), btc_lib::min_target());
    assert!(restore(&stored[1..]).is_err());
}
