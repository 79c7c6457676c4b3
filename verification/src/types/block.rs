//! Blocks: a header that commits to an ordered list of transactions, and the rules that
//! the transactions of a block must keep.

use vstd::prelude::*;
use vstd::arithmetic::power2::{lemma2_to64, lemma_pow2_strictly_increases, lemma_pow2_unfold, pow2};
use crate::bytes::be_bytes;
use crate::encoding::{
    array_head, byte_string, join, lemma_join_step, push_array_head, push_byte_string, push_signed,
    push_unsigned, signed, unsigned,
};
use crate::error::BtcError;
use crate::sha256::hash_of;
use crate::types::rules::{
    all_inputs, all_outputs, amount_limit, coinbase_result, concat_all, input_lists, input_total,
    inputs_acceptable, lemma_checked_inputs_known, lemma_concat_starts, lemma_concat_step,
    lemma_inputs_acceptable_starts, lemma_outputs_acceptable_starts, miner_fees, non_coinbase,
    output_hashes, output_lists, outputs_acceptable, reward_at, signatures_hold, spent_hashes,
    starts_with, transactions_result, verification_result,
};
use crate::types::transaction::{
    Transaction, TransactionInput, TransactionOutput, TransactionView, output_total,
    transaction_views,
};
use crate::types::utxo::UtxoSet;
use crate::u256::U256;
use crate::util::MerkleRoot;

verus! {

/// The header of a block.
#[derive(Clone, Copy, Debug, PartialEq, Eq, Structural)]
pub struct BlockHeader {
    /// The number that the miner varies.
    pub nonce: u64,
    /// The hash of the block before this one; zero for the first block.
    pub prev_block_hash: crate::sha256::Hash,
    /// When the block was made, in seconds since the Unix epoch, UTC.
    pub timestamp: i64,
    /// The Merkle root of the transactions.
    pub merkle_root: MerkleRoot,
    /// The bound that the hash of this header must not exceed.
    pub target: U256,
}

/// The nonce reached from `start` after `steps` increments, wrapping at 64 bits.
pub open spec fn nonce_after(start: u64, steps: nat) -> u64 {
    ((start + steps) % 0x1_0000_0000_0000_0000) as u64
}

impl BlockHeader {
    /// The canonical bytes: the five fields in order.
    pub open spec fn encoding(&self) -> Seq<u8> {
        array_head(5) + unsigned(self.nonce) + byte_string(be_bytes(self.prev_block_hash@, 32))
            + signed(self.timestamp) + byte_string(be_bytes(self.merkle_root.0@, 32))
            + byte_string(be_bytes(self.target@, 32))
    }

    /// The hash of the header: what must meet the target.
    pub open spec fn content_hash(&self) -> crate::sha256::Hash {
        hash_of(self.encoding())
    }

    /// Whether the hash of the header is at most its target.
    pub open spec fn meets_target(&self) -> bool {
        self.content_hash()@ <= self.target@
    }

    /// This header with another nonce.
    pub open spec fn with_nonce(&self, nonce: u64) -> BlockHeader {
        BlockHeader {
            nonce,
            prev_block_hash: self.prev_block_hash,
            timestamp: self.timestamp,
            merkle_root: self.merkle_root,
            target: self.target,
        }
    }

    pub fn new(
        timestamp: i64,
        nonce: u64,
        prev_block_hash: crate::sha256::Hash,
        merkle_root: MerkleRoot,
        target: U256,
    ) -> (header: BlockHeader)
        ensures
            header == (BlockHeader { nonce, prev_block_hash, timestamp, merkle_root, target }),
    {
        BlockHeader { timestamp, nonce, prev_block_hash, merkle_root, target }
    }

    /// Appends the canonical bytes.
    pub fn encode_into(&self, out: &mut Vec<u8>)
        ensures
            final(out)@ == old(out)@ + self.encoding(),
    {
        push_array_head(out, 5);
        push_unsigned(out, self.nonce);
        let parent = self.prev_block_hash.as_bytes();
        push_byte_string(out, parent.as_slice());
        push_signed(out, self.timestamp);
        let root = self.merkle_root.0.as_bytes();
        push_byte_string(out, root.as_slice());
        let target = self.target.to_big_endian();
        push_byte_string(out, target.as_slice());
        assert(out@ =~= old(out)@ + self.encoding());
    }

    /// The canonical bytes.
    pub fn encode(&self) -> (bytes: Vec<u8>)
        ensures
            bytes@ == self.encoding(),
    {
        let mut bytes: Vec<u8> = Vec::new();
        self.encode_into(&mut bytes);
        assert(bytes@ =~= self.encoding());
        bytes
    }

    /// The hash of the header.
    pub fn hash(&self) -> (digest: crate::sha256::Hash)
        ensures
            digest == self.content_hash(),
    {
        let bytes = self.encode();
        crate::sha256::Hash::hash(bytes.as_slice())
    }

    /// Searches for a nonce under which the header meets its target: the nonce it has,
    /// then up to `steps` more, each one above the last and wrapping at 64 bits. Stops at
    /// the first that meets the target and says whether one did.
    pub fn mine(&mut self, steps: usize) -> (found: bool)
        ensures
            *final(self) == old(self).with_nonce(final(self).nonce),
            found == final(self).meets_target(),
            exists|tried: nat|
                tried <= steps && final(self).nonce == nonce_after(old(self).nonce, tried) && (
                !found ==> tried == steps) && forall|earlier: nat|
                    earlier < tried ==> !(#[trigger] old(self).with_nonce(
                        nonce_after(old(self).nonce, earlier),
                    )).meets_target(),
    {
        let mut tried: usize = 0;
        loop
            invariant_except_break
                tried <= steps,
                *self == old(self).with_nonce(nonce_after(old(self).nonce, tried as nat)),
                forall|earlier: nat|
                    earlier < tried ==> !(#[trigger] old(self).with_nonce(
                        nonce_after(old(self).nonce, earlier),
                    )).meets_target(),
            ensures
                tried <= steps,
                *self == old(self).with_nonce(nonce_after(old(self).nonce, tried as nat)),
                forall|earlier: nat|
                    earlier < tried ==> !(#[trigger] old(self).with_nonce(
                        nonce_after(old(self).nonce, earlier),
                    )).meets_target(),
                !self.meets_target(),
                tried == steps,
            decreases steps - tried,
        {
            if self.hash().matches_target(self.target) {
                return true;
            }
            if tried == steps {
                break ;
            }
            self.nonce = if self.nonce == u64::MAX {
                0
            } else {
                self.nonce + 1
            };
            tried += 1;
        }
        false
    }
}

/// The canonical bytes of each transaction, in order.
pub open spec fn transaction_encodings(transactions: Seq<TransactionView>) -> Seq<Seq<u8>> {
    Seq::new(transactions.len(), |i: int| transactions[i].encoding())
}

/// What a block is: its header and what its transactions are, in order.
pub struct BlockView {
    pub header: BlockHeader,
    pub transactions: Seq<TransactionView>,
}

impl BlockView {
    /// The canonical bytes: the header, then the array of transactions.
    pub open spec fn encoding(self) -> Seq<u8> {
        array_head(2) + self.header.encoding() + array_head(self.transactions.len()) + join(
            transaction_encodings(self.transactions),
        )
    }

    /// The identity of the block: the hash of its canonical bytes.
    pub open spec fn content_hash(self) -> crate::sha256::Hash {
        hash_of(self.encoding())
    }
}

/// A block: a header and an ordered list of transactions, the first of them the
/// coinbase.
#[derive(Debug)]
pub struct Block {
    pub header: BlockHeader,
    pub transactions: Vec<Transaction>,
}

impl View for Block {
    type V = BlockView;

    open spec fn view(&self) -> BlockView {
        BlockView { header: self.header, transactions: transaction_views(self.transactions@) }
    }
}

/// A copy of each transaction.
pub fn clone_transactions(transactions: &Vec<Transaction>) -> (copy: Vec<Transaction>)
    ensures
        transaction_views(copy@) == transaction_views(transactions@),
{
    let mut copy: Vec<Transaction> = Vec::new();
    let mut i: usize = 0;
    while i < transactions.len()
        invariant
            i <= transactions@.len(),
            copy@.len() == i,
            forall|k: int| 0 <= k < i ==> copy@[k]@ == transactions@[k]@,
        decreases transactions@.len() - i,
    {
        copy.push(transactions[i].clone());
        i += 1;
    }
    assert(transaction_views(copy@) =~= transaction_views(transactions@));
    copy
}

impl Clone for Block {
    fn clone(&self) -> (copy: Self)
        ensures
            copy@ == self@,
    {
        Block { header: self.header, transactions: clone_transactions(&self.transactions) }
    }
}

/// Whether `hash` is among `seen`.
pub fn contains_hash(seen: &Vec<crate::sha256::Hash>, hash: &crate::sha256::Hash) -> (found: bool)
    ensures
        found == seen@.contains(*hash),
{
    let mut i: usize = 0;
    while i < seen.len()
        invariant
            i <= seen@.len(),
            forall|k: int| 0 <= k < i ==> seen@[k] != *hash,
        decreases seen@.len() - i,
    {
        if seen[i] == *hash {
            return true;
        }
        i += 1;
    }
    false
}

/// The reward for a block at `height`, in the smallest unit.
pub fn block_reward(height: u64) -> (reward: u64)
    ensures
        reward == reward_at(height),
{
    let halvings: u64 = height / crate::HALVING_INTERVAL;
    let base: u64 = crate::INITIAL_REWARD * 100_000_000;
    proof {
        lemma2_to64();
    }
    if halvings >= 33 {
        proof {
            lemma_pow2_unfold(33);
            if halvings > 33 {
                lemma_pow2_strictly_increases(33, halvings as nat);
            }
            vstd::arithmetic::div_mod::lemma_basic_div(base as int, pow2(halvings as nat) as int);
        }
        return 0;
    }
    let mut divisor: u64 = 1;
    let mut doubled: u64 = 0;
    while doubled < halvings
        invariant
            doubled <= halvings < 33,
            divisor == pow2(doubled as nat),
            divisor <= 0x1_0000_0000,
        decreases halvings - doubled,
    {
        proof {
            lemma_pow2_unfold((doubled + 1) as nat);
            lemma2_to64();
            if doubled + 1 < 32 {
                lemma_pow2_strictly_increases((doubled + 1) as nat, 32);
            }
        }
        divisor = divisor * 2;
        doubled += 1;
    }
    base / divisor
}

/// Takes the inputs of one transaction into the running account of a block: the hashes
/// spent so far and what the inputs so far bring. Says whether the inputs so far, with
/// these, can be spent together.
fn absorb_inputs(
    inputs: &Vec<TransactionInput>,
    utxos: &UtxoSet,
    seen: &mut Vec<crate::sha256::Hash>,
    total: &mut u128,
    Ghost(before): Ghost<Seq<TransactionInput>>,
) -> (accepted: bool)
    requires
        utxos.wf(),
        inputs_acceptable(before, utxos@),
        old(seen)@ == spent_hashes(before),
        *old(total) == input_total(before, utxos@),
    ensures
        accepted == inputs_acceptable(before + inputs@, utxos@),
        accepted ==> final(seen)@ == spent_hashes(before + inputs@) && *final(total) == input_total(
            before + inputs@,
            utxos@,
        ),
{
    let ghost whole = before + inputs@;
    let mut j: usize = 0;
    assert(before + inputs@.take(0) =~= before);
    while j < inputs.len()
        invariant
            j <= inputs@.len(),
            utxos.wf(),
            whole == before + inputs@,
            inputs_acceptable(before + inputs@.take(j as int), utxos@),
            seen@ == spent_hashes(before + inputs@.take(j as int)),
            *total == input_total(before + inputs@.take(j as int), utxos@),
        decreases inputs@.len() - j,
    {
        let input = inputs[j];
        let hash = input.prev_transaction_output_hash;
        let ghost done = before + inputs@.take(j as int);
        let ghost next = before + inputs@.take(j + 1);
        proof {
            assert(next =~= done.push(input));
            assert(next.drop_last() =~= done);
            assert(starts_with(whole, next));
            assert(spent_hashes(next) =~= spent_hashes(done).push(hash));
        }
        match utxos.get(&hash) {
            Some(entry) => {
                if contains_hash(seen, &hash) {
                    proof {
                        let first = choose|i: int| 0 <= i < seen@.len() && seen@[i] == hash;
                        assert(spent_hashes(next)[first] == spent_hashes(next)[done.len() as int]);
                        if inputs_acceptable(whole, utxos@) {
                            lemma_inputs_acceptable_starts(whole, next, utxos@);
                        }
                    }
                    return false;
                }
                let sum: u128 = *total + entry.1.value as u128;
                if sum > 0xFFFF_FFFF_FFFF_FFFF {
                    proof {
                        if inputs_acceptable(whole, utxos@) {
                            lemma_inputs_acceptable_starts(whole, next, utxos@);
                        }
                    }
                    return false;
                }
                *total = sum;
                seen.push(hash);
                proof {
                    assert forall|a: int, b: int|
                        0 <= a < next.len() && 0 <= b < next.len() && a != b implies spent_hashes(
                        next,
                    )[a] != spent_hashes(next)[b] by {
                        if a < done.len() && b < done.len() {
                            assert(spent_hashes(done)[a] != spent_hashes(done)[b]);
                        } else if a < done.len() {
                            assert(spent_hashes(done)[a] == seen@[a]);
                        } else {
                            assert(spent_hashes(done)[b] == seen@[b]);
                        }
                    }
                    assert forall|i: int| 0 <= i < next.len() implies utxos@.dom().contains(
                        (#[trigger] next[i]).prev_transaction_output_hash,
                    ) by {
                        if i < done.len() {
                            assert(next[i] == done[i]);
                        }
                    }
                }
            },
            None => {
                proof {
                    assert(next[done.len() as int] == input);
                    if inputs_acceptable(whole, utxos@) {
                        lemma_inputs_acceptable_starts(whole, next, utxos@);
                    }
                }
                return false;
            },
        }
        j += 1;
    }
    assert(inputs@.take(inputs@.len() as int) =~= inputs@);
    true
}

/// Takes the outputs of one transaction into the running account of a block: the hashes
/// of the outputs so far and what they take. Says whether the outputs so far, with
/// these, can be created together.
fn absorb_outputs(
    outputs: &Vec<TransactionOutput>,
    seen: &mut Vec<crate::sha256::Hash>,
    total: &mut u128,
    Ghost(before): Ghost<Seq<TransactionOutput>>,
) -> (accepted: bool)
    requires
        outputs_acceptable(before),
        old(seen)@ == output_hashes(before),
        *old(total) == output_total(before),
    ensures
        accepted == outputs_acceptable(before + outputs@),
        accepted ==> final(seen)@ == output_hashes(before + outputs@) && *final(total)
            == output_total(before + outputs@),
{
    let ghost whole = before + outputs@;
    let mut j: usize = 0;
    assert(before + outputs@.take(0) =~= before);
    while j < outputs.len()
        invariant
            j <= outputs@.len(),
            whole == before + outputs@,
            outputs_acceptable(before + outputs@.take(j as int)),
            seen@ == output_hashes(before + outputs@.take(j as int)),
            *total == output_total(before + outputs@.take(j as int)),
        decreases outputs@.len() - j,
    {
        let output = outputs[j];
        let hash = output.hash();
        let ghost done = before + outputs@.take(j as int);
        let ghost next = before + outputs@.take(j + 1);
        proof {
            assert(next =~= done.push(output));
            assert(next.drop_last() =~= done);
            assert(starts_with(whole, next));
            assert(output_hashes(next) =~= output_hashes(done).push(hash));
        }
        if contains_hash(seen, &hash) {
            proof {
                let first = choose|i: int| 0 <= i < seen@.len() && seen@[i] == hash;
                assert(output_hashes(next)[first] == output_hashes(next)[done.len() as int]);
                if outputs_acceptable(whole) {
                    lemma_outputs_acceptable_starts(whole, next);
                }
            }
            return false;
        }
        let sum: u128 = *total + output.value as u128;
        if sum > 0xFFFF_FFFF_FFFF_FFFF {
            proof {
                if outputs_acceptable(whole) {
                    lemma_outputs_acceptable_starts(whole, next);
                }
            }
            return false;
        }
        *total = sum;
        seen.push(hash);
        proof {
            assert forall|a: int, b: int|
                0 <= a < next.len() && 0 <= b < next.len() && a != b implies output_hashes(next)[a]
                != output_hashes(next)[b] by {
                if a < done.len() && b < done.len() {
                    assert(output_hashes(done)[a] != output_hashes(done)[b]);
                } else if a < done.len() {
                    assert(output_hashes(done)[a] == seen@[a]);
                } else {
                    assert(output_hashes(done)[b] == seen@[b]);
                }
            }
        }
        j += 1;
    }
    assert(outputs@.take(outputs@.len() as int) =~= outputs@);
    true
}

/// The sum of the values of `outputs`.
pub fn sum_outputs(outputs: &Vec<TransactionOutput>) -> (total: u128)
    ensures
        total == output_total(outputs@),
{
    let mut total: u128 = 0;
    let mut j: usize = 0;
    assert(outputs@.take(0) =~= Seq::<TransactionOutput>::empty());
    while j < outputs.len()
        invariant
            j <= outputs@.len(),
            total == output_total(outputs@.take(j as int)),
            total <= j * 0xFFFF_FFFF_FFFF_FFFF,
        decreases outputs@.len() - j,
    {
        assert(outputs@.take(j + 1).drop_last() =~= outputs@.take(j as int));
        total = total + outputs[j].value as u128;
        j += 1;
    }
    assert(outputs@.take(outputs@.len() as int) =~= outputs@);
    total
}

/// The sum of the values that `inputs` bring; an input that spends no output of `utxos`
/// brings nothing.
pub fn sum_inputs(inputs: &Vec<TransactionInput>, utxos: &UtxoSet) -> (total: u128)
    requires
        utxos.wf(),
    ensures
        total == input_total(inputs@, utxos@),
{
    let mut total: u128 = 0;
    let mut j: usize = 0;
    assert(inputs@.take(0) =~= Seq::<TransactionInput>::empty());
    while j < inputs.len()
        invariant
            j <= inputs@.len(),
            utxos.wf(),
            total == input_total(inputs@.take(j as int), utxos@),
            total <= j * 0xFFFF_FFFF_FFFF_FFFF,
        decreases inputs@.len() - j,
    {
        assert(inputs@.take(j + 1).drop_last() =~= inputs@.take(j as int));
        match utxos.get(&inputs[j].prev_transaction_output_hash) {
            Some(entry) => {
                total = total + entry.1.value as u128;
            },
            None => {},
        }
        j += 1;
    }
    assert(inputs@.take(inputs@.len() as int) =~= inputs@);
    total
}

impl Block {
    pub fn new(header: BlockHeader, transactions: Vec<Transaction>) -> (block: Block)
        ensures
            block.header == header,
            block.transactions@ == transactions@,
    {
        Block { header, transactions }
    }

    /// Appends the canonical bytes.
    pub fn encode_into(&self, out: &mut Vec<u8>)
        ensures
            final(out)@ == old(out)@ + self@.encoding(),
    {
        push_array_head(out, 2);
        self.header.encode_into(out);
        push_array_head(out, self.transactions.len());
        let ghost opened = out@;
        let ghost parts = transaction_encodings(self@.transactions);
        let mut i: usize = 0;
        assert(join(parts.take(0)) =~= Seq::<u8>::empty());
        assert(out@ =~= opened + join(parts.take(0)));
        while i < self.transactions.len()
            invariant
                i <= self.transactions@.len(),
                parts == transaction_encodings(self@.transactions),
                out@ == opened + join(parts.take(i as int)),
            decreases self.transactions@.len() - i,
        {
            self.transactions[i].encode_into(out);
            proof {
                lemma_join_step(parts, i as int);
                assert(out@ =~= opened + join(parts.take(i + 1)));
            }
            i += 1;
        }
        assert(parts.take(self.transactions@.len() as int) =~= parts);
        assert(out@ =~= old(out)@ + self@.encoding());
    }

    /// The canonical bytes.
    pub fn encode(&self) -> (bytes: Vec<u8>)
        ensures
            bytes@ == self@.encoding(),
    {
        let mut bytes: Vec<u8> = Vec::new();
        self.encode_into(&mut bytes);
        assert(bytes@ =~= self@.encoding());
        bytes
    }

    /// The identity of the block.
    pub fn hash(&self) -> (digest: crate::sha256::Hash)
        ensures
            digest == self@.content_hash(),
    {
        let bytes = self.encode();
        crate::sha256::Hash::hash(bytes.as_slice())
    }

    /// What the transactions after the coinbase leave to the miner, against the unspent
    /// outputs `utxos`; `InvalidTransaction` where they leave nothing to speak of.
    pub fn calculate_miner_fees(&self, utxos: &UtxoSet) -> (fees: Result<u64, BtcError>)
        requires
            utxos.wf(),
        ensures
            fees == match miner_fees(non_coinbase(self@.transactions), utxos@) {
                Some(amount) => Ok::<u64, BtcError>(amount as u64),
                None => Err::<u64, BtcError>(BtcError::InvalidTransaction),
            },
            fees.is_ok() ==> miner_fees(non_coinbase(self@.transactions), utxos@).unwrap()
                <= amount_limit(),
    {
        let ghost spending = non_coinbase(self@.transactions);
        let ghost in_lists = input_lists(spending);
        let ghost out_lists = output_lists(spending);
        let mut seen_in: Vec<crate::sha256::Hash> = Vec::new();
        let mut seen_out: Vec<crate::sha256::Hash> = Vec::new();
        let mut total_in: u128 = 0;
        let mut total_out: u128 = 0;
        let count: usize = self.transactions.len();
        if count == 0 {
            assert(all_inputs(spending) =~= Seq::<TransactionInput>::empty());
            assert(all_outputs(spending) =~= Seq::<TransactionOutput>::empty());
            return Ok(0);
        }
        let mut t: usize = 1;
        proof {
            assert(concat_all(in_lists.take(0)) =~= Seq::<TransactionInput>::empty());
            assert(concat_all(out_lists.take(0)) =~= Seq::<TransactionOutput>::empty());
            assert(seen_in@ =~= spent_hashes(concat_all(in_lists.take(0))));
            assert(seen_out@ =~= output_hashes(concat_all(out_lists.take(0))));
        }
        while t < count
            invariant
                1 <= t <= count,
                count == self.transactions@.len(),
                utxos.wf(),
                spending == non_coinbase(self@.transactions),
                in_lists == input_lists(spending),
                out_lists == output_lists(spending),
                inputs_acceptable(concat_all(in_lists.take(t - 1)), utxos@),
                seen_in@ == spent_hashes(concat_all(in_lists.take(t - 1))),
                total_in == input_total(concat_all(in_lists.take(t - 1)), utxos@),
                outputs_acceptable(concat_all(out_lists.take(t - 1))),
                seen_out@ == output_hashes(concat_all(out_lists.take(t - 1))),
                total_out == output_total(concat_all(out_lists.take(t - 1))),
            decreases count - t,
        {
            let transaction = &self.transactions[t];
            let ghost before_in = concat_all(in_lists.take(t - 1));
            let ghost before_out = concat_all(out_lists.take(t - 1));
            proof {
                assert(spending[t - 1] == transaction@);
                lemma_concat_step(in_lists, t - 1);
                lemma_concat_step(out_lists, t - 1);
                lemma_concat_starts(in_lists, t as int, 0);
                lemma_concat_starts(out_lists, t as int, 0);
                assert(concat_all(in_lists.take(t as int)) + Seq::<TransactionInput>::empty()
                    =~= concat_all(in_lists.take(t as int)));
                assert(concat_all(out_lists.take(t as int)) + Seq::<TransactionOutput>::empty()
                    =~= concat_all(out_lists.take(t as int)));
                if t < spending.len() {
                    assert(in_lists[t as int].take(0) =~= Seq::<TransactionInput>::empty());
                    assert(out_lists[t as int].take(0) =~= Seq::<TransactionOutput>::empty());
                }
                assert(starts_with(all_inputs(spending), before_in + transaction@.inputs));
                assert(starts_with(all_outputs(spending), before_out + transaction@.outputs));
            }
            if !absorb_inputs(&transaction.inputs, utxos, &mut seen_in, &mut total_in, Ghost(before_in)) {
                proof {
                    if inputs_acceptable(all_inputs(spending), utxos@) {
                        lemma_inputs_acceptable_starts(
                            all_inputs(spending),
                            before_in + transaction@.inputs,
                            utxos@,
                        );
                    }
                }
                return Err(BtcError::InvalidTransaction);
            }
            if !absorb_outputs(&transaction.outputs, &mut seen_out, &mut total_out, Ghost(before_out)) {
                proof {
                    if outputs_acceptable(all_outputs(spending)) {
                        lemma_outputs_acceptable_starts(
                            all_outputs(spending),
                            before_out + transaction@.outputs,
                        );
                    }
                }
                return Err(BtcError::InvalidTransaction);
            }
            t += 1;
        }
        proof {
            assert(in_lists.take(count - 1) =~= in_lists);
            assert(out_lists.take(count - 1) =~= out_lists);
        }
        if total_in < total_out {
            return Err(BtcError::InvalidTransaction);
        }
        Ok((total_in - total_out) as u64)
    }

    /// Checks the coinbase: the first transaction has no input and at least one output,
    /// and its outputs sum to the reward at `predicted_block_height` plus the fees that
    /// the other transactions leave.
    pub fn verify_coinbase_transaction(
        &self,
        predicted_block_height: u64,
        utxos: &UtxoSet,
    ) -> (result: Result<(), BtcError>)
        requires
            utxos.wf(),
        ensures
            result == coinbase_result(self@.transactions, predicted_block_height, utxos@),
    {
        if self.transactions.len() == 0 {
            return Err(BtcError::InvalidBlock);
        }
        let coinbase = &self.transactions[0];
        assert(self@.transactions[0] == coinbase@);
        if coinbase.inputs.len() != 0 {
            return Err(BtcError::InvalidTransaction);
        }
        if coinbase.outputs.len() == 0 {
            return Err(BtcError::InvalidTransaction);
        }
        let fees: u64 = match self.calculate_miner_fees(utxos) {
            Ok(amount) => amount,
            Err(_) => {
                return Err(BtcError::InvalidTransaction);
            },
        };
        let reward: u64 = block_reward(predicted_block_height);
        let expected: u128 = reward as u128 + fees as u128;
        let paid: u128 = sum_outputs(&coinbase.outputs);
        if paid != expected {
            return Err(BtcError::InvalidTransaction);
        }
        Ok(())
    }

    /// Verifies the transactions of a block that is to stand at `predicted_block_height`
    /// against the unspent outputs `utxos`: the block is not empty, the coinbase pays
    /// what it may, every input spends a known output that no other input of the block
    /// spends and is signed by the key of that output, and no transaction but the
    /// coinbase creates value.
    pub fn verify_transactions(&self, predicted_block_height: u64, utxos: &UtxoSet) -> (result:
        Result<(), BtcError>)
        requires
            utxos.wf(),
        ensures
            result == verification_result(self@.transactions, predicted_block_height, utxos@),
    {
        match self.verify_coinbase_transaction(predicted_block_height, utxos) {
            Ok(_) => {},
            Err(error) => {
                return Err(error);
            },
        }
        let ghost all = self@.transactions;
        let mut t: usize = 1;
        while t < self.transactions.len()
            invariant
                1 <= t <= self.transactions@.len(),
                utxos.wf(),
                all == self@.transactions,
                coinbase_result(all, predicted_block_height, utxos@).is_ok(),
                transactions_result(non_coinbase(all), utxos@) == transactions_result(
                    all.skip(t as int),
                    utxos@,
                ),
            decreases self.transactions@.len() - t,
        {
            let transaction = &self.transactions[t];
            proof {
                assert(all.skip(t as int)[0] == transaction@);
                assert(all.skip(t as int).skip(1) =~= all.skip(t + 1));
            }
            let mut j: usize = 0;
            while j < transaction.inputs.len()
                invariant
                    j <= transaction.inputs@.len(),
                    t < self.transactions@.len(),
                    utxos.wf(),
                    all == self@.transactions,
                    transaction@ == all[t as int],
                    coinbase_result(all, predicted_block_height, utxos@).is_ok(),
                    all.skip(t as int).len() > 0,
                    all.skip(t as int)[0] == transaction@,
                    transactions_result(non_coinbase(all), utxos@) == transactions_result(
                        all.skip(t as int),
                        utxos@,
                    ),
                    forall|i: int|
                        0 <= i < j ==> {
                            let input = #[trigger] transaction@.inputs[i];
                            utxos@.dom().contains(input.prev_transaction_output_hash)
                                && input.signature.accepted_for(
                                input.prev_transaction_output_hash,
                                utxos@[input.prev_transaction_output_hash].1.pubkey,
                            )
                        },
                decreases transaction.inputs@.len() - j,
            {
                let input = transaction.inputs[j];
                let hash = input.prev_transaction_output_hash;
                proof {
                    lemma_checked_inputs_known(
                        all,
                        predicted_block_height,
                        utxos@,
                        t as int,
                        j as int,
                    );
                }
                match utxos.get(&hash) {
                    Some(entry) => {
                        if !input.signature.verify(&hash, &entry.1.pubkey) {
                            assert(!signatures_hold(transaction@, utxos@)) by {
                                assert(transaction@.inputs[j as int] == input);
                            }
                            return Err(BtcError::InvalidSignature);
                        }
                    },
                    None => {
                        assert(false);
                        return Err(BtcError::InvalidTransaction);
                    },
                }
                j += 1;
            }
            assert(signatures_hold(transaction@, utxos@));
            let brought: u128 = sum_inputs(&transaction.inputs, utxos);
            let taken: u128 = sum_outputs(&transaction.outputs);
            if brought < taken {
                return Err(BtcError::InvalidTransaction);
            }
            t += 1;
        }
        Ok(())
    }
}

} // verus!
