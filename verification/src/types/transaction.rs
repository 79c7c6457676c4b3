//! Transactions: inputs that spend earlier outputs, and the outputs they create.

use vstd::prelude::*;
use vstd::slice::slice_to_vec;
use crate::bytes::{be_bytes, lemma_be_bytes_concat, lemma_pow256_values, push_be};
use crate::crypto::{PublicKey, Signature};
use crate::encoding::{
    array_head, byte_string, join, lemma_join_step, push_array_head, push_byte_string,
    push_unsigned, unsigned,
};
use crate::sha256::hash_of;

verus! {

/// An amount bound to a public key. `unique_id` tells apart outputs of the same amount
/// to the same key.
#[derive(Clone, Copy, Debug, PartialEq, Eq, Structural)]
pub struct TransactionOutput {
    pub value: u64,
    pub unique_id: u128,
    pub pubkey: PublicKey,
}

impl TransactionOutput {
    /// The canonical bytes: the value, the 16 bytes of the id, the encoded key.
    pub open spec fn encoding(&self) -> Seq<u8> {
        array_head(3) + unsigned(self.value) + byte_string(be_bytes(self.unique_id as nat, 16))
            + byte_string(self.pubkey.sec1())
    }

    /// The identity of the output: the hash of its canonical bytes.
    pub open spec fn content_hash(&self) -> crate::sha256::Hash {
        hash_of(self.encoding())
    }

    /// Appends the canonical bytes.
    pub fn encode_into(&self, out: &mut Vec<u8>)
        ensures
            final(out)@ == old(out)@ + self.encoding(),
    {
        push_array_head(out, 3);
        push_unsigned(out, self.value);
        let mut id: Vec<u8> = Vec::new();
        let high: u64 = (self.unique_id / 0x1_0000_0000_0000_0000) as u64;
        let low: u64 = (self.unique_id % 0x1_0000_0000_0000_0000) as u64;
        push_be(&mut id, high, 8);
        push_be(&mut id, low, 8);
        proof {
            lemma_pow256_values();
            lemma_be_bytes_concat(high as nat, low as nat, 8, 8);
            assert(id@ =~= be_bytes(self.unique_id as nat, 16));
        }
        push_byte_string(out, id.as_slice());
        let key = self.pubkey.to_sec1_bytes();
        push_byte_string(out, key.as_slice());
        assert(out@ =~= old(out)@ + self.encoding());
    }

    /// The canonical bytes.
    pub fn encode(&self) -> (bytes: Vec<u8>)
        ensures
            bytes@ == self.encoding(),
    {
        let mut bytes: Vec<u8> = Vec::new();
        self.encode_into(&mut bytes);
        assert(bytes@ =~= self.encoding());
        bytes
    }

    /// The identity of the output.
    pub fn hash(&self) -> (digest: crate::sha256::Hash)
        ensures
            digest == self.content_hash(),
    {
        let bytes = self.encode();
        crate::sha256::Hash::hash(bytes.as_slice())
    }
}

/// A claim on an earlier output, named by its hash, with a signature over that hash by
/// the key the output is bound to.
#[derive(Clone, Copy, Debug, PartialEq, Eq, Structural)]
pub struct TransactionInput {
    pub prev_transaction_output_hash: crate::sha256::Hash,
    pub signature: Signature,
}

impl TransactionInput {
    /// The canonical bytes: the 32 bytes of the hash, the 64 of the signature.
    pub open spec fn encoding(&self) -> Seq<u8> {
        array_head(2) + byte_string(be_bytes(self.prev_transaction_output_hash@, 32))
            + byte_string(self.signature.bytes())
    }

    /// Appends the canonical bytes.
    pub fn encode_into(&self, out: &mut Vec<u8>)
        ensures
            final(out)@ == old(out)@ + self.encoding(),
    {
        push_array_head(out, 2);
        let hash = self.prev_transaction_output_hash.as_bytes();
        push_byte_string(out, hash.as_slice());
        let signature = self.signature.to_bytes();
        push_byte_string(out, signature.as_slice());
        assert(out@ =~= old(out)@ + self.encoding());
    }
}

/// The canonical bytes of each input, in order.
pub open spec fn input_encodings(inputs: Seq<TransactionInput>) -> Seq<Seq<u8>> {
    Seq::new(inputs.len(), |i: int| inputs[i].encoding())
}

/// The canonical bytes of each output, in order.
pub open spec fn output_encodings(outputs: Seq<TransactionOutput>) -> Seq<Seq<u8>> {
    Seq::new(outputs.len(), |i: int| outputs[i].encoding())
}

/// The sum of the values of `outputs`.
pub open spec fn output_total(outputs: Seq<TransactionOutput>) -> nat
    decreases outputs.len(),
{
    if outputs.len() == 0 {
        0
    } else {
        output_total(outputs.drop_last()) + outputs.last().value as nat
    }
}

/// What a transaction is: its inputs and its outputs, in order.
pub struct TransactionView {
    pub inputs: Seq<TransactionInput>,
    pub outputs: Seq<TransactionOutput>,
}

impl TransactionView {
    /// The canonical bytes: the array of inputs, then the array of outputs.
    pub open spec fn encoding(self) -> Seq<u8> {
        array_head(2) + array_head(self.inputs.len()) + join(input_encodings(self.inputs))
            + array_head(self.outputs.len()) + join(output_encodings(self.outputs))
    }

    /// The identity of the transaction: the hash of its canonical bytes.
    pub open spec fn content_hash(self) -> crate::sha256::Hash {
        hash_of(self.encoding())
    }

    /// Whether this has the shape of a coinbase: no input, and at least one output.
    pub open spec fn is_coinbase(self) -> bool {
        self.inputs.len() == 0 && self.outputs.len() > 0
    }
}

/// A transfer of value.
#[derive(Debug)]
pub struct Transaction {
    pub inputs: Vec<TransactionInput>,
    pub outputs: Vec<TransactionOutput>,
}

impl View for Transaction {
    type V = TransactionView;

    open spec fn view(&self) -> TransactionView {
        TransactionView { inputs: self.inputs@, outputs: self.outputs@ }
    }
}

/// What each of the transactions is.
pub open spec fn transaction_views(transactions: Seq<Transaction>) -> Seq<TransactionView> {
    Seq::new(transactions.len(), |i: int| transactions[i]@)
}

impl Clone for Transaction {
    fn clone(&self) -> (copy: Self)
        ensures
            copy@ == self@,
    {
        Transaction {
            inputs: slice_to_vec(self.inputs.as_slice()),
            outputs: slice_to_vec(self.outputs.as_slice()),
        }
    }
}

impl Transaction {
    pub fn new(inputs: Vec<TransactionInput>, outputs: Vec<TransactionOutput>) -> (transaction:
        Transaction)
        ensures
            transaction@.inputs == inputs@,
            transaction@.outputs == outputs@,
    {
        Transaction { inputs, outputs }
    }

    /// Appends the canonical bytes.
    pub fn encode_into(&self, out: &mut Vec<u8>)
        ensures
            final(out)@ == old(out)@ + self@.encoding(),
    {
        push_array_head(out, 2);
        push_array_head(out, self.inputs.len());
        let ghost opened = out@;
        let ghost inputs = input_encodings(self.inputs@);
        let mut i: usize = 0;
        assert(join(inputs.take(0)) =~= Seq::<u8>::empty());
        assert(out@ =~= opened + join(inputs.take(0)));
        while i < self.inputs.len()
            invariant
                i <= self.inputs@.len(),
                inputs == input_encodings(self.inputs@),
                out@ == opened + join(inputs.take(i as int)),
            decreases self.inputs@.len() - i,
        {
            self.inputs[i].encode_into(out);
            proof {
                lemma_join_step(inputs, i as int);
                assert(out@ =~= opened + join(inputs.take(i + 1)));
            }
            i += 1;
        }
        assert(inputs.take(self.inputs@.len() as int) =~= inputs);
        push_array_head(out, self.outputs.len());
        let ghost middle = out@;
        let ghost outputs = output_encodings(self.outputs@);
        let mut k: usize = 0;
        assert(join(outputs.take(0)) =~= Seq::<u8>::empty());
        assert(out@ =~= middle + join(outputs.take(0)));
        while k < self.outputs.len()
            invariant
                k <= self.outputs@.len(),
                outputs == output_encodings(self.outputs@),
                out@ == middle + join(outputs.take(k as int)),
            decreases self.outputs@.len() - k,
        {
            self.outputs[k].encode_into(out);
            proof {
                lemma_join_step(outputs, k as int);
                assert(out@ =~= middle + join(outputs.take(k + 1)));
            }
            k += 1;
        }
        assert(outputs.take(self.outputs@.len() as int) =~= outputs);
        assert(out@ =~= old(out)@ + self@.encoding());
    }

    /// The canonical bytes.
    pub fn encode(&self) -> (bytes: Vec<u8>)
        ensures
            bytes@ == self@.encoding(),
    {
        let mut bytes: Vec<u8> = Vec::new();
        self.encode_into(&mut bytes);
        assert(bytes@ =~= self@.encoding());
        bytes
    }

    /// The identity of the transaction.
    pub fn hash(&self) -> (digest: crate::sha256::Hash)
        ensures
            digest == self@.content_hash(),
    {
        let bytes = self.encode();
        crate::sha256::Hash::hash(bytes.as_slice())
    }
}

} // verus!
