//! Reading the canonical bytes back: for each kind of value what stands at a position,
//! the reader that finds it, and the proof that what was written is what is read.

use vstd::prelude::*;
use crate::bytes::{
    be_bytes, be_value, lemma_be_bytes_len, lemma_be_value_of_bytes, lemma_pow256_values, pow256,
};
use crate::crypto::{PublicKey, Signature};
use crate::encoding::{
    array_head, boolean, byte_string, found_is, join, lemma_array_head_sound, lemma_boolean_sound,
    lemma_byte_string_sound, lemma_join_front, lemma_parse_array_head, lemma_parse_boolean,
    lemma_parse_byte_string, lemma_parse_signed, lemma_parse_u256, lemma_parse_unsigned,
    lemma_signed_sound, lemma_sits_join, lemma_sits_split, lemma_u256_sound, lemma_unsigned_sound,
    parse_array_head, parse_boolean, parse_byte_string, parse_signed, parse_u256, parse_unsigned,
    read_array_head, read_boolean, read_byte_string, read_signed, read_u256, read_unsigned, signed,
    sits, u256_encoding, unsigned,
};
use crate::error::BtcError;
use crate::types::block::{Block, BlockHeader, BlockView, transaction_encodings};
use crate::types::transaction::{
    Transaction, TransactionInput, TransactionOutput, TransactionView, input_encodings,
    output_encodings, transaction_views,
};
use crate::types::utxo::UtxoEntry;
use crate::util::MerkleRoot;

verus! {

impl TransactionOutput {
    /// The output that stands at `at`, and where it ends.
    #[verifier::opaque]
    pub open spec fn parse(bytes: Seq<u8>, at: int) -> Option<(TransactionOutput, int)> {
        match parse_array_head(bytes, at) {
            Some((count, a)) => if count != 3 {
                None
            } else {
                match parse_unsigned(bytes, a) {
                    Some((value, b)) => match parse_byte_string(bytes, b, 16) {
                        Some((id, c)) => match PublicKey::parse(bytes, c) {
                            Some((pubkey, end)) => Some(
                                (
                                    TransactionOutput { value, unique_id: be_value(id) as u128, pubkey },
                                    end,
                                ),
                            ),
                            None => None,
                        },
                        None => None,
                    },
                    None => None,
                }
            },
            None => None,
        }
    }

    /// An output that stands at `at` is the output that is read there.
    pub proof fn lemma_parse(bytes: Seq<u8>, at: int, output: TransactionOutput)
        requires
            sits(bytes, at, output.encoding()),
        ensures
            Self::parse(bytes, at) == Some((output, at + output.encoding().len())),
    {
        reveal(TransactionOutput::parse);
        let a = array_head(3);
        let b = unsigned(output.value);
        let id = be_bytes(output.unique_id as nat, 16);
        let c = byte_string(id);
        let d = output.pubkey.encoding();
        lemma_sits_split(bytes, at, a + b + c, d);
        lemma_sits_split(bytes, at, a + b, c);
        lemma_sits_split(bytes, at, a, b);
        lemma_parse_array_head(bytes, at, 3);
        lemma_parse_unsigned(bytes, at + a.len(), output.value);
        lemma_be_bytes_len(output.unique_id as nat, 16);
        lemma_parse_byte_string(bytes, at + a.len() + b.len(), id);
        PublicKey::lemma_parse(bytes, at + a.len() + b.len() + c.len(), output.pubkey);
        lemma_be_value_of_bytes(output.unique_id as nat, 16);
        lemma_pow256_values();
        vstd::arithmetic::div_mod::lemma_small_mod(output.unique_id as nat, pow256(16));
    }

    /// An output that is read at `at` stands there as it is written.
    pub proof fn lemma_sound(bytes: Seq<u8>, at: int)
        requires
            Self::parse(bytes, at).is_some(),
        ensures
            sits(bytes, at, Self::parse(bytes, at).unwrap().0.encoding()),
            Self::parse(bytes, at).unwrap().1 == at + Self::parse(bytes, at).unwrap().0.encoding().len(),
    {
        reveal(TransactionOutput::parse);
        let (count, a) = parse_array_head(bytes, at).unwrap();
        let (value, b) = parse_unsigned(bytes, a).unwrap();
        let (id, c) = parse_byte_string(bytes, b, 16).unwrap();
        let (pubkey, end) = PublicKey::parse(bytes, c).unwrap();
        lemma_array_head_sound(bytes, at);
        lemma_unsigned_sound(bytes, a);
        lemma_byte_string_sound(bytes, b, 16);
        PublicKey::lemma_sound(bytes, c);
        crate::bytes::lemma_be_bytes_of_value(id);
        crate::bytes::lemma_be_value_bound(id);
        lemma_pow256_values();
        lemma_sits_join(bytes, at, array_head(3), unsigned(value));
        lemma_sits_join(bytes, at, array_head(3) + unsigned(value), byte_string(id));
        lemma_sits_join(
            bytes,
            at,
            array_head(3) + unsigned(value) + byte_string(id),
            pubkey.encoding(),
        );
    }

    /// Reads the output at `at`.
    pub fn read(bytes: &[u8], at: usize) -> (found: Option<(TransactionOutput, usize)>)
        ensures
            found_is(found, Self::parse(bytes@, at as int)),
            found.is_some() ==> found.unwrap().1 <= bytes@.len(),
    {
        reveal(TransactionOutput::parse);
        let (count, a) = match read_array_head(bytes, at) {
            Some(opened) => opened,
            None => {
                return None;
            },
        };
        if count != 3 {
            return None;
        }
        let (value, b) = match read_unsigned(bytes, a) {
            Some(read) => read,
            None => {
                return None;
            },
        };
        let (start, c) = match read_byte_string(bytes, b, 16) {
            Some(read) => read,
            None => {
                return None;
            },
        };
        let high: u64 = crate::bytes::read_be(bytes, start, 8);
        let low: u64 = crate::bytes::read_be(bytes, start + 8, 8);
        let unique_id: u128 = (high as u128) * 0x1_0000_0000_0000_0000 + low as u128;
        proof {
            let id = bytes@.subrange(start as int, c as int);
            let left = bytes@.subrange(start as int, start + 8);
            let right = bytes@.subrange(start + 8, start + 16);
            assert(id =~= left + right);
            crate::bytes::lemma_be_value_concat(left, right);
            lemma_pow256_values();
        }
        let (pubkey, end) = match PublicKey::read(bytes, c) {
            Some(read) => read,
            None => {
                return None;
            },
        };
        Some((TransactionOutput { value, unique_id, pubkey }, end))
    }
}

impl TransactionInput {
    /// The input that stands at `at`, and where it ends.
    #[verifier::opaque]
    pub open spec fn parse(bytes: Seq<u8>, at: int) -> Option<(TransactionInput, int)> {
        match parse_array_head(bytes, at) {
            Some((count, a)) => if count != 2 {
                None
            } else {
                match parse_u256(bytes, a) {
                    Some((hash, b)) => match Signature::parse(bytes, b) {
                        Some((signature, end)) => Some(
                            (
                                TransactionInput {
                                    prev_transaction_output_hash: crate::sha256::Hash(hash),
                                    signature,
                                },
                                end,
                            ),
                        ),
                        None => None,
                    },
                    None => None,
                }
            },
            None => None,
        }
    }

    /// An input that stands at `at` is the input that is read there.
    pub proof fn lemma_parse(bytes: Seq<u8>, at: int, input: TransactionInput)
        requires
            sits(bytes, at, input.encoding()),
        ensures
            Self::parse(bytes, at) == Some((input, at + input.encoding().len())),
    {
        reveal(TransactionInput::parse);
        let a = array_head(2);
        let b = u256_encoding(input.prev_transaction_output_hash.0);
        let c = input.signature.encoding();
        lemma_sits_split(bytes, at, a + b, c);
        lemma_sits_split(bytes, at, a, b);
        lemma_parse_array_head(bytes, at, 2);
        lemma_parse_u256(bytes, at + a.len(), input.prev_transaction_output_hash.0);
        Signature::lemma_parse(bytes, at + a.len() + b.len(), input.signature);
    }

    /// An input that is read at `at` stands there as it is written.
    pub proof fn lemma_sound(bytes: Seq<u8>, at: int)
        requires
            Self::parse(bytes, at).is_some(),
        ensures
            sits(bytes, at, Self::parse(bytes, at).unwrap().0.encoding()),
            Self::parse(bytes, at).unwrap().1 == at + Self::parse(bytes, at).unwrap().0.encoding().len(),
    {
        reveal(TransactionInput::parse);
        let (count, a) = parse_array_head(bytes, at).unwrap();
        let (hash, b) = parse_u256(bytes, a).unwrap();
        let (signature, end) = Signature::parse(bytes, b).unwrap();
        lemma_array_head_sound(bytes, at);
        lemma_u256_sound(bytes, a);
        Signature::lemma_sound(bytes, b);
        lemma_sits_join(bytes, at, array_head(2), u256_encoding(hash));
        lemma_sits_join(bytes, at, array_head(2) + u256_encoding(hash), signature.encoding());
    }

    /// Reads the input at `at`.
    pub fn read(bytes: &[u8], at: usize) -> (found: Option<(TransactionInput, usize)>)
        ensures
            found_is(found, Self::parse(bytes@, at as int)),
            found.is_some() ==> found.unwrap().1 <= bytes@.len(),
    {
        reveal(TransactionInput::parse);
        let (count, a) = match read_array_head(bytes, at) {
            Some(opened) => opened,
            None => {
                return None;
            },
        };
        if count != 2 {
            return None;
        }
        let (hash, b) = match read_u256(bytes, a) {
            Some(read) => read,
            None => {
                return None;
            },
        };
        let (signature, end) = match Signature::read(bytes, b) {
            Some(read) => read,
            None => {
                return None;
            },
        };
        Some(
            (
                TransactionInput {
                    prev_transaction_output_hash: crate::sha256::Hash(hash),
                    signature,
                },
                end,
            ),
        )
    }
}

impl BlockHeader {
    /// The header that stands at `at`, and where it ends.
    #[verifier::opaque]
    pub open spec fn parse(bytes: Seq<u8>, at: int) -> Option<(BlockHeader, int)> {
        match parse_array_head(bytes, at) {
            Some((count, a)) => if count != 5 {
                None
            } else {
                match parse_unsigned(bytes, a) {
                    Some((nonce, b)) => match parse_u256(bytes, b) {
                        Some((parent, c)) => match parse_signed(bytes, c) {
                            Some((timestamp, d)) => match parse_u256(bytes, d) {
                                Some((root, e)) => match parse_u256(bytes, e) {
                                    Some((target, end)) => Some(
                                        (
                                            BlockHeader {
                                                nonce,
                                                prev_block_hash: crate::sha256::Hash(parent),
                                                timestamp,
                                                merkle_root: MerkleRoot(crate::sha256::Hash(root)),
                                                target,
                                            },
                                            end,
                                        ),
                                    ),
                                    None => None,
                                },
                                None => None,
                            },
                            None => None,
                        },
                        None => None,
                    },
                    None => None,
                }
            },
            None => None,
        }
    }

    /// A header that stands at `at` is the header that is read there.
    pub proof fn lemma_parse(bytes: Seq<u8>, at: int, header: BlockHeader)
        requires
            sits(bytes, at, header.encoding()),
        ensures
            Self::parse(bytes, at) == Some((header, at + header.encoding().len())),
    {
        reveal(BlockHeader::parse);
        let a = array_head(5);
        let b = unsigned(header.nonce);
        let c = u256_encoding(header.prev_block_hash.0);
        let d = signed(header.timestamp);
        let e = u256_encoding(header.merkle_root.0.0);
        let f = u256_encoding(header.target);
        lemma_sits_split(bytes, at, a + b + c + d + e, f);
        lemma_sits_split(bytes, at, a + b + c + d, e);
        lemma_sits_split(bytes, at, a + b + c, d);
        lemma_sits_split(bytes, at, a + b, c);
        lemma_sits_split(bytes, at, a, b);
        lemma_parse_array_head(bytes, at, 5);
        lemma_parse_unsigned(bytes, at + a.len(), header.nonce);
        lemma_parse_u256(bytes, at + a.len() + b.len(), header.prev_block_hash.0);
        lemma_parse_signed(bytes, at + a.len() + b.len() + c.len(), header.timestamp);
        lemma_parse_u256(bytes, at + a.len() + b.len() + c.len() + d.len(), header.merkle_root.0.0);
        lemma_parse_u256(
            bytes,
            at + a.len() + b.len() + c.len() + d.len() + e.len(),
            header.target,
        );
    }

    /// A header that is read at `at` stands there as it is written.
    pub proof fn lemma_sound(bytes: Seq<u8>, at: int)
        requires
            Self::parse(bytes, at).is_some(),
        ensures
            sits(bytes, at, Self::parse(bytes, at).unwrap().0.encoding()),
            Self::parse(bytes, at).unwrap().1 == at + Self::parse(bytes, at).unwrap().0.encoding().len(),
    {
        reveal(BlockHeader::parse);
        let (count, a) = parse_array_head(bytes, at).unwrap();
        let (nonce, b) = parse_unsigned(bytes, a).unwrap();
        let (parent, c) = parse_u256(bytes, b).unwrap();
        let (timestamp, d) = parse_signed(bytes, c).unwrap();
        let (root, e) = parse_u256(bytes, d).unwrap();
        let (target, end) = parse_u256(bytes, e).unwrap();
        lemma_array_head_sound(bytes, at);
        lemma_unsigned_sound(bytes, a);
        lemma_u256_sound(bytes, b);
        lemma_signed_sound(bytes, c);
        lemma_u256_sound(bytes, d);
        lemma_u256_sound(bytes, e);
        let joined_a = array_head(5) + unsigned(nonce);
        let joined_b = joined_a + u256_encoding(parent);
        let joined_c = joined_b + signed(timestamp);
        let joined_d = joined_c + u256_encoding(root);
        lemma_sits_join(bytes, at, array_head(5), unsigned(nonce));
        lemma_sits_join(bytes, at, joined_a, u256_encoding(parent));
        lemma_sits_join(bytes, at, joined_b, signed(timestamp));
        lemma_sits_join(bytes, at, joined_c, u256_encoding(root));
        lemma_sits_join(bytes, at, joined_d, u256_encoding(target));
    }

    /// Reads the header at `at`.
    pub fn read(bytes: &[u8], at: usize) -> (found: Option<(BlockHeader, usize)>)
        ensures
            found_is(found, Self::parse(bytes@, at as int)),
            found.is_some() ==> found.unwrap().1 <= bytes@.len(),
    {
        reveal(BlockHeader::parse);
        let (count, a) = match read_array_head(bytes, at) {
            Some(opened) => opened,
            None => {
                return None;
            },
        };
        if count != 5 {
            return None;
        }
        let (nonce, b) = match read_unsigned(bytes, a) {
            Some(read) => read,
            None => {
                return None;
            },
        };
        let (parent, c) = match read_u256(bytes, b) {
            Some(read) => read,
            None => {
                return None;
            },
        };
        let (timestamp, d) = match read_signed(bytes, c) {
            Some(read) => read,
            None => {
                return None;
            },
        };
        let (root, e) = match read_u256(bytes, d) {
            Some(read) => read,
            None => {
                return None;
            },
        };
        let (target, end) = match read_u256(bytes, e) {
            Some(read) => read,
            None => {
                return None;
            },
        };
        Some(
            (
                BlockHeader {
                    nonce,
                    prev_block_hash: crate::sha256::Hash(parent),
                    timestamp,
                    merkle_root: MerkleRoot(crate::sha256::Hash(root)),
                    target,
                },
                end,
            ),
        )
    }
}

impl UtxoEntry {
    /// The canonical bytes: the key, the mark, the output.
    pub open spec fn encoding(&self) -> Seq<u8> {
        array_head(3) + u256_encoding(self.hash.0) + boolean(self.marked) + self.output.encoding()
    }

    /// The entry that stands at `at`, and where it ends.
    #[verifier::opaque]
    pub open spec fn parse(bytes: Seq<u8>, at: int) -> Option<(UtxoEntry, int)> {
        match parse_array_head(bytes, at) {
            Some((count, a)) => if count != 3 {
                None
            } else {
                match parse_u256(bytes, a) {
                    Some((hash, b)) => match parse_boolean(bytes, b) {
                        Some((marked, c)) => match TransactionOutput::parse(bytes, c) {
                            Some((output, end)) => Some(
                                (UtxoEntry { hash: crate::sha256::Hash(hash), marked, output }, end),
                            ),
                            None => None,
                        },
                        None => None,
                    },
                    None => None,
                }
            },
            None => None,
        }
    }

    /// An entry that stands at `at` is the entry that is read there.
    pub proof fn lemma_parse(bytes: Seq<u8>, at: int, entry: UtxoEntry)
        requires
            sits(bytes, at, entry.encoding()),
        ensures
            Self::parse(bytes, at) == Some((entry, at + entry.encoding().len())),
    {
        reveal(UtxoEntry::parse);
        let a = array_head(3);
        let b = u256_encoding(entry.hash.0);
        let c = boolean(entry.marked);
        let d = entry.output.encoding();
        lemma_sits_split(bytes, at, a + b + c, d);
        lemma_sits_split(bytes, at, a + b, c);
        lemma_sits_split(bytes, at, a, b);
        lemma_parse_array_head(bytes, at, 3);
        lemma_parse_u256(bytes, at + a.len(), entry.hash.0);
        lemma_parse_boolean(bytes, at + a.len() + b.len(), entry.marked);
        TransactionOutput::lemma_parse(bytes, at + a.len() + b.len() + c.len(), entry.output);
    }

    /// Appends the canonical bytes.
    pub fn encode_into(&self, out: &mut Vec<u8>)
        ensures
            final(out)@ == old(out)@ + self.encoding(),
    {
        crate::encoding::push_array_head(out, 3);
        let key = self.hash.as_bytes();
        crate::encoding::push_byte_string(out, key.as_slice());
        crate::encoding::push_boolean(out, self.marked);
        self.output.encode_into(out);
        assert(out@ =~= old(out)@ + self.encoding());
    }

    /// An entry that is read at `at` stands there as it is written.
    pub proof fn lemma_sound(bytes: Seq<u8>, at: int)
        requires
            Self::parse(bytes, at).is_some(),
        ensures
            sits(bytes, at, Self::parse(bytes, at).unwrap().0.encoding()),
            Self::parse(bytes, at).unwrap().1 == at + Self::parse(bytes, at).unwrap().0.encoding().len(),
    {
        reveal(UtxoEntry::parse);
        let (count, a) = parse_array_head(bytes, at).unwrap();
        let (hash, b) = parse_u256(bytes, a).unwrap();
        let (marked, c) = parse_boolean(bytes, b).unwrap();
        let (output, end) = TransactionOutput::parse(bytes, c).unwrap();
        lemma_array_head_sound(bytes, at);
        lemma_u256_sound(bytes, a);
        lemma_boolean_sound(bytes, b);
        TransactionOutput::lemma_sound(bytes, c);
        let joined_a = array_head(3) + u256_encoding(hash);
        let joined_b = joined_a + boolean(marked);
        lemma_sits_join(bytes, at, array_head(3), u256_encoding(hash));
        lemma_sits_join(bytes, at, joined_a, boolean(marked));
        lemma_sits_join(bytes, at, joined_b, output.encoding());
    }

    /// Reads the entry at `at`.
    pub fn read(bytes: &[u8], at: usize) -> (found: Option<(UtxoEntry, usize)>)
        ensures
            found_is(found, Self::parse(bytes@, at as int)),
            found.is_some() ==> found.unwrap().1 <= bytes@.len(),
    {
        reveal(UtxoEntry::parse);
        let (count, a) = match read_array_head(bytes, at) {
            Some(opened) => opened,
            None => {
                return None;
            },
        };
        if count != 3 {
            return None;
        }
        let (hash, b) = match read_u256(bytes, a) {
            Some(read) => read,
            None => {
                return None;
            },
        };
        let (marked, c) = match read_boolean(bytes, b) {
            Some(read) => read,
            None => {
                return None;
            },
        };
        let (output, end) = match TransactionOutput::read(bytes, c) {
            Some(read) => read,
            None => {
                return None;
            },
        };
        Some((UtxoEntry { hash: crate::sha256::Hash(hash), marked, output }, end))
    }
}


/// The `count` inputs that stand one after the other from `at` on, and where they end.
pub open spec fn parse_inputs(bytes: Seq<u8>, at: int, count: nat) -> Option<(Seq<TransactionInput>, int)>
    decreases count,
{
    if count == 0 {
        if 0 <= at <= bytes.len() {
            Some((Seq::empty(), at))
        } else {
            None
        }
    } else {
        match TransactionInput::parse(bytes, at) {
            Some((first, next)) => match parse_inputs(bytes, next, (count - 1) as nat) {
                Some((rest, end)) => Some((seq![first] + rest, end)),
                None => None,
            },
            None => None,
        }
    }
}

/// The inputs that stand one after the other from `at` on are the ones read there.
pub proof fn lemma_parse_inputs(bytes: Seq<u8>, at: int, items: Seq<TransactionInput>)
    requires
        sits(bytes, at, join(input_encodings(items))),
    ensures
        parse_inputs(bytes, at, items.len()) == Some((items, at + join(input_encodings(items)).len())),
    decreases items.len(),
{
    let parts = input_encodings(items);
    if items.len() == 0 {
        assert(join(parts) =~= Seq::<u8>::empty());
        assert(items =~= Seq::<TransactionInput>::empty());
    } else {
        lemma_join_front(parts);
        lemma_sits_split(bytes, at, parts[0], join(parts.skip(1)));
        TransactionInput::lemma_parse(bytes, at, items[0]);
        assert(parts.skip(1) =~= input_encodings(items.skip(1)));
        lemma_parse_inputs(bytes, at + parts[0].len(), items.skip(1));
        assert(seq![items[0]] + items.skip(1) =~= items);
    }
}

/// Reads `count` inputs from `at` on.
pub fn read_inputs(bytes: &[u8], at: usize, count: usize) -> (found: Option<(Vec<TransactionInput>, usize)>)
    requires
        at <= bytes@.len(),
    ensures
        found.is_some() == parse_inputs(bytes@, at as int, count as nat).is_some(),
        found.is_some() ==> found.unwrap().0@ == parse_inputs(
            bytes@,
            at as int,
            count as nat,
        ).unwrap().0 && found.unwrap().1 == parse_inputs(bytes@, at as int, count as nat).unwrap().1
            && found.unwrap().1 <= bytes@.len(),
{
    let mut items: Vec<TransactionInput> = Vec::new();
    let mut position: usize = at;
    let mut taken: usize = 0;
    while taken < count
        invariant
            taken <= count,
            position <= bytes@.len(),
            parse_inputs(bytes@, at as int, count as nat) == (match parse_inputs(
                bytes@,
                position as int,
                (count - taken) as nat,
            ) {
                Some((rest, end)) => Some((items@ + rest, end)),
                None => None,
            }),
        decreases count - taken,
    {
        let ghost before = items@;
        match TransactionInput::read(bytes, position) {
            Some((item, next)) => {
                proof {
                    let ahead = parse_inputs(bytes@, next as int, (count - taken - 1) as nat);
                    assert(parse_inputs(bytes@, position as int, (count - taken) as nat) == (match ahead {
                        Some((rest, end)) => Some((seq![item] + rest, end)),
                        None => None,
                    }));
                    if ahead.is_some() {
                        assert(before + (seq![item] + ahead.unwrap().0) =~= before.push(
                            item,
                        ) + ahead.unwrap().0);
                    }
                    
                }
                items.push(item);
                position = next;
                proof {
                    assert(items@ =~= before.push(items@[items@.len() - 1]));
                }
            },
            None => {
                return None;
            },
        }
        taken += 1;
    }
    proof {
        assert(items@ + Seq::<TransactionInput>::empty() =~= items@);
    }
    Some((items, position))
}

/// The `count` outputs that stand one after the other from `at` on, and where they end.
pub open spec fn parse_outputs(bytes: Seq<u8>, at: int, count: nat) -> Option<(Seq<TransactionOutput>, int)>
    decreases count,
{
    if count == 0 {
        if 0 <= at <= bytes.len() {
            Some((Seq::empty(), at))
        } else {
            None
        }
    } else {
        match TransactionOutput::parse(bytes, at) {
            Some((first, next)) => match parse_outputs(bytes, next, (count - 1) as nat) {
                Some((rest, end)) => Some((seq![first] + rest, end)),
                None => None,
            },
            None => None,
        }
    }
}

/// The outputs that stand one after the other from `at` on are the ones read there.
pub proof fn lemma_parse_outputs(bytes: Seq<u8>, at: int, items: Seq<TransactionOutput>)
    requires
        sits(bytes, at, join(output_encodings(items))),
    ensures
        parse_outputs(bytes, at, items.len()) == Some((items, at + join(output_encodings(items)).len())),
    decreases items.len(),
{
    let parts = output_encodings(items);
    if items.len() == 0 {
        assert(join(parts) =~= Seq::<u8>::empty());
        assert(items =~= Seq::<TransactionOutput>::empty());
    } else {
        lemma_join_front(parts);
        lemma_sits_split(bytes, at, parts[0], join(parts.skip(1)));
        TransactionOutput::lemma_parse(bytes, at, items[0]);
        assert(parts.skip(1) =~= output_encodings(items.skip(1)));
        lemma_parse_outputs(bytes, at + parts[0].len(), items.skip(1));
        assert(seq![items[0]] + items.skip(1) =~= items);
    }
}

/// Reads `count` outputs from `at` on.
pub fn read_outputs(bytes: &[u8], at: usize, count: usize) -> (found: Option<(Vec<TransactionOutput>, usize)>)
    requires
        at <= bytes@.len(),
    ensures
        found.is_some() == parse_outputs(bytes@, at as int, count as nat).is_some(),
        found.is_some() ==> found.unwrap().0@ == parse_outputs(
            bytes@,
            at as int,
            count as nat,
        ).unwrap().0 && found.unwrap().1 == parse_outputs(bytes@, at as int, count as nat).unwrap().1
            && found.unwrap().1 <= bytes@.len(),
{
    let mut items: Vec<TransactionOutput> = Vec::new();
    let mut position: usize = at;
    let mut taken: usize = 0;
    while taken < count
        invariant
            taken <= count,
            position <= bytes@.len(),
            parse_outputs(bytes@, at as int, count as nat) == (match parse_outputs(
                bytes@,
                position as int,
                (count - taken) as nat,
            ) {
                Some((rest, end)) => Some((items@ + rest, end)),
                None => None,
            }),
        decreases count - taken,
    {
        let ghost before = items@;
        match TransactionOutput::read(bytes, position) {
            Some((item, next)) => {
                proof {
                    let ahead = parse_outputs(bytes@, next as int, (count - taken - 1) as nat);
                    assert(parse_outputs(bytes@, position as int, (count - taken) as nat) == (match ahead {
                        Some((rest, end)) => Some((seq![item] + rest, end)),
                        None => None,
                    }));
                    if ahead.is_some() {
                        assert(before + (seq![item] + ahead.unwrap().0) =~= before.push(
                            item,
                        ) + ahead.unwrap().0);
                    }
                    
                }
                items.push(item);
                position = next;
                proof {
                    assert(items@ =~= before.push(items@[items@.len() - 1]));
                }
            },
            None => {
                return None;
            },
        }
        taken += 1;
    }
    proof {
        assert(items@ + Seq::<TransactionOutput>::empty() =~= items@);
    }
    Some((items, position))
}

/// The canonical bytes of each entry, in order.
pub open spec fn entry_encodings(entries: Seq<UtxoEntry>) -> Seq<Seq<u8>> {
    Seq::new(entries.len(), |i: int| entries[i].encoding())
}

/// The `count` entries that stand one after the other from `at` on, and where they end.
pub open spec fn parse_entries(bytes: Seq<u8>, at: int, count: nat) -> Option<(Seq<UtxoEntry>, int)>
    decreases count,
{
    if count == 0 {
        if 0 <= at <= bytes.len() {
            Some((Seq::empty(), at))
        } else {
            None
        }
    } else {
        match UtxoEntry::parse(bytes, at) {
            Some((first, next)) => match parse_entries(bytes, next, (count - 1) as nat) {
                Some((rest, end)) => Some((seq![first] + rest, end)),
                None => None,
            },
            None => None,
        }
    }
}

/// The entries that stand one after the other from `at` on are the ones read there.
pub proof fn lemma_parse_entries(bytes: Seq<u8>, at: int, items: Seq<UtxoEntry>)
    requires
        sits(bytes, at, join(entry_encodings(items))),
    ensures
        parse_entries(bytes, at, items.len()) == Some((items, at + join(entry_encodings(items)).len())),
    decreases items.len(),
{
    let parts = entry_encodings(items);
    if items.len() == 0 {
        assert(join(parts) =~= Seq::<u8>::empty());
        assert(items =~= Seq::<UtxoEntry>::empty());
    } else {
        lemma_join_front(parts);
        lemma_sits_split(bytes, at, parts[0], join(parts.skip(1)));
        UtxoEntry::lemma_parse(bytes, at, items[0]);
        assert(parts.skip(1) =~= entry_encodings(items.skip(1)));
        lemma_parse_entries(bytes, at + parts[0].len(), items.skip(1));
        assert(seq![items[0]] + items.skip(1) =~= items);
    }
}

/// Reads `count` entries from `at` on.
pub fn read_entries(bytes: &[u8], at: usize, count: usize) -> (found: Option<(Vec<UtxoEntry>, usize)>)
    requires
        at <= bytes@.len(),
    ensures
        found.is_some() == parse_entries(bytes@, at as int, count as nat).is_some(),
        found.is_some() ==> found.unwrap().0@ == parse_entries(
            bytes@,
            at as int,
            count as nat,
        ).unwrap().0 && found.unwrap().1 == parse_entries(bytes@, at as int, count as nat).unwrap().1
            && found.unwrap().1 <= bytes@.len(),
{
    let mut items: Vec<UtxoEntry> = Vec::new();
    let mut position: usize = at;
    let mut taken: usize = 0;
    while taken < count
        invariant
            taken <= count,
            position <= bytes@.len(),
            parse_entries(bytes@, at as int, count as nat) == (match parse_entries(
                bytes@,
                position as int,
                (count - taken) as nat,
            ) {
                Some((rest, end)) => Some((items@ + rest, end)),
                None => None,
            }),
        decreases count - taken,
    {
        let ghost before = items@;
        match UtxoEntry::read(bytes, position) {
            Some((item, next)) => {
                proof {
                    let ahead = parse_entries(bytes@, next as int, (count - taken - 1) as nat);
                    assert(parse_entries(bytes@, position as int, (count - taken) as nat) == (match ahead {
                        Some((rest, end)) => Some((seq![item] + rest, end)),
                        None => None,
                    }));
                    if ahead.is_some() {
                        assert(before + (seq![item] + ahead.unwrap().0) =~= before.push(
                            item,
                        ) + ahead.unwrap().0);
                    }
                    
                }
                items.push(item);
                position = next;
                proof {
                    assert(items@ =~= before.push(items@[items@.len() - 1]));
                }
            },
            None => {
                return None;
            },
        }
        taken += 1;
    }
    proof {
        assert(items@ + Seq::<UtxoEntry>::empty() =~= items@);
    }
    Some((items, position))
}


/// The inputs that are read from `at` on stand there as they are written.
pub proof fn lemma_inputs_sound(bytes: Seq<u8>, at: int, count: nat)
    requires
        parse_inputs(bytes, at, count).is_some(),
    ensures
        parse_inputs(bytes, at, count).unwrap().0.len() == count,
        sits(bytes, at, join(input_encodings(parse_inputs(bytes, at, count).unwrap().0))),
        parse_inputs(bytes, at, count).unwrap().1 == at + join(
            input_encodings(parse_inputs(bytes, at, count).unwrap().0),
        ).len(),
    decreases count,
{
    let (items, end) = parse_inputs(bytes, at, count).unwrap();
    let parts = input_encodings(items);
    if count == 0 {
        assert(join(parts) =~= Seq::<u8>::empty());
        assert(bytes.subrange(at, at) =~= Seq::<u8>::empty());
    } else {
        let (first, next) = TransactionInput::parse(bytes, at).unwrap();
        let (rest, last) = parse_inputs(bytes, next, (count - 1) as nat).unwrap();
        TransactionInput::lemma_sound(bytes, at);
        lemma_inputs_sound(bytes, next, (count - 1) as nat);
        assert(items =~= seq![first] + rest);
        lemma_join_front(parts);
        assert(parts.skip(1) =~= input_encodings(rest));
        lemma_sits_join(bytes, at, parts[0], join(parts.skip(1)));
    }
}

/// The outputs that are read from `at` on stand there as they are written.
pub proof fn lemma_outputs_sound(bytes: Seq<u8>, at: int, count: nat)
    requires
        parse_outputs(bytes, at, count).is_some(),
    ensures
        parse_outputs(bytes, at, count).unwrap().0.len() == count,
        sits(bytes, at, join(output_encodings(parse_outputs(bytes, at, count).unwrap().0))),
        parse_outputs(bytes, at, count).unwrap().1 == at + join(
            output_encodings(parse_outputs(bytes, at, count).unwrap().0),
        ).len(),
    decreases count,
{
    let (items, end) = parse_outputs(bytes, at, count).unwrap();
    let parts = output_encodings(items);
    if count == 0 {
        assert(join(parts) =~= Seq::<u8>::empty());
        assert(bytes.subrange(at, at) =~= Seq::<u8>::empty());
    } else {
        let (first, next) = TransactionOutput::parse(bytes, at).unwrap();
        let (rest, last) = parse_outputs(bytes, next, (count - 1) as nat).unwrap();
        TransactionOutput::lemma_sound(bytes, at);
        lemma_outputs_sound(bytes, next, (count - 1) as nat);
        assert(items =~= seq![first] + rest);
        lemma_join_front(parts);
        assert(parts.skip(1) =~= output_encodings(rest));
        lemma_sits_join(bytes, at, parts[0], join(parts.skip(1)));
    }
}

/// The entries that are read from `at` on stand there as they are written.
pub proof fn lemma_entries_sound(bytes: Seq<u8>, at: int, count: nat)
    requires
        parse_entries(bytes, at, count).is_some(),
    ensures
        parse_entries(bytes, at, count).unwrap().0.len() == count,
        sits(bytes, at, join(entry_encodings(parse_entries(bytes, at, count).unwrap().0))),
        parse_entries(bytes, at, count).unwrap().1 == at + join(
            entry_encodings(parse_entries(bytes, at, count).unwrap().0),
        ).len(),
    decreases count,
{
    let (items, end) = parse_entries(bytes, at, count).unwrap();
    let parts = entry_encodings(items);
    if count == 0 {
        assert(join(parts) =~= Seq::<u8>::empty());
        assert(bytes.subrange(at, at) =~= Seq::<u8>::empty());
    } else {
        let (first, next) = UtxoEntry::parse(bytes, at).unwrap();
        let (rest, last) = parse_entries(bytes, next, (count - 1) as nat).unwrap();
        UtxoEntry::lemma_sound(bytes, at);
        lemma_entries_sound(bytes, next, (count - 1) as nat);
        assert(items =~= seq![first] + rest);
        lemma_join_front(parts);
        assert(parts.skip(1) =~= entry_encodings(rest));
        lemma_sits_join(bytes, at, parts[0], join(parts.skip(1)));
    }
}

/// What was read from the start of bytes, where it is all there is in them.
pub open spec fn whole<T>(parsed: Option<(T, int)>, length: nat) -> Option<T> {
    match parsed {
        Some((value, end)) => if end == length {
            Some(value)
        } else {
            None
        },
        None => None,
    }
}

/// What stands at the start of the bytes and ends where they end is the bytes.
pub proof fn lemma_sits_all(bytes: Seq<u8>, part: Seq<u8>)
    requires
        sits(bytes, 0, part),
        part.len() == bytes.len(),
    ensures
        bytes == part,
{
    assert(bytes.subrange(0, bytes.len() as int) =~= bytes);
}

/// A part stands at the start of itself.
pub proof fn lemma_sits_whole(bytes: Seq<u8>)
    ensures
        sits(bytes, 0, bytes),
{
    assert(bytes.subrange(0, bytes.len() as int) =~= bytes);
}

impl TransactionView {
    /// Whether the transaction has no more inputs and no more outputs than a machine
    /// can count.
    pub open spec fn bounded(self) -> bool {
        self.inputs.len() <= usize::MAX && self.outputs.len() <= usize::MAX
    }
}

impl Transaction {
    /// The transaction that stands at `at`, and where it ends.
    #[verifier::opaque]
    pub open spec fn parse(bytes: Seq<u8>, at: int) -> Option<(TransactionView, int)> {
        match parse_array_head(bytes, at) {
            Some((count, a)) => if count != 2 {
                None
            } else {
                match parse_array_head(bytes, a) {
                    Some((spent, b)) => match parse_inputs(bytes, b, spent) {
                        Some((inputs, c)) => match parse_array_head(bytes, c) {
                            Some((created, d)) => match parse_outputs(bytes, d, created) {
                                Some((outputs, end)) => Some(
                                    (TransactionView { inputs, outputs }, end),
                                ),
                                None => None,
                            },
                            None => None,
                        },
                        None => None,
                    },
                    None => None,
                }
            },
            None => None,
        }
    }

    /// A transaction that stands at `at` is the transaction that is read there.
    pub proof fn lemma_parse(bytes: Seq<u8>, at: int, transaction: TransactionView)
        requires
            sits(bytes, at, transaction.encoding()),
            transaction.bounded(),
        ensures
            Self::parse(bytes, at) == Some((transaction, at + transaction.encoding().len())),
    {
        reveal(Transaction::parse);
        let a = array_head(2);
        let b = array_head(transaction.inputs.len());
        let c = join(input_encodings(transaction.inputs));
        let d = array_head(transaction.outputs.len());
        let e = join(output_encodings(transaction.outputs));
        lemma_sits_split(bytes, at, a + b + c + d, e);
        lemma_sits_split(bytes, at, a + b + c, d);
        lemma_sits_split(bytes, at, a + b, c);
        lemma_sits_split(bytes, at, a, b);
        lemma_parse_array_head(bytes, at, 2);
        lemma_parse_array_head(bytes, at + a.len(), transaction.inputs.len());
        lemma_parse_inputs(bytes, at + a.len() + b.len(), transaction.inputs);
        lemma_parse_array_head(bytes, at + a.len() + b.len() + c.len(), transaction.outputs.len());
        lemma_parse_outputs(
            bytes,
            at + a.len() + b.len() + c.len() + d.len(),
            transaction.outputs,
        );
    }

    /// A transaction that is read at `at` stands there as it is written.
    pub proof fn lemma_sound(bytes: Seq<u8>, at: int)
        requires
            Self::parse(bytes, at).is_some(),
        ensures
            Self::parse(bytes, at).unwrap().0.bounded(),
            sits(bytes, at, Self::parse(bytes, at).unwrap().0.encoding()),
            Self::parse(bytes, at).unwrap().1 == at + Self::parse(bytes, at).unwrap().0.encoding().len(),
    {
        reveal(Transaction::parse);
        let (count, a) = parse_array_head(bytes, at).unwrap();
        let (spent, b) = parse_array_head(bytes, a).unwrap();
        let (inputs, c) = parse_inputs(bytes, b, spent).unwrap();
        let (created, d) = parse_array_head(bytes, c).unwrap();
        let (outputs, end) = parse_outputs(bytes, d, created).unwrap();
        lemma_array_head_sound(bytes, at);
        lemma_array_head_sound(bytes, a);
        lemma_inputs_sound(bytes, b, spent);
        lemma_array_head_sound(bytes, c);
        lemma_outputs_sound(bytes, d, created);
        let joined_a = array_head(2) + array_head(spent);
        let joined_b = joined_a + join(input_encodings(inputs));
        let joined_c = joined_b + array_head(created);
        lemma_sits_join(bytes, at, array_head(2), array_head(spent));
        lemma_sits_join(bytes, at, joined_a, join(input_encodings(inputs)));
        lemma_sits_join(bytes, at, joined_b, array_head(created));
        lemma_sits_join(bytes, at, joined_c, join(output_encodings(outputs)));
    }

    /// Reads the transaction at `at`.
    pub fn read(bytes: &[u8], at: usize) -> (found: Option<(Transaction, usize)>)
        ensures
            found.is_some() == Self::parse(bytes@, at as int).is_some(),
            found.is_some() ==> found.unwrap().0@ == Self::parse(bytes@, at as int).unwrap().0
                && found.unwrap().1 == Self::parse(bytes@, at as int).unwrap().1
                && found.unwrap().1 <= bytes@.len(),
    {
        reveal(Transaction::parse);
        let (count, a) = match read_array_head(bytes, at) {
            Some(opened) => opened,
            None => {
                return None;
            },
        };
        if count != 2 {
            return None;
        }
        let (spent, b) = match read_array_head(bytes, a) {
            Some(opened) => opened,
            None => {
                return None;
            },
        };
        let (inputs, c) = match read_inputs(bytes, b, spent) {
            Some(read) => read,
            None => {
                return None;
            },
        };
        let (created, d) = match read_array_head(bytes, c) {
            Some(opened) => opened,
            None => {
                return None;
            },
        };
        let (outputs, end) = match read_outputs(bytes, d, created) {
            Some(read) => read,
            None => {
                return None;
            },
        };
        Some((Transaction { inputs, outputs }, end))
    }
}

/// The `count` transactions that stand one after the other from `at` on, and where they end.
pub open spec fn parse_transactions(bytes: Seq<u8>, at: int, count: nat) -> Option<(Seq<TransactionView>, int)>
    decreases count,
{
    if count == 0 {
        if 0 <= at <= bytes.len() {
            Some((Seq::empty(), at))
        } else {
            None
        }
    } else {
        match Transaction::parse(bytes, at) {
            Some((first, next)) => match parse_transactions(bytes, next, (count - 1) as nat) {
                Some((rest, end)) => Some((seq![first] + rest, end)),
                None => None,
            },
            None => None,
        }
    }
}

/// The transactions that stand one after the other from `at` on are the ones read there.
pub proof fn lemma_parse_transactions(bytes: Seq<u8>, at: int, items: Seq<TransactionView>)
    requires
        sits(bytes, at, join(transaction_encodings(items))),
        forall|i: int| 0 <= i < items.len() ==> (#[trigger] items[i]).bounded(),
    ensures
        parse_transactions(bytes, at, items.len()) == Some((items, at + join(transaction_encodings(items)).len())),
    decreases items.len(),
{
    let parts = transaction_encodings(items);
    if items.len() == 0 {
        assert(join(parts) =~= Seq::<u8>::empty());
        assert(items =~= Seq::<TransactionView>::empty());
    } else {
        lemma_join_front(parts);
        lemma_sits_split(bytes, at, parts[0], join(parts.skip(1)));
        Transaction::lemma_parse(bytes, at, items[0]);
        assert(parts.skip(1) =~= transaction_encodings(items.skip(1)));
        lemma_parse_transactions(bytes, at + parts[0].len(), items.skip(1));
        assert(seq![items[0]] + items.skip(1) =~= items);
    }
}

/// Reads `count` transactions from `at` on.
pub fn read_transactions(bytes: &[u8], at: usize, count: usize) -> (found: Option<(Vec<Transaction>, usize)>)
    requires
        at <= bytes@.len(),
    ensures
        found.is_some() == parse_transactions(bytes@, at as int, count as nat).is_some(),
        found.is_some() ==> transaction_views(found.unwrap().0@) == parse_transactions(
            bytes@,
            at as int,
            count as nat,
        ).unwrap().0 && found.unwrap().1 == parse_transactions(bytes@, at as int, count as nat).unwrap().1
            && found.unwrap().1 <= bytes@.len(),
{
    let mut items: Vec<Transaction> = Vec::new();
    let mut position: usize = at;
    let mut taken: usize = 0;
    while taken < count
        invariant
            taken <= count,
            position <= bytes@.len(),
            parse_transactions(bytes@, at as int, count as nat) == (match parse_transactions(
                bytes@,
                position as int,
                (count - taken) as nat,
            ) {
                Some((rest, end)) => Some((transaction_views(items@) + rest, end)),
                None => None,
            }),
        decreases count - taken,
    {
        let ghost before = transaction_views(items@);
        match Transaction::read(bytes, position) {
            Some((item, next)) => {
                proof {
                    let ahead = parse_transactions(bytes@, next as int, (count - taken - 1) as nat);
                    assert(parse_transactions(bytes@, position as int, (count - taken) as nat) == (match ahead {
                        Some((rest, end)) => Some((seq![item@] + rest, end)),
                        None => None,
                    }));
                    if ahead.is_some() {
                        assert(before + (seq![item@] + ahead.unwrap().0) =~= before.push(
                            item@,
                        ) + ahead.unwrap().0);
                    }
                    
                }
                items.push(item);
                position = next;
                proof {
                    assert(transaction_views(items@) =~= before.push(items@[items@.len() - 1]@));
                }
            },
            None => {
                return None;
            },
        }
        taken += 1;
    }
    proof {
        assert(transaction_views(items@) + Seq::<TransactionView>::empty() =~= transaction_views(items@));
    }
    Some((items, position))
}

/// The transactions that are read from `at` on stand there as they are written.
pub proof fn lemma_transactions_sound(bytes: Seq<u8>, at: int, count: nat)
    requires
        parse_transactions(bytes, at, count).is_some(),
    ensures
        parse_transactions(bytes, at, count).unwrap().0.len() == count,
        sits(bytes, at, join(transaction_encodings(parse_transactions(bytes, at, count).unwrap().0))),
        parse_transactions(bytes, at, count).unwrap().1 == at + join(
            transaction_encodings(parse_transactions(bytes, at, count).unwrap().0),
        ).len(),
        forall|i: int|
            0 <= i < count ==> (#[trigger] parse_transactions(bytes, at, count).unwrap().0[i]).bounded(),
    decreases count,
{
    let (items, end) = parse_transactions(bytes, at, count).unwrap();
    let parts = transaction_encodings(items);
    if count == 0 {
        assert(join(parts) =~= Seq::<u8>::empty());
        assert(bytes.subrange(at, at) =~= Seq::<u8>::empty());
    } else {
        let (first, next) = Transaction::parse(bytes, at).unwrap();
        let (rest, last) = parse_transactions(bytes, next, (count - 1) as nat).unwrap();
        Transaction::lemma_sound(bytes, at);
        lemma_transactions_sound(bytes, next, (count - 1) as nat);
        assert(items =~= seq![first] + rest);
        lemma_join_front(parts);
        assert(parts.skip(1) =~= transaction_encodings(rest));
        lemma_sits_join(bytes, at, parts[0], join(parts.skip(1)));
        assert forall|i: int| 0 <= i < count implies (#[trigger] items[i]).bounded() by {
            if i > 0 {
                assert(items[i] == rest[i - 1]);
            }
        }
    }
}

impl BlockView {
    /// Whether the block and each of its transactions hold no more than a machine can
    /// count.
    pub open spec fn bounded(self) -> bool {
        self.transactions.len() <= usize::MAX && forall|i: int|
            0 <= i < self.transactions.len() ==> (#[trigger] self.transactions[i]).bounded()
    }
}

impl Block {
    /// The block that stands at `at`, and where it ends.
    #[verifier::opaque]
    pub open spec fn parse(bytes: Seq<u8>, at: int) -> Option<(BlockView, int)> {
        match parse_array_head(bytes, at) {
            Some((count, a)) => if count != 2 {
                None
            } else {
                match BlockHeader::parse(bytes, a) {
                    Some((header, b)) => match parse_array_head(bytes, b) {
                        Some((held, c)) => match parse_transactions(bytes, c, held) {
                            Some((transactions, end)) => Some(
                                (BlockView { header, transactions }, end),
                            ),
                            None => None,
                        },
                        None => None,
                    },
                    None => None,
                }
            },
            None => None,
        }
    }

    /// A block that stands at `at` is the block that is read there.
    pub proof fn lemma_parse(bytes: Seq<u8>, at: int, block: BlockView)
        requires
            sits(bytes, at, block.encoding()),
            block.bounded(),
        ensures
            Self::parse(bytes, at) == Some((block, at + block.encoding().len())),
    {
        reveal(Block::parse);
        let a = array_head(2);
        let b = block.header.encoding();
        let c = array_head(block.transactions.len());
        let d = join(transaction_encodings(block.transactions));
        lemma_sits_split(bytes, at, a + b + c, d);
        lemma_sits_split(bytes, at, a + b, c);
        lemma_sits_split(bytes, at, a, b);
        lemma_parse_array_head(bytes, at, 2);
        BlockHeader::lemma_parse(bytes, at + a.len(), block.header);
        lemma_parse_array_head(bytes, at + a.len() + b.len(), block.transactions.len());
        lemma_parse_transactions(bytes, at + a.len() + b.len() + c.len(), block.transactions);
    }

    /// A block that is read at `at` stands there as it is written.
    pub proof fn lemma_sound(bytes: Seq<u8>, at: int)
        requires
            Self::parse(bytes, at).is_some(),
        ensures
            Self::parse(bytes, at).unwrap().0.bounded(),
            sits(bytes, at, Self::parse(bytes, at).unwrap().0.encoding()),
            Self::parse(bytes, at).unwrap().1 == at + Self::parse(bytes, at).unwrap().0.encoding().len(),
    {
        reveal(Block::parse);
        let (count, a) = parse_array_head(bytes, at).unwrap();
        let (header, b) = BlockHeader::parse(bytes, a).unwrap();
        let (held, c) = parse_array_head(bytes, b).unwrap();
        let (transactions, end) = parse_transactions(bytes, c, held).unwrap();
        lemma_array_head_sound(bytes, at);
        BlockHeader::lemma_sound(bytes, a);
        lemma_array_head_sound(bytes, b);
        lemma_transactions_sound(bytes, c, held);
        let joined_a = array_head(2) + header.encoding();
        let joined_b = joined_a + array_head(held);
        lemma_sits_join(bytes, at, array_head(2), header.encoding());
        lemma_sits_join(bytes, at, joined_a, array_head(held));
        lemma_sits_join(bytes, at, joined_b, join(transaction_encodings(transactions)));
    }

    /// Reads the block at `at`.
    pub fn read(bytes: &[u8], at: usize) -> (found: Option<(Block, usize)>)
        ensures
            found.is_some() == Self::parse(bytes@, at as int).is_some(),
            found.is_some() ==> found.unwrap().0@ == Self::parse(bytes@, at as int).unwrap().0
                && found.unwrap().1 == Self::parse(bytes@, at as int).unwrap().1
                && found.unwrap().1 <= bytes@.len(),
    {
        reveal(Block::parse);
        let (count, a) = match read_array_head(bytes, at) {
            Some(opened) => opened,
            None => {
                return None;
            },
        };
        if count != 2 {
            return None;
        }
        let (header, b) = match BlockHeader::read(bytes, a) {
            Some(read) => read,
            None => {
                return None;
            },
        };
        let (held, c) = match read_array_head(bytes, b) {
            Some(opened) => opened,
            None => {
                return None;
            },
        };
        let (transactions, end) = match read_transactions(bytes, c, held) {
            Some(read) => read,
            None => {
                return None;
            },
        };
        Some((Block { header, transactions }, end))
    }
}

/// The canonical bytes of each block, in order.
pub open spec fn block_encodings(blocks: Seq<BlockView>) -> Seq<Seq<u8>> {
    Seq::new(blocks.len(), |i: int| blocks[i].encoding())
}

/// What each of the blocks is.
pub open spec fn block_views(blocks: Seq<Block>) -> Seq<BlockView> {
    Seq::new(blocks.len(), |i: int| blocks[i]@)
}

/// The `count` blocks that stand one after the other from `at` on, and where they end.
pub open spec fn parse_blocks(bytes: Seq<u8>, at: int, count: nat) -> Option<(Seq<BlockView>, int)>
    decreases count,
{
    if count == 0 {
        if 0 <= at <= bytes.len() {
            Some((Seq::empty(), at))
        } else {
            None
        }
    } else {
        match Block::parse(bytes, at) {
            Some((first, next)) => match parse_blocks(bytes, next, (count - 1) as nat) {
                Some((rest, end)) => Some((seq![first] + rest, end)),
                None => None,
            },
            None => None,
        }
    }
}

/// The blocks that stand one after the other from `at` on are the ones read there.
pub proof fn lemma_parse_blocks(bytes: Seq<u8>, at: int, items: Seq<BlockView>)
    requires
        sits(bytes, at, join(block_encodings(items))),
        forall|i: int| 0 <= i < items.len() ==> (#[trigger] items[i]).bounded(),
    ensures
        parse_blocks(bytes, at, items.len()) == Some((items, at + join(block_encodings(items)).len())),
    decreases items.len(),
{
    let parts = block_encodings(items);
    if items.len() == 0 {
        assert(join(parts) =~= Seq::<u8>::empty());
        assert(items =~= Seq::<BlockView>::empty());
    } else {
        lemma_join_front(parts);
        lemma_sits_split(bytes, at, parts[0], join(parts.skip(1)));
        Block::lemma_parse(bytes, at, items[0]);
        assert(parts.skip(1) =~= block_encodings(items.skip(1)));
        lemma_parse_blocks(bytes, at + parts[0].len(), items.skip(1));
        assert(seq![items[0]] + items.skip(1) =~= items);
    }
}

/// Reads `count` blocks from `at` on.
pub fn read_blocks(bytes: &[u8], at: usize, count: usize) -> (found: Option<(Vec<Block>, usize)>)
    requires
        at <= bytes@.len(),
    ensures
        found.is_some() == parse_blocks(bytes@, at as int, count as nat).is_some(),
        found.is_some() ==> block_views(found.unwrap().0@) == parse_blocks(
            bytes@,
            at as int,
            count as nat,
        ).unwrap().0 && found.unwrap().1 == parse_blocks(bytes@, at as int, count as nat).unwrap().1
            && found.unwrap().1 <= bytes@.len(),
{
    let mut items: Vec<Block> = Vec::new();
    let mut position: usize = at;
    let mut taken: usize = 0;
    while taken < count
        invariant
            taken <= count,
            position <= bytes@.len(),
            parse_blocks(bytes@, at as int, count as nat) == (match parse_blocks(
                bytes@,
                position as int,
                (count - taken) as nat,
            ) {
                Some((rest, end)) => Some((block_views(items@) + rest, end)),
                None => None,
            }),
        decreases count - taken,
    {
        let ghost before = block_views(items@);
        match Block::read(bytes, position) {
            Some((item, next)) => {
                proof {
                    let ahead = parse_blocks(bytes@, next as int, (count - taken - 1) as nat);
                    assert(parse_blocks(bytes@, position as int, (count - taken) as nat) == (match ahead {
                        Some((rest, end)) => Some((seq![item@] + rest, end)),
                        None => None,
                    }));
                    if ahead.is_some() {
                        assert(before + (seq![item@] + ahead.unwrap().0) =~= before.push(
                            item@,
                        ) + ahead.unwrap().0);
                    }
                    
                }
                items.push(item);
                position = next;
                proof {
                    assert(block_views(items@) =~= before.push(items@[items@.len() - 1]@));
                }
            },
            None => {
                return None;
            },
        }
        taken += 1;
    }
    proof {
        assert(block_views(items@) + Seq::<BlockView>::empty() =~= block_views(items@));
    }
    Some((items, position))
}


/// The blocks that are read from `at` on stand there as they are written.
pub proof fn lemma_blocks_sound(bytes: Seq<u8>, at: int, count: nat)
    requires
        parse_blocks(bytes, at, count).is_some(),
    ensures
        parse_blocks(bytes, at, count).unwrap().0.len() == count,
        sits(bytes, at, join(block_encodings(parse_blocks(bytes, at, count).unwrap().0))),
        parse_blocks(bytes, at, count).unwrap().1 == at + join(
            block_encodings(parse_blocks(bytes, at, count).unwrap().0),
        ).len(),
        forall|i: int|
            0 <= i < count ==> (#[trigger] parse_blocks(bytes, at, count).unwrap().0[i]).bounded(),
    decreases count,
{
    let (items, end) = parse_blocks(bytes, at, count).unwrap();
    let parts = block_encodings(items);
    if count == 0 {
        assert(join(parts) =~= Seq::<u8>::empty());
        assert(bytes.subrange(at, at) =~= Seq::<u8>::empty());
    } else {
        let (first, next) = Block::parse(bytes, at).unwrap();
        let (rest, last) = parse_blocks(bytes, next, (count - 1) as nat).unwrap();
        Block::lemma_sound(bytes, at);
        lemma_blocks_sound(bytes, next, (count - 1) as nat);
        assert(items =~= seq![first] + rest);
        lemma_join_front(parts);
        assert(parts.skip(1) =~= block_encodings(rest));
        lemma_sits_join(bytes, at, parts[0], join(parts.skip(1)));
        assert forall|i: int| 0 <= i < count implies (#[trigger] items[i]).bounded() by {
            if i > 0 {
                assert(items[i] == rest[i - 1]);
            }
        }
    }
}

impl TransactionOutput {
    /// The output that the bytes are the canonical form of, if they are that of one.
    pub open spec fn decoded(bytes: Seq<u8>) -> Option<TransactionOutput> {
        whole(Self::parse(bytes, 0), bytes.len())
    }

    /// Reads an output from its canonical bytes; `IoError` for any other bytes.
    pub fn decode(bytes: &[u8]) -> (result: Result<TransactionOutput, BtcError>)
        ensures
            result == match Self::decoded(bytes@) {
                Some(output) => Ok::<TransactionOutput, BtcError>(output),
                None => Err::<TransactionOutput, BtcError>(BtcError::IoError),
            },
            result.is_ok() ==> bytes@ == result.unwrap().encoding(),
            forall|output: TransactionOutput|
                bytes@ == #[trigger] output.encoding() ==> result == Ok::<
                    TransactionOutput,
                    BtcError,
                >(output),
    {
        proof {
            if Self::decoded(bytes@).is_some() {
                Self::lemma_decoded(bytes@, Self::decoded(bytes@).unwrap());
            }
            assert forall|output: TransactionOutput|
                bytes@ == #[trigger] output.encoding() implies Self::decoded(bytes@) == Some(
                output,
            ) by {
                Self::lemma_decoded(bytes@, output);
            }
        }
        match Self::read(bytes, 0) {
            Some((output, end)) => if end == bytes.len() {
                Ok(output)
            } else {
                Err(BtcError::IoError)
            },
            None => Err(BtcError::IoError),
        }
    }

    /// Reading what was written gives the output back, and with it the same hash.
    pub proof fn lemma_round_trip(output: TransactionOutput)
        ensures
            Self::decoded(output.encoding()) == Some(output),
    {
        lemma_sits_whole(output.encoding());
        Self::lemma_parse(output.encoding(), 0, output);
    }

    /// Bytes are read as an output exactly where they are the canonical bytes of that
    /// output.
    pub proof fn lemma_decoded(bytes: Seq<u8>, output: TransactionOutput)
        ensures
            Self::decoded(bytes) == Some(output) <==> bytes == output.encoding(),
    {
        if bytes == output.encoding() {
            Self::lemma_round_trip(output);
        }
        if Self::decoded(bytes) == Some(output) {
            Self::lemma_sound(bytes, 0);
            lemma_sits_all(bytes, output.encoding());
        }
    }
}

impl Transaction {
    /// The transaction that the bytes are the canonical form of, if they are that of
    /// one.
    pub open spec fn decoded(bytes: Seq<u8>) -> Option<TransactionView> {
        whole(Self::parse(bytes, 0), bytes.len())
    }

    /// Reads a transaction from its canonical bytes; `IoError` for any other bytes.
    pub fn decode(bytes: &[u8]) -> (result: Result<Transaction, BtcError>)
        ensures
            result.is_ok() == Self::decoded(bytes@).is_some(),
            result.is_ok() ==> result.unwrap()@ == Self::decoded(bytes@).unwrap(),
            result.is_err() ==> result == Err::<Transaction, BtcError>(BtcError::IoError),
            result.is_ok() ==> bytes@ == result.unwrap()@.encoding(),
            forall|value: TransactionView|
                value.bounded() && bytes@ == #[trigger] value.encoding() ==> result.is_ok()
                    && result.unwrap()@ == value,
    {
        proof {
            if Self::decoded(bytes@).is_some() {
                Self::lemma_decoded(bytes@, Self::decoded(bytes@).unwrap());
            }
            assert forall|value: TransactionView|
                value.bounded() && bytes@ == #[trigger] value.encoding() implies Self::decoded(
                bytes@,
            ) == Some(value) by {
                Self::lemma_decoded(bytes@, value);
            }
        }
        match Self::read(bytes, 0) {
            Some((transaction, end)) => if end == bytes.len() {
                Ok(transaction)
            } else {
                Err(BtcError::IoError)
            },
            None => Err(BtcError::IoError),
        }
    }

    /// Reading what was written gives the transaction back, and with it the same hash.
    pub proof fn lemma_round_trip(transaction: TransactionView)
        requires
            transaction.bounded(),
        ensures
            Self::decoded(transaction.encoding()) == Some(transaction),
    {
        lemma_sits_whole(transaction.encoding());
        Self::lemma_parse(transaction.encoding(), 0, transaction);
    }

    /// Bytes are read as a transaction exactly where they are the canonical bytes of
    /// that transaction, and it holds no more than a machine can count.
    pub proof fn lemma_decoded(bytes: Seq<u8>, transaction: TransactionView)
        ensures
            Self::decoded(bytes) == Some(transaction) <==> bytes == transaction.encoding()
                && transaction.bounded(),
    {
        if bytes == transaction.encoding() && transaction.bounded() {
            Self::lemma_round_trip(transaction);
        }
        if Self::decoded(bytes) == Some(transaction) {
            Self::lemma_sound(bytes, 0);
            lemma_sits_all(bytes, transaction.encoding());
        }
    }

    /// A transaction in memory holds no more than a machine can count.
    pub proof fn lemma_bounded(&self)
        ensures
            self@.bounded(),
    {
        assert(self.inputs.len() == self.inputs@.len());
        assert(self.outputs.len() == self.outputs@.len());
    }
}

impl Block {
    /// The block that the bytes are the canonical form of, if they are that of one.
    pub open spec fn decoded(bytes: Seq<u8>) -> Option<BlockView> {
        whole(Self::parse(bytes, 0), bytes.len())
    }

    /// Reads a block from its canonical bytes; `IoError` for any other bytes.
    pub fn decode(bytes: &[u8]) -> (result: Result<Block, BtcError>)
        ensures
            result.is_ok() == Self::decoded(bytes@).is_some(),
            result.is_ok() ==> result.unwrap()@ == Self::decoded(bytes@).unwrap(),
            result.is_err() ==> result == Err::<Block, BtcError>(BtcError::IoError),
            result.is_ok() ==> bytes@ == result.unwrap()@.encoding(),
            forall|value: BlockView|
                value.bounded() && bytes@ == #[trigger] value.encoding() ==> result.is_ok()
                    && result.unwrap()@ == value,
    {
        proof {
            if Self::decoded(bytes@).is_some() {
                Self::lemma_decoded(bytes@, Self::decoded(bytes@).unwrap());
            }
            assert forall|value: BlockView|
                value.bounded() && bytes@ == #[trigger] value.encoding() implies Self::decoded(
                bytes@,
            ) == Some(value) by {
                Self::lemma_decoded(bytes@, value);
            }
        }
        match Self::read(bytes, 0) {
            Some((block, end)) => if end == bytes.len() {
                Ok(block)
            } else {
                Err(BtcError::IoError)
            },
            None => Err(BtcError::IoError),
        }
    }

    /// Reading what was written gives the block back, and with it the same hash.
    pub proof fn lemma_round_trip(block: BlockView)
        requires
            block.bounded(),
        ensures
            Self::decoded(block.encoding()) == Some(block),
    {
        lemma_sits_whole(block.encoding());
        Self::lemma_parse(block.encoding(), 0, block);
    }

    /// Bytes are read as a block exactly where they are the canonical bytes of that
    /// block, and it holds no more than a machine can count.
    pub proof fn lemma_decoded(bytes: Seq<u8>, block: BlockView)
        ensures
            Self::decoded(bytes) == Some(block) <==> bytes == block.encoding() && block.bounded(),
    {
        if bytes == block.encoding() && block.bounded() {
            Self::lemma_round_trip(block);
        }
        if Self::decoded(bytes) == Some(block) {
            Self::lemma_sound(bytes, 0);
            lemma_sits_all(bytes, block.encoding());
        }
    }

    /// A block in memory holds no more than a machine can count.
    pub proof fn lemma_bounded(&self)
        ensures
            self@.bounded(),
    {
        assert forall|i: int| 0 <= i < self@.transactions.len() implies (
        #[trigger] self@.transactions[i]).bounded() by {
            self.transactions@[i].lemma_bounded();
        }
        assert(self.transactions.len() == self.transactions@.len());
    }
}

/// The blocks, the unspent outputs and the target of an engine.
pub type ChainParts = (Seq<BlockView>, Seq<UtxoEntry>, crate::u256::U256);

/// The canonical bytes of the parts of an engine: the array of blocks, the array of
/// unspent outputs, the target. The pending transactions are not written.
pub open spec fn parts_encoding(parts: ChainParts) -> Seq<u8> {
    array_head(3) + array_head(parts.0.len()) + join(block_encodings(parts.0)) + array_head(
        parts.1.len(),
    ) + join(entry_encodings(parts.1)) + u256_encoding(parts.2)
}

/// The parts of an engine that stand at `at`, and where they end.
#[verifier::opaque]
pub open spec fn parse_parts(bytes: Seq<u8>, at: int) -> Option<(ChainParts, int)> {
    match parse_array_head(bytes, at) {
        Some((count, a)) => if count != 3 {
            None
        } else {
            match parse_array_head(bytes, a) {
                Some((height, b)) => match parse_blocks(bytes, b, height) {
                    Some((blocks, c)) => match parse_array_head(bytes, c) {
                        Some((unspent, d)) => match parse_entries(bytes, d, unspent) {
                            Some((entries, e)) => match parse_u256(bytes, e) {
                                Some((target, end)) => Some(((blocks, entries, target), end)),
                                None => None,
                            },
                            None => None,
                        },
                        None => None,
                    },
                    None => None,
                },
                None => None,
            }
        },
        None => None,
    }
}

/// Whether the parts hold no more than a machine can count.
pub open spec fn parts_bounded(parts: ChainParts) -> bool {
    parts.0.len() <= usize::MAX && parts.1.len() <= usize::MAX && forall|i: int|
        0 <= i < parts.0.len() ==> (#[trigger] parts.0[i]).bounded()
}

/// Parts that stand at `at` are the parts that are read there.
pub proof fn lemma_parse_parts(bytes: Seq<u8>, at: int, parts: ChainParts)
    requires
        sits(bytes, at, parts_encoding(parts)),
        parts_bounded(parts),
    ensures
        parse_parts(bytes, at) == Some((parts, at + parts_encoding(parts).len())),
{
    reveal(parse_parts);
    let a = array_head(3);
    let b = array_head(parts.0.len());
    let c = join(block_encodings(parts.0));
    let d = array_head(parts.1.len());
    let e = join(entry_encodings(parts.1));
    let f = u256_encoding(parts.2);
    lemma_sits_split(bytes, at, a + b + c + d + e, f);
    lemma_sits_split(bytes, at, a + b + c + d, e);
    lemma_sits_split(bytes, at, a + b + c, d);
    lemma_sits_split(bytes, at, a + b, c);
    lemma_sits_split(bytes, at, a, b);
    lemma_parse_array_head(bytes, at, 3);
    lemma_parse_array_head(bytes, at + a.len(), parts.0.len());
    lemma_parse_blocks(bytes, at + a.len() + b.len(), parts.0);
    lemma_parse_array_head(bytes, at + a.len() + b.len() + c.len(), parts.1.len());
    lemma_parse_entries(bytes, at + a.len() + b.len() + c.len() + d.len(), parts.1);
    lemma_parse_u256(bytes, at + a.len() + b.len() + c.len() + d.len() + e.len(), parts.2);
}

/// Parts that are read at `at` stand there as they are written.
pub proof fn lemma_parts_sound(bytes: Seq<u8>, at: int)
    requires
        parse_parts(bytes, at).is_some(),
    ensures
        parts_bounded(parse_parts(bytes, at).unwrap().0),
        sits(bytes, at, parts_encoding(parse_parts(bytes, at).unwrap().0)),
        parse_parts(bytes, at).unwrap().1 == at + parts_encoding(parse_parts(bytes, at).unwrap().0).len(),
{
    reveal(parse_parts);
    let (count, a) = parse_array_head(bytes, at).unwrap();
    let (height, b) = parse_array_head(bytes, a).unwrap();
    let (blocks, c) = parse_blocks(bytes, b, height).unwrap();
    let (unspent, d) = parse_array_head(bytes, c).unwrap();
    let (entries, e) = parse_entries(bytes, d, unspent).unwrap();
    let (target, end) = parse_u256(bytes, e).unwrap();
    lemma_array_head_sound(bytes, at);
    lemma_array_head_sound(bytes, a);
    lemma_blocks_sound(bytes, b, height);
    lemma_array_head_sound(bytes, c);
    lemma_entries_sound(bytes, d, unspent);
    lemma_u256_sound(bytes, e);
    let joined_a = array_head(3) + array_head(height);
    let joined_b = joined_a + join(block_encodings(blocks));
    let joined_c = joined_b + array_head(unspent);
    let joined_d = joined_c + join(entry_encodings(entries));
    lemma_sits_join(bytes, at, array_head(3), array_head(height));
    lemma_sits_join(bytes, at, joined_a, join(block_encodings(blocks)));
    lemma_sits_join(bytes, at, joined_b, array_head(unspent));
    lemma_sits_join(bytes, at, joined_c, join(entry_encodings(entries)));
    lemma_sits_join(bytes, at, joined_d, u256_encoding(target));
}

impl crate::types::blockchain::Blockchain {
    /// Bytes are read as the parts of an engine exactly where they are the canonical
    /// bytes of those parts, and the parts hold no more than a machine can count and are
    /// in order.
    pub proof fn lemma_decoded(bytes: Seq<u8>, parts: ChainParts)
        ensures
            Self::decoded(bytes) == Some(parts) <==> bytes == parts_encoding(parts)
                && parts_bounded(parts) && crate::types::blockchain::valid_parts(
                parts.0,
                parts.1,
                parts.2,
            ),
    {
        if bytes == parts_encoding(parts) && parts_bounded(parts) {
            lemma_sits_whole(bytes);
            lemma_parse_parts(bytes, 0, parts);
        }
        if Self::decoded(bytes) == Some(parts) {
            lemma_parts_sound(bytes, 0);
            lemma_sits_all(bytes, parts_encoding(parts));
        }
    }

    /// The blocks, the unspent outputs and the target.
    pub open spec fn parts(&self) -> ChainParts {
        (self@.blocks, self.utxo_entries(), self@.target)
    }

    /// The canonical bytes of the engine: those of its parts.
    pub open spec fn encoding(&self) -> Seq<u8> {
        parts_encoding(self.parts())
    }

    /// The parts of the engine that the bytes are the canonical form of, if they are
    /// that of an engine in order.
    pub open spec fn decoded(bytes: Seq<u8>) -> Option<ChainParts> {
        match whole(parse_parts(bytes, 0), bytes.len()) {
            Some(parts) => if crate::types::blockchain::valid_parts(parts.0, parts.1, parts.2) {
                Some(parts)
            } else {
                None
            },
            None => None,
        }
    }

    /// The canonical bytes.
    pub fn encode(&self) -> (bytes: Vec<u8>)
        ensures
            bytes@ == self.encoding(),
    {
        let mut out: Vec<u8> = Vec::new();
        crate::encoding::push_array_head(&mut out, 3);
        let blocks = self.blocks();
        crate::encoding::push_array_head(&mut out, blocks.len());
        let ghost opened = out@;
        let ghost parts = block_encodings(self@.blocks);
        let mut i: usize = 0;
        assert(out@ =~= opened + join(parts.take(0)));
        while i < blocks.len()
            invariant
                i <= blocks@.len(),
                block_views(blocks@) == self@.blocks,
                parts == block_encodings(self@.blocks),
                out@ == opened + join(parts.take(i as int)),
            decreases blocks@.len() - i,
        {
            blocks[i].encode_into(&mut out);
            proof {
                assert(self@.blocks[i as int] == blocks@[i as int]@);
                crate::encoding::lemma_join_step(parts, i as int);
                assert(out@ =~= opened + join(parts.take(i + 1)));
            }
            i += 1;
        }
        assert(parts.take(blocks@.len() as int) =~= parts);
        let entries = self.utxos().as_entries();
        crate::encoding::push_array_head(&mut out, entries.len());
        let ghost middle = out@;
        let ghost listed = entry_encodings(entries@);
        let mut k: usize = 0;
        assert(out@ =~= middle + join(listed.take(0)));
        while k < entries.len()
            invariant
                k <= entries@.len(),
                listed == entry_encodings(entries@),
                out@ == middle + join(listed.take(k as int)),
            decreases entries@.len() - k,
        {
            entries[k].encode_into(&mut out);
            proof {
                crate::encoding::lemma_join_step(listed, k as int);
                assert(out@ =~= middle + join(listed.take(k + 1)));
            }
            k += 1;
        }
        assert(listed.take(entries@.len() as int) =~= listed);
        let target = self.target().to_big_endian();
        crate::encoding::push_byte_string(&mut out, target.as_slice());
        assert(out@ =~= self.encoding());
        out
    }

    /// Reads an engine from its canonical bytes and checks that it is in order;
    /// `IoError` for any other bytes. The engine that is read has no pending
    /// transaction.
    pub fn decode(bytes: &[u8]) -> (result: Result<crate::types::blockchain::Blockchain, BtcError>)
        ensures
            result.is_ok() == Self::decoded(bytes@).is_some(),
            result.is_ok() ==> result.unwrap().wf() && result.unwrap().parts() == Self::decoded(
                bytes@,
            ).unwrap() && result.unwrap()@.mempool.len() == 0,
            result.is_err() ==> result == Err::<crate::types::blockchain::Blockchain, BtcError>(
                BtcError::IoError,
            ),
            result.is_ok() ==> bytes@ == result.unwrap().encoding(),
            forall|parts: ChainParts|
                parts_bounded(parts) && crate::types::blockchain::valid_parts(
                    parts.0,
                    parts.1,
                    parts.2,
                ) && bytes@ == #[trigger] parts_encoding(parts) ==> result.is_ok()
                    && result.unwrap().parts() == parts,
    {
        reveal(parse_parts);
        proof {
            if Self::decoded(bytes@).is_some() {
                Self::lemma_decoded(bytes@, Self::decoded(bytes@).unwrap());
            }
            assert forall|parts: ChainParts|
                parts_bounded(parts) && crate::types::blockchain::valid_parts(
                    parts.0,
                    parts.1,
                    parts.2,
                ) && bytes@ == #[trigger] parts_encoding(parts) implies Self::decoded(bytes@)
                == Some(parts) by {
                Self::lemma_decoded(bytes@, parts);
            }
        }
        let (count, a) = match read_array_head(bytes, 0) {
            Some(opened) => opened,
            None => {
                return Err(BtcError::IoError);
            },
        };
        if count != 3 {
            return Err(BtcError::IoError);
        }
        let (height, b) = match read_array_head(bytes, a) {
            Some(opened) => opened,
            None => {
                return Err(BtcError::IoError);
            },
        };
        let (blocks, c) = match read_blocks(bytes, b, height) {
            Some(read) => read,
            None => {
                return Err(BtcError::IoError);
            },
        };
        let (unspent, d) = match read_array_head(bytes, c) {
            Some(opened) => opened,
            None => {
                return Err(BtcError::IoError);
            },
        };
        let (entries, e) = match read_entries(bytes, d, unspent) {
            Some(read) => read,
            None => {
                return Err(BtcError::IoError);
            },
        };
        let (target, end) = match read_u256(bytes, e) {
            Some(read) => read,
            None => {
                return Err(BtcError::IoError);
            },
        };
        if end != bytes.len() {
            return Err(BtcError::IoError);
        }
        match crate::types::blockchain::Blockchain::from_parts(blocks, entries, target) {
            Some(chain) => Ok(chain),
            None => Err(BtcError::IoError),
        }
    }

    /// Reading what was written of an engine in order gives its blocks, its unspent
    /// outputs and its target back.
    pub proof fn lemma_round_trip(&self)
        requires
            self.wf(),
            parts_bounded(self.parts()),
        ensures
            Self::decoded(self.encoding()) == Some(self.parts()),
    {
        lemma_sits_whole(self.encoding());
        lemma_parse_parts(self.encoding(), 0, self.parts());
        self.lemma_valid_parts();
    }
}

} // verus!
