//! The Merkle root: one hash that commits to an ordered list of transactions.

use vstd::prelude::*;
use crate::bytes::be_bytes;
use crate::sha256::hash_of;
use crate::types::transaction::{Transaction, TransactionView, transaction_views};

verus! {

/// The hash of two hashes side by side, each as its 32 bytes.
pub open spec fn pair_hash(left: crate::sha256::Hash, right: crate::sha256::Hash) -> crate::sha256::Hash {
    hash_of(be_bytes(left@, 32) + be_bytes(right@, 32))
}

/// The next level of the tree: each pair hashed, the last hash paired with itself where
/// the level is odd.
pub open spec fn level_up(level: Seq<crate::sha256::Hash>) -> Seq<crate::sha256::Hash> {
    Seq::new(
        ((level.len() + 1) / 2) as nat,
        |i: int|
            pair_hash(
                level[2 * i],
                if 2 * i + 1 < level.len() {
                    level[2 * i + 1]
                } else {
                    level[2 * i]
                },
            ),
    )
}

/// The root over a level of hashes: zero for none, the hash itself for one.
pub open spec fn fold_level(level: Seq<crate::sha256::Hash>) -> crate::sha256::Hash
    decreases level.len(),
{
    if level.len() == 0 {
        crate::sha256::Hash::zero_value()
    } else if level.len() == 1 {
        level[0]
    } else {
        fold_level(level_up(level))
    }
}

/// The hash of each transaction, in order.
pub open spec fn transaction_hashes(transactions: Seq<TransactionView>) -> Seq<crate::sha256::Hash> {
    Seq::new(transactions.len(), |i: int| transactions[i].content_hash())
}

/// The Merkle root of the transactions.
pub open spec fn merkle_root(transactions: Seq<TransactionView>) -> MerkleRoot {
    MerkleRoot(fold_level(transaction_hashes(transactions)))
}

/// The root of a binary hash tree over the hashes of a block's transactions.
#[derive(Clone, Copy, Debug, PartialEq, Eq, Structural)]
pub struct MerkleRoot(pub crate::sha256::Hash);

impl MerkleRoot {
    /// The root over `transactions`, in their order.
    pub fn calculate(transactions: &[Transaction]) -> (root: MerkleRoot)
        ensures
            root == merkle_root(transaction_views(transactions@)),
    {
        let ghost leaves = transaction_hashes(transaction_views(transactions@));
        let mut level: Vec<crate::sha256::Hash> = Vec::new();
        let mut hashed: usize = 0;
        while hashed < transactions.len()
            invariant
                hashed <= transactions@.len(),
                leaves == transaction_hashes(transaction_views(transactions@)),
                level@ == leaves.take(hashed as int),
            decreases transactions@.len() - hashed,
        {
            level.push(transactions[hashed].hash());
            hashed += 1;
            assert(level@ =~= leaves.take(hashed as int));
        }
        assert(level@ =~= leaves);
        while level.len() > 1
            invariant
                fold_level(level@) == fold_level(leaves),
            decreases level@.len(),
        {
            let ghost above = level_up(level@);
            let len: usize = level.len();
            let pairs: usize = len / 2 + len % 2;
            let mut next: Vec<crate::sha256::Hash> = Vec::new();
            let mut k: usize = 0;
            while k < pairs
                invariant
                    k <= pairs,
                    len == level@.len(),
                    pairs == (len + 1) / 2,
                    above == level_up(level@),
                    next@ == above.take(k as int),
                decreases pairs - k,
            {
                let left = level[2 * k];
                let right = if 2 * k + 1 < len {
                    level[2 * k + 1]
                } else {
                    level[2 * k]
                };
                let mut bytes = left.to_u256().to_big_endian();
                let mut tail = right.to_u256().to_big_endian();
                bytes.append(&mut tail);
                next.push(crate::sha256::Hash::hash(bytes.as_slice()));
                k += 1;
                assert(next@ =~= above.take(k as int));
            }
            assert(next@ =~= above);
            level = next;
        }
        if level.len() == 0 {
            MerkleRoot(crate::sha256::Hash::zero())
        } else {
            MerkleRoot(level[0])
        }
    }
}

/// The root over one transaction is the hash of that transaction.
pub proof fn lemma_single_leaf_root(transaction: TransactionView)
    ensures
        merkle_root(seq![transaction]) == MerkleRoot(transaction.content_hash()),
{
}

/// The root over no transaction is the zero hash.
pub proof fn lemma_empty_root()
    ensures
        merkle_root(Seq::<TransactionView>::empty()) == MerkleRoot(crate::sha256::Hash::zero_value()),
{
}

} // verus!
