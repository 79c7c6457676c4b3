//! The kinds of rejection.

use vstd::prelude::*;

verus! {

/// Why a block, a transaction or a stream of bytes was rejected.
#[derive(Clone, Copy, Debug, PartialEq, Eq, Structural)]
pub enum BtcError {
    /// A transaction breaks a rule: the coinbase pays the wrong sum, value is not
    /// conserved, an input is unknown, or an output is spent twice.
    InvalidTransaction,
    /// A block breaks a rule of its own: wrong parent, hash above its target, a
    /// timestamp that does not advance, or no transaction at all.
    InvalidBlock,
    /// The Merkle root in the header is not that of the transactions.
    InvalidMerkleRoot,
    /// A signature does not verify.
    InvalidSignature,
    /// Bytes that are not the canonical form of the value expected.
    IoError,
}

impl BtcError {
    /// One line that says what went wrong.
    pub fn reason(&self) -> (text: &'static str)
        ensures
            text@ == match *self {
                BtcError::InvalidTransaction => "Invalid transaction"@,
                BtcError::InvalidBlock => "Invalid block"@,
                BtcError::InvalidMerkleRoot => "Invalid Merkle root"@,
                BtcError::InvalidSignature => "Invalid signature"@,
                BtcError::IoError => "Malformed bytes"@,
            },
    {
        match self {
            BtcError::InvalidTransaction => "Invalid transaction",
            BtcError::InvalidBlock => "Invalid block",
            BtcError::InvalidMerkleRoot => "Invalid Merkle root",
            BtcError::InvalidSignature => "Invalid signature",
            BtcError::IoError => "Malformed bytes",
        }
    }
}

} // verus!
