//! What a node decides when it hears from its peers, and how it comes back from a
//! stored chain. Sending and receiving is left to the caller.

use vstd::prelude::*;
use crate::codec::ChainParts;
use crate::error::BtcError;
use crate::network::{Message, MessageView, text_views};
use crate::types::blockchain::{Blockchain, add_block_result, replay, target_after};

verus! {

/// The addresses that a peer names in its answer to `DiscoverNodes`: those of a
/// `NodeList`, and none for any other answer.
pub fn named_nodes(reply: Message) -> (nodes: Vec<String>)
    ensures
        text_views(nodes@) == (match reply@ {
            MessageView::NodeList(named) => named,
            _ => Seq::empty(),
        }),
{
    match reply {
        Message::NodeList(nodes) => nodes,
        _ => {
            let nodes: Vec<String> = Vec::new();
            assert(text_views(nodes@) =~= Seq::<Seq<char>>::empty());
            nodes
        },
    }
}

/// The peer with the longest chain so far, once `node` has answered `AskDifference`
/// with `reply`: `node` where it reports a greater difference than the greatest so far,
/// else the one before.
pub fn longest_after(longest: (String, i32), node: String, reply: &Message) -> (next: (String, i32))
    ensures
        next.1 >= longest.1,
        match reply@ {
            MessageView::Difference(count) => if count > longest.1 {
                next.0@ == node@ && next.1 == count
            } else {
                next.0@ == longest.0@ && next.1 == longest.1
            },
            _ => next.0@ == longest.0@ && next.1 == longest.1,
        },
{
    match reply {
        Message::Difference(count) => if *count > longest.1 {
            (node, *count)
        } else {
            longest
        },
        _ => longest,
    }
}

/// Takes the answer to `FetchBlock` into the chain: a `NewBlock` is added as
/// `add_block` adds it, any other answer is passed over.
pub fn take_download(chain: &mut Blockchain, reply: Message) -> (result: Result<(), BtcError>)
    requires
        old(chain).wf(),
    ensures
        final(chain).wf(),
        match reply@ {
            MessageView::NewBlock(block) => result == add_block_result(old(chain)@, block) && (
            result.is_ok() ==> final(chain)@.blocks == old(chain)@.blocks.push(block)) && (
            result.is_err() ==> final(chain)@ == old(chain)@),
            _ => result.is_ok() && final(chain)@ == old(chain)@,
        },
{
    match reply {
        Message::NewBlock(block) => chain.add_block(block),
        _ => Ok(()),
    }
}

/// Brings an engine back from its stored bytes: reads it, replays the chain for the
/// unspent outputs, and adjusts the target as after a last block.
pub fn restore(bytes: &[u8]) -> (result: Result<Blockchain, BtcError>)
    ensures
        result.is_ok() == Blockchain::decoded(bytes@).is_some(),
        result.is_err() ==> result == Err::<Blockchain, BtcError>(BtcError::IoError),
        result.is_ok() ==> {
            let stored: ChainParts = Blockchain::decoded(bytes@).unwrap();
            let chain = result.unwrap();
            chain.wf() && chain@.blocks == stored.0 && chain@.utxos == replay(stored.0)
                && chain@.target@ == target_after(stored.0, stored.2@) && chain@.mempool.len() == 0
        },
{
    match Blockchain::decode(bytes) {
        Ok(mut chain) => {
            chain.rebuild_utxos();
            chain.try_adjust_target();
            Ok(chain)
        },
        Err(_) => Err(BtcError::IoError),
    }
}

} // verus!
