//! The ledger engine: the chain of accepted blocks, the unspent outputs, the pool of
//! pending transactions and the current target.

use vstd::prelude::*;
use crate::codec::block_views;
use crate::error::BtcError;
use crate::types::block::{Block, BlockView, contains_hash};
use crate::types::mempool::{
    admissible, after_replacements, all_marked, by_fee, drop_expired, expired_inputs,
    is_admissible, lemma_all_marked, lemma_replacements_keep_outputs, mark_inputs, pool_views,
    resolve_replacements, same_outputs, sort_pool, unexpired,
};
use crate::types::rules::{spent_hashes, verification_result};
use crate::types::transaction::{Transaction, TransactionInput, TransactionOutput, TransactionView};
use crate::types::utxo::{
    UtxoEntry, UtxoMap, UtxoSet, keyed_by_content, lemma_keyed_empty, lemma_keyed_kept, lemma_keyed_put,
};
use crate::u256::{
    U256, decimal_digits, decimal_value, is_decimal, lemma_decimal_round_trip, modulus,
};
use crate::util::{MerkleRoot, merkle_root, transaction_hashes};

verus! {

/// Whether `next` may stand on `tip`: it names `tip` as its parent, its header meets its
/// own target, its Merkle root is that of its transactions, and it is later than `tip`.
pub open spec fn extends(tip: BlockView, next: BlockView) -> bool {
    &&& next.header.prev_block_hash == tip.content_hash()
    &&& next.header.meets_target()
    &&& next.header.merkle_root == merkle_root(next.transactions)
    &&& next.header.timestamp > tip.header.timestamp
}

/// Whether the blocks form a chain: the first names the zero hash as its parent, and
/// each of the others may stand on the one before it.
#[verifier::opaque]
pub open spec fn chain_valid(blocks: Seq<BlockView>) -> bool {
    &&& blocks.len() > 0 ==> blocks[0].header.prev_block_hash == crate::sha256::Hash::zero_value()
    &&& forall|i: int| 1 <= i < blocks.len() ==> extends(blocks[i - 1], #[trigger] blocks[i])
}

/// No block at all is a chain.
pub proof fn lemma_chain_empty()
    ensures
        chain_valid(Seq::<BlockView>::empty()),
{
    reveal(chain_valid);
}

/// In a chain the first block names the zero hash as its parent, and every other block
/// names the hash of the block before it, meets its target, carries the Merkle root of
/// its transactions, and is later than the block before it.
pub proof fn lemma_chain_links(blocks: Seq<BlockView>, at: int)
    requires
        chain_valid(blocks),
        0 <= at < blocks.len(),
    ensures
        at == 0 ==> blocks[0].header.prev_block_hash == crate::sha256::Hash::zero_value(),
        at >= 1 ==> extends(blocks[at - 1], blocks[at]),
        at >= 1 ==> blocks[at].header.prev_block_hash == blocks[at - 1].content_hash(),
{
    reveal(chain_valid);
}

/// A chain with a block on it that may stand there is a chain.
pub proof fn lemma_chain_push(blocks: Seq<BlockView>, block: BlockView)
    requires
        chain_valid(blocks),
        blocks.len() == 0 ==> block.header.prev_block_hash == crate::sha256::Hash::zero_value(),
        blocks.len() > 0 ==> extends(blocks.last(), block),
    ensures
        chain_valid(blocks.push(block)),
{
    reveal(chain_valid);
    let after = blocks.push(block);
    assert forall|i: int| 1 <= i < after.len() implies extends(after[i - 1], #[trigger] after[i]) by {
        if i < blocks.len() {
            assert(after[i] == blocks[i] && after[i - 1] == blocks[i - 1]);
            assert(extends(blocks[i - 1], blocks[i]));
        }
    }
    if blocks.len() > 0 {
        assert(after[0] == blocks[0]);
    }
}

/// `utxos` without the outputs that `inputs` spend.
pub open spec fn without_spent(utxos: UtxoMap, inputs: Seq<TransactionInput>) -> UtxoMap
    decreases inputs.len(),
{
    if inputs.len() == 0 {
        utxos
    } else {
        without_spent(utxos, inputs.drop_last()).remove(inputs.last().prev_transaction_output_hash)
    }
}

/// `utxos` with each of `outputs` under its hash, unmarked.
pub open spec fn with_created(utxos: UtxoMap, outputs: Seq<TransactionOutput>) -> UtxoMap
    decreases outputs.len(),
{
    if outputs.len() == 0 {
        utxos
    } else {
        with_created(utxos, outputs.drop_last()).insert(
            outputs.last().content_hash(),
            (false, outputs.last()),
        )
    }
}

/// `utxos` after one transaction: what it spends taken out, then what it creates put in.
pub open spec fn after_transaction(utxos: UtxoMap, transaction: TransactionView) -> UtxoMap {
    with_created(without_spent(utxos, transaction.inputs), transaction.outputs)
}

/// `utxos` after the transactions, in order.
pub open spec fn after_transactions(utxos: UtxoMap, transactions: Seq<TransactionView>) -> UtxoMap
    decreases transactions.len(),
{
    if transactions.len() == 0 {
        utxos
    } else {
        after_transaction(
            after_transactions(utxos, transactions.drop_last()),
            transactions.last(),
        )
    }
}

/// The unspent outputs of a chain: what replaying every block from nothing leaves.
pub open spec fn replay(blocks: Seq<BlockView>) -> UtxoMap
    decreases blocks.len(),
{
    if blocks.len() == 0 {
        UtxoMap::empty()
    } else {
        after_transactions(replay(blocks.drop_last()), blocks.last().transactions)
    }
}

/// The text that `bigdecimal` prints for the number spelled by the decimal `digits`, times
/// the quotient of `elapsed` by `ideal`, at the precision and in the notation that the
/// crate is built with; `None` where it does not read `digits` as a number.
pub uninterp spec fn scaled_decimal(digits: Seq<u8>, elapsed: i64, ideal: u64) -> Option<Seq<u8>>;

/// Scales a number in arbitrary precision, as `bigdecimal` does it: reads `digits` with
/// `BigDecimal::parse_bytes`, multiplies by the quotient of `elapsed` by `ideal`, and
/// prints the product. The text is named, not stated: it is the same for the same three
/// arguments.
#[verifier::external_body]
fn scale_decimal(digits: &[u8], elapsed: i64, ideal: u64) -> (text: Option<Vec<u8>>)
    requires
        ideal != 0,
        digits@.len() > 0,
        is_decimal(digits@),
    ensures
        text.is_some() == scaled_decimal(digits@, elapsed, ideal).is_some(),
        text.is_some() ==> text.unwrap()@ == scaled_decimal(digits@, elapsed, ideal).unwrap(),
{
    let number = ::bigdecimal::BigDecimal::parse_bytes(digits, 10)?;
    let ratio = ::bigdecimal::BigDecimal::from(elapsed) / ::bigdecimal::BigDecimal::from(ideal);
    Some((number * ratio).to_string().into_bytes())
}

/// The seconds that the blocks of one adjustment period should take.
pub open spec fn ideal_period() -> nat {
    (crate::IDEAL_BLOCK_TIME * crate::DIFFICULTY_UPDATE_INTERVAL) as nat
}

/// `scaled` held between a quarter of `target` and four times `target`, and then to the
/// easiest target at most.
pub open spec fn clamped(target: nat, scaled: nat) -> nat {
    let low = target / 4;
    let high = target * 4;
    let bounded = if scaled < low {
        low
    } else if scaled > high {
        high
    } else {
        scaled
    };
    if bounded <= crate::min_target()@ {
        bounded
    } else {
        crate::min_target()@
    }
}

/// The bytes of `text` before its first full stop.
pub open spec fn integer_part(text: Seq<u8>) -> Seq<u8>
    decreases text.len(),
{
    if text.len() == 0 || text[0] == 46 {
        Seq::empty()
    } else {
        seq![text[0]] + integer_part(text.skip(1))
    }
}

/// The integer part ends at the first full stop, or where the text ends.
pub proof fn lemma_integer_part(text: Seq<u8>, end: int)
    requires
        0 <= end <= text.len(),
        forall|i: int| 0 <= i < end ==> text[i] != 46,
        end == text.len() || text[end] == 46,
    ensures
        integer_part(text) == text.take(end),
    decreases end,
{
    if end == 0 {
        assert(text.take(0) =~= Seq::<u8>::empty());
    } else {
        let rest = text.skip(1);
        assert forall|i: int| 0 <= i < end - 1 implies rest[i] != 46 by {
            assert(rest[i] == text[i + 1]);
        }
        lemma_integer_part(rest, end - 1);
        assert(text.take(end) =~= seq![text[0]] + rest.take(end - 1));
    }
}

/// The target that follows `target` where the scaled target was printed as `text`: the
/// number before the first full stop, clamped. A text that has no digit there, or
/// another byte than a digit, leaves the target as it is.
pub open spec fn target_from_text(target: nat, text: Seq<u8>) -> nat {
    let digits = integer_part(text);
    if digits.len() > 0 && is_decimal(digits) {
        clamped(target, decimal_value(digits))
    } else {
        clamped(target, target)
    }
}

/// The target that follows `target` after a period that took `elapsed` seconds. A period
/// that took no time, or less, quarters the target; one that took four times the ideal
/// or more takes the target times four; between them the target is scaled by the
/// quotient of `elapsed` by the ideal.
pub open spec fn adjusted_target(target: nat, elapsed: int) -> nat {
    if elapsed <= 0 {
        clamped(target, 0)
    } else if elapsed >= 4 * ideal_period() {
        clamped(target, 4 * target)
    } else {
        match scaled_decimal(decimal_digits(target), elapsed as i64, ideal_period() as u64) {
            Some(text) => target_from_text(target, text),
            None => clamped(target, target),
        }
    }
}

/// Where the scaled target was printed as the digits of a number, alone or before a full
/// stop and a fraction, the target that follows is that number clamped.
pub proof fn lemma_target_from_digits(target: nat, scaled: nat, fraction: Seq<u8>)
    ensures
        target_from_text(target, decimal_digits(scaled)) == clamped(target, scaled),
        target_from_text(target, decimal_digits(scaled) + seq![46u8] + fraction) == clamped(
            target,
            scaled,
        ),
{
    let digits = decimal_digits(scaled);
    lemma_decimal_round_trip(scaled);
    lemma_integer_part(digits, digits.len() as int);
    assert(digits.take(digits.len() as int) =~= digits);
    let longer = digits + seq![46u8] + fraction;
    assert forall|i: int| 0 <= i < digits.len() implies longer[i] != 46 by {
        assert(longer[i] == digits[i]);
    }
    lemma_integer_part(longer, digits.len() as int);
    assert(longer.take(digits.len() as int) =~= digits);
}

/// Whether a chain of `count` blocks has just completed an adjustment period.
pub open spec fn retarget_due(count: nat) -> bool {
    count > 0 && count % (crate::DIFFICULTY_UPDATE_INTERVAL as nat) == 0
}

/// The seconds from the first block of the last period to the last block.
pub open spec fn period_elapsed(blocks: Seq<BlockView>) -> int {
    blocks.last().header.timestamp - blocks[blocks.len() - crate::DIFFICULTY_UPDATE_INTERVAL].header.timestamp
}

/// The target that follows `target` once the chain is `blocks`.
pub open spec fn target_after(blocks: Seq<BlockView>, target: nat) -> nat {
    if retarget_due(blocks.len()) {
        adjusted_target(target, period_elapsed(blocks))
    } else {
        target
    }
}

/// The target is never easier than the easiest, whatever was scaled.
pub proof fn lemma_clamped_bounds(target: nat, scaled: nat)
    ensures
        clamped(target, scaled) <= crate::min_target()@,
        target / 4 <= crate::min_target()@ ==> target / 4 <= clamped(target, scaled),
        clamped(target, scaled) <= target * 4,
{
}

/// `scaled` clamped about `target`, where `scaled` is known either exactly or to be
/// beyond 256 bits.
fn clamp(target: U256, scaled: U256, beyond: bool, Ghost(value): Ghost<nat>) -> (next: U256)
    requires
        beyond ==> value >= modulus(),
        !beyond ==> value == scaled@,
    ensures
        next@ == clamped(target@, value),
{
    let least = crate::min_target();
    let low = target.div_small(4);
    let high = target.checked_mul_small(4);
    if beyond {
        match high {
            Some(bound) => bound.min(least),
            None => least,
        }
    } else if scaled.lt(&low) {
        low.min(least)
    } else {
        match high {
            Some(bound) => if bound.lt(&scaled) {
                bound.min(least)
            } else {
                scaled.min(least)
            },
            None => scaled.min(least),
        }
    }
}

/// The target that follows `target` where the scaled target was printed as `text`.
pub fn target_from(target: U256, text: &[u8]) -> (next: U256)
    ensures
        next@ == target_from_text(target@, text@),
        next@ <= crate::min_target()@,
{
    let mut end: usize = 0;
    while end < text.len() && text[end] != 46
        invariant
            end <= text@.len(),
            forall|i: int| 0 <= i < end ==> text@[i] != 46,
        decreases text@.len() - end,
    {
        end += 1;
    }
    let digits = vstd::slice::slice_subrange(text, 0, end);
    proof {
        lemma_integer_part(text@, end as int);
        assert(digits@ =~= text@.take(end as int));
    }
    if end == 0 || !U256::all_decimal(digits) {
        return clamp(target, target, false, Ghost(target@));
    }
    match U256::from_decimal(digits) {
        Some(scaled) => clamp(target, scaled, false, Ghost(scaled@)),
        None => clamp(target, target, true, Ghost(decimal_value(digits@))),
    }
}

/// The target that follows `target` after a period that took `elapsed` seconds.
pub fn next_target(target: U256, elapsed: i128) -> (next: U256)
    ensures
        next@ == adjusted_target(target@, elapsed as int),
        next@ <= crate::min_target()@,
{
    let ideal: u64 = crate::IDEAL_BLOCK_TIME * crate::DIFFICULTY_UPDATE_INTERVAL;
    if elapsed <= 0 {
        return clamp(target, U256::zero(), false, Ghost(0));
    }
    if elapsed >= 4 * (ideal as i128) {
        return match target.checked_mul_small(4) {
            Some(scaled) => clamp(target, scaled, false, Ghost(scaled@)),
            None => clamp(target, target, true, Ghost(4 * target@)),
        };
    }
    let digits = target.to_decimal();
    proof {
        lemma_decimal_round_trip(target@);
    }
    match scale_decimal(digits.as_slice(), elapsed as i64, ideal) {
        Some(text) => target_from(target, text.as_slice()),
        None => clamp(target, target, false, Ghost(target@)),
    }
}

/// What `add_block` says of `block` where the engine holds `chain`: a first block must
/// name the zero hash as its parent and is checked no further; a later block must name
/// the tip, meet its own target, carry the Merkle root of its transactions, be later
/// than the tip, and hold transactions that verify against the unspent outputs, in the
/// order given.
pub open spec fn add_block_result(chain: BlockchainView, block: BlockView) -> Result<(), BtcError> {
    if chain.blocks.len() == 0 {
        if block.header.prev_block_hash != crate::sha256::Hash::zero_value() {
            Err(BtcError::InvalidBlock)
        } else {
            Ok(())
        }
    } else {
        let tip = chain.blocks.last();
        if block.header.prev_block_hash != tip.content_hash() {
            Err(BtcError::InvalidBlock)
        } else if !block.header.meets_target() {
            Err(BtcError::InvalidBlock)
        } else if merkle_root(block.transactions) != block.header.merkle_root {
            Err(BtcError::InvalidMerkleRoot)
        } else if block.header.timestamp <= tip.header.timestamp {
            Err(BtcError::InvalidBlock)
        } else {
            verification_result(block.transactions, chain.blocks.len() as u64, chain.utxos)
        }
    }
}

/// Whether a transaction with the hash of `transaction` is among `included`.
pub open spec fn is_included(included: Seq<TransactionView>, transaction: TransactionView) -> bool {
    transaction_hashes(included).contains(transaction.content_hash())
}

/// The pending transactions but those that are among `included`, in their order.
pub open spec fn without_included(
    pool: Seq<(i64, TransactionView)>,
    included: Seq<TransactionView>,
) -> Seq<(i64, TransactionView)>
    decreases pool.len(),
{
    if pool.len() == 0 {
        pool
    } else if is_included(included, pool.last().1) {
        without_included(pool.drop_last(), included)
    } else {
        without_included(pool.drop_last(), included).push(pool.last())
    }
}

/// Reads the clock with `chrono::Utc::now` and hands out the seconds since the Unix
/// epoch. Nothing is said of what a clock shows.
#[verifier::external_body]
fn current_time() -> (now: i64) {
    ::chrono::Utc::now().timestamp()
}

/// Whether every entry stands under the hash of its output.
pub open spec fn entries_keyed(entries: Seq<UtxoEntry>) -> bool {
    forall|i: int|
        0 <= i < entries.len() ==> (#[trigger] entries[i]).hash == entries[i].output.content_hash()
}

/// For entries with distinct keys, each stands under the hash of its output exactly
/// where the map they stand for keeps every output under its own hash.
pub proof fn lemma_entries_keyed(entries: Seq<UtxoEntry>)
    requires
        crate::types::utxo::keys_distinct(entries),
    ensures
        entries_keyed(entries) == keyed_by_content(crate::types::utxo::entries_map(entries)),
{
    reveal(keyed_by_content);
    let map = crate::types::utxo::entries_map(entries);
    if entries_keyed(entries) {
        assert forall|hash: crate::sha256::Hash| #[trigger] map.dom().contains(hash) implies map[hash].1.content_hash()
            == hash by {
            let at = crate::types::utxo::position(entries, hash);
            assert(entries[at].hash == hash);
        }
    }
    if keyed_by_content(map) {
        assert forall|i: int| 0 <= i < entries.len() implies (#[trigger] entries[i]).hash
            == entries[i].output.content_hash() by {
            crate::types::utxo::lemma_entry_lookup(entries, i);
        }
    }
}

/// Whether blocks, unspent outputs and a target can be the state of an engine.
pub open spec fn valid_parts(blocks: Seq<BlockView>, entries: Seq<UtxoEntry>, target: U256) -> bool {
    chain_valid(blocks) && crate::types::utxo::keys_distinct(entries) && entries_keyed(entries)
        && target@ <= crate::min_target()@
}

/// Whether `next` may stand on `tip`.
pub fn may_extend(tip: &Block, next: &Block) -> (valid: bool)
    ensures
        valid == extends(tip@, next@),
{
    if next.header.prev_block_hash != tip.hash() {
        return false;
    }
    if !next.header.hash().matches_target(next.header.target) {
        return false;
    }
    if MerkleRoot::calculate(next.transactions.as_slice()) != next.header.merkle_root {
        return false;
    }
    next.header.timestamp > tip.header.timestamp
}

/// Blocks of which one may not stand on the one before it form no chain.
pub proof fn lemma_chain_broken(blocks: Seq<BlockView>, at: int)
    requires
        1 <= at < blocks.len(),
        !extends(blocks[at - 1], blocks[at]),
    ensures
        !chain_valid(blocks),
{
    reveal(chain_valid);
}

/// Blocks of which the first names the zero hash as its parent and each of the others
/// may stand on the one before it form a chain.
pub proof fn lemma_chain_whole(blocks: Seq<BlockView>)
    requires
        blocks.len() > 0 ==> blocks[0].header.prev_block_hash == crate::sha256::Hash::zero_value(),
        forall|k: int| 1 <= k < blocks.len() ==> extends(blocks[k - 1], #[trigger] blocks[k]),
    ensures
        chain_valid(blocks),
{
    reveal(chain_valid);
}

/// Whether the blocks form a chain.
pub fn chain_is_valid(blocks: &Vec<Block>) -> (valid: bool)
    ensures
        valid == chain_valid(block_views(blocks@)),
{
    let ghost views = block_views(blocks@);
    if blocks.len() == 0 {
        proof {
            lemma_chain_whole(views);
        }
        return true;
    }
    if blocks[0].header.prev_block_hash != crate::sha256::Hash::zero() {
        proof {
            if chain_valid(views) {
                lemma_chain_links(views, 0);
            }
        }
        return false;
    }
    let mut i: usize = 1;
    while i < blocks.len()
        invariant
            1 <= i <= blocks@.len(),
            views == block_views(blocks@),
            forall|k: int| 1 <= k < i ==> extends(views[k - 1], #[trigger] views[k]),
        decreases blocks@.len() - i,
    {
        if !may_extend(&blocks[i - 1], &blocks[i]) {
            proof {
                lemma_chain_broken(views, i as int);
            }
            return false;
        }
        i += 1;
    }
    proof {
        lemma_chain_whole(views);
    }
    true
}

/// Whether every entry stands under the hash of its output.
pub fn entries_are_keyed(entries: &Vec<UtxoEntry>) -> (keyed: bool)
    ensures
        keyed == entries_keyed(entries@),
{
    let mut i: usize = 0;
    while i < entries.len()
        invariant
            i <= entries@.len(),
            forall|k: int|
                0 <= k < i ==> (#[trigger] entries@[k]).hash == entries@[k].output.content_hash(),
        decreases entries@.len() - i,
    {
        if entries[i].output.hash() != entries[i].hash {
            return false;
        }
        i += 1;
    }
    true
}

/// What the engine holds.
pub struct BlockchainView {
    /// The accepted blocks; the index of a block is its height.
    pub blocks: Seq<BlockView>,
    /// The unspent outputs, each with its mark.
    pub utxos: UtxoMap,
    /// The current target.
    pub target: U256,
    /// The pending transactions, each with the time of its admission.
    pub mempool: Seq<(i64, TransactionView)>,
}

/// What the engine holds once `transaction`, which is admissible, has entered the pool at
/// `now`: the transactions it replaces are gone and what they had reserved is released,
/// what it spends is reserved, and the pool with it is in the order of decreasing fee.
pub open spec fn admitted(
    before: BlockchainView,
    transaction: TransactionView,
    now: i64,
) -> BlockchainView {
    let resolved = after_replacements((before.utxos, before.mempool), transaction.inputs);
    let utxos = all_marked(resolved.0, spent_hashes(transaction.inputs), true);
    BlockchainView {
        blocks: before.blocks,
        utxos,
        target: before.target,
        mempool: by_fee(resolved.1.push((now, transaction)), utxos),
    }
}

/// What the engine holds once the pending transactions that are too old at `now` are
/// dropped: they are gone, and whatever they had reserved is released.
pub open spec fn swept(before: BlockchainView, now: i64) -> BlockchainView {
    BlockchainView {
        blocks: before.blocks,
        utxos: all_marked(before.utxos, expired_inputs(before.mempool, now), false),
        target: before.target,
        mempool: unexpired(before.mempool, now),
    }
}

/// Whether every output that `transaction` spends is there and reserved.
pub open spec fn reserved(transaction: TransactionView, utxos: UtxoMap) -> bool {
    forall|i: int|
        0 <= i < transaction.inputs.len() ==> {
            let hash = (#[trigger] transaction.inputs[i]).prev_transaction_output_hash;
            utxos.dom().contains(hash) && utxos[hash].0
        }
}

/// A transaction that has just been admitted has everything it spends reserved, and
/// admission changes no output, only marks.
pub proof fn lemma_admitted_reserves(before: BlockchainView, transaction: TransactionView, now: i64)
    requires
        admissible(transaction, before.utxos),
    ensures
        reserved(transaction, admitted(before, transaction, now).utxos),
        same_outputs(before.utxos, admitted(before, transaction, now).utxos),
{
    let start = (before.utxos, before.mempool);
    let resolved = after_replacements(start, transaction.inputs);
    let hashes = spent_hashes(transaction.inputs);
    lemma_replacements_keep_outputs(start, transaction.inputs);
    lemma_all_marked(resolved.0, hashes, true);
    let after = admitted(before, transaction, now).utxos;
    assert forall|i: int| 0 <= i < transaction.inputs.len() implies {
        let hash = (#[trigger] transaction.inputs[i]).prev_transaction_output_hash;
        after.dom().contains(hash) && after[hash].0
    } by {
        let hash = transaction.inputs[i].prev_transaction_output_hash;
        assert(before.utxos.dom().contains(hash));
        assert(resolved.0.dom().contains(hash));
        assert(hashes[i] == hash);
    }
    assert forall|hash: crate::sha256::Hash| #[trigger]
        before.utxos.dom().contains(hash) implies before.utxos[hash].1 == after[hash].1 by {
        assert(resolved.0.dom().contains(hash));
    }
}

/// The ledger engine.
pub struct Blockchain {
    blocks: Vec<Block>,
    utxos: UtxoSet,
    target: U256,
    mempool: Vec<(i64, Transaction)>,
}

impl View for Blockchain {
    type V = BlockchainView;

    closed spec fn view(&self) -> BlockchainView {
        BlockchainView {
            blocks: block_views(self.blocks@),
            utxos: self.utxos@,
            target: self.target,
            mempool: pool_views(self.mempool@),
        }
    }
}

impl Clone for Blockchain {
    fn clone(&self) -> (copy: Self)
        ensures
            copy@ == self@,
            copy.utxo_entries() == self.utxo_entries(),
            self.wf() ==> copy.wf(),
    {
        let mut blocks: Vec<Block> = Vec::new();
        let mut i: usize = 0;
        while i < self.blocks.len()
            invariant
                i <= self.blocks@.len(),
                blocks@.len() == i,
                forall|k: int| 0 <= k < i ==> blocks@[k]@ == self.blocks@[k]@,
            decreases self.blocks@.len() - i,
        {
            blocks.push(self.blocks[i].clone());
            i += 1;
        }
        let mut mempool: Vec<(i64, Transaction)> = Vec::new();
        let mut k: usize = 0;
        while k < self.mempool.len()
            invariant
                k <= self.mempool@.len(),
                mempool@.len() == k,
                forall|j: int|
                    0 <= j < k ==> mempool@[j].0 == self.mempool@[j].0 && mempool@[j].1@
                        == self.mempool@[j].1@,
            decreases self.mempool@.len() - k,
        {
            mempool.push((self.mempool[k].0, self.mempool[k].1.clone()));
            k += 1;
        }
        assert(block_views(blocks@) =~= block_views(self.blocks@));
        assert(pool_views(mempool@) =~= pool_views(self.mempool@));
        Blockchain { blocks, utxos: self.utxos.clone(), target: self.target, mempool }
    }
}

impl Blockchain {
    /// The unspent outputs as they are stored, in order.
    pub closed spec fn utxo_entries(&self) -> Seq<UtxoEntry> {
        self.utxos.entries()
    }

    /// The engine is in order: the blocks form a chain, no target is easier than the
    /// easiest, and the unspent outputs stand each under its own hash, none twice.
    pub closed spec fn wf(&self) -> bool {
        &&& self.utxos.wf()
        &&& keyed_by_content(self.utxos@)
        &&& self.target@ <= crate::min_target()@
        &&& chain_valid(block_views(self.blocks@))
    }

    /// What `wf` says, for those who cannot see inside.
    pub proof fn lemma_wf(&self)
        requires
            self.wf(),
        ensures
            self@.target@ <= crate::min_target()@,
            chain_valid(self@.blocks),
            keyed_by_content(self@.utxos),
            crate::types::utxo::keys_distinct(self.utxo_entries()),
    {
    }

    /// In an engine in order every block but the first names the hash of the block
    /// before it as its parent, meets its own target, carries the Merkle root of its
    /// transactions and is later than the block before it; the first names the zero hash.
    pub proof fn lemma_linked(&self, at: int)
        requires
            self.wf(),
            0 <= at < self@.blocks.len(),
        ensures
            at == 0 ==> self@.blocks[0].header.prev_block_hash == crate::sha256::Hash::zero_value(),
            at >= 1 ==> self@.blocks[at].header.prev_block_hash == self@.blocks[at
                - 1].content_hash(),
            at >= 1 ==> extends(self@.blocks[at - 1], self@.blocks[at]),
    {
        lemma_chain_links(self@.blocks, at);
    }

    /// In a chain every block but the first names the hash of the block before it.
    pub proof fn lemma_links(blocks: Seq<BlockView>)
        requires
            chain_valid(blocks),
        ensures
            forall|i: int|
                1 <= i < blocks.len() ==> (#[trigger] blocks[i]).header.prev_block_hash == blocks[i
                    - 1].content_hash(),
    {
        assert forall|i: int| 1 <= i < blocks.len() implies (
        #[trigger] blocks[i]).header.prev_block_hash == blocks[i - 1].content_hash() by {
            lemma_chain_links(blocks, i);
        }
    }

    /// In an engine in order every unspent output stands under its own hash.
    pub proof fn lemma_keyed(&self, hash: crate::sha256::Hash)
        requires
            self.wf(),
            self@.utxos.dom().contains(hash),
        ensures
            self@.utxos[hash].1.content_hash() == hash,
    {
        lemma_keyed_kept(self@.utxos, hash, false);
    }

    /// What is in order about an engine is in order about its parts.
    pub proof fn lemma_valid_parts(&self)
        requires
            self.wf(),
        ensures
            valid_parts(self@.blocks, self.utxo_entries(), self@.target),
    {
        lemma_entries_keyed(self.utxos.entries());
    }

    /// The engine that holds the given blocks, unspent outputs and target, and no
    /// pending transaction; `None` where the blocks form no chain, a key occurs twice,
    /// an output does not stand under its own hash, or the target is easier than the
    /// easiest.
    pub fn from_parts(blocks: Vec<Block>, entries: Vec<UtxoEntry>, target: U256) -> (chain: Option<
        Blockchain,
    >)
        ensures
            chain.is_some() == valid_parts(block_views(blocks@), entries@, target),
            chain.is_some() ==> chain.unwrap().wf() && chain.unwrap()@.blocks == block_views(
                blocks@,
            ) && chain.unwrap().utxo_entries() == entries@ && chain.unwrap()@.target == target
                && chain.unwrap()@.mempool.len() == 0,
    {
        if !chain_is_valid(&blocks) {
            return None;
        }
        if !target.le(&crate::min_target()) {
            return None;
        }
        if !entries_are_keyed(&entries) {
            return None;
        }
        let ghost listed = entries@;
        match UtxoSet::from_entries(entries) {
            Some(utxos) => {
                proof {
                    lemma_entries_keyed(listed);
                }
                Some(Blockchain { blocks, utxos, target, mempool: Vec::new() })
            },
            None => None,
        }
    }

    /// The empty engine, at the easiest target.
    pub fn new() -> (chain: Blockchain)
        ensures
            chain.wf(),
            chain@.blocks.len() == 0,
            chain@.utxos == UtxoMap::empty(),
            chain@.target == crate::min_target(),
            chain@.mempool.len() == 0,
    {
        let chain = Blockchain {
            blocks: Vec::new(),
            utxos: UtxoSet::new(),
            target: crate::min_target(),
            mempool: Vec::new(),
        };
        proof {
            lemma_chain_empty();
            lemma_keyed_empty();
            assert(block_views(chain.blocks@) =~= Seq::<BlockView>::empty());
        }
        chain
    }

    /// The unspent outputs.
    pub fn utxos(&self) -> (utxos: &UtxoSet)
        ensures
            utxos@ == self@.utxos,
            utxos.entries() == self.utxo_entries(),
            self.wf() ==> utxos.wf(),
    {
        &self.utxos
    }

    /// The current target.
    pub fn target(&self) -> (target: U256)
        ensures
            target == self@.target,
    {
        self.target
    }

    /// The accepted blocks, in order.
    pub fn blocks(&self) -> (blocks: &Vec<Block>)
        ensures
            block_views(blocks@) == self@.blocks,
    {
        &self.blocks
    }

    /// How many blocks are accepted.
    pub fn block_height(&self) -> (height: u64)
        ensures
            height == self@.blocks.len(),
    {
        self.blocks.len() as u64
    }

    /// The pending transactions, each with the time of its admission.
    pub fn mempool(&self) -> (pool: &Vec<(i64, Transaction)>)
        ensures
            pool_views(pool@) == self@.mempool,
    {
        &self.mempool
    }

    /// What `add_block` would say of `block`, without changing anything.
    pub fn check_block(&self, block: &Block) -> (result: Result<(), BtcError>)
        requires
            self.wf(),
        ensures
            result == add_block_result(self@, block@),
    {
        let count: usize = self.blocks.len();
        if count == 0 {
            if block.header.prev_block_hash != crate::sha256::Hash::zero() {
                return Err(BtcError::InvalidBlock);
            }
            return Ok(());
        }
        let tip = &self.blocks[count - 1];
        assert(self@.blocks.last() == tip@);
        if block.header.prev_block_hash != tip.hash() {
            return Err(BtcError::InvalidBlock);
        }
        if !block.header.hash().matches_target(block.header.target) {
            return Err(BtcError::InvalidBlock);
        }
        let root = MerkleRoot::calculate(block.transactions.as_slice());
        if root != block.header.merkle_root {
            return Err(BtcError::InvalidMerkleRoot);
        }
        if block.header.timestamp <= tip.header.timestamp {
            return Err(BtcError::InvalidBlock);
        }
        block.verify_transactions(count as u64, &self.utxos)
    }

    /// Validates `block` against the tip and the unspent outputs and, where it passes,
    /// appends it, drops from the pool the transactions that it includes, and adjusts
    /// the target. A block that is rejected changes nothing. The unspent outputs stay as
    /// they are either way: `rebuild_utxos` brings them up to date.
    pub fn add_block(&mut self, block: Block) -> (result: Result<(), BtcError>)
        requires
            old(self).wf(),
        ensures
            final(self).wf(),
            result == add_block_result(old(self)@, block@),
            result.is_err() ==> final(self)@ == old(self)@,
            result.is_ok() ==> final(self)@.blocks == old(self)@.blocks.push(block@),
            result.is_ok() ==> final(self)@.mempool == without_included(
                old(self)@.mempool,
                block@.transactions,
            ),
            result.is_ok() ==> final(self)@.target@ == target_after(
                old(self)@.blocks.push(block@),
                old(self)@.target@,
            ),
            final(self)@.utxos == old(self)@.utxos,
            final(self).utxo_entries() == old(self).utxo_entries(),
            final(self)@.target@ <= crate::min_target()@,
            forall|i: int|
                1 <= i < final(self)@.blocks.len() ==> (#[trigger] final(self)@.blocks[i]).header.prev_block_hash
                    == final(self)@.blocks[i - 1].content_hash(),
    {
        let checked = self.check_block(&block);
        if let Err(error) = checked {
            proof {
                Self::lemma_links(self@.blocks);
            }
            return Err(error);
        }
        assert(checked.is_ok());
        let kept = pool_without(&self.mempool, &block.transactions);
        let ghost before = block_views(self.blocks@);
        proof {
            lemma_chain_push(before, block@);
        }
        self.mempool = kept;
        self.blocks.push(block);
        assert(block_views(self.blocks@) =~= before.push(block@));
        self.try_adjust_target();
        proof {
            Self::lemma_links(self@.blocks);
        }
        checked
    }

    /// Adjusts the target where the chain has just completed a period of
    /// `DIFFICULTY_UPDATE_INTERVAL` blocks; else leaves it.
    pub fn try_adjust_target(&mut self)
        requires
            old(self).wf(),
        ensures
            final(self).wf(),
            final(self)@.target@ == target_after(old(self)@.blocks, old(self)@.target@),
            final(self)@.target@ <= crate::min_target()@,
            final(self)@.blocks == old(self)@.blocks,
            final(self)@.utxos == old(self)@.utxos,
            final(self)@.mempool == old(self)@.mempool,
            final(self).utxo_entries() == old(self).utxo_entries(),
    {
        let count: usize = self.blocks.len();
        let period: usize = crate::DIFFICULTY_UPDATE_INTERVAL as usize;
        if count == 0 || count % period != 0 {
            return ;
        }
        let start: i64 = self.blocks[count - period].header.timestamp;
        let end: i64 = self.blocks[count - 1].header.timestamp;
        let elapsed: i128 = end as i128 - start as i128;
        self.target = next_target(self.target, elapsed);
    }

    /// Admits `transaction` to the pool as of `now`, or rejects it with
    /// `InvalidTransaction` and changes nothing. A transaction is admitted where every
    /// input spends a known output, no two inputs spend the same, and the inputs bring
    /// at least what the outputs take.
    pub fn add_to_mempool_at(&mut self, transaction: Transaction, now: i64) -> (result: Result<
        (),
        BtcError,
    >)
        requires
            old(self).wf(),
        ensures
            final(self).wf(),
            final(self)@.target@ <= crate::min_target()@,
            result.is_ok() == admissible(transaction@, old(self)@.utxos),
            result.is_err() ==> result == Err::<(), BtcError>(BtcError::InvalidTransaction),
            result.is_err() ==> final(self)@ == old(self)@ && final(self).utxo_entries() == old(
                self,
            ).utxo_entries(),
            result.is_ok() ==> final(self)@ == admitted(old(self)@, transaction@, now),
            result.is_ok() ==> reserved(transaction@, final(self)@.utxos),
            same_outputs(old(self)@.utxos, final(self)@.utxos),
    {
        if !is_admissible(&transaction, &self.utxos) {
            assert(same_outputs(self@.utxos, self@.utxos));
            return Err(BtcError::InvalidTransaction);
        }
        proof {
            lemma_admitted_reserves(self@, transaction@, now);
        }
        resolve_replacements(&mut self.utxos, &mut self.mempool, &transaction.inputs);
        mark_inputs(&mut self.utxos, &transaction.inputs, true);
        let ghost resolved = pool_views(self.mempool@);
        let ghost entering = transaction@;
        self.mempool.push((now, transaction));
        assert(pool_views(self.mempool@) =~= resolved.push((now, entering)));
        let sorted = sort_pool(&self.mempool, &self.utxos);
        self.mempool = sorted;
        Ok(())
    }

    /// Admits `transaction` to the pool as of the time that the clock shows.
    pub fn add_to_mempool(&mut self, transaction: Transaction) -> (result: Result<(), BtcError>)
        requires
            old(self).wf(),
        ensures
            final(self).wf(),
            final(self)@.target@ <= crate::min_target()@,
            result.is_ok() == admissible(transaction@, old(self)@.utxos),
            result.is_err() ==> result == Err::<(), BtcError>(BtcError::InvalidTransaction),
            result.is_err() ==> final(self)@ == old(self)@ && final(self).utxo_entries() == old(
                self,
            ).utxo_entries(),
            result.is_ok() ==> exists|now: i64|
                final(self)@ == #[trigger] admitted(old(self)@, transaction@, now),
            result.is_ok() ==> reserved(transaction@, final(self)@.utxos),
            same_outputs(old(self)@.utxos, final(self)@.utxos),
    {
        let now = current_time();
        self.add_to_mempool_at(transaction, now)
    }

    /// Drops the pending transactions that were admitted more than
    /// `MAX_MEMPOOL_TRANSACTION_AGE` seconds before `now`, and releases whatever they
    /// had reserved.
    pub fn cleanup_mempool_at(&mut self, now: i64)
        requires
            old(self).wf(),
        ensures
            final(self).wf(),
            final(self)@.target@ <= crate::min_target()@,
            final(self)@ == swept(old(self)@, now),
            same_outputs(old(self)@.utxos, final(self)@.utxos),
    {
        proof {
            lemma_all_marked(self@.utxos, expired_inputs(self@.mempool, now), false);
        }
        let kept = drop_expired(&mut self.utxos, &self.mempool, now);
        self.mempool = kept;
    }

    /// Drops the pending transactions that are too old by the clock.
    pub fn cleanup_mempool(&mut self)
        requires
            old(self).wf(),
        ensures
            final(self).wf(),
            final(self)@.target@ <= crate::min_target()@,
            exists|now: i64| final(self)@ == #[trigger] swept(old(self)@, now),
            same_outputs(old(self)@.utxos, final(self)@.utxos),
    {
        let now = current_time();
        self.cleanup_mempool_at(now);
    }

    /// Sets the unspent outputs to what the chain leaves: starts from nothing and, for
    /// each transaction of each block in order, takes out what it spends and puts in
    /// what it creates, unmarked.
    pub fn rebuild_utxos(&mut self)
        requires
            old(self).wf(),
        ensures
            final(self).wf(),
            final(self)@.target@ <= crate::min_target()@,
            final(self)@.utxos == replay(old(self)@.blocks),
            forall|hash: crate::sha256::Hash| #[trigger]
                final(self)@.utxos.dom().contains(hash) <==> crate::types::laws::created_unspent(
                    crate::types::laws::chain_transactions(old(self)@.blocks),
                    hash,
                ),
            forall|hash: crate::sha256::Hash| #[trigger]
                final(self)@.utxos.dom().contains(hash) ==> !final(self)@.utxos[hash].0
                    && final(self)@.utxos[hash].1.content_hash() == hash,
            final(self)@.blocks == old(self)@.blocks,
            final(self)@.target == old(self)@.target,
            final(self)@.mempool == old(self)@.mempool,
    {
        let mut utxos = UtxoSet::new();
        let ghost blocks = block_views(self.blocks@);
        let mut b: usize = 0;
        assert(replay(blocks.take(0)) =~= UtxoMap::empty());
        proof {
            lemma_keyed_empty();
        }
        while b < self.blocks.len()
            invariant
                b <= self.blocks@.len(),
                blocks == block_views(self.blocks@),
                utxos.wf(),
                keyed_by_content(utxos@),
                utxos@ == replay(blocks.take(b as int)),
            decreases self.blocks@.len() - b,
        {
            apply_transactions(&mut utxos, &self.blocks[b].transactions);
            proof {
                assert(blocks.take(b + 1).drop_last() =~= blocks.take(b as int));
                assert(blocks.take(b + 1).last() == self.blocks@[b as int]@);
            }
            b += 1;
        }
        assert(blocks.take(blocks.len() as int) =~= blocks);
        self.utxos = utxos;
        proof {
            assert forall|hash: crate::sha256::Hash| #[trigger]
                self@.utxos.dom().contains(hash) <==> crate::types::laws::created_unspent(
                    crate::types::laws::chain_transactions(blocks),
                    hash,
                ) by {
                crate::types::laws::lemma_replay_unspent(blocks, hash);
            }
            assert forall|hash: crate::sha256::Hash| #[trigger]
                self@.utxos.dom().contains(hash) implies !self@.utxos[hash].0
                && self@.utxos[hash].1.content_hash() == hash by {
                crate::types::laws::lemma_replay_unspent(blocks, hash);
            }
        }
    }
}

/// The hash of each transaction, in order.
pub fn hash_transactions(transactions: &Vec<Transaction>) -> (hashes: Vec<crate::sha256::Hash>)
    ensures
        hashes@ == transaction_hashes(crate::types::transaction::transaction_views(transactions@)),
{
    let ghost all = transaction_hashes(crate::types::transaction::transaction_views(transactions@));
    let mut hashes: Vec<crate::sha256::Hash> = Vec::new();
    let mut i: usize = 0;
    while i < transactions.len()
        invariant
            i <= transactions@.len(),
            all == transaction_hashes(crate::types::transaction::transaction_views(transactions@)),
            hashes@ == all.take(i as int),
        decreases transactions@.len() - i,
    {
        hashes.push(transactions[i].hash());
        i += 1;
        assert(hashes@ =~= all.take(i as int));
    }
    assert(all.take(transactions@.len() as int) =~= all);
    hashes
}

/// A copy of the pending transactions but those that are among `included`.
fn pool_without(pool: &Vec<(i64, Transaction)>, included: &Vec<Transaction>) -> (kept: Vec<
    (i64, Transaction),
>)
    ensures
        pool_views(kept@) == without_included(
            pool_views(pool@),
            crate::types::transaction::transaction_views(included@),
        ),
{
    let ghost views = pool_views(pool@);
    let ghost block = crate::types::transaction::transaction_views(included@);
    let hashes = hash_transactions(included);
    let mut kept: Vec<(i64, Transaction)> = Vec::new();
    let mut i: usize = 0;
    assert(pool_views(kept@) =~= without_included(views.take(0), block));
    while i < pool.len()
        invariant
            i <= pool@.len(),
            views == pool_views(pool@),
            block == crate::types::transaction::transaction_views(included@),
            hashes@ == transaction_hashes(block),
            pool_views(kept@) == without_included(views.take(i as int), block),
        decreases pool@.len() - i,
    {
        let entry = &pool[i];
        let digest = entry.1.hash();
        let ghost old_kept = pool_views(kept@);
        proof {
            assert(views.take(i + 1).drop_last() =~= views.take(i as int));
            assert(views.take(i + 1).last() == (entry.0, entry.1@));
        }
        if !contains_hash(&hashes, &digest) {
            kept.push((entry.0, entry.1.clone()));
            assert(pool_views(kept@) =~= old_kept.push((entry.0, entry.1@)));
        }
        i += 1;
    }
    assert(views.take(pool@.len() as int) =~= views);
    kept
}

/// Takes out of `utxos` what the transaction spends, then puts in what it creates.
fn apply_transaction(utxos: &mut UtxoSet, transaction: &Transaction)
    requires
        old(utxos).wf(),
        keyed_by_content(old(utxos)@),
    ensures
        final(utxos).wf(),
        keyed_by_content(final(utxos)@),
        final(utxos)@ == after_transaction(old(utxos)@, transaction@),
{
    let ghost entered = utxos@;
    let mut i: usize = 0;
    assert(without_spent(entered, transaction@.inputs.take(0)) =~= entered);
    while i < transaction.inputs.len()
        invariant
            i <= transaction.inputs@.len(),
            utxos.wf(),
            keyed_by_content(utxos@),
            utxos@ == without_spent(entered, transaction@.inputs.take(i as int)),
        decreases transaction.inputs@.len() - i,
    {
        assert(transaction@.inputs.take(i + 1).drop_last() =~= transaction@.inputs.take(i as int));
        proof {
            lemma_keyed_kept(
                utxos@,
                transaction.inputs@[i as int].prev_transaction_output_hash,
                false,
            );
        }
        utxos.remove(&transaction.inputs[i].prev_transaction_output_hash);
        i += 1;
    }
    assert(transaction@.inputs.take(transaction@.inputs.len() as int) =~= transaction@.inputs);
    let ghost spent = utxos@;
    let mut k: usize = 0;
    assert(with_created(spent, transaction@.outputs.take(0)) =~= spent);
    while k < transaction.outputs.len()
        invariant
            k <= transaction.outputs@.len(),
            utxos.wf(),
            keyed_by_content(utxos@),
            utxos@ == with_created(spent, transaction@.outputs.take(k as int)),
        decreases transaction.outputs@.len() - k,
    {
        assert(transaction@.outputs.take(k + 1).drop_last() =~= transaction@.outputs.take(k as int));
        let output = transaction.outputs[k];
        proof {
            lemma_keyed_put(utxos@, false, output);
        }
        utxos.insert(output.hash(), false, output);
        k += 1;
    }
    assert(transaction@.outputs.take(transaction@.outputs.len() as int) =~= transaction@.outputs);
}

/// Applies the transactions to `utxos`, in order.
fn apply_transactions(utxos: &mut UtxoSet, transactions: &Vec<Transaction>)
    requires
        old(utxos).wf(),
        keyed_by_content(old(utxos)@),
    ensures
        final(utxos).wf(),
        keyed_by_content(final(utxos)@),
        final(utxos)@ == after_transactions(
            old(utxos)@,
            crate::types::transaction::transaction_views(transactions@),
        ),
{
    let ghost views = crate::types::transaction::transaction_views(transactions@);
    let ghost start = utxos@;
    let mut t: usize = 0;
    assert(after_transactions(start, views.take(0)) =~= start);
    while t < transactions.len()
        invariant
            t <= transactions@.len(),
            views == crate::types::transaction::transaction_views(transactions@),
            utxos.wf(),
            keyed_by_content(utxos@),
            utxos@ == after_transactions(start, views.take(t as int)),
        decreases transactions@.len() - t,
    {
        apply_transaction(utxos, &transactions[t]);
        proof {
            assert(views.take(t + 1).drop_last() =~= views.take(t as int));
            assert(views.take(t + 1).last() == transactions@[t as int]@);
        }
        t += 1;
    }
    assert(views.take(views.len() as int) =~= views);
}

} // verus!
