//! What holds of the engine over whole chains and whole pools.

use vstd::prelude::*;
use crate::types::block::BlockView;
use crate::types::blockchain::{
    BlockchainView, admitted, after_transactions, replay, reserved, swept, with_created,
    without_included, without_spent,
};
use crate::types::mempool::{
    Pending, PoolState, admissible, after_replacements, all_marked, by_fee, expired,
    expired_inputs, fee, first_producer, has_producer, is_first_producer, lemma_all_marked,
    lemma_by_fee_sorted, same_outputs, unexpired,
};
use crate::types::rules::{all_known, concat_all, input_total, output_hashes, spent_hashes};
use crate::types::transaction::{TransactionInput, TransactionOutput, TransactionView};
use crate::types::utxo::UtxoMap;

verus! {

/// The transactions of each block.
pub open spec fn transaction_lists(blocks: Seq<BlockView>) -> Seq<Seq<TransactionView>> {
    Seq::new(blocks.len(), |i: int| blocks[i].transactions)
}

/// Every transaction of the chain, in the order of the chain.
pub open spec fn chain_transactions(blocks: Seq<BlockView>) -> Seq<TransactionView> {
    concat_all(transaction_lists(blocks))
}

/// Whether the transaction at `at` creates an output with the hash `hash`.
pub open spec fn creates_at(transactions: Seq<TransactionView>, at: int, hash: crate::sha256::Hash) -> bool {
    0 <= at < transactions.len() && output_hashes(transactions[at].outputs).contains(hash)
}

/// Whether the transaction at `at` spends the output with the hash `hash`.
pub open spec fn spends_at(transactions: Seq<TransactionView>, at: int, hash: crate::sha256::Hash) -> bool {
    0 <= at < transactions.len() && spent_hashes(transactions[at].inputs).contains(hash)
}

/// Whether no transaction after the one at `at` spends the output with the hash `hash`.
pub open spec fn unspent_after(
    transactions: Seq<TransactionView>,
    at: int,
    hash: crate::sha256::Hash,
) -> bool {
    forall|later: int| at < later < transactions.len() ==> !spends_at(transactions, later, hash)
}

/// Whether some transaction creates an output with the hash `hash` that no later
/// transaction spends.
pub open spec fn created_unspent(transactions: Seq<TransactionView>, hash: crate::sha256::Hash) -> bool {
    exists|at: int| creates_at(transactions, at, hash) && unspent_after(transactions, at, hash)
}

/// What is left after spending: what was there and is not spent, as it was.
pub proof fn lemma_without_spent(utxos: UtxoMap, inputs: Seq<TransactionInput>)
    ensures
        forall|hash: crate::sha256::Hash|
            without_spent(utxos, inputs).dom().contains(hash) <==> utxos.dom().contains(hash)
                && !spent_hashes(inputs).contains(hash),
        forall|hash: crate::sha256::Hash|
            without_spent(utxos, inputs).dom().contains(hash) ==> without_spent(utxos, inputs)[hash]
                == utxos[hash],
    decreases inputs.len(),
{
    if inputs.len() > 0 {
        let rest = inputs.drop_last();
        let last = inputs.last().prev_transaction_output_hash;
        lemma_without_spent(utxos, rest);
        assert forall|hash: crate::sha256::Hash|
            spent_hashes(inputs).contains(hash) <==> (spent_hashes(rest).contains(hash) || hash
                == last) by {
            if spent_hashes(inputs).contains(hash) {
                let at = choose|i: int|
                    0 <= i < spent_hashes(inputs).len() && spent_hashes(inputs)[i] == hash;
                if at < rest.len() {
                    assert(spent_hashes(rest)[at] == hash);
                }
            }
            if spent_hashes(rest).contains(hash) {
                let at = choose|i: int|
                    0 <= i < spent_hashes(rest).len() && spent_hashes(rest)[i] == hash;
                assert(spent_hashes(inputs)[at] == hash);
            }
            if hash == last {
                assert(spent_hashes(inputs)[inputs.len() - 1] == hash);
            }
        }
    }
}

/// What is there after creating: what was there, and every output created, unmarked
/// under its own hash.
pub proof fn lemma_with_created(utxos: UtxoMap, outputs: Seq<TransactionOutput>)
    ensures
        forall|hash: crate::sha256::Hash|
            with_created(utxos, outputs).dom().contains(hash) <==> utxos.dom().contains(hash)
                || output_hashes(outputs).contains(hash),
        forall|hash: crate::sha256::Hash|
            output_hashes(outputs).contains(hash) ==> !with_created(utxos, outputs)[hash].0
                && with_created(utxos, outputs)[hash].1.content_hash() == hash && outputs.contains(
                with_created(utxos, outputs)[hash].1,
            ),
        forall|hash: crate::sha256::Hash|
            !output_hashes(outputs).contains(hash) ==> with_created(utxos, outputs)[hash]
                == utxos[hash],
    decreases outputs.len(),
{
    if outputs.len() > 0 {
        let rest = outputs.drop_last();
        let last = outputs.last();
        lemma_with_created(utxos, rest);
        assert forall|hash: crate::sha256::Hash|
            output_hashes(outputs).contains(hash) <==> (output_hashes(rest).contains(hash) || hash
                == last.content_hash()) by {
            if output_hashes(outputs).contains(hash) {
                let at = choose|i: int|
                    0 <= i < output_hashes(outputs).len() && output_hashes(outputs)[i] == hash;
                if at < rest.len() {
                    assert(output_hashes(rest)[at] == hash);
                }
            }
            if output_hashes(rest).contains(hash) {
                let at = choose|i: int|
                    0 <= i < output_hashes(rest).len() && output_hashes(rest)[i] == hash;
                assert(output_hashes(outputs)[at] == hash);
            }
            if hash == last.content_hash() {
                assert(output_hashes(outputs)[outputs.len() - 1] == hash);
            }
        }
        assert forall|hash: crate::sha256::Hash| output_hashes(outputs).contains(hash) implies outputs.contains(
            with_created(utxos, outputs)[hash].1,
        ) by {
            if hash == last.content_hash() {
                assert(outputs[outputs.len() - 1] == last);
            } else {
                let found = with_created(utxos, rest)[hash].1;
                let at = choose|i: int| 0 <= i < rest.len() && rest[i] == found;
                assert(outputs[at] == found);
            }
        }
    }
}

/// Whether no transaction spends the output with the hash `hash`.
pub open spec fn never_spent(transactions: Seq<TransactionView>, hash: crate::sha256::Hash) -> bool {
    forall|at: int| 0 <= at < transactions.len() ==> !spends_at(transactions, at, hash)
}

/// After the transactions, an output is there exactly where one of them created it and
/// none after that one spent it, or it was there before and none of them spent it.
pub proof fn lemma_after_transactions(
    utxos: UtxoMap,
    transactions: Seq<TransactionView>,
    hash: crate::sha256::Hash,
)
    ensures
        after_transactions(utxos, transactions).dom().contains(hash) <==> created_unspent(
            transactions,
            hash,
        ) || (utxos.dom().contains(hash) && never_spent(transactions, hash)),
        created_unspent(transactions, hash) ==> !after_transactions(utxos, transactions)[hash].0
            && after_transactions(utxos, transactions)[hash].1.content_hash() == hash,
    decreases transactions.len(),
{
    if transactions.len() > 0 {
        let rest = transactions.drop_last();
        let last = transactions.last();
        let top = transactions.len() - 1;
        let middle = after_transactions(utxos, rest);
        lemma_after_transactions(utxos, rest, hash);
        lemma_without_spent(middle, last.inputs);
        lemma_with_created(without_spent(middle, last.inputs), last.outputs);
        let after = after_transactions(utxos, transactions);
        let made = output_hashes(last.outputs).contains(hash);
        let taken = spent_hashes(last.inputs).contains(hash);
        assert(after.dom().contains(hash) <==> made || (middle.dom().contains(hash) && !taken));
        assert(transactions[top] == last);
        if made {
            assert(creates_at(transactions, top, hash) && unspent_after(transactions, top, hash));
        }
        if created_unspent(rest, hash) && !taken {
            let at = choose|at: int| creates_at(rest, at, hash) && unspent_after(rest, at, hash);
            assert(rest[at] == transactions[at]);
            assert forall|later: int| at < later < transactions.len() implies !spends_at(
                transactions,
                later,
                hash,
            ) by {
                if later < top {
                    assert(!spends_at(rest, later, hash));
                    assert(rest[later] == transactions[later]);
                }
            }
            assert(creates_at(transactions, at, hash) && unspent_after(transactions, at, hash));
        }
        if never_spent(rest, hash) && !taken {
            assert forall|at: int| 0 <= at < transactions.len() implies !spends_at(
                transactions,
                at,
                hash,
            ) by {
                if at < top {
                    assert(!spends_at(rest, at, hash));
                    assert(rest[at] == transactions[at]);
                }
            }
        }
        if created_unspent(transactions, hash) {
            let at = choose|at: int|
                creates_at(transactions, at, hash) && unspent_after(transactions, at, hash);
            if at < top {
                assert(!spends_at(transactions, top, hash));
                assert(rest[at] == transactions[at]);
                assert forall|later: int| at < later < rest.len() implies !spends_at(
                    rest,
                    later,
                    hash,
                ) by {
                    assert(!spends_at(transactions, later, hash));
                    assert(rest[later] == transactions[later]);
                }
                assert(creates_at(rest, at, hash) && unspent_after(rest, at, hash));
            }
        }
        if never_spent(transactions, hash) {
            assert(!spends_at(transactions, top, hash));
            assert forall|at: int| 0 <= at < rest.len() implies !spends_at(rest, at, hash) by {
                assert(!spends_at(transactions, at, hash));
                assert(rest[at] == transactions[at]);
            }
        }
    }
}

/// Applying one list of transactions and then another is applying both in a row.
pub proof fn lemma_after_transactions_concat(
    utxos: UtxoMap,
    first: Seq<TransactionView>,
    second: Seq<TransactionView>,
)
    ensures
        after_transactions(utxos, first + second) == after_transactions(
            after_transactions(utxos, first),
            second,
        ),
    decreases second.len(),
{
    if second.len() == 0 {
        assert(first + second =~= first);
    } else {
        lemma_after_transactions_concat(utxos, first, second.drop_last());
        assert((first + second).drop_last() =~= first + second.drop_last());
    }
}

/// Replaying a chain block by block is applying all its transactions in a row to
/// nothing.
pub proof fn lemma_replay_flat(blocks: Seq<BlockView>)
    ensures
        replay(blocks) == after_transactions(UtxoMap::empty(), chain_transactions(blocks)),
    decreases blocks.len(),
{
    if blocks.len() > 0 {
        lemma_replay_flat(blocks.drop_last());
        assert(transaction_lists(blocks).drop_last() =~= transaction_lists(blocks.drop_last()));
        lemma_after_transactions_concat(
            UtxoMap::empty(),
            chain_transactions(blocks.drop_last()),
            blocks.last().transactions,
        );
    }
}

/// The unspent outputs of a chain are exactly the outputs that a transaction of the
/// chain creates and no later transaction of the chain spends. Each stands unmarked under
/// its own hash.
pub proof fn lemma_replay_unspent(blocks: Seq<BlockView>, hash: crate::sha256::Hash)
    ensures
        replay(blocks).dom().contains(hash) <==> created_unspent(chain_transactions(blocks), hash),
        replay(blocks).dom().contains(hash) ==> !replay(blocks)[hash].0
            && replay(blocks)[hash].1.content_hash() == hash,
{
    lemma_replay_flat(blocks);
    lemma_after_transactions(UtxoMap::empty(), chain_transactions(blocks), hash);
}

/// Whether every pending transaction has everything it spends there and reserved.
pub open spec fn pool_reserved(pool: Seq<Pending>, utxos: UtxoMap) -> bool {
    forall|i: int| 0 <= i < pool.len() ==> reserved((#[trigger] pool[i]).1, utxos)
}

/// Whether no two pending transactions spend the same output.
pub open spec fn pool_disjoint(pool: Seq<Pending>) -> bool {
    forall|i: int, j: int, a: int, b: int|
        0 <= i < pool.len() && 0 <= j < pool.len() && i != j && 0 <= a < pool[i].1.inputs.len() && 0
            <= b < pool[j].1.inputs.len() ==> (#[trigger] pool[i].1.inputs[a]).prev_transaction_output_hash
            != (#[trigger] pool[j].1.inputs[b]).prev_transaction_output_hash
}

/// Whether none of the outputs that the transaction spends is reserved.
pub open spec fn spends_free(transaction: TransactionView, utxos: UtxoMap) -> bool {
    forall|i: int|
        0 <= i < transaction.inputs.len() ==> !utxos[(
        #[trigger] transaction.inputs[i]).prev_transaction_output_hash].0
}

/// What is left of the pool when a block is accepted was in the pool.
pub proof fn lemma_without_included_member(
    pool: Seq<Pending>,
    included: Seq<TransactionView>,
    at: int,
)
    requires
        0 <= at < without_included(pool, included).len(),
    ensures
        pool.contains(without_included(pool, included)[at]),
    decreases pool.len(),
{
    if pool.len() > 0 {
        let rest = without_included(pool.drop_last(), included);
        if at < rest.len() {
            lemma_without_included_member(pool.drop_last(), included, at);
            let found = rest[at];
            let place = choose|i: int| 0 <= i < pool.drop_last().len() && pool.drop_last()[i] == found;
            assert(pool[place] == found);
        } else {
            assert(pool[pool.len() - 1] == pool.last());
        }
    }
}

/// Accepting a block keeps every pending transaction that stays reserved: the pool
/// loses transactions at most, and no mark changes.
pub proof fn lemma_block_keeps_reserved(
    pool: Seq<Pending>,
    included: Seq<TransactionView>,
    utxos: UtxoMap,
)
    requires
        pool_reserved(pool, utxos),
    ensures
        pool_reserved(without_included(pool, included), utxos),
{
    let left = without_included(pool, included);
    assert forall|i: int| 0 <= i < left.len() implies reserved((#[trigger] left[i]).1, utxos) by {
        lemma_without_included_member(pool, included, i);
        let place = choose|k: int| 0 <= k < pool.len() && pool[k] == left[i];
        assert(reserved(pool[place].1, utxos));
    }
}

/// Inputs that spend nothing reserved replace nothing.
pub proof fn lemma_no_replacement(state: PoolState, inputs: Seq<TransactionInput>)
    requires
        forall|i: int|
            0 <= i < inputs.len() ==> !state.0[(#[trigger] inputs[i]).prev_transaction_output_hash].0,
    ensures
        after_replacements(state, inputs) == state,
    decreases inputs.len(),
{
    if inputs.len() > 0 {
        lemma_no_replacement(state, inputs.drop_last());
        assert(inputs[inputs.len() - 1] == inputs.last());
    }
}

/// Admitting a transaction that spends nothing reserved leaves every pending
/// transaction reserved, the new one with them.
pub proof fn lemma_admission_keeps_reserved(
    before: BlockchainView,
    transaction: TransactionView,
    now: i64,
)
    requires
        admissible(transaction, before.utxos),
        spends_free(transaction, before.utxos),
        pool_reserved(before.mempool, before.utxos),
    ensures
        pool_reserved(
            admitted(before, transaction, now).mempool,
            admitted(before, transaction, now).utxos,
        ),
{
    broadcast use vstd::seq_lib::group_to_multiset_ensures;

    let start: PoolState = (before.utxos, before.mempool);
    lemma_no_replacement(start, transaction.inputs);
    let hashes = spent_hashes(transaction.inputs);
    let utxos = all_marked(before.utxos, hashes, true);
    lemma_all_marked(before.utxos, hashes, true);
    let entered = before.mempool.push((now, transaction));
    let pool = by_fee(entered, utxos);
    lemma_by_fee_sorted(entered, utxos);
    crate::types::blockchain::lemma_admitted_reserves(before, transaction, now);
    assert forall|i: int| 0 <= i < pool.len() implies reserved((#[trigger] pool[i]).1, utxos) by {
        let entry = pool[i];
        assert(pool.to_multiset().count(entry) > 0);
        assert(entered.to_multiset().count(entry) > 0);
        let place = choose|k: int| 0 <= k < entered.len() && entered[k] == entry;
        if place < before.mempool.len() {
            assert(before.mempool[place] == entry);
            assert(reserved(entry.1, before.utxos));
            assert forall|a: int| 0 <= a < entry.1.inputs.len() implies {
                let hash = (#[trigger] entry.1.inputs[a]).prev_transaction_output_hash;
                utxos.dom().contains(hash) && utxos[hash].0
            } by {
                let hash = entry.1.inputs[a].prev_transaction_output_hash;
                assert(before.utxos.dom().contains(hash) && before.utxos[hash].0);
            }
        }
    }
}

/// The hashes that the expired transactions spend are spent by an expired transaction.
pub proof fn lemma_expired_inputs(pool: Seq<Pending>, now: i64, hash: crate::sha256::Hash)
    requires
        expired_inputs(pool, now).contains(hash),
    ensures
        exists|i: int, a: int|
            0 <= i < pool.len() && expired(pool[i].0, now) && 0 <= a < pool[i].1.inputs.len() && (
            #[trigger] pool[i].1.inputs[a]).prev_transaction_output_hash == hash,
    decreases pool.len(),
{
    if pool.len() > 0 {
        let rest = pool.drop_last();
        let last = pool.last();
        let earlier = expired_inputs(rest, now);
        let all = expired_inputs(pool, now);
        let at = choose|k: int| 0 <= k < all.len() && all[k] == hash;
        if expired(last.0, now) && at >= earlier.len() {
            let a = at - earlier.len();
            assert(spent_hashes(last.1.inputs)[a] == hash);
            assert(pool[pool.len() - 1].1.inputs[a].prev_transaction_output_hash == hash);
        } else {
            assert(earlier[at] == hash);
            lemma_expired_inputs(rest, now, hash);
            let (i, a) = choose|i: int, a: int|
                0 <= i < rest.len() && expired(rest[i].0, now) && 0 <= a < rest[i].1.inputs.len() && (
                #[trigger] rest[i].1.inputs[a]).prev_transaction_output_hash == hash;
            assert(pool[i].1.inputs[a].prev_transaction_output_hash == hash);
        }
    }
}

/// What is left of the pool after a sweep was in the pool and is not expired.
pub proof fn lemma_unexpired_member(pool: Seq<Pending>, now: i64, at: int)
    requires
        0 <= at < unexpired(pool, now).len(),
    ensures
        exists|i: int|
            0 <= i < pool.len() && #[trigger] pool[i] == unexpired(pool, now)[at] && !expired(
                pool[i].0,
                now,
            ),
    decreases pool.len(),
{
    if pool.len() > 0 {
        let rest = unexpired(pool.drop_last(), now);
        if at < rest.len() {
            lemma_unexpired_member(pool.drop_last(), now, at);
            let place = choose|i: int|
                0 <= i < pool.drop_last().len() && #[trigger] pool.drop_last()[i] == rest[at]
                    && !expired(pool.drop_last()[i].0, now);
            assert(pool[place] == rest[at]);
        } else {
            assert(pool[pool.len() - 1] == pool.last());
        }
    }
}

/// Where no two pending transactions spend the same output, a sweep leaves every
/// pending transaction that stays reserved.
pub proof fn lemma_sweep_keeps_reserved(before: BlockchainView, now: i64)
    requires
        pool_reserved(before.mempool, before.utxos),
        pool_disjoint(before.mempool),
    ensures
        pool_reserved(swept(before, now).mempool, swept(before, now).utxos),
{
    let released = expired_inputs(before.mempool, now);
    let utxos = swept(before, now).utxos;
    let pool = swept(before, now).mempool;
    lemma_all_marked(before.utxos, released, false);
    assert forall|k: int| 0 <= k < pool.len() implies reserved((#[trigger] pool[k]).1, utxos) by {
        lemma_unexpired_member(before.mempool, now, k);
        let j = choose|j: int|
            0 <= j < before.mempool.len() && #[trigger] before.mempool[j] == pool[k] && !expired(
                before.mempool[j].0,
                now,
            );
        assert(reserved(before.mempool[j].1, before.utxos));
        assert forall|b: int| 0 <= b < pool[k].1.inputs.len() implies {
            let hash = (#[trigger] pool[k].1.inputs[b]).prev_transaction_output_hash;
            utxos.dom().contains(hash) && utxos[hash].0
        } by {
            let hash = pool[k].1.inputs[b].prev_transaction_output_hash;
            assert(before.mempool[j].1.inputs[b].prev_transaction_output_hash == hash);
            assert(before.utxos.dom().contains(hash) && before.utxos[hash].0);
            if released.contains(hash) {
                lemma_expired_inputs(before.mempool, now, hash);
                let (i, a) = choose|i: int, a: int|
                    0 <= i < before.mempool.len() && expired(before.mempool[i].0, now) && 0 <= a
                        < before.mempool[i].1.inputs.len() && (
                    #[trigger] before.mempool[i].1.inputs[a]).prev_transaction_output_hash == hash;
                assert(i != j);
                assert(before.mempool[i].1.inputs[a].prev_transaction_output_hash
                    != before.mempool[j].1.inputs[b].prev_transaction_output_hash);
            }
        }
    }
}

/// Whether every pending transaction may be in the pool: it spends known outputs, each
/// once, and creates no value.
pub open spec fn pool_admissible(pool: Seq<Pending>, utxos: UtxoMap) -> bool {
    forall|i: int| 0 <= i < pool.len() ==> admissible((#[trigger] pool[i]).1, utxos)
}

/// What inputs bring depends on the outputs they spend, not on marks.
pub proof fn lemma_input_total_same_outputs(
    inputs: Seq<TransactionInput>,
    before: UtxoMap,
    after: UtxoMap,
)
    requires
        same_outputs(before, after),
    ensures
        input_total(inputs, before) == input_total(inputs, after),
        all_known(inputs, before) == all_known(inputs, after),
    decreases inputs.len(),
{
    if inputs.len() > 0 {
        lemma_input_total_same_outputs(inputs.drop_last(), before, after);
        let hash = inputs.last().prev_transaction_output_hash;
        if before.dom().contains(hash) {
            assert(before[hash].1 == after[hash].1);
        }
    }
    if all_known(inputs, before) {
        assert forall|i: int| 0 <= i < inputs.len() implies after.dom().contains(
            (#[trigger] inputs[i]).prev_transaction_output_hash,
        ) by {
            assert(before.dom().contains(inputs[i].prev_transaction_output_hash));
        }
    }
    if all_known(inputs, after) {
        assert forall|i: int| 0 <= i < inputs.len() implies before.dom().contains(
            (#[trigger] inputs[i]).prev_transaction_output_hash,
        ) by {
            assert(after.dom().contains(inputs[i].prev_transaction_output_hash));
        }
    }
}

/// Whether a transaction may be in the pool, and the fee it leaves, depend on the
/// outputs that are there, not on marks.
pub proof fn lemma_admissible_same_outputs(
    transaction: TransactionView,
    before: UtxoMap,
    after: UtxoMap,
)
    requires
        same_outputs(before, after),
    ensures
        admissible(transaction, before) == admissible(transaction, after),
        fee(transaction, before) == fee(transaction, after),
{
    lemma_input_total_same_outputs(transaction.inputs, before, after);
}

/// What replacement leaves of the pool was in the pool.
pub proof fn lemma_replacements_member(state: PoolState, inputs: Seq<TransactionInput>, at: int)
    requires
        0 <= at < after_replacements(state, inputs).1.len(),
    ensures
        state.1.contains(after_replacements(state, inputs).1[at]),
    decreases inputs.len(),
{
    if inputs.len() == 0 {
        assert(state.1[at] == after_replacements(state, inputs).1[at]);
    } else {
        let inner = after_replacements(state, inputs.drop_last());
        let hash = inputs.last().prev_transaction_output_hash;
        let outer = after_replacements(state, inputs);
        if inner.0.dom().contains(hash) && inner.0[hash].0 && has_producer(inner.1, hash) {
            let gone = first_producer(inner.1, hash);
            assert(is_first_producer(inner.1, hash, gone));
            let place = if at < gone {
                at
            } else {
                at + 1
            };
            assert(outer.1[at] == inner.1[place]);
            lemma_replacements_member(state, inputs.drop_last(), place);
        } else {
            assert(outer.1 == inner.1);
            lemma_replacements_member(state, inputs.drop_last(), at);
        }
    }
}

/// Admitting a transaction leaves every pending transaction one that may be in the
/// pool, the new one with them.
pub proof fn lemma_admission_keeps_admissible(
    before: BlockchainView,
    transaction: TransactionView,
    now: i64,
)
    requires
        admissible(transaction, before.utxos),
        pool_admissible(before.mempool, before.utxos),
    ensures
        pool_admissible(
            admitted(before, transaction, now).mempool,
            admitted(before, transaction, now).utxos,
        ),
{
    broadcast use vstd::seq_lib::group_to_multiset_ensures;

    let start: PoolState = (before.utxos, before.mempool);
    let resolved = after_replacements(start, transaction.inputs);
    let after = admitted(before, transaction, now);
    crate::types::blockchain::lemma_admitted_reserves(before, transaction, now);
    let entered = resolved.1.push((now, transaction));
    lemma_by_fee_sorted(entered, after.utxos);
    assert forall|i: int| 0 <= i < after.mempool.len() implies admissible(
        (#[trigger] after.mempool[i]).1,
        after.utxos,
    ) by {
        let entry = after.mempool[i];
        assert(after.mempool.to_multiset().count(entry) > 0);
        assert(entered.to_multiset().count(entry) > 0);
        let place = choose|k: int| 0 <= k < entered.len() && entered[k] == entry;
        if place < resolved.1.len() {
            lemma_replacements_member(start, transaction.inputs, place);
            let origin = choose|k: int| 0 <= k < before.mempool.len() && before.mempool[k] == entry;
            assert(admissible(before.mempool[origin].1, before.utxos));
        }
        lemma_admissible_same_outputs(entry.1, before.utxos, after.utxos);
    }
}

/// A sweep leaves every pending transaction that stays one that may be in the pool.
pub proof fn lemma_sweep_keeps_admissible(before: BlockchainView, now: i64)
    requires
        pool_admissible(before.mempool, before.utxos),
    ensures
        pool_admissible(swept(before, now).mempool, swept(before, now).utxos),
{
    let after = swept(before, now);
    lemma_all_marked(before.utxos, expired_inputs(before.mempool, now), false);
    assert(same_outputs(before.utxos, after.utxos)) by {
        assert(after.utxos.dom() =~= before.utxos.dom());
    }
    assert forall|k: int| 0 <= k < after.mempool.len() implies admissible(
        (#[trigger] after.mempool[k]).1,
        after.utxos,
    ) by {
        lemma_unexpired_member(before.mempool, now, k);
        let j = choose|j: int|
            0 <= j < before.mempool.len() && #[trigger] before.mempool[j] == after.mempool[k]
                && !expired(before.mempool[j].0, now);
        assert(admissible(before.mempool[j].1, before.utxos));
        lemma_admissible_same_outputs(after.mempool[k].1, before.utxos, after.utxos);
    }
}

/// Accepting a block leaves every pending transaction that stays one that may be in
/// the pool: the unspent outputs stay as they are until they are rebuilt.
pub proof fn lemma_block_keeps_admissible(
    pool: Seq<Pending>,
    included: Seq<TransactionView>,
    utxos: UtxoMap,
)
    requires
        pool_admissible(pool, utxos),
    ensures
        pool_admissible(without_included(pool, included), utxos),
{
    let left = without_included(pool, included);
    assert forall|i: int| 0 <= i < left.len() implies admissible((#[trigger] left[i]).1, utxos) by {
        lemma_without_included_member(pool, included, i);
        let place = choose|k: int| 0 <= k < pool.len() && pool[k] == left[i];
        assert(admissible(pool[place].1, utxos));
    }
}

} // verus!
