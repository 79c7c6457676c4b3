//! What the transactions of a block must satisfy, as statements about sequences.

use vstd::prelude::*;
use vstd::arithmetic::power2::pow2;
use crate::error::BtcError;
use crate::types::transaction::{TransactionInput, TransactionOutput, TransactionView, output_total};
use crate::types::utxo::UtxoMap;

verus! {

/// The lists one after the other.
pub open spec fn concat_all<T>(parts: Seq<Seq<T>>) -> Seq<T>
    decreases parts.len(),
{
    if parts.len() == 0 {
        Seq::empty()
    } else {
        concat_all(parts.drop_last()) + parts.last()
    }
}

/// Whether `whole` begins with `start`.
pub open spec fn starts_with<T>(whole: Seq<T>, start: Seq<T>) -> bool {
    start.len() <= whole.len() && forall|i: int| 0 <= i < start.len() ==> whole[i] == start[i]
}

/// Taking one list more appends that list.
pub proof fn lemma_concat_step<T>(parts: Seq<Seq<T>>, taken: int)
    requires
        0 <= taken < parts.len(),
    ensures
        concat_all(parts.take(taken + 1)) == concat_all(parts.take(taken)) + parts[taken],
{
    assert(parts.take(taken + 1).drop_last() =~= parts.take(taken));
}

/// The whole begins with what the first lists give and the beginning of the next.
pub proof fn lemma_concat_starts<T>(parts: Seq<Seq<T>>, taken: int, within: int)
    requires
        0 <= taken <= parts.len(),
        taken < parts.len() ==> 0 <= within <= parts[taken].len(),
        taken == parts.len() ==> within == 0,
    ensures
        starts_with(
            concat_all(parts),
            concat_all(parts.take(taken)) + (if taken < parts.len() {
                parts[taken].take(within)
            } else {
                Seq::empty()
            }),
        ),
    decreases parts.len(),
{
    if taken == parts.len() {
        assert(parts.take(taken) =~= parts);
    } else if taken == parts.len() - 1 {
        assert(parts.take(taken) =~= parts.drop_last());
    } else {
        lemma_concat_starts(parts.drop_last(), taken, within);
        assert(parts.drop_last().take(taken) =~= parts.take(taken));
    }
}

/// The inputs of each transaction.
pub open spec fn input_lists(transactions: Seq<TransactionView>) -> Seq<Seq<TransactionInput>> {
    Seq::new(transactions.len(), |i: int| transactions[i].inputs)
}

/// The outputs of each transaction.
pub open spec fn output_lists(transactions: Seq<TransactionView>) -> Seq<Seq<TransactionOutput>> {
    Seq::new(transactions.len(), |i: int| transactions[i].outputs)
}

/// Every input of the transactions, in order.
pub open spec fn all_inputs(transactions: Seq<TransactionView>) -> Seq<TransactionInput> {
    concat_all(input_lists(transactions))
}

/// Every output of the transactions, in order.
pub open spec fn all_outputs(transactions: Seq<TransactionView>) -> Seq<TransactionOutput> {
    concat_all(output_lists(transactions))
}

/// The hash that each input spends.
pub open spec fn spent_hashes(inputs: Seq<TransactionInput>) -> Seq<crate::sha256::Hash> {
    Seq::new(inputs.len(), |i: int| inputs[i].prev_transaction_output_hash)
}

/// The hash of each output.
pub open spec fn output_hashes(outputs: Seq<TransactionOutput>) -> Seq<crate::sha256::Hash> {
    Seq::new(outputs.len(), |i: int| outputs[i].content_hash())
}

/// Whether every input spends an output that is in `utxos`.
pub open spec fn all_known(inputs: Seq<TransactionInput>, utxos: UtxoMap) -> bool {
    forall|i: int|
        0 <= i < inputs.len() ==> utxos.dom().contains(
            (#[trigger] inputs[i]).prev_transaction_output_hash,
        )
}

/// The value that an input brings: that of the output it spends, or nothing where
/// `utxos` has no such output.
pub open spec fn input_value(input: TransactionInput, utxos: UtxoMap) -> nat {
    if utxos.dom().contains(input.prev_transaction_output_hash) {
        utxos[input.prev_transaction_output_hash].1.value as nat
    } else {
        0
    }
}

/// The sum of the values that `inputs` bring.
pub open spec fn input_total(inputs: Seq<TransactionInput>, utxos: UtxoMap) -> nat
    decreases inputs.len(),
{
    if inputs.len() == 0 {
        0
    } else {
        input_total(inputs.drop_last(), utxos) + input_value(inputs.last(), utxos)
    }
}

/// A beginning of a list of inputs brings no more than the list.
pub proof fn lemma_input_total_starts(
    whole: Seq<TransactionInput>,
    start: Seq<TransactionInput>,
    utxos: UtxoMap,
)
    requires
        starts_with(whole, start),
    ensures
        input_total(start, utxos) <= input_total(whole, utxos),
    decreases whole.len(),
{
    if start.len() == whole.len() {
        assert(start =~= whole);
    } else {
        assert(starts_with(whole.drop_last(), start));
        lemma_input_total_starts(whole.drop_last(), start, utxos);
    }
}

/// A beginning of a list of outputs sums to no more than the list.
pub proof fn lemma_output_total_starts(whole: Seq<TransactionOutput>, start: Seq<TransactionOutput>)
    requires
        starts_with(whole, start),
    ensures
        output_total(start) <= output_total(whole),
    decreases whole.len(),
{
    if start.len() == whole.len() {
        assert(start =~= whole);
    } else {
        assert(starts_with(whole.drop_last(), start));
        lemma_output_total_starts(whole.drop_last(), start);
    }
}

/// The transactions after the coinbase.
pub open spec fn non_coinbase(transactions: Seq<TransactionView>) -> Seq<TransactionView> {
    if transactions.len() == 0 {
        transactions
    } else {
        transactions.skip(1)
    }
}

/// The largest sum of amounts that is accepted: sums are 64-bit amounts.
pub open spec fn amount_limit() -> nat {
    0xFFFF_FFFF_FFFF_FFFF
}

/// Whether the inputs can be spent together: each spends a known output, none spends
/// the output of another, and what they bring fits in 64 bits.
pub open spec fn inputs_acceptable(inputs: Seq<TransactionInput>, utxos: UtxoMap) -> bool {
    all_known(inputs, utxos) && spent_hashes(inputs).no_duplicates() && input_total(inputs, utxos)
        <= amount_limit()
}

/// Whether the outputs can be created together: no two have one hash, and what they
/// take fits in 64 bits.
pub open spec fn outputs_acceptable(outputs: Seq<TransactionOutput>) -> bool {
    output_hashes(outputs).no_duplicates() && output_total(outputs) <= amount_limit()
}

/// A beginning of acceptable inputs is acceptable.
pub proof fn lemma_inputs_acceptable_starts(
    whole: Seq<TransactionInput>,
    start: Seq<TransactionInput>,
    utxos: UtxoMap,
)
    requires
        starts_with(whole, start),
        inputs_acceptable(whole, utxos),
    ensures
        inputs_acceptable(start, utxos),
{
    lemma_input_total_starts(whole, start, utxos);
    assert forall|i: int| 0 <= i < start.len() implies utxos.dom().contains(
        (#[trigger] start[i]).prev_transaction_output_hash,
    ) by {
        assert(whole[i] == start[i]);
    }
    assert forall|i: int, j: int|
        0 <= i < start.len() && 0 <= j < start.len() && i != j implies spent_hashes(start)[i]
        != spent_hashes(start)[j] by {
        assert(spent_hashes(whole)[i] != spent_hashes(whole)[j]);
    }
}

/// A beginning of acceptable outputs is acceptable.
pub proof fn lemma_outputs_acceptable_starts(
    whole: Seq<TransactionOutput>,
    start: Seq<TransactionOutput>,
)
    requires
        starts_with(whole, start),
        outputs_acceptable(whole),
    ensures
        outputs_acceptable(start),
{
    lemma_output_total_starts(whole, start);
    assert forall|i: int, j: int|
        0 <= i < start.len() && 0 <= j < start.len() && i != j implies output_hashes(start)[i]
        != output_hashes(start)[j] by {
        assert(output_hashes(whole)[i] != output_hashes(whole)[j]);
    }
}

/// The fees that `spending` (the transactions of a block but its coinbase) leave to the
/// miner: what their inputs bring less what their outputs take. There are none to speak
/// of where an input is unknown, an output is spent twice, two outputs have one hash, a
/// total does not fit in 64 bits, or the outputs take more than the inputs bring.
pub open spec fn miner_fees(spending: Seq<TransactionView>, utxos: UtxoMap) -> Option<nat> {
    let inputs = all_inputs(spending);
    let outputs = all_outputs(spending);
    if inputs_acceptable(inputs, utxos) && outputs_acceptable(outputs) && input_total(
        inputs,
        utxos,
    ) >= output_total(outputs) {
        Some((input_total(inputs, utxos) - output_total(outputs)) as nat)
    } else {
        None
    }
}

/// The reward for a block at `height`, in the smallest unit: 50 coins of 10^8 units,
/// halved once for every 210 blocks before it, rounded down.
pub open spec fn reward_at(height: u64) -> nat {
    (crate::INITIAL_REWARD as nat * 100_000_000) / pow2((height / crate::HALVING_INTERVAL) as nat)
}

/// What the check of the coinbase says of the transactions of a block at `height`.
pub open spec fn coinbase_result(
    transactions: Seq<TransactionView>,
    height: u64,
    utxos: UtxoMap,
) -> Result<(), BtcError> {
    if transactions.len() == 0 {
        Err(BtcError::InvalidBlock)
    } else if !transactions[0].is_coinbase() {
        Err(BtcError::InvalidTransaction)
    } else {
        match miner_fees(non_coinbase(transactions), utxos) {
            Some(fees) => if output_total(transactions[0].outputs) == reward_at(height) + fees {
                Ok(())
            } else {
                Err(BtcError::InvalidTransaction)
            },
            None => Err(BtcError::InvalidTransaction),
        }
    }
}

/// Whether each input of the transaction spends a known output and carries a signature
/// that the key of that output accepts.
pub open spec fn signatures_hold(transaction: TransactionView, utxos: UtxoMap) -> bool {
    forall|i: int|
        0 <= i < transaction.inputs.len() ==> {
            let input = #[trigger] transaction.inputs[i];
            utxos.dom().contains(input.prev_transaction_output_hash)
                && input.signature.accepted_for(
                input.prev_transaction_output_hash,
                utxos[input.prev_transaction_output_hash].1.pubkey,
            )
        }
}

/// Whether the inputs of the transaction bring at least what its outputs take.
pub open spec fn conserves_value(transaction: TransactionView, utxos: UtxoMap) -> bool {
    input_total(transaction.inputs, utxos) >= output_total(transaction.outputs)
}

/// What the check of the transactions one by one says: the fault of the first that has
/// one, a bad signature before a loss of value.
pub open spec fn transactions_result(
    transactions: Seq<TransactionView>,
    utxos: UtxoMap,
) -> Result<(), BtcError>
    decreases transactions.len(),
{
    if transactions.len() == 0 {
        Ok(())
    } else if !signatures_hold(transactions[0], utxos) {
        Err(BtcError::InvalidSignature)
    } else if !conserves_value(transactions[0], utxos) {
        Err(BtcError::InvalidTransaction)
    } else {
        transactions_result(transactions.skip(1), utxos)
    }
}

/// What the verification of the transactions of a block at `height` says: the check of
/// the coinbase first, then the transactions after the coinbase one by one. The coinbase
/// alone may pay out more than it brings in.
pub open spec fn verification_result(
    transactions: Seq<TransactionView>,
    height: u64,
    utxos: UtxoMap,
) -> Result<(), BtcError> {
    match coinbase_result(transactions, height, utxos) {
        Ok(_) => transactions_result(non_coinbase(transactions), utxos),
        Err(error) => Err(error),
    }
}

/// The check one by one passes exactly where every transaction has good signatures and
/// conserves value.
pub proof fn lemma_transactions_pass(transactions: Seq<TransactionView>, utxos: UtxoMap)
    ensures
        transactions_result(transactions, utxos).is_ok() <==> forall|t: int|
            0 <= t < transactions.len() ==> signatures_hold(#[trigger] transactions[t], utxos)
                && conserves_value(transactions[t], utxos),
    decreases transactions.len(),
{
    if transactions.len() > 0 {
        let rest = transactions.skip(1);
        lemma_transactions_pass(rest, utxos);
        if transactions_result(transactions, utxos).is_ok() {
            assert forall|t: int| 0 <= t < transactions.len() implies signatures_hold(
                #[trigger] transactions[t],
                utxos,
            ) && conserves_value(transactions[t], utxos) by {
                if t > 0 {
                    assert(transactions[t] == rest[t - 1]);
                }
            }
        } else if signatures_hold(transactions[0], utxos) && conserves_value(
            transactions[0],
            utxos,
        ) {
            let bad = choose|t: int|
                0 <= t < rest.len() && !(signatures_hold(#[trigger] rest[t], utxos)
                    && conserves_value(rest[t], utxos));
            assert(transactions[bad + 1] == rest[bad]);
        }
    }
}

/// The transactions of a block at `height` verify exactly where there is a first
/// transaction with no input and some output, the other transactions spend known
/// outputs, each once, and create outputs of distinct hashes, what they bring and what
/// they take each fits in 64 bits, the first transaction pays out the reward and the
/// fees, and every other transaction is well signed and creates no value.
pub proof fn lemma_verification_passes(
    transactions: Seq<TransactionView>,
    height: u64,
    utxos: UtxoMap,
)
    ensures
        verification_result(transactions, height, utxos).is_ok() <==> {
            let spending = non_coinbase(transactions);
            &&& transactions.len() > 0
            &&& transactions[0].is_coinbase()
            &&& inputs_acceptable(all_inputs(spending), utxos)
            &&& outputs_acceptable(all_outputs(spending))
            &&& input_total(all_inputs(spending), utxos) >= output_total(all_outputs(spending))
            &&& output_total(transactions[0].outputs) == reward_at(height) + input_total(
                all_inputs(spending),
                utxos,
            ) - output_total(all_outputs(spending))
            &&& forall|t: int|
                0 <= t < spending.len() ==> signatures_hold(#[trigger] spending[t], utxos)
                    && conserves_value(spending[t], utxos)
        },
{
    lemma_transactions_pass(non_coinbase(transactions), utxos);
}

/// Where the coinbase check passes, every input of every transaction of the block
/// spends a known output.
pub proof fn lemma_checked_inputs_known(
    transactions: Seq<TransactionView>,
    height: u64,
    utxos: UtxoMap,
    at: int,
    input: int,
)
    requires
        coinbase_result(transactions, height, utxos).is_ok(),
        0 <= at < transactions.len(),
        0 <= input < transactions[at].inputs.len(),
    ensures
        utxos.dom().contains(transactions[at].inputs[input].prev_transaction_output_hash),
{
    if at > 0 {
        let spending = non_coinbase(transactions);
        let lists = input_lists(spending);
        let whole = all_inputs(spending);
        lemma_concat_starts(lists, at - 1, input + 1);
        let start = concat_all(lists.take(at - 1)) + lists[at - 1].take(input + 1);
        let place = concat_all(lists.take(at - 1)).len() + input;
        assert(start[place] == transactions[at].inputs[input]);
        assert(whole[place] == start[place]);
    }
}

} // verus!
