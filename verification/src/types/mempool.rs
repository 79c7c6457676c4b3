//! The pool of pending transactions: which transactions are admitted, what admission
//! reserves and evicts, how the pool is ordered, and what expires.

use vstd::prelude::*;
use crate::types::block::{sum_inputs, sum_outputs};
use crate::types::rules::{all_known, conserves_value, input_total, output_hashes, spent_hashes};
use crate::types::transaction::{Transaction, TransactionInput, TransactionView, output_total};
use crate::types::utxo::{UtxoMap, UtxoSet, keyed_by_content, lemma_keyed_kept, with_mark};

verus! {

/// A pending transaction with the time of its admission.
pub type Pending = (i64, TransactionView);

/// What each of the pending transactions is, with the time of its admission.
pub open spec fn pool_views(pool: Seq<(i64, Transaction)>) -> Seq<Pending> {
    Seq::new(pool.len(), |i: int| (pool[i].0, pool[i].1@))
}

/// `utxos` with the mark of every output under one of `hashes` set to `marked`.
pub open spec fn all_marked(utxos: UtxoMap, hashes: Seq<crate::sha256::Hash>, marked: bool) -> UtxoMap
    decreases hashes.len(),
{
    if hashes.len() == 0 {
        utxos
    } else {
        with_mark(all_marked(utxos, hashes.drop_last(), marked), hashes.last(), marked)
    }
}

/// Whether two maps hold the same outputs under the same keys, whatever the marks.
pub open spec fn same_outputs(before: UtxoMap, after: UtxoMap) -> bool {
    before.dom() == after.dom() && forall|hash: crate::sha256::Hash| #[trigger]
        before.dom().contains(hash) ==> before[hash].1 == after[hash].1
}

/// Setting marks changes marks only: under each of `hashes` the mark is `marked`, and
/// every other entry is as it was.
pub proof fn lemma_all_marked(utxos: UtxoMap, hashes: Seq<crate::sha256::Hash>, marked: bool)
    ensures
        all_marked(utxos, hashes, marked).dom() == utxos.dom(),
        forall|hash: crate::sha256::Hash| #[trigger]
            utxos.dom().contains(hash) ==> all_marked(utxos, hashes, marked)[hash] == (if hashes.contains(
                hash,
            ) {
                (marked, utxos[hash].1)
            } else {
                utxos[hash]
            }),
    decreases hashes.len(),
{
    if hashes.len() > 0 {
        let rest = hashes.drop_last();
        lemma_all_marked(utxos, rest, marked);
        let inner = all_marked(utxos, rest, marked);
        assert(all_marked(utxos, hashes, marked).dom() =~= utxos.dom());
        assert forall|hash: crate::sha256::Hash| #[trigger]
            utxos.dom().contains(hash) implies all_marked(utxos, hashes, marked)[hash] == (if hashes.contains(
            hash,
        ) {
            (marked, utxos[hash].1)
        } else {
            utxos[hash]
        }) by {
            if hash == hashes.last() {
                assert(hashes[hashes.len() - 1] == hash);
            } else if rest.contains(hash) {
                let at = choose|i: int| 0 <= i < rest.len() && rest[i] == hash;
                assert(hashes[at] == hash);
            } else if hashes.contains(hash) {
                let at = choose|i: int| 0 <= i < hashes.len() && hashes[i] == hash;
                assert(rest[at] == hash);
            }
        }
    }
}

/// Setting marks for one list and then for another is setting them for both at once.
pub proof fn lemma_all_marked_concat(
    utxos: UtxoMap,
    first: Seq<crate::sha256::Hash>,
    second: Seq<crate::sha256::Hash>,
    marked: bool,
)
    ensures
        all_marked(utxos, first + second, marked) == all_marked(
            all_marked(utxos, first, marked),
            second,
            marked,
        ),
    decreases second.len(),
{
    if second.len() == 0 {
        assert(first + second =~= first);
    } else {
        lemma_all_marked_concat(utxos, first, second.drop_last(), marked);
        assert((first + second).drop_last() =~= first + second.drop_last());
    }
}

/// Whether the transaction creates an output with the hash `hash`.
pub open spec fn produces(transaction: TransactionView, hash: crate::sha256::Hash) -> bool {
    output_hashes(transaction.outputs).contains(hash)
}

/// Whether `at` is where the first pending transaction that produces `hash` stands.
pub open spec fn is_first_producer(pool: Seq<Pending>, hash: crate::sha256::Hash, at: int) -> bool {
    &&& 0 <= at < pool.len()
    &&& produces(pool[at].1, hash)
    &&& forall|earlier: int| 0 <= earlier < at ==> !produces((#[trigger] pool[earlier]).1, hash)
}

/// Whether some pending transaction produces `hash`.
pub open spec fn has_producer(pool: Seq<Pending>, hash: crate::sha256::Hash) -> bool {
    exists|at: int| is_first_producer(pool, hash, at)
}

/// Where the first pending transaction that produces `hash` stands.
pub open spec fn first_producer(pool: Seq<Pending>, hash: crate::sha256::Hash) -> int {
    choose|at: int| is_first_producer(pool, hash, at)
}

/// There is one first producer at most.
pub proof fn lemma_first_producer(pool: Seq<Pending>, hash: crate::sha256::Hash, at: int)
    requires
        is_first_producer(pool, hash, at),
    ensures
        has_producer(pool, hash),
        first_producer(pool, hash) == at,
{
    let chosen = first_producer(pool, hash);
    assert(is_first_producer(pool, hash, chosen));
    if chosen < at {
        assert(!produces(pool[chosen].1, hash));
    } else if at < chosen {
        assert(!produces(pool[at].1, hash));
    }
}

/// The unspent outputs and the pool, as admission works on them.
pub type PoolState = (UtxoMap, Seq<Pending>);

/// What one input of a transaction that is being admitted does where the output it
/// spends is reserved already: where a pending transaction produces an output with that
/// hash, the first such transaction leaves the pool and everything it had reserved is
/// released; where none does, the one reservation is released. An output that is not
/// reserved changes nothing.
pub open spec fn after_replacement(state: PoolState, hash: crate::sha256::Hash) -> PoolState {
    if state.0.dom().contains(hash) && state.0[hash].0 {
        if has_producer(state.1, hash) {
            let at = first_producer(state.1, hash);
            (all_marked(state.0, spent_hashes(state.1[at].1.inputs), false), state.1.remove(at))
        } else {
            (with_mark(state.0, hash, false), state.1)
        }
    } else {
        state
    }
}

/// What the inputs of a transaction that is being admitted do, one after the other.
pub open spec fn after_replacements(state: PoolState, inputs: Seq<TransactionInput>) -> PoolState
    decreases inputs.len(),
{
    if inputs.len() == 0 {
        state
    } else {
        after_replacement(
            after_replacements(state, inputs.drop_last()),
            inputs.last().prev_transaction_output_hash,
        )
    }
}

/// Replacement changes marks only, and takes transactions out of the pool at most.
pub proof fn lemma_replacements_keep_outputs(state: PoolState, inputs: Seq<TransactionInput>)
    ensures
        same_outputs(state.0, after_replacements(state, inputs).0),
        after_replacements(state, inputs).1.len() <= state.1.len(),
    decreases inputs.len(),
{
    if inputs.len() > 0 {
        lemma_replacements_keep_outputs(state, inputs.drop_last());
        let inner = after_replacements(state, inputs.drop_last());
        let hash = inputs.last().prev_transaction_output_hash;
        if inner.0.dom().contains(hash) && inner.0[hash].0 {
            if has_producer(inner.1, hash) {
                let at = first_producer(inner.1, hash);
                assert(is_first_producer(inner.1, hash, at));
                lemma_all_marked(inner.0, spent_hashes(inner.1[at].1.inputs), false);
            }
        }
        let outer = after_replacements(state, inputs).0;
        assert(outer.dom() =~= state.0.dom());
        assert forall|key: crate::sha256::Hash| #[trigger]
            state.0.dom().contains(key) implies state.0[key].1 == outer[key].1 by {
            assert(inner.0.dom().contains(key));
        }
    }
}

/// Whether a transaction may enter the pool: every input spends a known output, no two
/// inputs spend the same, and the inputs bring at least what the outputs take.
pub open spec fn admissible(transaction: TransactionView, utxos: UtxoMap) -> bool {
    all_known(transaction.inputs, utxos) && spent_hashes(transaction.inputs).no_duplicates()
        && conserves_value(transaction, utxos)
}

/// The fee that a transaction leaves to the miner: what its inputs bring less what its
/// outputs take, and nothing where they take more.
pub open spec fn fee(transaction: TransactionView, utxos: UtxoMap) -> nat {
    let brought = input_total(transaction.inputs, utxos);
    let taken = output_total(transaction.outputs);
    if brought >= taken {
        (brought - taken) as nat
    } else {
        0
    }
}

/// `sorted` with `entry` put behind the last entry that pays at least as much.
pub open spec fn placed(sorted: Seq<Pending>, entry: Pending, utxos: UtxoMap) -> Seq<Pending>
    decreases sorted.len(),
{
    if sorted.len() == 0 {
        seq![entry]
    } else if fee(sorted.last().1, utxos) >= fee(entry.1, utxos) {
        sorted.push(entry)
    } else {
        placed(sorted.drop_last(), entry, utxos).push(sorted.last())
    }
}

/// The pool in the order of decreasing fee; entries that pay the same keep their order.
pub open spec fn by_fee(pool: Seq<Pending>, utxos: UtxoMap) -> Seq<Pending>
    decreases pool.len(),
{
    if pool.len() == 0 {
        pool
    } else {
        placed(by_fee(pool.drop_last(), utxos), pool.last(), utxos)
    }
}

/// Whether the fees do not increase along the pool.
pub open spec fn fees_descend(pool: Seq<Pending>, utxos: UtxoMap) -> bool {
    forall|i: int, j: int|
        0 <= i < j < pool.len() ==> fee(pool[i].1, utxos) >= fee(pool[j].1, utxos)
}

/// Placing an entry is inserting it where the entries behind it pay less and the one
/// before it does not.
pub proof fn lemma_placed_at(sorted: Seq<Pending>, entry: Pending, utxos: UtxoMap, at: int)
    requires
        0 <= at <= sorted.len(),
        forall|j: int| at <= j < sorted.len() ==> fee(sorted[j].1, utxos) < fee(entry.1, utxos),
        at > 0 ==> fee(sorted[at - 1].1, utxos) >= fee(entry.1, utxos),
    ensures
        placed(sorted, entry, utxos) == sorted.insert(at, entry),
    decreases sorted.len(),
{
    if sorted.len() == 0 {
        assert(sorted.insert(at, entry) =~= seq![entry]);
    } else if at == sorted.len() {
        assert(sorted.insert(at, entry) =~= sorted.push(entry));
    } else {
        lemma_placed_at(sorted.drop_last(), entry, utxos, at);
        assert(sorted.insert(at, entry) =~= sorted.drop_last().insert(at, entry).push(
            sorted.last(),
        ));
    }
}

/// Placing an entry into a pool of descending fees leaves the fees descending, and
/// adds that entry and no other.
pub proof fn lemma_placed_descends(sorted: Seq<Pending>, entry: Pending, utxos: UtxoMap)
    requires
        fees_descend(sorted, utxos),
    ensures
        fees_descend(placed(sorted, entry, utxos), utxos),
        placed(sorted, entry, utxos).to_multiset() == sorted.to_multiset().insert(entry),
    decreases sorted.len(),
{
    broadcast use vstd::seq_lib::group_to_multiset_ensures;

    if sorted.len() == 0 {
        assert(sorted =~= Seq::<Pending>::empty());
        assert(seq![entry] =~= Seq::<Pending>::empty().push(entry));
    } else if fee(sorted.last().1, utxos) >= fee(entry.1, utxos) {
        let after = sorted.push(entry);
        assert forall|i: int, j: int| 0 <= i < j < after.len() implies fee(after[i].1, utxos)
            >= fee(after[j].1, utxos) by {
            if j == sorted.len() && i < sorted.len() - 1 {
                assert(fee(sorted[i].1, utxos) >= fee(sorted[sorted.len() - 1].1, utxos));
            }
        }
    } else {
        let rest = sorted.drop_last();
        assert(fees_descend(rest, utxos));
        lemma_placed_descends(rest, entry, utxos);
        let inner = placed(rest, entry, utxos);
        let after = inner.push(sorted.last());
        assert(sorted =~= rest.push(sorted.last()));
        assert forall|i: int, j: int| 0 <= i < j < after.len() implies fee(after[i].1, utxos)
            >= fee(after[j].1, utxos) by {
            if j == inner.len() {
                assert(inner.to_multiset().count(inner[i]) > 0);
                if inner[i] != entry {
                    assert(rest.to_multiset().count(inner[i]) > 0);
                    let at = choose|k: int| 0 <= k < rest.len() && rest[k] == inner[i];
                    assert(fee(sorted[at].1, utxos) >= fee(sorted[sorted.len() - 1].1, utxos));
                }
            }
        }
        assert(after.to_multiset() =~= sorted.to_multiset().insert(entry));
    }
}

/// The ordered pool has descending fees and holds what the pool held, each as often.
pub proof fn lemma_by_fee_sorted(pool: Seq<Pending>, utxos: UtxoMap)
    ensures
        fees_descend(by_fee(pool, utxos), utxos),
        by_fee(pool, utxos).to_multiset() == pool.to_multiset(),
        by_fee(pool, utxos).len() == pool.len(),
    decreases pool.len(),
{
    broadcast use vstd::seq_lib::group_to_multiset_ensures;

    if pool.len() > 0 {
        lemma_by_fee_sorted(pool.drop_last(), utxos);
        lemma_placed_descends(by_fee(pool.drop_last(), utxos), pool.last(), utxos);
        assert(pool =~= pool.drop_last().push(pool.last()));
    }
    by_fee(pool, utxos).to_multiset_ensures();
    pool.to_multiset_ensures();
}

/// Whether a transaction admitted at `admitted` is too old at `now`.
pub open spec fn expired(admitted: i64, now: i64) -> bool {
    now - admitted > crate::MAX_MEMPOOL_TRANSACTION_AGE
}

/// The pending transactions that are not too old at `now`, in their order.
pub open spec fn unexpired(pool: Seq<Pending>, now: i64) -> Seq<Pending>
    decreases pool.len(),
{
    if pool.len() == 0 {
        pool
    } else if expired(pool.last().0, now) {
        unexpired(pool.drop_last(), now)
    } else {
        unexpired(pool.drop_last(), now).push(pool.last())
    }
}

/// The hashes that the pending transactions that are too old at `now` spend, in order.
pub open spec fn expired_inputs(pool: Seq<Pending>, now: i64) -> Seq<crate::sha256::Hash>
    decreases pool.len(),
{
    if pool.len() == 0 {
        Seq::empty()
    } else if expired(pool.last().0, now) {
        expired_inputs(pool.drop_last(), now) + spent_hashes(pool.last().1.inputs)
    } else {
        expired_inputs(pool.drop_last(), now)
    }
}

/// Sets the mark of every output that one of `inputs` spends.
pub fn mark_inputs(utxos: &mut UtxoSet, inputs: &Vec<TransactionInput>, marked: bool)
    requires
        old(utxos).wf(),
        keyed_by_content(old(utxos)@),
    ensures
        final(utxos).wf(),
        keyed_by_content(final(utxos)@),
        final(utxos)@ == all_marked(old(utxos)@, spent_hashes(inputs@), marked),
{
    let ghost hashes = spent_hashes(inputs@);
    let ghost start = utxos@;
    let mut i: usize = 0;
    assert(all_marked(start, hashes.take(0), marked) =~= start);
    while i < inputs.len()
        invariant
            i <= inputs@.len(),
            hashes == spent_hashes(inputs@),
            utxos.wf(),
            keyed_by_content(utxos@),
            utxos@ == all_marked(start, hashes.take(i as int), marked),
        decreases inputs@.len() - i,
    {
        let hash = inputs[i].prev_transaction_output_hash;
        proof {
            assert(hashes.take(i + 1).drop_last() =~= hashes.take(i as int));
            assert(hashes.take(i + 1).last() == hash);
            lemma_keyed_kept(utxos@, hash, marked);
        }
        utxos.set_marked(&hash, marked);
        i += 1;
    }
    assert(hashes.take(inputs@.len() as int) =~= hashes);
}

/// Whether the transaction creates an output with the hash `hash`.
pub fn creates(transaction: &Transaction, hash: &crate::sha256::Hash) -> (found: bool)
    ensures
        found == produces(transaction@, *hash),
{
    let ghost hashes = output_hashes(transaction@.outputs);
    let mut k: usize = 0;
    while k < transaction.outputs.len()
        invariant
            k <= transaction.outputs@.len(),
            hashes == output_hashes(transaction@.outputs),
            forall|j: int| 0 <= j < k ==> hashes[j] != *hash,
        decreases transaction.outputs@.len() - k,
    {
        if transaction.outputs[k].hash() == *hash {
            assert(hashes[k as int] == *hash);
            return true;
        }
        k += 1;
    }
    false
}

/// Where the first pending transaction that produces `hash` stands, if one does.
pub fn find_producer(pool: &Vec<(i64, Transaction)>, hash: &crate::sha256::Hash) -> (found: Option<
    usize,
>)
    ensures
        found.is_some() == has_producer(pool_views(pool@), *hash),
        found.is_some() ==> found.unwrap() == first_producer(pool_views(pool@), *hash)
            && found.unwrap() < pool@.len(),
{
    let ghost views = pool_views(pool@);
    let mut at: usize = 0;
    while at < pool.len()
        invariant
            at <= pool@.len(),
            views == pool_views(pool@),
            forall|earlier: int| 0 <= earlier < at ==> !produces((#[trigger] views[earlier]).1, *hash),
        decreases pool@.len() - at,
    {
        if creates(&pool[at].1, hash) {
            proof {
                assert(views[at as int].1 == pool@[at as int].1@);
                assert(is_first_producer(views, *hash, at as int));
                lemma_first_producer(views, *hash, at as int);
            }
            return Some(at);
        }
        at += 1;
    }
    proof {
        if has_producer(views, *hash) {
            let found = first_producer(views, *hash);
            assert(is_first_producer(views, *hash, found));
            assert(!produces(views[found].1, *hash));
        }
    }
    None
}

/// Makes way for a transaction that is being admitted: for each of its inputs that
/// spends a reserved output, evicts the pending transaction that produces an output of
/// that hash and releases what it had reserved, or releases that one reservation.
pub fn resolve_replacements(
    utxos: &mut UtxoSet,
    pool: &mut Vec<(i64, Transaction)>,
    inputs: &Vec<TransactionInput>,
)
    requires
        old(utxos).wf(),
        keyed_by_content(old(utxos)@),
    ensures
        final(utxos).wf(),
        keyed_by_content(final(utxos)@),
        (final(utxos)@, pool_views(final(pool)@)) == after_replacements(
            (old(utxos)@, pool_views(old(pool)@)),
            inputs@,
        ),
{
    let ghost start: PoolState = (utxos@, pool_views(pool@));
    let mut i: usize = 0;
    assert(after_replacements(start, inputs@.take(0)) =~= start);
    while i < inputs.len()
        invariant
            i <= inputs@.len(),
            utxos.wf(),
            keyed_by_content(utxos@),
            (utxos@, pool_views(pool@)) == after_replacements(start, inputs@.take(i as int)),
        decreases inputs@.len() - i,
    {
        let hash = inputs[i].prev_transaction_output_hash;
        let ghost entered: PoolState = (utxos@, pool_views(pool@));
        proof {
            assert(inputs@.take(i + 1).drop_last() =~= inputs@.take(i as int));
            assert(inputs@.take(i + 1).last().prev_transaction_output_hash == hash);
            lemma_keyed_kept(utxos@, hash, false);
        }
        let reserved = match utxos.get(&hash) {
            Some(entry) => entry.0,
            None => false,
        };
        if reserved {
            match find_producer(pool, &hash) {
                Some(at) => {
                    let evicted = pool.remove(at);
                    proof {
                        assert(entered.1[at as int] == (evicted.0, evicted.1@));
                        assert(pool_views(pool@) =~= entered.1.remove(at as int));
                    }
                    mark_inputs(utxos, &evicted.1.inputs, false);
                },
                None => {
                    utxos.set_marked(&hash, false);
                },
            }
        }
        i += 1;
    }
    assert(inputs@.take(inputs@.len() as int) =~= inputs@);
}

/// Whether no two of `inputs` spend the same output.
pub fn spends_distinct(inputs: &Vec<TransactionInput>) -> (distinct: bool)
    ensures
        distinct == spent_hashes(inputs@).no_duplicates(),
{
    let ghost hashes = spent_hashes(inputs@);
    let mut i: usize = 0;
    while i < inputs.len()
        invariant
            i <= inputs@.len(),
            hashes == spent_hashes(inputs@),
            forall|a: int, b: int| 0 <= a < b < i ==> hashes[a] != hashes[b],
        decreases inputs@.len() - i,
    {
        let mut k: usize = 0;
        while k < i
            invariant
                k <= i < inputs@.len(),
                hashes == spent_hashes(inputs@),
                forall|a: int| 0 <= a < k ==> hashes[a] != hashes[i as int],
            decreases i - k,
        {
            if inputs[k].prev_transaction_output_hash == inputs[i].prev_transaction_output_hash {
                assert(hashes[k as int] == hashes[i as int]);
                return false;
            }
            k += 1;
        }
        i += 1;
    }
    assert forall|a: int, b: int|
        0 <= a < hashes.len() && 0 <= b < hashes.len() && a != b implies hashes[a] != hashes[b] by {
        if a < b {
            assert(hashes[a] != hashes[b]);
        } else {
            assert(hashes[b] != hashes[a]);
        }
    }
    true
}

/// Whether every one of `inputs` spends an output of `utxos`.
pub fn spends_known(inputs: &Vec<TransactionInput>, utxos: &UtxoSet) -> (known: bool)
    ensures
        known == all_known(inputs@, utxos@),
{
    let mut i: usize = 0;
    while i < inputs.len()
        invariant
            i <= inputs@.len(),
            forall|a: int|
                0 <= a < i ==> utxos@.dom().contains(
                    (#[trigger] inputs@[a]).prev_transaction_output_hash,
                ),
        decreases inputs@.len() - i,
    {
        if !utxos.contains_key(&inputs[i].prev_transaction_output_hash) {
            assert(!utxos@.dom().contains(inputs@[i as int].prev_transaction_output_hash));
            return false;
        }
        i += 1;
    }
    true
}

/// Whether the transaction may enter the pool.
pub fn is_admissible(transaction: &Transaction, utxos: &UtxoSet) -> (admitted: bool)
    requires
        utxos.wf(),
    ensures
        admitted == admissible(transaction@, utxos@),
{
    if !spends_known(&transaction.inputs, utxos) {
        return false;
    }
    if !spends_distinct(&transaction.inputs) {
        return false;
    }
    sum_inputs(&transaction.inputs, utxos) >= sum_outputs(&transaction.outputs)
}

/// The fee that the transaction leaves to the miner.
pub fn fee_of(transaction: &Transaction, utxos: &UtxoSet) -> (amount: u128)
    requires
        utxos.wf(),
    ensures
        amount == fee(transaction@, utxos@),
{
    let brought = sum_inputs(&transaction.inputs, utxos);
    let taken = sum_outputs(&transaction.outputs);
    if brought >= taken {
        brought - taken
    } else {
        0
    }
}

/// A copy of the pool in the order of decreasing fee.
pub fn sort_pool(pool: &Vec<(i64, Transaction)>, utxos: &UtxoSet) -> (sorted: Vec<(i64, Transaction)>)
    requires
        utxos.wf(),
    ensures
        pool_views(sorted@) == by_fee(pool_views(pool@), utxos@),
{
    let ghost views = pool_views(pool@);
    let mut sorted: Vec<(i64, Transaction)> = Vec::new();
    let mut fees: Vec<u128> = Vec::new();
    let mut i: usize = 0;
    assert(pool_views(sorted@) =~= by_fee(views.take(0), utxos@));
    while i < pool.len()
        invariant
            i <= pool@.len(),
            utxos.wf(),
            views == pool_views(pool@),
            pool_views(sorted@) == by_fee(views.take(i as int), utxos@),
            fees@.len() == sorted@.len(),
            forall|j: int| 0 <= j < fees@.len() ==> fees@[j] == fee(sorted@[j].1@, utxos@),
        decreases pool@.len() - i,
    {
        let entry = &pool[i];
        let amount = fee_of(&entry.1, utxos);
        let mut at: usize = sorted.len();
        while at > 0 && fees[at - 1] < amount
            invariant
                at <= sorted@.len(),
                fees@.len() == sorted@.len(),
                forall|j: int| at <= j < fees@.len() ==> fees@[j] < amount,
            decreases at,
        {
            at -= 1;
        }
        let ghost before = pool_views(sorted@);
        let ghost pending: Pending = (entry.0, entry.1@);
        proof {
            assert(views.take(i + 1).drop_last() =~= views.take(i as int));
            assert(views.take(i + 1).last() == pending);
            assert forall|j: int| at <= j < before.len() implies fee(before[j].1, utxos@) < fee(
                pending.1,
                utxos@,
            ) by {
                assert(before[j].1 == sorted@[j].1@);
                assert(fees@[j] == fee(sorted@[j].1@, utxos@));
                assert(fees@[j] < amount);
            }
            if at > 0 {
                assert(before[at - 1].1 == sorted@[at - 1].1@);
                assert(fees@[at - 1] == fee(sorted@[at - 1].1@, utxos@));
            }
            lemma_placed_at(before, pending, utxos@, at as int);
        }
        let ghost old_fees = fees@;
        let ghost old_sorted = sorted@;
        sorted.insert(at, (entry.0, entry.1.clone()));
        fees.insert(at, amount);
        proof {
            assert(pool_views(sorted@) =~= before.insert(at as int, pending));
            assert forall|j: int| 0 <= j < fees@.len() implies fees@[j] == fee(
                sorted@[j].1@,
                utxos@,
            ) by {
                if j < at {
                    assert(fees@[j] == old_fees[j] && sorted@[j] == old_sorted[j]);
                } else if j > at {
                    assert(fees@[j] == old_fees[j - 1] && sorted@[j] == old_sorted[j - 1]);
                }
            }
        }
        i += 1;
    }
    assert(views.take(pool@.len() as int) =~= views);
    sorted
}

/// Drops the pending transactions that are too old at `now` and releases what they had
/// reserved. Hands back the pool that is left.
pub fn drop_expired(utxos: &mut UtxoSet, pool: &Vec<(i64, Transaction)>, now: i64) -> (kept: Vec<
    (i64, Transaction),
>)
    requires
        old(utxos).wf(),
        keyed_by_content(old(utxos)@),
    ensures
        final(utxos).wf(),
        keyed_by_content(final(utxos)@),
        pool_views(kept@) == unexpired(pool_views(pool@), now),
        final(utxos)@ == all_marked(old(utxos)@, expired_inputs(pool_views(pool@), now), false),
{
    let ghost views = pool_views(pool@);
    let ghost start = utxos@;
    let mut kept: Vec<(i64, Transaction)> = Vec::new();
    let mut i: usize = 0;
    assert(pool_views(kept@) =~= unexpired(views.take(0), now));
    assert(all_marked(start, expired_inputs(views.take(0), now), false) =~= start);
    while i < pool.len()
        invariant
            i <= pool@.len(),
            views == pool_views(pool@),
            utxos.wf(),
            keyed_by_content(utxos@),
            pool_views(kept@) == unexpired(views.take(i as int), now),
            utxos@ == all_marked(start, expired_inputs(views.take(i as int), now), false),
        decreases pool@.len() - i,
    {
        let entry = &pool[i];
        let ghost old_kept = pool_views(kept@);
        proof {
            assert(views.take(i + 1).drop_last() =~= views.take(i as int));
            assert(views.take(i + 1).last() == (entry.0, entry.1@));
        }
        let age: i128 = now as i128 - entry.0 as i128;
        if age > crate::MAX_MEMPOOL_TRANSACTION_AGE as i128 {
            proof {
                lemma_all_marked_concat(
                    start,
                    expired_inputs(views.take(i as int), now),
                    spent_hashes(entry.1@.inputs),
                    false,
                );
            }
            mark_inputs(utxos, &entry.1.inputs, false);
        } else {
            kept.push((entry.0, entry.1.clone()));
            assert(pool_views(kept@) =~= old_kept.push((entry.0, entry.1@)));
        }
        i += 1;
    }
    assert(views.take(pool@.len() as int) =~= views);
    kept
}

} // verus!
