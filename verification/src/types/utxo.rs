//! The index of unspent outputs: a map from the hash of an output to the output and a
//! mark that says whether a pending transaction has reserved it.

use vstd::prelude::*;
use crate::types::transaction::TransactionOutput;

verus! {

/// One unspent output under its key.
#[derive(Clone, Copy, Debug, PartialEq, Eq, Structural)]
pub struct UtxoEntry {
    pub hash: crate::sha256::Hash,
    pub marked: bool,
    pub output: TransactionOutput,
}

/// What the index is: for each key the mark and the output.
pub type UtxoMap = Map<crate::sha256::Hash, (bool, TransactionOutput)>;

/// No key occurs twice.
pub open spec fn keys_distinct(entries: Seq<UtxoEntry>) -> bool {
    forall|i: int, j: int| 0 <= i < j < entries.len() ==> entries[i].hash != entries[j].hash
}

/// Whether some entry has the key.
pub open spec fn has_key(entries: Seq<UtxoEntry>, hash: crate::sha256::Hash) -> bool {
    exists|i: int| 0 <= i < entries.len() && (#[trigger] entries[i]).hash == hash
}

/// Where the entry of a key stands.
pub open spec fn position(entries: Seq<UtxoEntry>, hash: crate::sha256::Hash) -> int {
    choose|i: int| 0 <= i < entries.len() && (#[trigger] entries[i]).hash == hash
}

/// The map that a list of entries with distinct keys stands for.
pub open spec fn entries_map(entries: Seq<UtxoEntry>) -> UtxoMap {
    Map::new(
        |hash: crate::sha256::Hash| has_key(entries, hash),
        |hash: crate::sha256::Hash|
            (entries[position(entries, hash)].marked, entries[position(entries, hash)].output),
    )
}

/// The entry at `at` is the one that the map has under its key.
pub proof fn lemma_entry_lookup(entries: Seq<UtxoEntry>, at: int)
    requires
        keys_distinct(entries),
        0 <= at < entries.len(),
    ensures
        has_key(entries, entries[at].hash),
        position(entries, entries[at].hash) == at,
        entries_map(entries).dom().contains(entries[at].hash),
        entries_map(entries)[entries[at].hash] == (entries[at].marked, entries[at].output),
{
    let hash = entries[at].hash;
    assert(has_key(entries, hash));
    let found = position(entries, hash);
    assert(0 <= found < entries.len() && entries[found].hash == hash);
    if found < at {
        assert(entries[found].hash != entries[at].hash);
    } else if at < found {
        assert(entries[at].hash != entries[found].hash);
    }
}

/// The set of unspent outputs.
#[derive(Debug)]
pub struct UtxoSet {
    entries: Vec<UtxoEntry>,
}

impl View for UtxoSet {
    type V = UtxoMap;

    open spec fn view(&self) -> UtxoMap {
        entries_map(self.entries())
    }
}

impl Clone for UtxoSet {
    fn clone(&self) -> (copy: Self)
        ensures
            copy.entries() == self.entries(),
    {
        UtxoSet { entries: vstd::slice::slice_to_vec(self.entries.as_slice()) }
    }
}

impl UtxoSet {
    /// The entries, in the order in which their keys first came.
    pub closed spec fn entries(&self) -> Seq<UtxoEntry> {
        self.entries@
    }

    /// No key occurs twice.
    pub open spec fn wf(&self) -> bool {
        keys_distinct(self.entries())
    }

    /// The empty set.
    pub fn new() -> (set: UtxoSet)
        ensures
            set.wf(),
            set.entries().len() == 0,
            set@ == UtxoMap::empty(),
    {
        let set = UtxoSet { entries: Vec::new() };
        assert(set@ =~= UtxoMap::empty());
        set
    }

    /// A set of the given entries; `None` where a key occurs twice.
    pub fn from_entries(entries: Vec<UtxoEntry>) -> (set: Option<UtxoSet>)
        ensures
            set.is_some() == keys_distinct(entries@),
            set.is_some() ==> set.unwrap().entries() == entries@,
    {
        let mut i: usize = 0;
        while i < entries.len()
            invariant
                i <= entries@.len(),
                forall|a: int, b: int| 0 <= a < b < i ==> entries@[a].hash != entries@[b].hash,
            decreases entries@.len() - i,
        {
            let mut k: usize = 0;
            while k < i
                invariant
                    k <= i < entries@.len(),
                    forall|a: int| 0 <= a < k ==> entries@[a].hash != entries@[i as int].hash,
                decreases i - k,
            {
                if entries[k].hash == entries[i].hash {
                    return None;
                }
                k += 1;
            }
            i += 1;
        }
        Some(UtxoSet { entries })
    }

    /// How many outputs are unspent.
    pub fn len(&self) -> (count: usize)
        ensures
            count == self.entries().len(),
    {
        self.entries.len()
    }

    /// The entries, in order.
    pub fn as_entries(&self) -> (entries: &Vec<UtxoEntry>)
        ensures
            entries@ == self.entries(),
    {
        &self.entries
    }

    /// Where the entry of `hash` stands, if there is one.
    fn find(&self, hash: &crate::sha256::Hash) -> (found: Option<usize>)
        ensures
            found.is_some() == has_key(self.entries(), *hash),
            found.is_some() ==> found.unwrap() < self.entries().len() && self.entries()[found.unwrap() as int].hash
                == *hash,
    {
        let mut i: usize = 0;
        while i < self.entries.len()
            invariant
                i <= self.entries@.len(),
                forall|a: int| 0 <= a < i ==> (#[trigger] self.entries@[a]).hash != *hash,
            decreases self.entries@.len() - i,
        {
            if self.entries[i].hash == *hash {
                return Some(i);
            }
            i += 1;
        }
        None
    }

    /// Whether `hash` is the key of an unspent output.
    pub fn contains_key(&self, hash: &crate::sha256::Hash) -> (present: bool)
        ensures
            present == self@.dom().contains(*hash),
    {
        self.find(hash).is_some()
    }

    /// The mark and the output under `hash`.
    pub fn get(&self, hash: &crate::sha256::Hash) -> (entry: Option<(bool, TransactionOutput)>)
        requires
            self.wf(),
        ensures
            entry == if self@.dom().contains(*hash) {
                Some(self@[*hash])
            } else {
                None
            },
    {
        match self.find(hash) {
            Some(at) => {
                proof {
                    lemma_entry_lookup(self.entries(), at as int);
                }
                Some((self.entries[at].marked, self.entries[at].output))
            },
            None => None,
        }
    }

    /// Puts `output` under `hash`, in place of what was there.
    pub fn insert(&mut self, hash: crate::sha256::Hash, marked: bool, output: TransactionOutput)
        requires
            old(self).wf(),
        ensures
            final(self).wf(),
            final(self)@ == old(self)@.insert(hash, (marked, output)),
    {
        let entry = UtxoEntry { hash, marked, output };
        let ghost before = self.entries();
        match self.find(&hash) {
            Some(at) => {
                self.entries.set(at, entry);
            },
            None => {
                self.entries.push(entry);
            },
        }
        proof {
            let after = self.entries();
            assert(keys_distinct(after));
            assert forall|key: crate::sha256::Hash| has_key(after, key) == (key == hash || has_key(
                before,
                key,
            )) by {
                if has_key(after, key) {
                    let i = position(after, key);
                    if key != hash {
                        assert(before[i].hash == key);
                    }
                }
                if has_key(before, key) {
                    let i = position(before, key);
                    assert(after[i].hash == key);
                }
                if key == hash {
                    if has_key(before, hash) {
                        let i = position(before, hash);
                        assert(after[i].hash == key);
                    } else {
                        assert(after[after.len() - 1].hash == key);
                    }
                }
            }
            assert forall|key: crate::sha256::Hash| has_key(after, key) implies entries_map(after)[key]
                == old(self)@.insert(hash, (marked, output))[key] by {
                let i = position(after, key);
                lemma_entry_lookup(after, i);
                if key != hash {
                    assert(before[i].hash == key);
                    lemma_entry_lookup(before, i);
                }
            }
            assert(self@ =~= old(self)@.insert(hash, (marked, output)));
        }
    }

    /// Takes out what is under `hash`, if anything.
    pub fn remove(&mut self, hash: &crate::sha256::Hash)
        requires
            old(self).wf(),
        ensures
            final(self).wf(),
            final(self)@ == old(self)@.remove(*hash),
    {
        let ghost before = self.entries();
        match self.find(hash) {
            Some(at) => {
                self.entries.remove(at);
                proof {
                    let after = self.entries();
                    assert(after =~= before.remove(at as int));
                    assert forall|i: int, j: int| 0 <= i < j < after.len() implies after[i].hash
                        != after[j].hash by {
                        let a = if i < at { i } else { i + 1 };
                        let b = if j < at { j } else { j + 1 };
                        assert(after[i] == before[a] && after[j] == before[b]);
                    }
                    assert forall|key: crate::sha256::Hash| has_key(after, key) == (key != *hash
                        && has_key(before, key)) by {
                        if has_key(after, key) {
                            let i = position(after, key);
                            let a = if i < at { i } else { i + 1 };
                            assert(before[a].hash == key);
                            if key == *hash {
                                if a < at {
                                    assert(before[a].hash != before[at as int].hash);
                                } else {
                                    assert(before[at as int].hash != before[a].hash);
                                }
                            }
                        }
                        if key != *hash && has_key(before, key) {
                            let a = position(before, key);
                            let i = if a < at { a } else { a - 1 };
                            assert(after[i].hash == key);
                        }
                    }
                    assert forall|key: crate::sha256::Hash| has_key(after, key) implies entries_map(
                        after,
                    )[key] == old(self)@[key] by {
                        let i = position(after, key);
                        let a = if i < at { i } else { i + 1 };
                        lemma_entry_lookup(after, i);
                        assert(before[a] == after[i]);
                        lemma_entry_lookup(before, a);
                    }
                    assert(self@ =~= old(self)@.remove(*hash));
                }
            },
            None => {
                assert(self@ =~= old(self)@.remove(*hash));
            },
        }
    }

    /// Sets the mark of the output under `hash`, if there is one.
    pub fn set_marked(&mut self, hash: &crate::sha256::Hash, marked: bool)
        requires
            old(self).wf(),
        ensures
            final(self).wf(),
            final(self)@ == with_mark(old(self)@, *hash, marked),
    {
        match self.find(hash) {
            Some(at) => {
                proof {
                    lemma_entry_lookup(self.entries(), at as int);
                }
                let output = self.entries[at].output;
                self.insert(*hash, marked, output);
            },
            None => {},
        }
    }

    /// Takes out every entry.
    pub fn clear(&mut self)
        ensures
            final(self).wf(),
            final(self).entries().len() == 0,
            final(self)@ == UtxoMap::empty(),
    {
        self.entries.clear();
        assert(self@ =~= UtxoMap::empty());
    }
}

/// `map` with the mark under `hash` set, where `hash` is a key; else `map`.
pub open spec fn with_mark(map: UtxoMap, hash: crate::sha256::Hash, marked: bool) -> UtxoMap {
    if map.dom().contains(hash) {
        map.insert(hash, (marked, map[hash].1))
    } else {
        map
    }
}

/// Whether every unspent output stands under its own hash.
#[verifier::opaque]
pub open spec fn keyed_by_content(utxos: UtxoMap) -> bool {
    forall|hash: crate::sha256::Hash| #[trigger]
        utxos.dom().contains(hash) ==> utxos[hash].1.content_hash() == hash
}

/// Taking an output out, or setting a mark, keeps every output under its own hash.
pub proof fn lemma_keyed_kept(utxos: UtxoMap, hash: crate::sha256::Hash, marked: bool)
    requires
        keyed_by_content(utxos),
    ensures
        keyed_by_content(utxos.remove(hash)),
        keyed_by_content(with_mark(utxos, hash, marked)),
        utxos.dom().contains(hash) ==> utxos[hash].1.content_hash() == hash,
{
    reveal(keyed_by_content);
}

/// Putting an output in under its hash keeps every output under its own hash.
pub proof fn lemma_keyed_put(utxos: UtxoMap, marked: bool, output: TransactionOutput)
    requires
        keyed_by_content(utxos),
    ensures
        keyed_by_content(utxos.insert(output.content_hash(), (marked, output))),
{
    reveal(keyed_by_content);
}

/// The empty map keeps every output under its own hash.
pub proof fn lemma_keyed_empty()
    ensures
        keyed_by_content(UtxoMap::empty()),
{
    reveal(keyed_by_content);
}

} // verus!
