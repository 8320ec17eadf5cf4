//! The concurrent tables of the key store and the other outside calls.
//!
//! Nothing in this file is proved. Each item states what the library assumes
//! of `dashmap`, `itertools` or `std::sync::Arc`; everything else in the crate
//! is verified against these statements.
//!
//! `DashMap` changes through `&self`. The wrappers that change a table take
//! `&mut` instead, so a table has one writer at a time and what it holds is a
//! function of its value.

use dashmap::DashMap;
use itertools::Itertools;
use std::collections::hash_map::RandomState;
use std::collections::HashMap;
use std::sync::Arc;
use vstd::prelude::*;

verus! {

/// A key of a map: a 64-bit identifier.
pub type Key = u64;

/// The positions that an index gives to its keys.
pub type Positions = HashMap<Key, usize>;

/// From a key sequence to the index that was built from it.
pub type SequenceTable = DashMap<Vec<Key>, usize, RandomState>;

/// From an index and a key it lacks to the index that adds the key.
pub type BranchTable = DashMap<(usize, Key), usize, RandomState>;

/// `dashmap::DashMap`, as an opaque type.
#[verifier::external_type_specification]
#[verifier::external_body]
#[verifier::reject_recursive_types(K)]
#[verifier::reject_recursive_types(V)]
#[verifier::reject_recursive_types(S)]
pub struct ExDashMap<K, V, S>(DashMap<K, V, S>);

/// The entries of a sequence table, each key sequence taken by its view.
pub uninterp spec fn sequence_entries(table: SequenceTable) -> Map<Seq<Key>, usize>;

/// The entries of a branch table.
pub uninterp spec fn branch_entries(table: BranchTable) -> Map<(usize, Key), usize>;

/// `DashMap::new`: the table it makes holds no entry.
#[verifier::external_body]
pub(crate) fn sequence_table() -> (table: SequenceTable)
    ensures
        sequence_entries(table) == (Map::<Seq<Key>, usize>::empty()),
{
    DashMap::new()
}

/// `DashMap::get`, then `Ref::value`: the value stored under `keys`, if the
/// table has an entry for that sequence.
#[verifier::external_body]
pub(crate) fn sequence_get(table: &SequenceTable, keys: &Vec<Key>) -> (found: Option<usize>)
    ensures
        found == (if sequence_entries(*table).contains_key(keys@) {
            Some(sequence_entries(*table)[keys@])
        } else {
            None
        }),
{
    table.get(keys).map(|entry| *entry.value())
}

/// `DashMap::entry`, then `Entry::or_insert` and `RefMut::value`: an entry
/// that is there stays and its value comes back; where there is none,
/// `id` is stored under `keys` and comes back.
#[verifier::external_body]
pub(crate) fn sequence_or_insert(table: &mut SequenceTable, keys: Vec<Key>, id: usize) -> (kept:
    usize)
    ensures
        sequence_entries(*old(table)).contains_key(keys@) ==> kept == sequence_entries(
            *old(table),
        )[keys@] && sequence_entries(*final(table)) == sequence_entries(*old(table)),
        !sequence_entries(*old(table)).contains_key(keys@) ==> kept == id && sequence_entries(
            *final(table),
        ) == sequence_entries(*old(table)).insert(keys@, id),
{
    *table.entry(keys).or_insert(id).value()
}

/// `DashMap::len`: the number of entries.
#[verifier::external_body]
pub(crate) fn sequence_count(table: &SequenceTable) -> (count: usize)
    ensures
        count == sequence_entries(*table).len(),
{
    table.len()
}

/// `DashMap::new`: the table it makes holds no entry.
#[verifier::external_body]
pub(crate) fn branch_table() -> (table: BranchTable)
    ensures
        branch_entries(table) == (Map::<(usize, Key), usize>::empty()),
{
    DashMap::new()
}

/// `DashMap::get`, then `Ref::value`: the value stored under `(base, key)`,
/// if the table has such an entry.
#[verifier::external_body]
pub(crate) fn branch_get(table: &BranchTable, base: usize, key: Key) -> (found: Option<usize>)
    ensures
        found == (if branch_entries(*table).contains_key((base, key)) {
            Some(branch_entries(*table)[(base, key)])
        } else {
            None
        }),
{
    table.get(&(base, key)).map(|entry| *entry.value())
}

/// `DashMap::entry`, then `Entry::or_insert` and `RefMut::value`: an entry
/// that is there stays and its value comes back; where there is none,
/// `id` is stored under `(base, key)` and comes back.
#[verifier::external_body]
pub(crate) fn branch_or_insert(table: &mut BranchTable, base: usize, key: Key, id: usize) -> (kept:
    usize)
    ensures
        branch_entries(*old(table)).contains_key((base, key)) ==> kept == branch_entries(
            *old(table),
        )[(base, key)] && branch_entries(*final(table)) == branch_entries(*old(table)),
        !branch_entries(*old(table)).contains_key((base, key)) ==> kept == id && branch_entries(
            *final(table),
        ) == branch_entries(*old(table)).insert((base, key), id),
{
    *table.entry((base, key)).or_insert(id).value()
}

/// `DashMap::len`: the number of entries.
#[verifier::external_body]
pub(crate) fn branch_count(table: &BranchTable) -> (count: usize)
    ensures
        count == branch_entries(*table).len(),
{
    table.len()
}

/// `Arc::clone`: another pointer to the same positions.
#[verifier::external_body]
pub(crate) fn share(positions: &Arc<Positions>) -> (other: Arc<Positions>)
    ensures
        other == *positions,
{
    Arc::clone(positions)
}

/// `Arc::strong_count`: how many pointers to these positions are alive. The
/// one passed in is among them; nothing else is known of the number.
#[verifier::external_body]
pub(crate) fn holders(positions: &Arc<Positions>) -> (count: usize)
    ensures
        count >= 1,
{
    Arc::strong_count(positions)
}

/// `Itertools::multiunzip` on the pairs, each value wrapped in `Some`: the
/// keys in one column and the values in the other, both in the order of the
/// pairs.
#[verifier::external_body]
pub(crate) fn unzip_pairs<V>(pairs: Vec<(Key, V)>) -> (columns: (Vec<Key>, Vec<Option<V>>))
    ensures
        columns.0@.len() == pairs@.len(),
        columns.1@.len() == pairs@.len(),
        forall|at: int| 0 <= at < pairs@.len() ==> (#[trigger] columns.0@[at]) == pairs@[at].0,
        forall|at: int|
            0 <= at < pairs@.len() ==> (#[trigger] columns.1@[at]) == Some(pairs@[at].1),
{
    pairs.into_iter().map(|(key, value)| (key, Some(value))).multiunzip()
}

} // verus!
