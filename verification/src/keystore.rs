//! The key store: the indices that maps share, and the two tables through
//! which a map finds the index it needs instead of building its own.

use crate::keys::{
    extend_positions, extended, index_of, is_dense, positions_of, same_positions, SharedKeys,
};
use crate::tables::{
    branch_count, branch_entries, branch_get, branch_or_insert, branch_table, holders,
    sequence_count, sequence_entries, sequence_get, sequence_or_insert, sequence_table,
    BranchTable, Key, SequenceTable,
};
use vstd::prelude::*;

verus! {

/// What a key store holds: its indices, numbered in the order in which they
/// were made, and its two tables.
pub struct StoreState {
    /// The number of the store, which its handles carry.
    pub number: u64,
    /// The positions of each index.
    pub indices: Seq<Map<Key, usize>>,
    /// The index that was made for a key sequence.
    pub initial: Map<Seq<Key>, usize>,
    /// The index that was made from an index by adding a key.
    pub inserts: Map<(usize, Key), usize>,
}

impl StoreState {
    /// The store of the number `number`, without any index.
    pub open spec fn empty(number: u64) -> StoreState {
        StoreState { number, indices: Seq::empty(), initial: Map::empty(), inserts: Map::empty() }
    }

    /// `keys` is a handle to an index of the store: it carries the number
    /// of the store and the number and the positions of one of its indices.
    pub open spec fn holds(self, keys: &SharedKeys) -> bool {
        &&& keys.store() == self.number
        &&& keys.id() < self.indices.len()
        &&& self.indices[keys.id() as int] == keys@
    }

    /// The store has all that `earlier` had, and has it unchanged.
    pub open spec fn follows(self, earlier: StoreState) -> bool {
        &&& earlier.number == self.number
        &&& earlier.indices.len() <= self.indices.len()
        &&& forall|id: int|
            0 <= id < earlier.indices.len() ==> #[trigger] self.indices[id] == earlier.indices[id]
        &&& earlier.initial.submap_of(self.initial)
        &&& earlier.inserts.submap_of(self.inserts)
    }

    /// The index `id` was made for a key sequence.
    pub open spec fn is_root(self, id: usize) -> bool {
        exists|keys: Seq<Key>| #[trigger] self.initial.contains_key(keys) && self.initial[keys] == id
    }

    /// The index `id` was made from another index by adding a key.
    pub open spec fn is_branch(self, id: usize) -> bool {
        exists|base: usize, key: Key| #[trigger]
            self.inserts.contains_key((base, key)) && self.inserts[(base, key)] == id
    }

    /// The index `id` is reached from the index of a key sequence over at
    /// most `steps` branches.
    pub open spec fn reaches(self, id: usize, steps: nat) -> bool
        decreases steps,
    {
        self.is_root(id) || (steps > 0 && exists|base: usize, key: Key| #[trigger]
            self.inserts.contains_key((base, key)) && self.inserts[(base, key)] == id
                && self.reaches(base, (steps - 1) as nat))
    }

    /// Every index is dense and is what the table entry that leads to it
    /// says; a branch was made after its base; and exactly one table entry
    /// leads to each index.
    pub open spec fn wf(self) -> bool {
        &&& self.indices.len() <= usize::MAX
        &&& self.initial.dom().finite()
        &&& self.inserts.dom().finite()
        &&& self.initial.len() + self.inserts.len() == self.indices.len()
        &&& forall|id: int| 0 <= id < self.indices.len() ==> is_dense(#[trigger] self.indices[id])
        &&& forall|keys: Seq<Key>| #[trigger]
            self.initial.contains_key(keys) ==> self.initial[keys] < self.indices.len()
                && self.indices[self.initial[keys] as int] == positions_of(keys)
        &&& forall|base: usize, key: Key| #[trigger]
            self.inserts.contains_key((base, key)) ==> base < self.inserts[(base, key)]
                && self.inserts[(base, key)] < self.indices.len() && !self.indices[base as int]
                .contains_key(key) && self.indices[self.inserts[(base, key)] as int] == extended(
                self.indices[base as int],
                key,
            )
        &&& forall|one: Seq<Key>, other: Seq<Key>|
            #![trigger self.initial[one], self.initial[other]]
            self.initial.contains_key(one) && self.initial.contains_key(other)
                && self.initial[one] == self.initial[other] ==> one == other
        &&& forall|one: (usize, Key), other: (usize, Key)|
            #![trigger self.inserts[one], self.inserts[other]]
            self.inserts.contains_key(one) && self.inserts.contains_key(other)
                && self.inserts[one] == self.inserts[other] ==> one == other
        &&& forall|keys: Seq<Key>, branch: (usize, Key)|
            #![trigger self.initial[keys], self.inserts[branch]]
            self.initial.contains_key(keys) && self.inserts.contains_key(branch)
                ==> self.initial[keys] != self.inserts[branch]
        &&& forall|id: usize|
            id < self.indices.len() ==> #[trigger] self.is_root(id) || self.is_branch(id)
    }

    /// The store with one more index.
    pub open spec fn with_index(self, positions: Map<Key, usize>) -> StoreState {
        StoreState { indices: self.indices.push(positions), ..self }
    }

    /// Asking for the index of `keys`: the store afterwards, and the number
    /// of the index. The first request for a sequence makes the index; every
    /// later one finds it.
    pub open spec fn get(self, keys: Seq<Key>) -> (StoreState, usize) {
        if self.initial.contains_key(keys) {
            (self, self.initial[keys])
        } else {
            let id = self.indices.len() as usize;
            (
                StoreState {
                    initial: self.initial.insert(keys, id),
                    ..self.with_index(positions_of(keys))
                },
                id,
            )
        }
    }

    /// Asking for the index that adds `key` to the index `base`: the store
    /// afterwards, and the number of the index. It is `base` where that has
    /// the key. Else the first request for `base` and `key` makes the
    /// branch; every later one finds it.
    pub open spec fn extend(self, base: usize, key: Key) -> (StoreState, usize) {
        if self.indices[base as int].contains_key(key) {
            (self, base)
        } else if self.inserts.contains_key((base, key)) {
            (self, self.inserts[(base, key)])
        } else {
            let id = self.indices.len() as usize;
            (
                StoreState {
                    inserts: self.inserts.insert((base, key), id),
                    ..self.with_index(extended(self.indices[base as int], key))
                },
                id,
            )
        }
    }
}

/// What a map needs of the store that keeps its index: one index for each
/// key sequence, and one for each key added to an index.
pub trait KeyStore: View<V = StoreState> + Sized {
    /// The store is consistent.
    spec fn wf(&self) -> bool;

    /// What a consistent store holds is consistent.
    proof fn lemma_wf(&self)
        requires
            self.wf(),
        ensures
            self@.wf(),
    ;

    /// The index of `keys`: the one that the store has for this very
    /// sequence, made now if the sequence was never asked for.
    fn get(&mut self, keys: Vec<Key>) -> (shared: SharedKeys)
        requires
            old(self).wf(),
        ensures
            final(self).wf(),
            final(self)@ == old(self)@.get(keys@).0,
            shared.id() == old(self)@.get(keys@).1,
            final(self)@.holds(&shared),
            final(self)@.follows(old(self)@),
            shared.wf(),
            shared@ == positions_of(keys@),
    ;

    /// The index that has `key` besides the keys of `base`: `base` itself
    /// where it has the key, else the one branch that the store has for
    /// `base` and `key`, made now if it was never asked for.
    fn extend(&mut self, base: &SharedKeys, key: Key) -> (shared: SharedKeys)
        requires
            old(self).wf(),
            old(self)@.holds(base),
        ensures
            final(self).wf(),
            final(self)@ == old(self)@.extend(base.id(), key).0,
            shared.id() == old(self)@.extend(base.id(), key).1,
            final(self)@.holds(&shared),
            final(self)@.follows(old(self)@),
            shared.wf(),
            shared@ == extended(base@, key),
            base@.contains_key(key) ==> shared == *base,
    ;
}

/// Counts over a key store, for diagnosis.
#[derive(Clone, Copy, Debug)]
pub struct KeyStoreStats {
    /// The key sequences that an index was made for.
    pub initial_entries: usize,
    /// The indices of the store.
    pub total_maps: usize,
    /// The branches: indices that were made from another by adding a key.
    pub total_inserts: usize,
    /// The pointers to the indices' positions that are alive, the store's
    /// own among them; `usize::MAX` if there are more than that.
    pub total_refs: usize,
}

/// The sum of `counts`.
pub open spec fn sum_of(counts: Seq<usize>) -> int
    decreases counts.len(),
{
    if counts.len() == 0 {
        0
    } else {
        sum_of(counts.drop_last()) + counts.last()
    }
}

/// The sum of the first counts is at most the sum of all, and a sum of
/// counts that are one or more is at least their number.
pub proof fn lemma_sum_of_grows(counts: Seq<usize>, first: int)
    requires
        0 <= first <= counts.len(),
    ensures
        sum_of(counts.take(first)) <= sum_of(counts),
        (forall|at: int| 0 <= at < counts.len() ==> counts[at] >= 1) ==> sum_of(counts)
            >= counts.len(),
    decreases counts.len(),
{
    if counts.len() > 0 {
        let front = counts.drop_last();
        if first < counts.len() {
            lemma_sum_of_grows(front, first);
            assert(front.take(first) =~= counts.take(first));
        } else {
            lemma_sum_of_grows(front, first - 1);
            assert(counts.take(first) =~= counts);
        }
    }
}

/// `sum`, or `usize::MAX` where `sum` is greater.
pub open spec fn capped(sum: int) -> int {
    if sum <= usize::MAX {
        sum
    } else {
        usize::MAX as int
    }
}

/// `counts` has a count of pointers for each of `indices` indices, each at
/// least one, and `total` is their sum, capped.
pub open spec fn counts_pointers(counts: Seq<usize>, indices: nat, total: usize) -> bool {
    &&& counts.len() == indices
    &&& forall|at: int| 0 <= at < counts.len() ==> counts[at] >= 1
    &&& total == capped(sum_of(counts))
}

/// The sum of `counts`, or `usize::MAX` where the sum is greater.
pub fn sum_counts(counts: &Vec<usize>) -> (total: usize)
    ensures
        total == capped(sum_of(counts@)),
{
    let mut total: usize = 0;
    let mut at: usize = 0;
    while at < counts.len()
        invariant
            at <= counts.len(),
            total == sum_of(counts@.take(at as int)),
        decreases counts.len() - at,
    {
        let count = counts[at];
        proof {
            assert(counts@.take(at + 1).drop_last() =~= counts@.take(at as int));
            lemma_sum_of_grows(counts@, at + 1);
        }
        if count > usize::MAX - total {
            return usize::MAX;
        }
        total += count;
        at += 1;
    }
    proof {
        assert(counts@.take(at as int) =~= counts@);
    }
    total
}

/// The key store of this crate: it keeps every index it ever made.
#[derive(Debug)]
pub struct StdKeyStore {
    number: u64,
    nodes: Vec<SharedKeys>,
    initial: SequenceTable,
    inserts: BranchTable,
}

impl View for StdKeyStore {
    type V = StoreState;

    closed spec fn view(&self) -> StoreState {
        StoreState {
            number: self.number,
            indices: Seq::new(self.nodes@.len(), |id: int| self.nodes@[id]@),
            initial: sequence_entries(self.initial),
            inserts: branch_entries(self.inserts),
        }
    }
}

impl StdKeyStore {
    /// Each index is stored under its own number, with the number of the
    /// store.
    closed spec fn numbered(&self) -> bool {
        forall|id: int|
            0 <= id < self.nodes@.len() ==> (#[trigger] self.nodes@[id]).id() == id
                && self.nodes@[id].store() == self.number
    }

    /// A store without any index. Its handles carry `number`, which is what
    /// tells them from the handles of another store: give each store of a
    /// process a number of its own.
    pub fn new(number: u64) -> (store: Self)
        ensures
            store.wf(),
            store@ == StoreState::empty(number),
    {
        let store = StdKeyStore {
            number,
            nodes: Vec::new(),
            initial: sequence_table(),
            inserts: branch_table(),
        };
        proof {
            assert(store@.indices =~= Seq::empty());
        }
        store
    }

    /// The key sequences that the store has an index for, to be read.
    pub fn get_map(&self) -> (map: InitialMap<'_>)
        ensures
            map.store() == *self,
    {
        InitialMap { store: self }
    }

    /// Whether `keys` is a handle to an index of this store.
    pub fn holds(&self, keys: &SharedKeys) -> (held: bool)
        ensures
            held == self@.holds(keys),
    {
        keys.store_number() == self.number && keys.number() < self.nodes.len() && same_positions(
            self.nodes[keys.number()].indices(),
            keys.indices(),
        )
    }

    /// How many key sequences, indices and branches the store has, and how
    /// many pointers to its indices are alive. The indices are visited in
    /// the order in which they were made, each base before its branches;
    /// that this finds every index that can be reached from a key sequence
    /// through branches, and nothing else, is
    /// [`lemma_every_index_is_reached`].
    pub fn stats(&self) -> (stats: KeyStoreStats)
        requires
            self.wf(),
        ensures
            stats.initial_entries == self@.initial.len(),
            stats.total_maps == self@.indices.len(),
            stats.total_inserts == self@.inserts.len(),
            stats.total_maps == stats.initial_entries + stats.total_inserts,
            stats.total_refs >= stats.total_maps,
            exists|counts: Seq<usize>| #[trigger]
                counts_pointers(counts, self@.indices.len(), stats.total_refs),
    {
        let mut counts: Vec<usize> = Vec::new();
        let mut at: usize = 0;
        while at < self.nodes.len()
            invariant
                at <= self.nodes.len(),
                counts@.len() == at,
                forall|done: int| 0 <= done < at ==> counts@[done] >= 1,
            decreases self.nodes.len() - at,
        {
            counts.push(holders(self.nodes[at].shared()));
            at += 1;
        }
        let total_refs = sum_counts(&counts);
        proof {
            lemma_sum_of_grows(counts@, 0);
            assert(counts_pointers(counts@, self@.indices.len(), total_refs));
        }
        KeyStoreStats {
            initial_entries: sequence_count(&self.initial),
            total_maps: self.nodes.len(),
            total_inserts: branch_count(&self.inserts),
            total_refs,
        }
    }
}

/// The key sequences that a store has an index for.
pub struct InitialMap<'a> {
    store: &'a StdKeyStore,
}

impl<'a> InitialMap<'a> {
    /// The store whose key sequences these are.
    pub closed spec fn store(&self) -> StdKeyStore {
        *self.store
    }

    /// The number of key sequences.
    pub fn len(&self) -> (count: usize)
        ensures
            count == self.store()@.initial.len(),
    {
        sequence_count(&self.store.initial)
    }

    /// Whether there is no key sequence.
    pub fn is_empty(&self) -> (empty: bool)
        ensures
            empty == (self.store()@.initial.len() == 0),
    {
        sequence_count(&self.store.initial) == 0
    }

    /// The index that the store has for `keys`, if it has one. Nothing is
    /// made.
    pub fn get(&self, keys: &Vec<Key>) -> (shared: Option<SharedKeys>)
        requires
            self.store().wf(),
        ensures
            match shared {
                Some(shared) => self.store()@.initial.contains_key(keys@) && shared.id()
                    == self.store()@.initial[keys@] && self.store()@.holds(&shared)
                    && shared.wf() && shared@ == positions_of(keys@),
                None => !self.store()@.initial.contains_key(keys@),
            },
    {
        match sequence_get(&self.store.initial, keys) {
            Some(id) => Some(self.store.nodes[id].clone()),
            None => None,
        }
    }
}

impl KeyStore for StdKeyStore {
    closed spec fn wf(&self) -> bool {
        self@.wf() && self.numbered()
    }

    proof fn lemma_wf(&self) {
    }

    fn get(&mut self, keys: Vec<Key>) -> (shared: SharedKeys) {
        match sequence_get(&self.initial, &keys) {
            Some(id) => self.nodes[id].clone(),
            None => {
                let ghost before = self@;
                let positions = index_of(&keys);
                let id = self.nodes.len();
                self.nodes.push(SharedKeys::new(self.number, id, positions));
                let kept = sequence_or_insert(&mut self.initial, keys, id);
                proof {
                    assert(keys@.len() == keys.len());
                    assert(self.nodes@.len() == self.nodes.len());
                    assert(self@.indices =~= before.indices.push(positions@));
                    lemma_get_keeps_wf(before, keys@);
                }
                self.nodes[kept].clone()
            },
        }
    }

    fn extend(&mut self, base: &SharedKeys, key: Key) -> (shared: SharedKeys) {
        if base.indices().contains_key(&key) {
            return base.clone();
        }
        match branch_get(&self.inserts, base.number(), key) {
            Some(id) => self.nodes[id].clone(),
            None => {
                let ghost before = self@;
                let positions = extend_positions(base.indices(), key);
                let id = self.nodes.len();
                self.nodes.push(SharedKeys::new(self.number, id, positions));
                let kept = branch_or_insert(&mut self.inserts, base.number(), key, id);
                proof {
                    assert(self.nodes@.len() == self.nodes.len());
                    assert(self@.indices =~= before.indices.push(positions@));
                    lemma_extend_keeps_wf(before, base.id(), key);
                }
                self.nodes[kept].clone()
            },
        }
    }
}

/// Asking for the index of a key sequence keeps the store consistent and
/// changes nothing that it had.
pub proof fn lemma_get_keeps_wf(store: StoreState, keys: Seq<Key>)
    requires
        store.wf(),
        keys.len() <= usize::MAX,
        store.indices.len() < usize::MAX || store.initial.contains_key(keys),
    ensures
        store.get(keys).0.wf(),
        store.get(keys).0.follows(store),
        store.get(keys).1 < store.get(keys).0.indices.len(),
        store.get(keys).0.indices[store.get(keys).1 as int] == positions_of(keys),
{
    if !store.initial.contains_key(keys) {
        crate::keys::lemma_positions_of_is_dense(keys);
        let after = store.get(keys).0;
        let id = store.get(keys).1;
        assert forall|one: Seq<Key>, branch: (usize, Key)|
            #![trigger after.initial[one], after.inserts[branch]]
            after.initial.contains_key(one) && after.inserts.contains_key(branch)
                implies after.initial[one] != after.inserts[branch] by {
            assert(store.inserts.contains_key((branch.0, branch.1)));
        }
        assert forall|other: usize| other < after.indices.len() implies #[trigger] after.is_root(
            other,
        ) || after.is_branch(other) by {
            lemma_origin_stays(store, after, other);
            if other == id {
                assert(after.initial.contains_key(keys));
            }
        }
    }
}

/// Asking for a branch keeps the store consistent and changes nothing that
/// it had.
pub proof fn lemma_extend_keeps_wf(store: StoreState, base: usize, key: Key)
    requires
        store.wf(),
        base < store.indices.len(),
        store.indices.len() < usize::MAX || store.extend(base, key).0 == store,
        is_dense(extended(store.indices[base as int], key)),
    ensures
        store.extend(base, key).0.wf(),
        store.extend(base, key).0.follows(store),
        store.extend(base, key).1 < store.extend(base, key).0.indices.len(),
        store.extend(base, key).0.indices[store.extend(base, key).1 as int] == extended(
            store.indices[base as int],
            key,
        ),
{
    let after = store.extend(base, key).0;
    let id = store.extend(base, key).1;
    if !store.indices[base as int].contains_key(key) && !store.inserts.contains_key((base, key)) {
        assert forall|one: (usize, Key), other: (usize, Key)|
            #![trigger after.inserts[one], after.inserts[other]]
            after.inserts.contains_key(one) && after.inserts.contains_key(other)
                && after.inserts[one] == after.inserts[other] implies one == other by {
            if one != (base, key) {
                assert(store.inserts.contains_key((one.0, one.1)));
            }
            if other != (base, key) {
                assert(store.inserts.contains_key((other.0, other.1)));
            }
        }
        assert forall|other: usize| other < after.indices.len() implies #[trigger] after.is_root(
            other,
        ) || after.is_branch(other) by {
            lemma_origin_stays(store, after, other);
            if other == id {
                assert(after.inserts.contains_key((base, key)));
            }
        }
    }
}

/// An index keeps its origin when the tables grow.
pub proof fn lemma_origin_stays(earlier: StoreState, later: StoreState, id: usize)
    requires
        earlier.initial.submap_of(later.initial),
        earlier.inserts.submap_of(later.inserts),
    ensures
        earlier.is_root(id) ==> later.is_root(id),
        earlier.is_branch(id) ==> later.is_branch(id),
{
    if earlier.is_root(id) {
        let keys = choose|keys: Seq<Key>| #[trigger]
            earlier.initial.contains_key(keys) && earlier.initial[keys] == id;
        assert(later.initial.contains_key(keys) && later.initial[keys] == id);
    }
    if earlier.is_branch(id) {
        let (base, key) = choose|base: usize, key: Key| #[trigger]
            earlier.inserts.contains_key((base, key)) && earlier.inserts[(base, key)] == id;
        assert(later.inserts.contains_key((base, key)) && later.inserts[(base, key)] == id);
    }
}

/// What is reached over some branches is reached over more.
pub proof fn lemma_reaches_over_more(store: StoreState, id: usize, steps: nat, more: nat)
    requires
        store.reaches(id, steps),
        steps <= more,
    ensures
        store.reaches(id, more),
    decreases steps,
{
    if !store.is_root(id) {
        let (base, key) = choose|base: usize, key: Key| #[trigger]
            store.inserts.contains_key((base, key)) && store.inserts[(base, key)] == id
                && store.reaches(base, (steps - 1) as nat);
        lemma_reaches_over_more(store, base, (steps - 1) as nat, (more - 1) as nat);
    }
}

/// Every index of a store is reached from the index of some key sequence
/// through branches: counting the indices counts what a walk from the key
/// sequences through the branches would find.
pub proof fn lemma_every_index_is_reached(store: StoreState, id: usize)
    requires
        store.wf(),
        id < store.indices.len(),
    ensures
        store.reaches(id, id as nat),
    decreases id,
{
    if !store.is_root(id) {
        let (base, key) = choose|base: usize, key: Key| #[trigger]
            store.inserts.contains_key((base, key)) && store.inserts[(base, key)] == id;
        lemma_every_index_is_reached(store, base);
        lemma_reaches_over_more(store, base, base as nat, (id - 1) as nat);
    }
}

/// Different key sequences have different indices, whatever keys they hold.
pub proof fn lemma_sequences_do_not_share(store: StoreState, one: Seq<Key>, other: Seq<Key>)
    requires
        store.wf(),
        one != other,
        store.indices.len() + 2 <= usize::MAX,
    ensures
        ({
            let (first, left) = store.get(one);
            let (second, right) = first.get(other);
            left != right
        }),
{
}

/// A key sequence has one index: a second request for the sequence finds
/// the index that the first one got, and changes nothing.
pub proof fn lemma_same_sequence_is_shared(store: StoreState, keys: Seq<Key>)
    requires
        store.wf(),
    ensures
        ({
            let (first, one) = store.get(keys);
            let (second, other) = first.get(keys);
            other == one && second == first
        }),
{
}

/// An index and a key have one branch: whoever adds the same key to the
/// same index gets the same index, whether it was there or had to be made,
/// and the second request changes nothing.
pub proof fn lemma_same_branch_is_shared(store: StoreState, base: usize, key: Key)
    requires
        store.wf(),
        base < store.indices.len(),
    ensures
        ({
            let (first, one) = store.extend(base, key);
            let (second, other) = first.extend(base, key);
            other == one && second == first
        }),
{
}

/// Branches do not interfere: adding two different new keys to the same
/// index gives two different indices, each the base with its own key, and
/// the base is what it was.
pub proof fn lemma_branches_do_not_interfere(store: StoreState, base: usize, one: Key, other: Key)
    requires
        store.wf(),
        base < store.indices.len(),
        one != other,
        !store.indices[base as int].contains_key(one),
        !store.indices[base as int].contains_key(other),
        store.indices.len() + 2 <= usize::MAX,
        store.indices[base as int].len() < usize::MAX,
    ensures
        ({
            let (first, left) = store.extend(base, one);
            let (second, right) = first.extend(base, other);
            &&& second.wf()
            &&& left != right
            &&& left != base
            &&& right != base
            &&& second.indices[base as int] == store.indices[base as int]
            &&& second.indices[left as int] == extended(store.indices[base as int], one)
            &&& second.indices[right as int] == extended(store.indices[base as int], other)
        }),
{
    let (first, left) = store.extend(base, one);
    crate::keys::lemma_extended_is_dense(store.indices[base as int], one);
    crate::keys::lemma_extended_is_dense(store.indices[base as int], other);
    lemma_extend_keeps_wf(store, base, one);
    lemma_extend_keeps_wf(first, base, other);
}

} // verus!
