//! Key indices: which position each key of a map has in the map's array of
//! values.
//!
//! An index never changes. A map that needs one more key asks its key store
//! for the index that adds it, see [`SharedKeys::insert`].

use crate::keystore::KeyStore;
use crate::tables::{share, Key, Positions};
use std::collections::HashMap;
use std::sync::Arc;
use vstd::prelude::*;

verus! {

/// Some key of `positions` has the position `position`.
pub open spec fn is_taken(positions: Map<Key, usize>, position: usize) -> bool {
    exists|key: Key| positions.contains_key(key) && #[trigger] positions[key] == position
}

/// The positions of `n` keys are exactly `0..n`: no two keys share one and
/// none is left out. The number of keys fits a `usize`.
pub open spec fn is_dense(positions: Map<Key, usize>) -> bool {
    &&& positions.dom().finite()
    &&& positions.len() <= usize::MAX
    &&& forall|key: Key|
        positions.contains_key(key) ==> (#[trigger] positions[key]) < positions.len()
    &&& forall|one: Key, other: Key|
        #![trigger positions[one], positions[other]]
        positions.contains_key(one) && positions.contains_key(other) && positions[one]
            == positions[other] ==> one == other
    &&& forall|position: usize|
        position < positions.len() ==> #[trigger] is_taken(positions, position)
}

/// `next` is the position after the greatest position of `positions`, or 0
/// where `positions` is empty.
pub open spec fn is_next(positions: Map<Key, usize>, next: int) -> bool {
    &&& forall|key: Key| positions.contains_key(key) ==> (#[trigger] positions[key]) < next
    &&& next == 0 || (0 < next <= usize::MAX + 1 && is_taken(positions, (next - 1) as usize))
}

/// The position after the greatest position of `positions`; 0 where
/// `positions` is empty.
pub open spec fn next_position(positions: Map<Key, usize>) -> int {
    choose|next: int| is_next(positions, next)
}

/// `positions` with `key` in it: unchanged where it has the key already,
/// else with `key` at the position after the greatest.
pub open spec fn extended(positions: Map<Key, usize>, key: Key) -> Map<Key, usize> {
    if positions.contains_key(key) {
        positions
    } else {
        positions.insert(key, next_position(positions) as usize)
    }
}

/// There is one position after the greatest.
pub proof fn lemma_next_is_unique(positions: Map<Key, usize>, next: int)
    requires
        is_next(positions, next),
    ensures
        next_position(positions) == next,
{
    let other = next_position(positions);
    assert(is_next(positions, other));
    if other < next {
        let key = choose|key: Key|
            positions.contains_key(key) && #[trigger] positions[key] == (next - 1) as usize;
        assert(positions[key] < other);
    }
    if next < other {
        let key = choose|key: Key|
            positions.contains_key(key) && #[trigger] positions[key] == (other - 1) as usize;
        assert(positions[key] < next);
    }
}

/// The positions that a key sequence gives: each key gets the position
/// after the greatest where it first occurs, and a key that occurs again
/// keeps its own. The positions are dense, see
/// [`lemma_positions_of_is_dense`].
pub open spec fn positions_of(keys: Seq<Key>) -> Map<Key, usize>
    decreases keys.len(),
{
    if keys.len() == 0 {
        Map::empty()
    } else {
        extended(positions_of(keys.drop_last()), keys.last())
    }
}

/// Adding a key keeps an index dense, keeps every position it had, and makes
/// it longer by one exactly if the key is new.
pub proof fn lemma_extended_is_dense(positions: Map<Key, usize>, key: Key)
    requires
        is_dense(positions),
        positions.len() < usize::MAX,
    ensures
        next_position(positions) == positions.len(),
        is_dense(extended(positions, key)),
        extended(positions, key).contains_key(key),
        extended(positions, key).len() == positions.len() + (if positions.contains_key(key) {
            0nat
        } else {
            1nat
        }),
        forall|other: Key|
            positions.contains_key(other) ==> extended(positions, key).contains_key(other)
                && #[trigger] extended(positions, key)[other] == positions[other],
{
    lemma_next_position_follows_greatest(positions);
    if !positions.contains_key(key) {
        let next = extended(positions, key);
        assert forall|position: usize| position < next.len() implies #[trigger] is_taken(
            next,
            position,
        ) by {
            if position < positions.len() {
                assert(is_taken(positions, position));
                let witness = choose|other: Key|
                    positions.contains_key(other) && #[trigger] positions[other] == position;
                assert(next.contains_key(witness) && next[witness] == position);
            } else {
                assert(next.contains_key(key) && next[key] == position);
            }
        }
    }
}

/// The index of a key sequence is dense and holds exactly the keys of the
/// sequence.
pub proof fn lemma_positions_of_is_dense(keys: Seq<Key>)
    requires
        keys.len() <= usize::MAX,
    ensures
        is_dense(positions_of(keys)),
        positions_of(keys).len() <= keys.len(),
        forall|key: Key| #[trigger] positions_of(keys).contains_key(key) <==> keys.contains(key),
    decreases keys.len(),
{
    if keys.len() > 0 {
        let front = keys.drop_last();
        lemma_positions_of_is_dense(front);
        lemma_extended_is_dense(positions_of(front), keys.last());
        assert forall|key: Key| #[trigger]
            positions_of(keys).contains_key(key) <==> keys.contains(key) by {
            if keys.contains(key) {
                let at = choose|at: int| 0 <= at < keys.len() && keys[at] == key;
                if at < front.len() {
                    assert(front[at] == key);
                }
            }
            if front.contains(key) {
                let at = choose|at: int| 0 <= at < front.len() && front[at] == key;
                assert(keys[at] == key);
            }
        }
    }
}

/// In a dense index the position after the greatest is the number of keys.
pub proof fn lemma_next_position_follows_greatest(positions: Map<Key, usize>)
    requires
        is_dense(positions),
    ensures
        is_next(positions, positions.len() as int),
        next_position(positions) == positions.len(),
{
    if positions.len() > 0 {
        assert(is_taken(positions, (positions.len() - 1) as usize));
    }
    lemma_next_is_unique(positions, positions.len() as int);
}

/// The keys of a table with their positions, in the order in which the
/// table is walked. The order is a matter of the table alone: as long as the
/// table is what it is, every walk takes it.
pub open spec fn order_of(positions: Positions) -> Seq<(Key, usize)> {
    vstd::std_specs::hash::into_iter(vstd::std_specs::hash::spec_hash_map_iter(&positions))
}

/// The keys and positions of the entries of a walk.
pub open spec fn walk_of(entries: Seq<(&Key, usize)>) -> Seq<(Key, usize)> {
    Seq::new(entries.len(), |at: int| (*entries[at].0, entries[at].1))
}

/// The keys of `positions` with their positions, each key once, in the
/// order in which the table is walked.
pub fn walk_positions(positions: &Positions) -> (entries: Vec<(&Key, usize)>)
    ensures
        walk_of(entries@) == order_of(*positions),
        entries@.len() == positions@.len(),
        forall|at: int|
            0 <= at < entries@.len() ==> positions@.contains_key(*(#[trigger] entries@[at]).0)
                && positions@[*entries@[at].0] == entries@[at].1,
        forall|one: int, other: int|
            0 <= one < other < entries@.len() ==> *(#[trigger] entries@[one]).0 != *(
            #[trigger] entries@[other]).0,
        forall|key: Key|
            positions@.contains_key(key) ==> exists|at: int|
                0 <= at < entries@.len() && *(#[trigger] entries@[at]).0 == key,
{
    let mut entries: Vec<(&Key, usize)> = Vec::new();
    for (key, position) in walk: positions.iter()
        invariant
            entries@.len() == walk.index(),
            walk.seq().no_duplicates(),
            walk.seq().unref() == order_of(*positions),
            forall|key: Key|
                positions@.contains_key(key) ==> exists|at: int|
                    0 <= at < walk.seq().len() && *(#[trigger] walk.seq()[at]).0 == key,
            forall|at: int|
                0 <= at < walk.seq().len() ==> positions@.contains_key(
                    *(#[trigger] walk.seq()[at]).0,
                ) && positions@[*walk.seq()[at].0] == *walk.seq()[at].1,
            forall|at: int|
                #![trigger entries@[at]]
                #![trigger walk.seq()[at]]
                0 <= at < entries@.len() ==> entries@[at].0 == walk.seq()[at].0
                    && entries@[at].1 == *walk.seq()[at].1,
            forall|one: int, other: int|
                0 <= one < other < entries@.len() ==> *(#[trigger] entries@[one]).0 != *(
                #[trigger] entries@[other]).0,
    {
        entries.push((key, *position));
    }
    proof {
        assert(walk_of(entries@) =~= order_of(*positions));
    }
    entries
}

/// The position after the greatest position of `positions`; 0 where
/// `positions` is empty.
pub fn next_position_of(positions: &Positions) -> (next: usize)
    requires
        forall|key: Key| positions@.contains_key(key) ==> (#[trigger] positions@[key]) < usize::MAX,
    ensures
        next == next_position(positions@),
{
    let entries = walk_positions(positions);
    let mut next: usize = 0;
    let mut at: usize = 0;
    while at < entries.len()
        invariant
            at <= entries@.len(),
            forall|seen: int| 0 <= seen < at ==> (#[trigger] entries@[seen]).1 < next,
            next == 0 || exists|seen: int| 0 <= seen < at && (#[trigger] entries@[seen]).1 == next - 1,
            forall|each: int|
                0 <= each < entries@.len() ==> positions@.contains_key(
                    *(#[trigger] entries@[each]).0,
                ) && positions@[*entries@[each].0] == entries@[each].1,
            forall|key: Key|
                positions@.contains_key(key) ==> (#[trigger] positions@[key]) < usize::MAX,
        decreases entries@.len() - at,
    {
        let position = entries[at].1;
        if position >= next {
            next = position + 1;
        }
        at += 1;
    }
    proof {
        assert forall|key: Key| positions@.contains_key(key) implies (#[trigger] positions@[key])
            < next by {
            let seen = choose|seen: int|
                0 <= seen < entries@.len() && *(#[trigger] entries@[seen]).0 == key;
            assert(entries@[seen].1 == positions@[key]);
        }
        if next != 0 {
            let seen = choose|seen: int|
                0 <= seen < at && (#[trigger] entries@[seen]).1 == next - 1;
            assert(positions@.contains_key(*entries@[seen].0));
            assert(is_taken(positions@, (next - 1) as usize));
        }
        lemma_next_is_unique(positions@, next as int);
    }
    next
}

/// A handle to a key index. Handles that a key store gave out for the same
/// index are equal, and they share the positions.
#[derive(Debug)]
pub struct SharedKeys {
    store: u64,
    id: usize,
    positions: Arc<Positions>,
}

impl View for SharedKeys {
    type V = Map<Key, usize>;

    /// The position of each key.
    closed spec fn view(&self) -> Map<Key, usize> {
        self.positions@
    }
}

impl Clone for SharedKeys {
    /// Another handle to the same index.
    fn clone(&self) -> (other: Self)
        ensures
            other == *self,
    {
        SharedKeys { store: self.store, id: self.id, positions: share(&self.positions) }
    }
}

impl PartialEq for SharedKeys {
    /// Whether the two are handles to the same index: to the index of the
    /// same number in the store of the same number.
    fn eq(&self, other: &Self) -> (same: bool) {
        self.store == other.store && self.id == other.id
    }
}

impl vstd::std_specs::cmp::PartialEqSpecImpl for SharedKeys {
    open spec fn obeys_eq_spec() -> bool {
        true
    }

    open spec fn eq_spec(&self, other: &Self) -> bool {
        self.store() == other.store() && self.id() == other.id()
    }
}

impl Eq for SharedKeys {

}

impl SharedKeys {
    /// The number of the key store that made this index.
    pub closed spec fn store(&self) -> u64 {
        self.store
    }

    /// The number by which the key store that made this index knows it.
    pub closed spec fn id(&self) -> usize {
        self.id
    }

    /// The positions are exactly `0..n`.
    pub open spec fn wf(&self) -> bool {
        is_dense(self@)
    }

    /// The handle of the store `store` to the index that it keeps under
    /// `id`.
    pub(crate) fn new(store: u64, id: usize, positions: Positions) -> (keys: Self)
        ensures
            keys.store() == store,
            keys.id() == id,
            keys@ == positions@,
    {
        SharedKeys { store, id, positions: Arc::new(positions) }
    }

    /// The number of the key store that made the index.
    pub(crate) fn store_number(&self) -> (store: u64)
        ensures
            store == self.store(),
    {
        self.store
    }

    /// The number by which the key store knows the index.
    pub(crate) fn number(&self) -> (id: usize)
        ensures
            id == self.id(),
    {
        self.id
    }

    /// The pointer to the positions.
    pub(crate) fn shared(&self) -> (positions: &Arc<Positions>)
        ensures
            positions@ == self@,
    {
        &self.positions
    }

    /// The position of `key`, if the index has the key.
    pub fn get_index(&self, key: &Key) -> (position: Option<usize>)
        ensures
            position == (if self@.contains_key(*key) {
                Some(self@[*key])
            } else {
                None
            }),
    {
        match self.positions.get(key) {
            Some(position) => Some(*position),
            None => None,
        }
    }

    /// All keys with their positions.
    pub fn indices(&self) -> (positions: &Positions)
        ensures
            positions@ == self@,
    {
        &self.positions
    }

    /// The keys with their positions, in the order in which each walk of
    /// this index takes them.
    pub closed spec fn walk(&self) -> Seq<(Key, usize)> {
        order_of(*self.positions)
    }

    /// The keys with their positions, each key once, in the order of
    /// [`SharedKeys::walk`].
    pub fn entries(&self) -> (entries: Vec<(&Key, usize)>)
        ensures
            walk_of(entries@) == self.walk(),
            entries@.len() == self@.len(),
            forall|at: int|
                0 <= at < entries@.len() ==> self@.contains_key(*(#[trigger] entries@[at]).0)
                    && self@[*entries@[at].0] == entries@[at].1,
            forall|one: int, other: int|
                0 <= one < other < entries@.len() ==> *(#[trigger] entries@[one]).0 != *(
                #[trigger] entries@[other]).0,
            forall|key: Key|
                self@.contains_key(key) ==> exists|at: int|
                    0 <= at < entries@.len() && *(#[trigger] entries@[at]).0 == key,
    {
        walk_positions(&self.positions)
    }

    /// The number of keys.
    pub fn len(&self) -> (count: usize)
        ensures
            count == self@.len(),
    {
        self.positions.len()
    }

    /// The index that has `key` besides the keys of this one: this index
    /// itself if it has the key, else the one branch that `store` keeps for
    /// this index and `key`, made now if it was never asked for.
    pub fn insert<S: KeyStore>(&self, store: &mut S, key: Key) -> (keys: Self)
        requires
            old(store).wf(),
            old(store)@.holds(self),
        ensures
            final(store).wf(),
            final(store)@ == old(store)@.extend(self.id(), key).0,
            keys.id() == old(store)@.extend(self.id(), key).1,
            final(store)@.holds(&keys),
            final(store)@.follows(old(store)@),
            keys.wf(),
            keys@ == extended(self@, key),
            self@.contains_key(key) ==> keys == *self,
    {
        store.extend(self, key)
    }
}

/// The positions of a key sequence, as a table.
pub fn index_of(keys: &Vec<Key>) -> (positions: Positions)
    ensures
        positions@ == positions_of(keys@),
        is_dense(positions@),
{
    let mut positions: Positions = HashMap::new();
    let mut at: usize = 0;
    while at < keys.len()
        invariant
            at <= keys.len(),
            positions@ == positions_of(keys@.take(at as int)),
            is_dense(positions@),
            positions@.len() <= at,
        decreases keys.len() - at,
    {
        let key = keys[at];
        proof {
            let done = keys@.take(at as int);
            let more = keys@.take(at + 1);
            assert(more.drop_last() =~= done);
            lemma_extended_is_dense(positions@, key);
        }
        if !positions.contains_key(&key) {
            let next = positions.len();
            positions.insert(key, next);
        }
        at += 1;
    }
    proof {
        assert(keys@.take(at as int) =~= keys@);
    }
    positions
}

/// The positions of `base` and, where `base` lacks it, `key` at the
/// position after the greatest of `base`.
pub fn extend_positions(base: &Positions, key: Key) -> (positions: Positions)
    requires
        forall|held: Key| base@.contains_key(held) ==> (#[trigger] base@[held]) < usize::MAX,
    ensures
        positions@ == extended(base@, key),
        is_dense(base@) ==> is_dense(positions@),
{
    let mut positions = base.clone();
    if !positions.contains_key(&key) {
        let next = next_position_of(base);
        positions.insert(key, next);
        proof {
            if is_dense(base@) {
                assert(positions@.len() == positions.len());
                lemma_next_position_follows_greatest(base@);
                lemma_extended_is_dense(base@, key);
            }
        }
    }
    positions
}

/// Whether two tables give the same keys the same positions.
pub fn same_positions(one: &Positions, other: &Positions) -> (same: bool)
    ensures
        same == (one@ == other@),
{
    if one.len() != other.len() {
        return false;
    }
    let entries = walk_positions(one);
    let mut at: usize = 0;
    while at < entries.len()
        invariant
            at <= entries@.len(),
            one@.len() == other@.len(),
            forall|each: int|
                0 <= each < entries@.len() ==> one@.contains_key(*(#[trigger] entries@[each]).0)
                    && one@[*entries@[each].0] == entries@[each].1,
            forall|seen: int|
                0 <= seen < at ==> other@.contains_key(*(#[trigger] entries@[seen]).0)
                    && other@[*entries@[seen].0] == entries@[seen].1,
        decreases entries@.len() - at,
    {
        let (key, position) = entries[at];
        match other.get(key) {
            Some(found) => {
                if *found != position {
                    return false;
                }
            },
            None => {
                return false;
            },
        }
        at += 1;
    }
    proof {
        assert forall|key: Key| one@.contains_key(key) implies other@.contains_key(key)
            && other@[key] == one@[key] by {
            let seen = choose|seen: int|
                0 <= seen < entries@.len() && *(#[trigger] entries@[seen]).0 == key;
            assert(other@[*entries@[seen].0] == entries@[seen].1);
        }
        vstd::set_lib::lemma_subset_equality(one@.dom(), other@.dom());
        assert(one@ =~= other@);
    }
    true
}

} // verus!
