//! A map that keeps only its values: the position of each key comes from a
//! key index that the map shares with every other map of the same keys.

use crate::keys::{
    extended, is_dense, lemma_extended_is_dense, positions_of, walk_of, SharedKeys,
};
use crate::keystore::KeyStore;
use crate::tables::{unzip_pairs, Key};
use vstd::prelude::*;

verus! {

/// What a map is, seen from outside: the index it refers to and the entries
/// it holds.
pub struct MapState<V> {
    /// The position of each key that the map has ever held.
    pub index: Map<Key, usize>,
    /// The value of each key that the map holds now.
    pub entries: Map<Key, V>,
}

impl<V> MapState<V> {
    /// The index is dense and has a position for the key of every entry.
    pub open spec fn wf(self) -> bool {
        &&& is_dense(self.index)
        &&& self.entries.dom().subset_of(self.index.dom())
    }

    /// The value of `key`, if the map holds the key.
    pub open spec fn lookup(self, key: Key) -> Option<V> {
        if self.entries.contains_key(key) {
            Some(self.entries[key])
        } else {
            None
        }
    }

    /// The map after `key` was given `value`. A key that the index lacks
    /// gets the position after the greatest.
    pub open spec fn inserted(self, key: Key, value: V) -> MapState<V> {
        MapState { index: extended(self.index, key), entries: self.entries.insert(key, value) }
    }

    /// The map after `key` was removed. The key keeps its position.
    pub open spec fn removed(self, key: Key) -> MapState<V> {
        MapState { index: self.index, entries: self.entries.remove(key) }
    }
}

/// One operation on a map.
pub enum Action<V> {
    /// Ask for the value of a key.
    Get(Key),
    /// Give a key a value.
    Insert(Key, V),
    /// Remove a key.
    Remove(Key),
}

impl<V> Action<V> {
    /// The key that the operation is about.
    pub open spec fn key(self) -> Key {
        match self {
            Action::Get(key) => key,
            Action::Insert(key, _) => key,
            Action::Remove(key) => key,
        }
    }
}

impl<V> MapState<V> {
    /// The map after `action`, and what the operation returns.
    pub open spec fn apply(self, action: Action<V>) -> (MapState<V>, Option<V>) {
        match action {
            Action::Get(key) => (self, self.lookup(key)),
            Action::Insert(key, value) => (self.inserted(key, value), self.lookup(key)),
            Action::Remove(key) => (self.removed(key), self.lookup(key)),
        }
    }

    /// The map after `actions`, and what each of them returned.
    pub open spec fn run(self, actions: Seq<Action<V>>) -> (MapState<V>, Seq<Option<V>>)
        decreases actions.len(),
    {
        if actions.len() == 0 {
            (self, Seq::empty())
        } else {
            let (before, answers) = self.run(actions.drop_last());
            let (after, answer) = before.apply(actions.last());
            (after, answers.push(answer))
        }
    }
}

/// What `action` does to a plain map from keys to values, and what it
/// returns.
pub open spec fn reference_apply<V>(entries: Map<Key, V>, action: Action<V>) -> (
    Map<Key, V>,
    Option<V>,
) {
    let found = if entries.contains_key(action.key()) {
        Some(entries[action.key()])
    } else {
        None
    };
    match action {
        Action::Get(key) => (entries, found),
        Action::Insert(key, value) => (entries.insert(key, value), found),
        Action::Remove(key) => (entries.remove(key), found),
    }
}

/// What `actions` do to a plain map from keys to values, and what each of
/// them returns.
pub open spec fn reference_run<V>(entries: Map<Key, V>, actions: Seq<Action<V>>) -> (
    Map<Key, V>,
    Seq<Option<V>>,
)
    decreases actions.len(),
{
    if actions.len() == 0 {
        (entries, Seq::empty())
    } else {
        let (before, answers) = reference_run(entries, actions.drop_last());
        let (after, answer) = reference_apply(before, actions.last());
        (after, answers.push(answer))
    }
}

/// A map behaves as a plain map from keys to values does: whatever is done
/// to both, in the same order, every operation returns the same and the
/// entries are the same at the end. The map stays consistent throughout.
pub proof fn lemma_runs_like_reference<V>(state: MapState<V>, actions: Seq<Action<V>>)
    requires
        state.wf(),
        state.index.len() + actions.len() <= usize::MAX,
    ensures
        state.run(actions).0.wf(),
        state.run(actions).0.index.len() <= state.index.len() + actions.len(),
        state.run(actions).0.entries == reference_run(state.entries, actions).0,
        state.run(actions).1 == reference_run(state.entries, actions).1,
    decreases actions.len(),
{
    if actions.len() > 0 {
        lemma_runs_like_reference(state, actions.drop_last());
        let before = state.run(actions.drop_last()).0;
        lemma_extended_is_dense(before.index, actions.last().key());
    }
}

/// The questions for the values of `keys`, in their order.
pub open spec fn asks<V>(keys: Seq<Key>) -> Seq<Action<V>> {
    Seq::new(keys.len(), |at: int| Action::Get(keys[at]))
}

/// Asking changes nothing: however often a map is asked, it stays what it
/// was, and it answers every question as it would have answered it first.
pub proof fn lemma_lookups_change_nothing<V>(state: MapState<V>, keys: Seq<Key>)
    ensures
        state.run(asks(keys)).0 == state,
        state.run(asks(keys)).1.len() == keys.len(),
        forall|at: int|
            0 <= at < keys.len() ==> #[trigger] state.run(asks(keys)).1[at] == state.lookup(
                keys[at],
            ),
    decreases keys.len(),
{
    if keys.len() > 0 {
        lemma_lookups_change_nothing(state, keys.drop_last());
        assert(asks::<V>(keys).drop_last() =~= asks::<V>(keys.drop_last()));
    }
}

/// Removing a key and inserting it again keeps its position: the index is
/// what it was before the two.
pub proof fn lemma_reinsert_keeps_position<V>(state: MapState<V>, key: Key, value: V)
    requires
        state.wf(),
        state.index.contains_key(key),
    ensures
        state.removed(key).inserted(key, value).index == state.index,
        state.removed(key).inserted(key, value).index[key] == state.index[key],
        state.removed(key).inserted(key, value).entries == state.entries.insert(key, value),
        state.removed(key).inserted(key, value).wf(),
{
}

/// The entries that an index and an array of values stand for: a key has
/// the value that lies at its position, if one lies there.
pub open spec fn entries_of<V>(index: Map<Key, usize>, slots: Seq<Option<V>>) -> Map<Key, V> {
    Map::new(
        |key: Key| index.contains_key(key) && index[key] < slots.len() && slots[index[key] as int] is Some,
        |key: Key| slots[index[key] as int]->0,
    )
}

/// The first column of `pairs`.
pub open spec fn keys_of<V>(pairs: Seq<(Key, V)>) -> Seq<Key> {
    Seq::new(pairs.len(), |at: int| pairs[at].0)
}

/// The entries that `pairs` give when they are inserted in order: of two
/// pairs with the same key the later one stays.
pub open spec fn collected<V>(pairs: Seq<(Key, V)>) -> Map<Key, V>
    decreases pairs.len(),
{
    if pairs.len() == 0 {
        Map::empty()
    } else {
        collected(pairs.drop_last()).insert(pairs.last().0, pairs.last().1)
    }
}

/// The entries of an index are finitely many, at most as many as the index
/// has keys.
pub proof fn lemma_entries_are_finite<V>(index: Map<Key, usize>, slots: Seq<Option<V>>)
    requires
        index.dom().finite(),
    ensures
        entries_of(index, slots).dom().finite(),
        entries_of(index, slots).len() <= index.len(),
        entries_of(index, slots).dom().subset_of(index.dom()),
{
    vstd::set_lib::lemma_len_subset(entries_of(index, slots).dom(), index.dom());
}

/// A map from keys to values of type `V`.
pub struct NewMap<V> {
    keys: SharedKeys,
    values: Vec<Option<V>>,
    count: usize,
}

impl<V> View for NewMap<V> {
    type V = Map<Key, V>;

    /// The entries of the map.
    closed spec fn view(&self) -> Map<Key, V> {
        entries_of(self.keys@, self.values@)
    }
}

impl<V> NewMap<V> {
    /// The handle to the index of the map.
    pub closed spec fn keys(&self) -> SharedKeys {
        self.keys
    }

    /// The entries of the map in the order in which every pass over the
    /// map, as it is, yields them.
    pub closed spec fn listing(&self) -> Seq<(Key, V)> {
        live(self.keys.walk(), self.values@)
    }

    /// The index and the entries of the map.
    pub open spec fn state(&self) -> MapState<V> {
        MapState { index: self.keys()@, entries: self@ }
    }

    /// The map has one slot for each position of its index, and has counted
    /// its entries.
    pub closed spec fn wf(&self) -> bool {
        &&& self.keys.wf()
        &&& self.values@.len() == self.keys@.len()
        &&& self.count == self@.len()
    }

    /// A consistent map has a consistent state and finitely many entries.
    pub proof fn lemma_wf(&self)
        requires
            self.wf(),
        ensures
            self.state().wf(),
            self@.dom().finite(),
            self@.len() <= usize::MAX,
    {
        lemma_entries_are_finite(self.keys@, self.values@);
    }

    /// An empty map on the index that `store` has for no keys.
    pub fn new<S: KeyStore>(store: &mut S) -> (map: Self)
        requires
            old(store).wf(),
        ensures
            final(store).wf(),
            final(store)@ == old(store)@.get(Seq::empty()).0,
            map.keys().id() == old(store)@.get(Seq::empty()).1,
            final(store)@.holds(&map.keys()),
            final(store)@.follows(old(store)@),
            map.wf(),
            map.keys()@ == (Map::<Key, usize>::empty()),
            map@ == (Map::<Key, V>::empty()),
    {
        let keys = store.get(Vec::new());
        let map = NewMap { keys, values: Vec::new(), count: 0 };
        proof {
            assert(map@ =~= Map::<Key, V>::empty());
        }
        map
    }

    /// The handle to the index of the map.
    pub fn shared(&self) -> (keys: &SharedKeys)
        ensures
            *keys == self.keys(),
    {
        &self.keys
    }

    /// The number of entries.
    pub fn len(&self) -> (count: usize)
        requires
            self.wf(),
        ensures
            count == self@.len(),
    {
        self.count
    }

    /// Whether the map has no entry.
    pub fn is_empty(&self) -> (empty: bool)
        requires
            self.wf(),
        ensures
            empty == (self@.len() == 0),
    {
        self.count == 0
    }

    /// The value of `key`, if the map holds the key.
    pub fn get(&self, key: &Key) -> (value: Option<&V>)
        requires
            self.wf(),
        ensures
            match value {
                Some(value) => self.state().lookup(*key) == Some(*value),
                None => self.state().lookup(*key) is None,
            },
    {
        match self.keys.get_index(key) {
            Some(position) => self.values[position].as_ref(),
            None => None,
        }
    }

    /// Puts `value` at `position`, the position of `key`, and returns what
    /// lay there.
    fn replace(&mut self, Ghost(key): Ghost<Key>, position: usize, value: V) -> (previous: Option<V>)
        requires
            old(self).wf(),
            old(self).keys@.contains_key(key),
            old(self).keys@[key] == position,
        ensures
            final(self).wf(),
            final(self).keys() == old(self).keys(),
            final(self)@ == old(self)@.insert(key, value),
            previous == old(self).state().lookup(key),
    {
        proof {
            lemma_entries_are_finite(self.keys@, self.values@);
        }
        let mut slot = Some(value);
        core::mem::swap(&mut self.values[position], &mut slot);
        proof {
            assert(self@ =~= old(self)@.insert(key, value));
            lemma_entries_are_finite(self.keys@, self.values@);
        }
        if slot.is_none() {
            self.count += 1;
        }
        slot
    }

    /// Gives `key` the value `value` and returns the value it had. A key
    /// that the index of the map lacks gets its position from `store`: the
    /// map goes over to the index that has the key too.
    pub fn insert<S: KeyStore>(&mut self, store: &mut S, key: Key, value: V) -> (previous: Option<V>)
        requires
            old(self).wf(),
            old(store).wf(),
            old(store)@.holds(&old(self).keys()),
        ensures
            final(self).wf(),
            final(store).wf(),
            final(store)@ == old(store)@.extend(old(self).keys().id(), key).0,
            final(self).keys().id() == old(store)@.extend(old(self).keys().id(), key).1,
            final(store)@.holds(&final(self).keys()),
            final(store)@.follows(old(store)@),
            final(self).state() == old(self).state().inserted(key, value),
            previous == old(self).state().lookup(key),
            old(self).keys()@.contains_key(key) ==> final(self).keys() == old(self).keys(),
    {
        match self.keys.get_index(&key) {
            Some(position) => self.replace(Ghost(key), position, value),
            None => {
                proof {
                    lemma_entries_are_finite(self.keys@, self.values@);
                }
                self.keys = self.keys.insert(store, key);
                self.values.push(Some(value));
                proof {
                    crate::keys::lemma_next_position_follows_greatest(old(self).keys@);
                    assert(self@ =~= old(self)@.insert(key, value));
                    lemma_entries_are_finite(self.keys@, self.values@);
                }
                self.count += 1;
                None
            },
        }
    }

    /// Removes `key` and returns the value it had. The key keeps its
    /// position: the index of the map stays what it was.
    pub fn remove(&mut self, key: &Key) -> (previous: Option<V>)
        requires
            old(self).wf(),
        ensures
            final(self).wf(),
            final(self).keys() == old(self).keys(),
            final(self).state() == old(self).state().removed(*key),
            previous == old(self).state().lookup(*key),
    {
        proof {
            lemma_entries_are_finite(self.keys@, self.values@);
        }
        match self.keys.get_index(key) {
            Some(position) => {
                let previous = self.values[position].take();
                proof {
                    assert(self@ =~= old(self)@.remove(*key));
                }
                if previous.is_some() {
                    self.count -= 1;
                }
                previous
            },
            None => {
                proof {
                    assert(self@ =~= old(self)@.remove(*key));
                }
                None
            },
        }
    }

    /// The map that holds `pairs`, inserted in order: of two pairs with the
    /// same key the later one stays. The index is the one that `store` has
    /// for the keys of `pairs` in their order.
    pub fn from_iter<S: KeyStore>(store: &mut S, pairs: Vec<(Key, V)>) -> (map: Self)
        requires
            old(store).wf(),
        ensures
            final(store).wf(),
            final(store)@ == old(store)@.get(keys_of(pairs@)).0,
            map.keys().id() == old(store)@.get(keys_of(pairs@)).1,
            final(store)@.holds(&map.keys()),
            final(store)@.follows(old(store)@),
            map.wf(),
            map.keys()@ == positions_of(keys_of(pairs@)),
            map@ == collected(pairs@),
    {
        let (keys, mut items) = unzip_pairs(pairs);
        let sequence = keys.clone();
        proof {
            assert(sequence@ =~= keys_of(pairs@));
            crate::keys::lemma_positions_of_is_dense(keys@);
        }
        let shared = store.get(keys);
        let mut values: Vec<Option<V>> = Vec::new();
        let mut made: usize = 0;
        while made < shared.len()
            invariant
                made <= shared@.len(),
                values@.len() == made,
                forall|at: int| 0 <= at < made ==> values@[at] is None,
            decreases shared@.len() - made,
        {
            values.push(None);
            made += 1;
        }
        let mut map = NewMap { keys: shared, values, count: 0 };
        proof {
            assert(map@ =~= Map::<Key, V>::empty());
        }
        let mut at: usize = 0;
        while at < sequence.len()
            invariant
                store.wf(),
                store@ == old(store)@.get(keys_of(pairs@)).0,
                map.keys().id() == old(store)@.get(keys_of(pairs@)).1,
                store@.holds(&map.keys()),
                store@.follows(old(store)@),
                at <= sequence@.len(),
                sequence@ == keys_of(pairs@),
                items@.len() == pairs@.len(),
                forall|later: int| at <= later < items@.len() ==> items@[later] == Some(pairs@[later].1),
                forall|key: Key| #[trigger] map.keys()@.contains_key(key) <==> sequence@.contains(key),
                map.wf(),
                map.keys()@ == positions_of(keys_of(pairs@)),
                map@ == collected(pairs@.take(at as int)),
            decreases sequence@.len() - at,
        {
            let key = sequence[at];
            let item = items[at].take();
            proof {
                assert(pairs@.take(at + 1).drop_last() =~= pairs@.take(at as int));
            }
            // The index has every key of the sequence, and no item was
            // taken before its turn.
            match (map.keys.get_index(&key), item) {
                (Some(position), Some(value)) => {
                    map.replace(Ghost(key), position, value);
                },
                _ => {},
            }
            at += 1;
        }
        proof {
            assert(pairs@.take(at as int) =~= pairs@);
        }
        map
    }

    /// A pass over the entries, each once, in the order in which the index
    /// walks its keys. The pass notes that order when it is made.
    pub fn iter(&self) -> (pass: Iter<'_, V>)
        requires
            self.wf(),
        ensures
            pass.wf(),
            pass.remaining() == self.listing(),
            lists(pass.remaining(), self@),
            pass.remaining().len() == self@.len(),
    {
        let entries = self.keys.entries();
        let pass = Iter { entries, at: 0, values: &self.values };
        proof {
            let walk = walk_of(pass.entries@);
            assert(pass.walk() =~= walk);
            assert forall|key: Key| self.keys@.contains_key(key) implies exists|at: int|
                0 <= at < walk.len() && (#[trigger] walk[at]).0 == key by {
                let at = choose|at: int|
                    0 <= at < pass.entries@.len() && *(#[trigger] pass.entries@[at]).0 == key;
                assert(walk[at].0 == key);
            }
            lemma_live_lists(walk, self.keys@, self.values@);
            lemma_lists_each_once(pass.remaining(), self@);
        }
        pass
    }

    /// A pass over the entries that takes the values out of the map, each
    /// once, in the order in which the index walks its keys.
    pub fn into_iter(self) -> (pass: IntoIter<V>)
        requires
            self.wf(),
        ensures
            pass.wf(),
            pass.remaining() == self.listing(),
            lists(pass.remaining(), self@),
            pass.remaining().len() == self@.len(),
    {
        let mut entries: Vec<(Key, usize)> = Vec::new();
        let walked = self.keys.entries();
        let mut at: usize = 0;
        while at < walked.len()
            invariant
                at <= walked@.len(),
                entries@ == walk_of(walked@).take(at as int),
            decreases walked@.len() - at,
        {
            let (key, position) = walked[at];
            entries.push((*key, position));
            at += 1;
        }
        proof {
            let walk = walk_of(walked@);
            assert(entries@ =~= walk);
            assert forall|key: Key| self.keys@.contains_key(key) implies exists|at: int|
                0 <= at < walk.len() && (#[trigger] walk[at]).0 == key by {
                let at = choose|at: int|
                    0 <= at < walked@.len() && *(#[trigger] walked@[at]).0 == key;
                assert(walk[at].0 == key);
            }
            lemma_live_lists(walk, self.keys@, self.values@);
        }
        let pass = IntoIter { entries, at: 0, values: self.values };
        proof {
            lemma_lists_each_once(pass.remaining(), self@);
        }
        pass
    }
}

/// What a walk over keys and their positions yields: for each key whose
/// slot holds a value, the key with that value, in the order of the walk.
pub open spec fn live<V>(walk: Seq<(Key, usize)>, slots: Seq<Option<V>>) -> Seq<(Key, V)>
    decreases walk.len(),
{
    if walk.len() == 0 {
        Seq::empty()
    } else {
        let (key, position) = walk.first();
        let rest = live(walk.drop_first(), slots);
        if position < slots.len() && slots[position as int] is Some {
            seq![(key, slots[position as int]->0)] + rest
        } else {
            rest
        }
    }
}

/// `entries` lists `map`: every entry of the map occurs in it, no key
/// occurs twice, and nothing else occurs.
pub open spec fn lists<V>(entries: Seq<(Key, V)>, map: Map<Key, V>) -> bool {
    &&& forall|at: int|
        0 <= at < entries.len() ==> map.contains_pair(
            (#[trigger] entries[at]).0,
            entries[at].1,
        )
    &&& forall|one: int, other: int|
        0 <= one < other < entries.len() ==> (#[trigger] entries[one]).0 != (
        #[trigger] entries[other]).0
    &&& forall|key: Key| #[trigger]
        map.contains_key(key) ==> exists|at: int|
            0 <= at < entries.len() && (#[trigger] entries[at]).0 == key
}

/// A list of the entries of a map is as long as the map has entries.
pub proof fn lemma_lists_each_once<V>(entries: Seq<(Key, V)>, map: Map<Key, V>)
    requires
        lists(entries, map),
    ensures
        map.dom().finite(),
        entries.len() == map.len(),
    decreases entries.len(),
{
    if entries.len() == 0 {
        assert(map.dom() =~= Set::empty());
    } else {
        let last = entries.last();
        let rest = entries.drop_last();
        let less = map.remove(last.0);
        assert forall|key: Key| #[trigger] less.contains_key(key) implies exists|at: int|
            0 <= at < rest.len() && (#[trigger] rest[at]).0 == key by {
            let at = choose|at: int| 0 <= at < entries.len() && (#[trigger] entries[at]).0 == key;
            assert(rest[at] == entries[at]);
        }
        assert(lists(rest, less));
        lemma_lists_each_once(rest, less);
    }
}

/// The walk yields `entry` for what it has at `from`: the key of the entry
/// is there, and its slot holds the value of the entry.
pub open spec fn yields<V>(
    walk: Seq<(Key, usize)>,
    slots: Seq<Option<V>>,
    from: int,
    entry: (Key, V),
) -> bool {
    &&& 0 <= from < walk.len()
    &&& walk[from].0 == entry.0
    &&& walk[from].1 < slots.len()
    &&& slots[walk[from].1 as int] == Some(entry.1)
}

/// What a walk yields, once its first entry is split off.
proof fn lemma_live_unfolds<V>(walk: Seq<(Key, usize)>, slots: Seq<Option<V>>)
    requires
        walk.len() > 0,
    ensures
        ({
            let rest = live(walk.drop_first(), slots);
            let all = live(walk, slots);
            let kept = walk[0].1 < slots.len() && slots[walk[0].1 as int] is Some;
            &&& kept ==> all.len() == rest.len() + 1 && all[0] == (
                walk[0].0,
                slots[walk[0].1 as int]->0,
            ) && forall|at: int| 0 <= at < rest.len() ==> all[at + 1] == #[trigger] rest[at]
            &&& !kept ==> all == rest
        }),
{
}

/// Each entry that a walk yields comes from a place of the walk.
pub proof fn lemma_live_is_sound<V>(walk: Seq<(Key, usize)>, slots: Seq<Option<V>>, at: int)
    requires
        0 <= at < live(walk, slots).len(),
    ensures
        exists|from: int| #[trigger] yields(walk, slots, from, live(walk, slots)[at]),
    decreases walk.len(),
{
    let tail = walk.drop_first();
    let rest = live(tail, slots);
    lemma_live_unfolds(walk, slots);
    let kept = walk[0].1 < slots.len() && slots[walk[0].1 as int] is Some;
    if kept && at == 0 {
        assert(yields(walk, slots, 0, live(walk, slots)[at]));
    } else {
        let before: int = if kept { at - 1 } else { at };
        lemma_live_is_sound(tail, slots, before);
        let from = choose|from: int| #[trigger] yields(tail, slots, from, rest[before]);
        assert(yields(walk, slots, from + 1, live(walk, slots)[at]));
    }
}

/// Each place of a walk whose slot holds a value is yielded.
pub proof fn lemma_live_is_complete<V>(walk: Seq<(Key, usize)>, slots: Seq<Option<V>>, from: int)
    requires
        0 <= from < walk.len(),
        walk[from].1 < slots.len(),
        slots[walk[from].1 as int] is Some,
    ensures
        live(walk, slots).contains((walk[from].0, slots[walk[from].1 as int]->0)),
    decreases walk.len(),
{
    let tail = walk.drop_first();
    let rest = live(tail, slots);
    lemma_live_unfolds(walk, slots);
    if from > 0 {
        lemma_live_is_complete(tail, slots, from - 1);
        let entry = (walk[from].0, slots[walk[from].1 as int]->0);
        let at = choose|at: int| 0 <= at < rest.len() && rest[at] == entry;
        assert(live(walk, slots)[at] == entry || live(walk, slots)[at + 1] == entry);
    }
}

/// A walk in which no key occurs twice yields no key twice.
pub proof fn lemma_live_keeps_keys_apart<V>(walk: Seq<(Key, usize)>, slots: Seq<Option<V>>)
    requires
        forall|one: int, other: int|
            0 <= one < other < walk.len() ==> (#[trigger] walk[one]).0 != (#[trigger] walk[other]).0,
    ensures
        forall|one: int, other: int|
            0 <= one < other < live(walk, slots).len() ==> (#[trigger] live(walk, slots)[one]).0
                != (#[trigger] live(walk, slots)[other]).0,
    decreases walk.len(),
{
    if walk.len() > 0 {
        let tail = walk.drop_first();
        let rest = live(tail, slots);
        let all = live(walk, slots);
        lemma_live_unfolds(walk, slots);
        lemma_live_keeps_keys_apart(tail, slots);
        let kept = walk[0].1 < slots.len() && slots[walk[0].1 as int] is Some;
        assert forall|one: int, other: int| 0 <= one < other < all.len() implies (
        #[trigger] all[one]).0 != (#[trigger] all[other]).0 by {
            if kept && one == 0 {
                lemma_live_is_sound(tail, slots, other - 1);
                let from = choose|from: int| #[trigger]
                    yields(tail, slots, from, rest[other - 1]);
                assert(walk[0].0 != walk[from + 1].0);
            }
        }
    }
}

/// A walk over all keys of an index, each once and with its position,
/// yields what the map on that index and those slots holds.
pub proof fn lemma_live_lists<V>(
    walk: Seq<(Key, usize)>,
    index: Map<Key, usize>,
    slots: Seq<Option<V>>,
)
    requires
        forall|at: int|
            0 <= at < walk.len() ==> index.contains_key((#[trigger] walk[at]).0)
                && index[walk[at].0] == walk[at].1,
        forall|one: int, other: int|
            0 <= one < other < walk.len() ==> (#[trigger] walk[one]).0 != (#[trigger] walk[other]).0,
        forall|key: Key|
            index.contains_key(key) ==> exists|at: int|
                0 <= at < walk.len() && (#[trigger] walk[at]).0 == key,
    ensures
        lists(live(walk, slots), entries_of(index, slots)),
{
    let all = live(walk, slots);
    let map = entries_of(index, slots);
    lemma_live_keeps_keys_apart(walk, slots);
    assert forall|at: int| 0 <= at < all.len() implies map.contains_pair(
        (#[trigger] all[at]).0,
        all[at].1,
    ) by {
        lemma_live_is_sound(walk, slots, at);
        let from = choose|from: int| #[trigger] yields(walk, slots, from, all[at]);
        assert(index[all[at].0] == walk[from].1);
    }
    assert forall|key: Key| #[trigger] map.contains_key(key) implies exists|at: int|
        0 <= at < all.len() && (#[trigger] all[at]).0 == key by {
        let from = choose|from: int| 0 <= from < walk.len() && (#[trigger] walk[from]).0 == key;
        lemma_live_is_complete(walk, slots, from);
        let entry = (walk[from].0, slots[walk[from].1 as int]->0);
        let at = choose|at: int| 0 <= at < all.len() && all[at] == entry;
        assert(all[at].0 == key);
    }
}

/// Changing a slot that no entry of a walk refers to changes nothing of
/// what the walk yields.
pub proof fn lemma_live_ignores_other_slots<V>(
    walk: Seq<(Key, usize)>,
    slots: Seq<Option<V>>,
    position: int,
    value: Option<V>,
)
    requires
        0 <= position < slots.len(),
        forall|at: int| 0 <= at < walk.len() ==> (#[trigger] walk[at]).1 != position,
    ensures
        live(walk, slots.update(position, value)) == live(walk, slots),
    decreases walk.len(),
{
    if walk.len() > 0 {
        lemma_live_ignores_other_slots(walk.drop_first(), slots, position, value);
    }
}

/// A pass over the entries of a map.
pub struct Iter<'a, V> {
    entries: Vec<(&'a Key, usize)>,
    at: usize,
    values: &'a Vec<Option<V>>,
}

impl<'a, V> Iter<'a, V> {
    /// The keys and positions that the pass has not yet looked at.
    pub closed spec fn walk(&self) -> Seq<(Key, usize)> {
        walk_of(self.entries@).skip(self.at as int)
    }

    /// Every position that the pass will look at has a slot.
    pub closed spec fn wf(&self) -> bool {
        &&& self.at <= self.entries@.len()
        &&& forall|at: int|
            0 <= at < self.entries@.len() ==> (#[trigger] self.entries@[at]).1
                < self.values@.len()
    }

    /// The entries that are still to come, in their order.
    pub closed spec fn remaining(&self) -> Seq<(Key, V)> {
        live(self.walk(), self.values@)
    }

    /// The next entry, if one is left.
    pub fn next(&mut self) -> (entry: Option<(&'a Key, &'a V)>)
        requires
            old(self).wf(),
        ensures
            final(self).wf(),
            match entry {
                Some((key, value)) => old(self).remaining().len() > 0 && old(
                    self,
                ).remaining().first() == (*key, *value) && final(self).remaining() == old(
                    self,
                ).remaining().drop_first(),
                None => old(self).remaining().len() == 0 && final(self).remaining().len() == 0,
            },
    {
        while self.at < self.entries.len()
            invariant
                self.wf(),
                self.values == old(self).values,
                self.remaining() == old(self).remaining(),
            decreases self.entries@.len() - self.at,
        {
            let (key, position) = self.entries[self.at];
            let ghost before = self.walk();
            self.at += 1;
            proof {
                assert(before.drop_first() =~= self.walk());
            }
            if let Some(value) = self.values[position].as_ref() {
                proof {
                    let rest = live(self.walk(), self.values@);
                    assert(before.first() == (*key, position));
                    assert((seq![(*key, *value)] + rest).drop_first() =~= rest);
                }
                return Some((key, value));
            }
        }
        None
    }
}

/// A pass over the entries of a map that takes the values out of it.
pub struct IntoIter<V> {
    entries: Vec<(Key, usize)>,
    at: usize,
    values: Vec<Option<V>>,
}

impl<V> IntoIter<V> {
    /// The keys and positions that the pass has not yet looked at.
    pub closed spec fn walk(&self) -> Seq<(Key, usize)> {
        self.entries@.skip(self.at as int)
    }

    /// Every position that the pass will look at has a slot, and no two
    /// entries have the same position.
    pub closed spec fn wf(&self) -> bool {
        &&& self.at <= self.entries@.len()
        &&& forall|at: int|
            0 <= at < self.entries@.len() ==> (#[trigger] self.entries@[at]).1
                < self.values@.len()
        &&& forall|one: int, other: int|
            0 <= one < other < self.entries@.len() ==> (#[trigger] self.entries@[one]).1 != (
            #[trigger] self.entries@[other]).1
    }

    /// The entries that are still to come, in their order.
    pub closed spec fn remaining(&self) -> Seq<(Key, V)> {
        live(self.walk(), self.values@)
    }

    /// The next entry, if one is left.
    pub fn next(&mut self) -> (entry: Option<(Key, V)>)
        requires
            old(self).wf(),
        ensures
            final(self).wf(),
            match entry {
                Some(entry) => old(self).remaining().len() > 0 && old(self).remaining().first()
                    == entry && final(self).remaining() == old(self).remaining().drop_first(),
                None => old(self).remaining().len() == 0 && final(self).remaining().len() == 0,
            },
    {
        while self.at < self.entries.len()
            invariant
                self.wf(),
                self.remaining() == old(self).remaining(),
            decreases self.entries@.len() - self.at,
        {
            let (key, position) = self.entries[self.at];
            let ghost before = self.walk();
            let ghost slots = self.values@;
            self.at += 1;
            proof {
                assert(before.drop_first() =~= self.walk());
            }
            if let Some(value) = self.values[position].take() {
                proof {
                    let rest = live(self.walk(), slots);
                    assert(before.first() == (key, position));
                    assert((seq![(key, value)] + rest).drop_first() =~= rest);
                    assert forall|at: int| 0 <= at < self.walk().len() implies (
                    #[trigger] self.walk()[at]).1 != position by {
                        assert(self.walk()[at] == self.entries@[self.at + at]);
                    }
                    lemma_live_ignores_other_slots(self.walk(), slots, position as int, None);
                }
                return Some((key, value));
            }
            proof {
                assert(self.values@ =~= slots);
            }
        }
        None
    }
}

} // verus!
