use std::collections::HashMap;

use vecmap::keys::{extend_positions, index_of, next_position_of, same_positions};
use vecmap::keystore::sum_counts;
use vecmap::{KeyStore, NewMap, SharedKeys, StdKeyStore};

#[test]
fn index_of_gives_positions_in_order() {
    let positions = index_of(&vec![40, 10, 30]);
    assert_eq!(positions.len(), 3);
    assert_eq!(positions.get(&40), Some(&0));
    assert_eq!(positions.get(&10), Some(&1));
    assert_eq!(positions.get(&30), Some(&2));
    assert_eq!(positions.get(&20), None);
}

#[test]
fn index_of_keeps_first_position_of_a_repeated_key() {
    let positions = index_of(&vec![5, 6, 5, 7, 6]);
    assert_eq!(positions.len(), 3);
    assert_eq!(positions.get(&5), Some(&0));
    assert_eq!(positions.get(&6), Some(&1));
    assert_eq!(positions.get(&7), Some(&2));
}

#[test]
fn index_of_nothing_is_empty() {
    assert!(index_of(&Vec::new()).is_empty());
}

#[test]
fn extend_positions_appends_a_new_key() {
    let base = index_of(&vec![8, 9]);
    let more = extend_positions(&base, 4);
    assert_eq!(more.len(), 3);
    assert_eq!(more.get(&8), Some(&0));
    assert_eq!(more.get(&9), Some(&1));
    assert_eq!(more.get(&4), Some(&2));
    assert_eq!(base.len(), 2);
    assert_eq!(base.get(&4), None);
}

#[test]
fn extend_positions_keeps_a_known_key() {
    let base = index_of(&vec![8, 9]);
    let same = extend_positions(&base, 8);
    assert_eq!(same, base);
}

#[test]
fn extend_positions_of_empty_starts_at_zero() {
    let more = extend_positions(&index_of(&Vec::new()), 77);
    assert_eq!(more.len(), 1);
    assert_eq!(more.get(&77), Some(&0));
}

#[test]
fn same_sequence_gives_same_index() {
    let mut store = StdKeyStore::new(0);
    let one = store.get(vec![1, 2, 3]);
    let other = store.get(vec![1, 2, 3]);
    assert!(one == other);
    assert_eq!(store.stats().total_maps, 1);
    assert_eq!(one.get_index(&1), Some(0));
    assert_eq!(one.get_index(&2), Some(1));
    assert_eq!(one.get_index(&3), Some(2));
    assert_eq!(one.get_index(&4), None);
    assert_eq!(one.indices(), other.indices());
}

#[test]
fn other_order_gives_other_index() {
    let mut store = StdKeyStore::new(0);
    let one = store.get(vec![1, 2]);
    let other = store.get(vec![2, 1]);
    assert!(one != other);
    assert_eq!(one.get_index(&1), Some(0));
    assert_eq!(other.get_index(&1), Some(1));
    assert_eq!(store.stats().initial_entries, 2);
    assert_eq!(store.get_map().len(), 2);
}

#[test]
fn same_key_into_same_index_is_shared() {
    let mut store = StdKeyStore::new(0);
    let mut one = NewMap::from_iter(&mut store, vec![(1, 'a'), (2, 'b')]);
    let mut other = NewMap::from_iter(&mut store, vec![(1, 'c'), (2, 'd')]);
    assert!(one.shared() == other.shared());

    one.insert(&mut store, 3, 'e');
    assert!(one.shared() != other.shared());
    other.insert(&mut store, 3, 'f');
    assert!(one.shared() == other.shared());
    assert_eq!(one.shared().get_index(&3), Some(2));
    assert_eq!(one.get(&3), Some(&'e'));
    assert_eq!(other.get(&3), Some(&'f'));

    let stats = store.stats();
    assert_eq!(stats.initial_entries, 1);
    assert_eq!(stats.total_maps, 2);
    assert_eq!(stats.total_inserts, 1);
}

#[test]
fn same_keys_by_other_ways_are_not_shared() {
    let mut store = StdKeyStore::new(0);
    let built = store.get(vec![1]);
    let empty = store.get(Vec::new());
    let grown = empty.insert(&mut store, 1);
    assert_eq!(built.indices(), grown.indices());
    assert!(built != grown);

    let built_more = built.insert(&mut store, 2);
    let grown_more = grown.insert(&mut store, 2);
    assert_eq!(built_more.indices(), grown_more.indices());
    assert!(built_more != grown_more);
}

#[test]
fn branches_do_not_interfere() {
    let mut store = StdKeyStore::new(0);
    let base = store.get(vec![1, 2]);
    let left = base.insert(&mut store, 10);
    let right = base.insert(&mut store, 20);
    assert!(left != right);
    assert!(left != base);
    assert!(right != base);

    assert_eq!(base.len(), 2);
    assert_eq!(base.get_index(&10), None);
    assert_eq!(base.get_index(&20), None);
    assert_eq!(left.len(), 3);
    assert_eq!(left.get_index(&10), Some(2));
    assert_eq!(left.get_index(&20), None);
    assert_eq!(right.len(), 3);
    assert_eq!(right.get_index(&20), Some(2));
    assert_eq!(right.get_index(&10), None);

    let fourth = store.get(vec![1, 2]);
    assert!(fourth == base);
    assert_eq!(fourth.len(), 2);
    assert_eq!(fourth.get_index(&1), Some(0));
    assert_eq!(fourth.get_index(&2), Some(1));
    assert_eq!(fourth.get_index(&10), None);
    assert_eq!(fourth.get_index(&20), None);
}

#[test]
fn insert_of_known_key_returns_same_index() {
    let mut store = StdKeyStore::new(0);
    let base = store.get(vec![1, 2]);
    let same = base.insert(&mut store, 2);
    assert!(same == base);
    assert_eq!(same.indices(), base.indices());
    assert_eq!(store.stats().total_maps, 1);
    assert_eq!(store.stats().total_inserts, 0);
}

#[test]
fn branch_of_a_branch() {
    let mut store = StdKeyStore::new(0);
    let base = store.get(Vec::new());
    let one = base.insert(&mut store, 5);
    let two = one.insert(&mut store, 6);
    let again = base.insert(&mut store, 5).insert(&mut store, 6);
    assert!(two == again);
    assert_eq!(two.get_index(&5), Some(0));
    assert_eq!(two.get_index(&6), Some(1));
    let stats = store.stats();
    assert_eq!(stats.initial_entries, 1);
    assert_eq!(stats.total_maps, 3);
    assert_eq!(stats.total_inserts, 2);
}

#[test]
fn clone_is_the_same_index() {
    let mut store = StdKeyStore::new(0);
    let keys = store.get(vec![4]);
    let other: SharedKeys = keys.clone();
    assert!(keys == other);
    assert_eq!(other.get_index(&4), Some(0));
}

#[test]
fn stats_of_new_store() {
    let store = StdKeyStore::new(0);
    let stats = store.stats();
    assert_eq!(stats.initial_entries, 0);
    assert_eq!(stats.total_maps, 0);
    assert_eq!(stats.total_inserts, 0);
    assert_eq!(stats.total_refs, 0);
    assert!(store.get_map().is_empty());
}

#[test]
fn stats_count_live_handles() {
    let mut store = StdKeyStore::new(0);
    let mut one = NewMap::<u8>::new(&mut store);
    let two = NewMap::<u8>::new(&mut store);
    let stats = store.stats();
    assert_eq!(stats.initial_entries, 1);
    assert_eq!(stats.total_maps, 1);
    assert_eq!(stats.total_inserts, 0);
    assert_eq!(stats.total_refs, 3);

    one.insert(&mut store, 1, 1);
    let stats = store.stats();
    assert_eq!(stats.total_maps, 2);
    assert_eq!(stats.total_inserts, 1);
    assert_eq!(stats.total_refs, 4);

    drop(two);
    assert_eq!(store.stats().total_refs, 3);
    drop(one);
    let stats = store.stats();
    assert_eq!(stats.total_refs, 2);
    assert_eq!(stats.total_maps, 2);
    assert_eq!(stats.total_maps, stats.initial_entries + stats.total_inserts);
}

#[test]
fn sum_counts_adds_up() {
    assert_eq!(sum_counts(&Vec::new()), 0);
    assert_eq!(sum_counts(&vec![1, 2, 3]), 6);
    assert_eq!(sum_counts(&vec![7]), 7);
}

#[test]
fn sum_counts_stops_at_the_greatest_number() {
    assert_eq!(sum_counts(&vec![usize::MAX, 1]), usize::MAX);
    assert_eq!(sum_counts(&vec![usize::MAX - 1, 1]), usize::MAX);
    assert_eq!(sum_counts(&vec![usize::MAX - 2, 1]), usize::MAX - 1);
    assert_eq!(sum_counts(&vec![1, usize::MAX, 5]), usize::MAX);
}

#[test]
fn entries_walk_each_key_once() {
    let mut store = StdKeyStore::new(0);
    let keys = store.get(vec![3, 1, 2]);
    let mut entries: Vec<(u64, usize)> =
        keys.entries().into_iter().map(|(key, position)| (*key, position)).collect();
    entries.sort();
    assert_eq!(entries, vec![(1, 1), (2, 2), (3, 0)]);
}

#[test]
fn maps_branch_without_interfering() {
    let mut store = StdKeyStore::new(0);
    let mut one = NewMap::from_iter(&mut store, vec![(1, 'a')]);
    let mut two = NewMap::from_iter(&mut store, vec![(1, 'b')]);
    let three = NewMap::from_iter(&mut store, vec![(1, 'c')]);
    let base = three.shared().clone();
    assert!(*one.shared() == base);
    assert!(*two.shared() == base);

    assert_eq!(one.insert(&mut store, 7, 'x'), None);
    assert_eq!(two.insert(&mut store, 8, 'y'), None);
    assert!(one.shared() != two.shared());
    assert!(*one.shared() != base);
    assert!(*two.shared() != base);
    assert_eq!(one.shared().get_index(&7), Some(1));
    assert_eq!(one.shared().get_index(&8), None);
    assert_eq!(two.shared().get_index(&8), Some(1));
    assert_eq!(two.shared().get_index(&7), None);

    let fourth = NewMap::from_iter(&mut store, vec![(1, 'd')]);
    assert!(*fourth.shared() == base);
    assert!(three.shared() == fourth.shared());
    assert_eq!(fourth.shared().len(), 1);
    assert_eq!(fourth.shared().get_index(&1), Some(0));
    assert_eq!(fourth.shared().get_index(&7), None);
    assert_eq!(fourth.shared().get_index(&8), None);
    assert_eq!(fourth.get(&1), Some(&'d'));
    assert_eq!(three.get(&1), Some(&'c'));
    assert_eq!(one.get(&1), Some(&'a'));
    assert_eq!(one.get(&7), Some(&'x'));
    assert_eq!(two.get(&7), None);

    let stats = store.stats();
    assert_eq!(stats.initial_entries, 1);
    assert_eq!(stats.total_inserts, 2);
    assert_eq!(stats.total_maps, 3);
}

#[test]
fn store_with_many_indices() {
    let mut store = StdKeyStore::new(0);
    let mut keys = store.get(Vec::new());
    for key in 0..50u64 {
        keys = keys.insert(&mut store, key * 3);
        assert_eq!(keys.len() as u64, key + 1);
        assert_eq!(keys.get_index(&(key * 3)), Some(key as usize));
    }
    for key in 0..50u64 {
        assert_eq!(keys.get_index(&(key * 3)), Some(key as usize));
        assert_eq!(keys.get_index(&(key * 3 + 1)), None);
    }
    let stats = store.stats();
    assert_eq!(stats.initial_entries, 1);
    assert_eq!(stats.total_inserts, 50);
    assert_eq!(stats.total_maps, 51);
    assert_eq!(stats.total_refs, 52);
}

#[test]
fn repeated_key_makes_another_sequence() {
    let mut store = StdKeyStore::new(0);
    let once = store.get(vec![1, 2]);
    let twice = store.get(vec![1, 2, 1]);
    assert!(once != twice);
    assert_eq!(once.indices(), twice.indices());
    assert_eq!(twice.len(), 2);
    assert_eq!(twice.get_index(&1), Some(0));
    assert_eq!(twice.get_index(&2), Some(1));
    assert!(store.get(vec![1, 2, 1]) == twice);
    let stats = store.stats();
    assert_eq!(stats.initial_entries, 2);
    assert_eq!(stats.total_maps, 2);
    assert_eq!(stats.total_inserts, 0);
}

#[test]
fn extend_positions_goes_after_the_greatest() {
    let mut base: HashMap<u64, usize> = HashMap::new();
    base.insert(7, 1);
    let more = extend_positions(&base, 9);
    assert_eq!(more.len(), 2);
    assert_eq!(more.get(&9), Some(&2));
    assert_eq!(more.get(&7), Some(&1));
}

#[test]
fn next_position_is_after_the_greatest() {
    let mut positions: HashMap<u64, usize> = HashMap::new();
    assert_eq!(next_position_of(&positions), 0);
    positions.insert(4, 0);
    assert_eq!(next_position_of(&positions), 1);
    positions.insert(5, 6);
    positions.insert(6, 3);
    assert_eq!(next_position_of(&positions), 7);
    assert_eq!(next_position_of(&index_of(&vec![9, 8, 7])), 3);
}

#[test]
fn same_positions_compares_keys_and_positions() {
    let one = index_of(&vec![1, 2, 3]);
    assert!(same_positions(&one, &index_of(&vec![1, 2, 3])));
    assert!(same_positions(&one, &index_of(&vec![1, 2, 3, 2])));
    assert!(!same_positions(&one, &index_of(&vec![1, 3, 2])));
    assert!(!same_positions(&one, &index_of(&vec![1, 2])));
    assert!(!same_positions(&one, &index_of(&vec![1, 2, 4])));
    assert!(!same_positions(&index_of(&vec![1, 2]), &one));
    assert!(same_positions(&index_of(&Vec::new()), &index_of(&Vec::new())));
}

#[test]
fn handles_of_two_stores_differ() {
    let mut one = StdKeyStore::new(1);
    let mut two = StdKeyStore::new(2);
    let a = one.get(vec![1]);
    let b = two.get(vec![1]);
    let c = a.clone();
    assert!(a == c);
    assert!(a != b);
    assert_eq!(a.indices(), b.indices());
    let d = two.get(vec![2]);
    assert!(a != d);
}

#[test]
fn store_holds_its_own_handles() {
    let mut one = StdKeyStore::new(1);
    let mut two = StdKeyStore::new(2);
    let a = one.get(vec![1]);
    let grown = a.insert(&mut one, 5);
    let b = two.get(vec![1]);
    assert!(one.holds(&a));
    assert!(one.holds(&grown));
    assert!(one.holds(&a.clone()));
    assert!(!one.holds(&b));
    assert!(two.holds(&b));
    assert!(!two.holds(&a));
    assert!(!two.holds(&grown));

    let mut same_number = StdKeyStore::new(1);
    let other = same_number.get(vec![2]);
    assert!(!one.holds(&other));
    assert!(!StdKeyStore::new(1).holds(&a));
}

#[test]
fn get_map_looks_up_without_making() {
    let mut store = StdKeyStore::new(0);
    assert!(store.get_map().is_empty());
    assert!(store.get_map().get(&vec![1, 2]).is_none());
    assert_eq!(store.stats().total_maps, 0);

    let made = store.get(vec![1, 2]);
    let map = store.get_map();
    assert_eq!(map.len(), 1);
    assert!(!map.is_empty());
    assert!(map.get(&vec![1, 2]) == Some(made.clone()));
    assert!(map.get(&vec![2, 1]).is_none());
    assert!(map.get(&Vec::new()).is_none());
    assert_eq!(store.stats().total_maps, 1);
}
