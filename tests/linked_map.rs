use linked_map::{LinkedList, LinkedMap, Node};

fn keys(map: &LinkedMap<&'static str>) -> Vec<u64> {
    map.iter().into_iter().map(|(k, _)| *k).collect()
}

fn keys_rev(map: &LinkedMap<&'static str>) -> Vec<u64> {
    map.iter_rev().into_iter().map(|(k, _)| *k).collect()
}

fn sample() -> LinkedMap<&'static str> {
    let mut map = LinkedMap::new();
    map.append(1, "one");
    map.append(2, "two");
    map.append(3, "three");
    map
}

#[test]
fn append_reorder_remove_and_resume() {
    let mut map = LinkedMap::new();
    assert_eq!(map.append(1, "one"), None);
    assert_eq!(map.append(2, "two"), None);
    assert_eq!(map.append(3, "three"), None);
    assert_eq!(keys(&map), vec![1, 2, 3]);

    map.cursor_at_mut(&2).unwrap().move_to_front();
    assert_eq!(keys(&map), vec![2, 1, 3]);

    assert_eq!(map.cursor_at_mut(&1).unwrap().remove(), Some((1, "one")));
    assert_eq!(keys(&map), vec![2, 3]);
    assert_eq!(map.len(), 2);

    {
        let mut c = map.cursor_mut();
        assert_eq!(c.to_key(&2), Some((&2, &"two")));
        c.save();
        while c.next().is_some() {}
        assert_eq!(c.key(), Some(&3));
        assert_eq!(c.resume(), Some((&2, &"two")));
    }
    let c = map.resume().unwrap();
    assert_eq!(c.key_value(), Some((&2, &"two")));
}

#[test]
fn index_keys_match_list_after_each_step() {
    let mut map = LinkedMap::new();
    let check = |map: &LinkedMap<&'static str>| {
        let ks = keys(map);
        assert_eq!(ks.len(), map.len());
        for k in &ks {
            assert_eq!(map.cursor_at(k).unwrap().key(), Some(k));
        }
    };
    map.append(5, "five");
    check(&map);
    map.prepend(7, "seven");
    check(&map);
    map.append(9, "nine");
    check(&map);
    map.cursor_at_mut(&7).unwrap().insert_after(8, "eight");
    check(&map);
    map.cursor_at_mut(&5).unwrap().remove();
    check(&map);
    map.cursor_at_mut(&9).unwrap().move_to_front();
    check(&map);
    assert_eq!(keys(&map), vec![9, 7, 8]);
    assert!(map.cursor_at(&5).is_none());
}

#[test]
fn backward_walk_reverses_forward_walk() {
    let mut map = sample();
    map.prepend(0, "zero");
    let mut forward = keys(&map);
    forward.reverse();
    assert_eq!(keys_rev(&map), forward);
    assert_eq!(keys_rev(&map), vec![3, 2, 1, 0]);

    let mut c = map.cursor();
    let mut walked = vec![*c.key().unwrap()];
    while let Some((k, _)) = c.next() {
        walked.push(*k);
    }
    let mut back = vec![*c.key().unwrap()];
    while let Some((k, _)) = c.previous() {
        back.push(*k);
    }
    walked.reverse();
    assert_eq!(back, walked);
}

#[test]
fn move_to_front_twice_is_once() {
    let mut once = sample();
    once.cursor_at_mut(&3).unwrap().move_to_front();
    let mut twice = sample();
    {
        let mut c = twice.cursor_at_mut(&3).unwrap();
        c.move_to_front();
        c.move_to_front();
    }
    assert_eq!(keys(&once), vec![3, 1, 2]);
    assert_eq!(keys(&twice), keys(&once));
}

#[test]
fn move_to_back_keeps_cursor_on_node() {
    let mut map = sample();
    let mut c = map.cursor_mut();
    c.move_to_back();
    assert_eq!(c.key(), Some(&1));
    assert_eq!(c.peek_next(), None);
    assert_eq!(c.peek_previous(), Some((&3, &"three")));
    drop(c);
    assert_eq!(keys(&map), vec![2, 3, 1]);
}

#[test]
fn removal_shrinks_and_forgets_key() {
    let mut map = sample();
    let before = map.len();
    {
        let mut c = map.cursor_at_mut(&2).unwrap();
        assert_eq!(c.remove(), Some((2, "two")));
        assert_eq!(c.len(), before - 1);
        assert_eq!(c.to_key(&2), None);
        assert_eq!(c.key(), Some(&1));
    }
    assert_eq!(map.len(), 2);
    assert!(map.cursor_at(&2).is_none());
    assert_eq!(map.cursor().to_key(&2), None);
}

#[test]
fn removal_moves_cursor_to_neighbour() {
    let mut map = sample();
    let mut c = map.cursor_mut();
    assert_eq!(c.remove(), Some((1, "one")));
    assert_eq!(c.key(), Some(&2));
    c.to_back();
    assert_eq!(c.remove(), Some((3, "three")));
    assert_eq!(c.key(), Some(&2));
    assert_eq!(c.remove(), Some((2, "two")));
    assert_eq!(c.key(), None);
    assert!(c.is_empty());
    assert_eq!(c.remove(), None);
}

#[test]
fn removing_saved_node_clears_saved_position() {
    let mut map = sample();
    {
        let mut c = map.cursor_at_mut(&2).unwrap();
        c.save();
        c.remove();
        assert_eq!(c.resume(), None);
    }
    assert!(map.resume().is_none());
    assert!(map.resume_mut().is_none());
}

#[test]
fn saved_position_survives_other_changes() {
    let mut map = sample();
    map.cursor_at_mut(&2).unwrap().save();
    map.prepend(0, "zero");
    map.append(4, "four");
    map.cursor_at_mut(&3).unwrap().move_to_front();
    map.cursor_at_mut(&1).unwrap().move_to_back();
    map.cursor_at_mut(&0).unwrap().remove();
    {
        let mut c = map.cursor_at_mut(&4).unwrap();
        c.insert_before(10, "ten");
        c.insert_after(11, "eleven");
    }
    assert_eq!(map.resume().unwrap().key_value(), Some((&2, &"two")));
    map.cursor_at_mut(&2).unwrap().move_to_front();
    assert_eq!(map.resume().unwrap().key(), Some(&2));
    assert_eq!(keys(&map), vec![2, 3, 10, 4, 11, 1]);
}

#[test]
fn saved_node_moves_with_slot_relocation() {
    // removing an early node relocates the node in the last slot; the saved
    // position must still find it
    let mut map = sample();
    map.cursor_at_mut(&3).unwrap().save();
    map.cursor_at_mut(&1).unwrap().remove();
    assert_eq!(map.resume().unwrap().key_value(), Some((&3, &"three")));
    assert_eq!(map.cursor_at(&3).unwrap().key(), Some(&3));
    assert_eq!(keys(&map), vec![2, 3]);
}

#[test]
fn clear_saved_forgets_position() {
    let mut map = sample();
    map.cursor_at_mut(&1).unwrap().save();
    assert!(map.resume().is_some());
    map.clear_saved();
    assert!(map.resume().is_none());
    let mut c = map.cursor_mut();
    c.save();
    c.clear_saved();
    assert_eq!(c.resume(), None);
}

#[test]
fn save_on_empty_map_clears_position() {
    let mut map: LinkedMap<&'static str> = LinkedMap::new();
    map.cursor_mut().save();
    assert!(map.resume().is_none());
}

#[test]
fn insert_existing_key_updates_in_place() {
    let mut map = sample();
    {
        let mut c = map.cursor_at_mut(&3).unwrap();
        c.insert_before(1, "uno");
        c.insert_after(2, "dos");
        c.insert_before(3, "tres");
        assert_eq!(c.key_value(), Some((&3, &"tres")));
    }
    assert_eq!(keys(&map), vec![1, 2, 3]);
    let values: Vec<&str> = map.iter().into_iter().map(|(_, v)| *v).collect();
    assert_eq!(values, vec!["uno", "dos", "tres"]);
    assert_eq!(map.len(), 3);
}

#[test]
fn insert_new_keys_next_to_cursor() {
    let mut map = sample();
    let mut c = map.cursor_at_mut(&2).unwrap();
    c.insert_before(10, "ten");
    assert_eq!(c.key(), Some(&2));
    c.insert_after(20, "twenty");
    assert_eq!(c.key(), Some(&2));
    assert_eq!(c.peek_previous(), Some((&10, &"ten")));
    assert_eq!(c.peek_next(), Some((&20, &"twenty")));
    drop(c);
    assert_eq!(keys(&map), vec![1, 10, 2, 20, 3]);
}

#[test]
fn insert_into_empty_map_moves_cursor() {
    let mut map = LinkedMap::new();
    {
        let mut c = map.cursor_mut();
        assert_eq!(c.key(), None);
        c.insert_before(4, "four");
        assert_eq!(c.key_value(), Some((&4, &"four")));
        c.insert_after(5, "five");
        c.insert_before(3, "three");
    }
    assert_eq!(keys(&map), vec![3, 4, 5]);
    let mut other: LinkedMap<&'static str> = LinkedMap::new();
    other.cursor_mut().insert_after(6, "six");
    assert_eq!(keys(&other), vec![6]);
}

#[test]
fn prepend_and_append_replace_and_move() {
    let mut map = sample();
    assert_eq!(map.prepend(3, "THREE"), Some("three"));
    assert_eq!(keys(&map), vec![3, 1, 2]);
    assert_eq!(map.append(3, "3"), Some("THREE"));
    assert_eq!(keys(&map), vec![1, 2, 3]);
    assert_eq!(map.append(1, "1"), Some("one"));
    assert_eq!(keys(&map), vec![2, 3, 1]);
    assert_eq!(map.prepend(4, "four"), None);
    assert_eq!(keys(&map), vec![4, 2, 3, 1]);
    assert_eq!(map.len(), 4);
    assert_eq!(map.cursor_at(&1).unwrap().value(), Some(&"1"));
}

#[test]
fn empty_map_reports_absent() {
    let map: LinkedMap<&'static str> = LinkedMap::new();
    assert_eq!(map.len(), 0);
    assert!(map.is_empty());
    assert!(map.iter().is_empty());
    assert!(map.iter_rev().is_empty());
    assert!(map.cursor_at(&1).is_none());
    assert!(map.resume().is_none());
    let mut c = map.cursor();
    assert_eq!(c.key(), None);
    assert_eq!(c.value(), None);
    assert_eq!(c.key_value(), None);
    assert_eq!(c.next(), None);
    assert_eq!(c.previous(), None);
    assert_eq!(c.peek_next(), None);
    assert_eq!(c.peek_previous(), None);
    assert_eq!(c.resume(), None);
    c.to_front();
    c.to_back();
    assert_eq!(c.key(), None);
    assert!(c.iter().is_empty());
}

#[test]
fn next_and_previous_stop_at_ends() {
    let map = sample();
    let mut c = map.cursor();
    assert_eq!(c.previous(), None);
    assert_eq!(c.key(), Some(&1));
    assert_eq!(c.next(), Some((&2, &"two")));
    assert_eq!(c.next(), Some((&3, &"three")));
    assert_eq!(c.next(), None);
    assert_eq!(c.next(), None);
    assert_eq!(c.key(), Some(&3));
    c.to_front();
    assert_eq!(c.key(), Some(&1));
    c.to_back();
    assert_eq!(c.value(), Some(&"three"));
}

#[test]
fn cursor_iterators_start_after_current() {
    let map = sample();
    let c = map.cursor_at(&2).unwrap();
    let after: Vec<u64> = c.clone().iter().into_iter().map(|(k, _)| *k).collect();
    let before: Vec<u64> = c.iter_rev().into_iter().map(|(k, _)| *k).collect();
    assert_eq!(after, vec![3]);
    assert_eq!(before, vec![1]);
    let all: Vec<u64> = map.cursor_at(&3).unwrap().iter_rev().into_iter().map(|(k, _)| *k).collect();
    assert_eq!(all, vec![2, 1]);
}

#[test]
fn cursor_value_changes_in_place() {
    let mut map = sample();
    {
        let mut c = map.cursor_at_mut(&2).unwrap();
        *c.value().unwrap() = "deux";
        assert_eq!(c.key_value(), Some((&2, &"deux")));
    }
    assert_eq!(map.cursor_at(&2).unwrap().value(), Some(&"deux"));
    assert_eq!(keys(&map), vec![1, 2, 3]);
    let mut empty: LinkedMap<&'static str> = LinkedMap::new();
    assert!(empty.cursor_mut().value().is_none());
}

#[test]
fn mutable_cursor_navigation() {
    let mut map = sample();
    let mut c = map.cursor_mut();
    assert_eq!(c.next(), Some((&2, &"two")));
    assert_eq!(c.previous(), Some((&1, &"one")));
    assert_eq!(c.previous(), None);
    c.to_back();
    assert_eq!(c.key(), Some(&3));
    c.to_front();
    assert_eq!(c.key(), Some(&1));
    assert_eq!(c.to_key(&9), None);
    assert_eq!(c.key(), Some(&1));
    assert_eq!(c.len(), 3);
    assert!(!c.is_empty());
    assert!(c.capacity() >= 3);
}

#[test]
fn capacity_covers_len() {
    let mut map = LinkedMap::new();
    assert_eq!(map.capacity(), 0);
    for k in 0..40u64 {
        map.append(k, k * 2);
    }
    assert_eq!(map.len(), 40);
    assert!(map.capacity() >= 40);
    let c = map.cursor();
    assert!(c.capacity() >= c.len());
    assert!(!c.is_empty());
}

#[test]
fn many_removals_keep_map_consistent() {
    let mut map = LinkedMap::new();
    for k in 0..20u64 {
        map.append(k, k + 100);
    }
    for k in (0..20u64).filter(|k| k % 3 == 0) {
        assert_eq!(map.cursor_at_mut(&k).unwrap().remove(), Some((k, k + 100)));
    }
    let expected: Vec<u64> = (0..20u64).filter(|k| k % 3 != 0).collect();
    let got: Vec<u64> = map.iter().into_iter().map(|(k, _)| *k).collect();
    assert_eq!(got, expected);
    for k in &expected {
        assert_eq!(map.cursor_at(k).unwrap().value(), Some(&(k + 100)));
    }
    assert_eq!(map.len(), expected.len());
}

#[test]
fn cursor_at_mut_missing_key() {
    let mut map = sample();
    assert!(map.cursor_at_mut(&42).is_none());
    assert_eq!(map.len(), 3);
}

#[test]
fn resume_mut_returns_cursor_at_saved() {
    let mut map = sample();
    map.cursor_at_mut(&3).unwrap().save();
    let mut c = map.resume_mut().unwrap();
    assert_eq!(c.key(), Some(&3));
    c.move_to_front();
    drop(c);
    assert_eq!(keys(&map), vec![3, 1, 2]);
}

#[test]
fn list_links_follow_order() {
    let mut list = LinkedList::new();
    assert_eq!(list.head(), None);
    assert_eq!(list.tail(), None);
    let a = list.append(1, 'a');
    let b = list.append(2, 'b');
    let z = list.prepend(0, 'z');
    assert_eq!(list.head(), Some(z));
    assert_eq!(list.tail(), Some(b));
    assert_eq!(list.node(a).previous(), Some(z));
    assert_eq!(list.node(a).next(), Some(b));
    let m = list.insert_after(Node::new(5, 'm'), a);
    let n = list.insert_before(Node::new(6, 'n'), z);
    assert_eq!(list.head(), Some(n));
    assert_eq!(list.node(m).previous(), Some(a));
    assert_eq!(list.node(m).next(), Some(b));
    assert_eq!(list.len(), 5);

    list.move_to_front(b);
    assert_eq!(list.head(), Some(b));
    list.move_to_back(b);
    assert_eq!(list.tail(), Some(b));

    let removed = list.remove(z);
    assert_eq!((removed.key, removed.val), (0, 'z'));
    assert_eq!(list.len(), 4);
    let mut walk = Vec::new();
    let mut cur = list.head();
    while let Some(s) = cur {
        walk.push(list.node(s).key);
        cur = list.node(s).next();
    }
    assert_eq!(walk, vec![6, 1, 5, 2]);
}

#[test]
fn node_starts_unlinked() {
    let node = Node::new(3, "x");
    assert_eq!(node.previous(), None);
    assert_eq!(node.next(), None);
    assert_eq!(node.key, 3);
    assert_eq!(node.val, "x");
}

#[test]
fn from_pairs_keeps_last_value_and_place() {
    let map = LinkedMap::from_pairs(vec![(1, "a"), (2, "b"), (1, "c"), (3, "d")]);
    assert_eq!(keys(&map), vec![2, 1, 3]);
    assert_eq!(map.cursor_at(&1).unwrap().value(), Some(&"c"));
    assert_eq!(map.len(), 3);
    assert!(map.resume().is_none());
    let empty: LinkedMap<&'static str> = LinkedMap::from_pairs(Vec::new());
    assert!(empty.is_empty());
}

#[test]
fn default_values_are_empty() {
    let map: LinkedMap<u8> = Default::default();
    assert!(map.is_empty());
    let list: LinkedList<u8> = Default::default();
    assert_eq!(list.len(), 0);
    assert_eq!(list.head(), None);
}

#[test]
fn list_remove_last_slot_and_ends() {
    let mut list = LinkedList::new();
    let a = list.append(1, "a");
    let b = list.append(2, "b");
    let removed = list.remove(b);
    assert_eq!((removed.key, removed.val), (2, "b"));
    assert_eq!(list.head(), Some(a));
    assert_eq!(list.tail(), Some(a));
    assert_eq!(list.node(a).next(), None);
    let only = list.remove(a);
    assert_eq!(only.key, 1);
    assert_eq!(list.head(), None);
    assert_eq!(list.tail(), None);
    assert_eq!(list.len(), 0);
}

#[test]
fn iter_mut_changes_values_in_order() {
    let mut map = LinkedMap::new();
    map.append(1, 10u64);
    map.append(2, 20);
    map.prepend(3, 30);
    let mut seen = Vec::new();
    for (k, v) in map.iter_mut() {
        seen.push(*k);
        *v += *k;
    }
    assert_eq!(seen, vec![3, 1, 2]);
    let values: Vec<u64> = map.iter().into_iter().map(|(_, v)| *v).collect();
    assert_eq!(values, vec![33, 11, 22]);

    let mut back = Vec::new();
    for (k, v) in map.iter_rev_mut() {
        back.push(*k);
        *v = 0;
    }
    assert_eq!(back, vec![2, 1, 3]);
    assert!(map.iter().into_iter().all(|(_, v)| *v == 0));
    assert_eq!(map.len(), 3);
}

#[test]
fn iter_mut_on_empty_map() {
    let mut map: LinkedMap<u8> = LinkedMap::new();
    assert!(map.iter_mut().is_empty());
    assert!(map.iter_rev_mut().is_empty());
}

#[test]
fn mutable_cursor_iterators_change_neighbours() {
    let mut map = LinkedMap::new();
    for k in 1..=5u64 {
        map.append(k, k * 10);
    }
    {
        let c = map.cursor_at_mut(&3).unwrap();
        let after: Vec<u64> = c
            .iter()
            .into_iter()
            .map(|(k, v)| {
                *v += 1;
                *k
            })
            .collect();
        assert_eq!(after, vec![4, 5]);
    }
    {
        let c = map.cursor_at_mut(&3).unwrap();
        let before: Vec<u64> = c
            .iter_rev()
            .into_iter()
            .map(|(k, v)| {
                *v += 2;
                *k
            })
            .collect();
        assert_eq!(before, vec![2, 1]);
    }
    let values: Vec<u64> = map.iter().into_iter().map(|(_, v)| *v).collect();
    assert_eq!(values, vec![12, 22, 30, 41, 51]);
    let mut empty: LinkedMap<u64> = LinkedMap::new();
    assert!(empty.cursor_mut().iter().is_empty());
    assert!(empty.cursor_mut().iter_rev().is_empty());
}

#[test]
fn removed_node_is_unlinked() {
    let mut list = LinkedList::new();
    let a = list.append(1, "a");
    let b = list.append(2, "b");
    list.append(3, "c");
    let removed = list.remove(b);
    assert_eq!((removed.key, removed.val), (2, "b"));
    assert_eq!(removed.previous(), None);
    assert_eq!(removed.next(), None);
    let first = list.remove(a);
    assert_eq!(first.previous(), None);
    assert_eq!(first.next(), None);
    assert_eq!(list.len(), 1);
}

#[test]
fn saved_position_survives_long_run_of_changes() {
    let mut map = LinkedMap::new();
    for k in 0..10u64 {
        map.append(k, "v");
    }
    map.cursor_at_mut(&4).unwrap().save();
    for k in 10..30u64 {
        if k % 2 == 0 {
            map.prepend(k, "p");
        } else {
            map.append(k, "a");
        }
        let target = (k * 7) % 10;
        if target != 4 {
            map.cursor_at_mut(&target).unwrap().move_to_front();
        }
        map.cursor_at_mut(&k).unwrap().insert_after(k + 100, "n");
        map.cursor_at_mut(&4).unwrap().move_to_back();
    }
    assert_eq!(map.resume().unwrap().key_value(), Some((&4, &"v")));
}
