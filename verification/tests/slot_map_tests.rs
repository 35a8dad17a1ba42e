use slot_map::SlotMap;
use slot_map::SlotMapHandle;

#[test]
fn insert_then_get_returns_value() {
    let mut map: SlotMap<String> = SlotMap::new();
    let h = map.push(String::from("hello"));
    assert_eq!(map.get(h), Some(&String::from("hello")));
    assert_eq!(map.len(), 1);
}

#[test]
fn removed_handle_is_absent_and_second_remove_fails() {
    let mut map: SlotMap<u32> = SlotMap::new();
    let h = map.push(7);
    assert_eq!(map.remove(h), Some(7));
    assert_eq!(map.get(h), None);
    assert_eq!(map.remove(h), None);
    assert_eq!(map.len(), 0);
}

#[test]
fn next_handle_predicts_push() {
    let mut map: SlotMap<u32> = SlotMap::new();
    let predicted = map.next_handle();
    let actual = map.push(1);
    assert!(predicted == actual);
    assert_eq!(
        predicted.index_and_generation(),
        actual.index_and_generation()
    );

    // also after a removal, when the pool head is reused
    map.remove(actual);
    let predicted = map.next_handle();
    let actual = map.push(2);
    assert!(predicted == actual);
    assert_eq!(
        predicted.index_and_generation(),
        actual.index_and_generation()
    );
}

#[test]
fn generation_increases_with_every_reuse_cycle() {
    let mut map: SlotMap<u32> = SlotMap::new();
    let h0 = map.push(1);
    let (index0, generation0) = h0.index_and_generation();
    assert_eq!(generation0, 0);

    // each removal bumps the slot's generation by one, and each reuse of
    // the pooled slot bumps it once more
    let mut handle = h0;
    for round in 1..=3u32 {
        assert_eq!(map.remove(handle), Some(round));
        handle = map.push(round + 1);
        let (index, generation) = handle.index_and_generation();
        assert_eq!(index, index0);
        assert_eq!(generation, 2 * round as usize);
    }

    // every handle captured before the last removal is rejected
    assert_eq!(map.get(h0), None);
    assert_eq!(map.remove(h0), None);
}

#[test]
fn get_mut_pair_refuses_aliasing() {
    let mut map: SlotMap<u32> = SlotMap::new();
    let h = map.push(5);
    let (a, b) = map.get_mut_twice(h, h);
    assert!(a.is_none());
    assert!(b.is_none());
    // a single stale handle is also refused on both sides
    map.remove(h);
    let (a, b) = map.get_mut_twice(h, h);
    assert!(a.is_none());
    assert!(b.is_none());
}

#[test]
fn get_mut_pair_yields_disjoint_references() {
    let mut map: SlotMap<u32> = SlotMap::new();
    let h0 = map.push(10);
    let h1 = map.push(20);
    {
        let (a, b) = map.get_mut_twice(h0, h1);
        *a.unwrap() += 1;
        *b.unwrap() += 2;
    }
    assert_eq!(map.get(h0), Some(&11));
    assert_eq!(map.get(h1), Some(&22));
    // order of the handles does not matter
    {
        let (a, b) = map.get_mut_twice(h1, h0);
        assert_eq!(*a.unwrap(), 22);
        assert_eq!(*b.unwrap(), 11);
    }
}

#[test]
fn get_mut_pair_with_one_stale_handle() {
    let mut map: SlotMap<u32> = SlotMap::new();
    let h0 = map.push(10);
    let h1 = map.push(20);
    map.remove(h0);
    let (a, b) = map.get_mut_twice(h0, h1);
    assert!(a.is_none());
    assert_eq!(*b.unwrap(), 20);
}

#[test]
fn swap_remove_compacts_dense_storage() {
    let mut map: SlotMap<String> = SlotMap::new();
    let ha = map.push(String::from("a"));
    let hb = map.push(String::from("b"));
    let hc = map.push(String::from("c"));
    assert_eq!(map.remove(hb), Some(String::from("b")));
    // the last value moved into the vacated position
    let dense: &Vec<String> = map.iter();
    assert_eq!(dense.len(), 2);
    assert_eq!(dense[0], "a");
    assert_eq!(dense[1], "c");
    // handles survive the compaction
    assert_eq!(map.get(ha), Some(&String::from("a")));
    assert_eq!(map.get(hc), Some(&String::from("c")));
    assert_eq!(map.get(hb), None);
}

#[test]
fn handle_equality_ignores_generation() {
    let stale = SlotMapHandle::<u32>::from_index_and_generation(3, 0);
    let fresh = SlotMapHandle::<u32>::from_index_and_generation(3, 5);
    let other = SlotMapHandle::<u32>::from_index_and_generation(4, 0);
    assert!(stale == fresh);
    assert!(stale != other);
    assert!(stale < other);
    assert!(other > fresh);
}

#[test]
fn raw_parts_round_trip() {
    let h = SlotMapHandle::<u32>::from_index_and_generation(12, 34);
    assert_eq!(h.index_and_generation(), (12, 34));
}

#[test]
fn forged_out_of_range_handle_is_absent() {
    let mut map: SlotMap<u32> = SlotMap::new();
    map.push(1);
    let forged = SlotMapHandle::<u32>::from_index_and_generation(99, 0);
    assert_eq!(map.get(forged), None);
    assert_eq!(map.get_mut(forged), None);
    assert_eq!(map.remove(forged), None);
    assert_eq!(map.len(), 1);
}

#[test]
fn get_unchecked_generation_skips_the_comparison() {
    let mut map: SlotMap<u32> = SlotMap::new();
    let h = map.push(1);
    let stale = SlotMapHandle::<u32>::from_index_and_generation(
        h.index_and_generation().0,
        h.index_and_generation().1 + 7,
    );
    assert_eq!(map.get(stale), None);
    assert_eq!(map.get_unchecked_generation(stale), Some(&1));
    *map.get_mut_unchecked_generation(stale).unwrap() = 2;
    assert_eq!(map.get(h), Some(&2));
}

#[test]
fn remove_unchecked_generation_ignores_staleness() {
    let mut map: SlotMap<u32> = SlotMap::new();
    let h = map.push(1);
    let stale = SlotMapHandle::<u32>::from_index_and_generation(
        h.index_and_generation().0,
        h.index_and_generation().1 + 7,
    );
    assert_eq!(map.remove(stale), None);
    assert_eq!(map.remove_unchecked_generation(stale), Some(1));
    assert_eq!(map.len(), 0);
    // the slot is now dead, so even the unchecked removal is absent
    assert_eq!(map.remove_unchecked_generation(stale), None);
}

#[test]
fn get_mut_changes_only_the_target() {
    let mut map: SlotMap<u32> = SlotMap::new();
    let h0 = map.push(1);
    let h1 = map.push(2);
    *map.get_mut(h0).unwrap() = 100;
    assert_eq!(map.get(h0), Some(&100));
    assert_eq!(map.get(h1), Some(&2));
}

#[test]
fn iter_with_handle_pairs_values_with_their_handles() {
    let mut map: SlotMap<u32> = SlotMap::new();
    let h0 = map.push(10);
    let h1 = map.push(20);
    let pairs = map.iter_with_handle();
    assert_eq!(pairs.len(), 2);
    assert_eq!(*pairs[0].0, 10);
    assert!(pairs[0].1 == h0);
    assert_eq!(*pairs[1].0, 20);
    assert!(pairs[1].1 == h1);
    assert_eq!(
        pairs[0].1.index_and_generation(),
        h0.index_and_generation()
    );
}

#[test]
fn iter_mut_allows_in_place_mutation() {
    let mut map: SlotMap<u32> = SlotMap::new();
    let h0 = map.push(1);
    let h1 = map.push(2);
    {
        let values = map.iter_mut();
        for v in values.iter_mut() {
            *v *= 10;
        }
    }
    assert_eq!(map.get(h0), Some(&10));
    assert_eq!(map.get(h1), Some(&20));
}

#[test]
fn iter_mut_with_handle_pairs_storage_with_handles() {
    let mut map: SlotMap<u32> = SlotMap::new();
    let h0 = map.push(1);
    let h1 = map.push(2);
    {
        let (handles, values) = map.iter_mut_with_handle();
        assert_eq!(handles.len(), 2);
        assert!(handles[0] == h0);
        assert!(handles[1] == h1);
        values[1] = 22;
    }
    assert_eq!(map.get(h1), Some(&22));
}

#[test]
fn removing_the_sole_element_leaves_an_empty_map() {
    let mut map: SlotMap<u32> = SlotMap::new();
    let h = map.push(42);
    assert_eq!(map.remove(h), Some(42));
    assert_eq!(map.len(), 0);
    assert_eq!(map.iter().len(), 0);
    let h2 = map.push(43);
    assert_eq!(map.get(h2), Some(&43));
    assert_eq!(map.get(h), None);
}

#[test]
fn clone_preserves_structure_and_values() {
    let mut map: SlotMap<String> = SlotMap::new();
    let h0 = map.push(String::from("x"));
    let h1 = map.push(String::from("y"));
    map.remove(h0);
    let copy = map.clone();
    assert_eq!(copy.get(h1), Some(&String::from("y")));
    assert_eq!(copy.get(h0), None);
    assert_eq!(copy.len(), map.len());
    // the clone also reuses the same pooled slot for its next insertion
    let mut copy2 = copy.clone();
    let from_copy = copy2.push(String::from("z"));
    let from_original = map.push(String::from("z"));
    assert_eq!(
        from_copy.index_and_generation(),
        from_original.index_and_generation()
    );
}
