use slot_map::LinkedListSlotMap;
use slot_map::LinkedListSlotMapHandle;
use slot_map::RevRemoveLinkedListSlotMapIterator;

fn forward_values(
    list: &LinkedListSlotMap<u32>,
    start: LinkedListSlotMapHandle<u32>,
) -> Vec<u32> {
    let mut out = Vec::new();
    let mut it = list.iter(start);
    while let Some((value, _handle)) = it.next() {
        out.push(*value);
    }
    out
}

fn backward_values(
    list: &LinkedListSlotMap<u32>,
    start: LinkedListSlotMapHandle<u32>,
) -> Vec<u32> {
    let mut out = Vec::new();
    let mut it = list.reverse_iter(start);
    while let Some((value, _handle)) = it.next() {
        out.push(*value);
    }
    out
}

#[test]
fn standalone_insert_makes_a_one_node_list() {
    let mut list: LinkedListSlotMap<u32> = LinkedListSlotMap::new();
    let h = list.insert(None, 5);
    assert_eq!(list.get(h), Some(&5));
    assert!(list.get_previous_handle(h).is_none());
    assert!(list.get_next_handle(h).is_none());
    assert_eq!(forward_values(&list, h), vec![5]);
}

#[test]
fn splice_after_links_both_neighbors() {
    let mut list: LinkedListSlotMap<u32> = LinkedListSlotMap::new();
    let h1 = list.insert(None, 1);
    let h2 = list.insert(Some(h1), 2);
    let h3 = list.insert(Some(h1), 3);
    // the new node went between h1 and h2
    assert_eq!(forward_values(&list, h1), vec![1, 3, 2]);
    assert!(list.get_next_handle(h1) == Some(h3));
    assert!(list.get_previous_handle(h2) == Some(h3));
    assert!(list.get_previous_handle(h3) == Some(h1));
    assert!(list.get_next_handle(h3) == Some(h2));
}

#[test]
fn forward_and_backward_iteration_are_reverses() {
    let mut list: LinkedListSlotMap<u32> = LinkedListSlotMap::new();
    let h1 = list.insert(None, 1);
    let h2 = list.insert(Some(h1), 2);
    let h3 = list.insert(Some(h2), 3);
    let h4 = list.insert(Some(h3), 4);
    let forward = forward_values(&list, h1);
    let mut backward = backward_values(&list, h4);
    assert_eq!(forward, vec![1, 2, 3, 4]);
    backward.reverse();
    assert_eq!(forward, backward);
}

#[test]
fn iteration_is_restartable() {
    let mut list: LinkedListSlotMap<u32> = LinkedListSlotMap::new();
    let h1 = list.insert(None, 1);
    let h2 = list.insert(Some(h1), 2);
    assert_eq!(forward_values(&list, h1), vec![1, 2]);
    assert_eq!(forward_values(&list, h1), vec![1, 2]);
    assert_eq!(forward_values(&list, h2), vec![2]);
}

#[test]
fn iterator_yields_handles_alongside_values() {
    let mut list: LinkedListSlotMap<u32> = LinkedListSlotMap::new();
    let h1 = list.insert(None, 1);
    let h2 = list.insert(Some(h1), 2);
    let mut it = list.iter(h1);
    let (value, handle) = it.next().unwrap();
    assert_eq!(*value, 1);
    assert!(handle == h1);
    let (value, handle) = it.next().unwrap();
    assert_eq!(*value, 2);
    assert!(handle == h2);
    assert!(it.next().is_none());
}

#[test]
fn remove_returns_value_and_neighbors_and_splices_the_gap() {
    let mut list: LinkedListSlotMap<u32> = LinkedListSlotMap::new();
    let h1 = list.insert(None, 1);
    let h2 = list.insert(Some(h1), 2);
    let h3 = list.insert(Some(h2), 3);
    let (value, previous, next) = list.remove(h2);
    assert_eq!(value, 2);
    assert!(previous == Some(h1));
    assert!(next == Some(h3));
    assert_eq!(list.get(h2), None);
    assert_eq!(forward_values(&list, h1), vec![1, 3]);
    assert_eq!(backward_values(&list, h3), vec![3, 1]);
}

#[test]
fn remove_head_and_tail() {
    let mut list: LinkedListSlotMap<u32> = LinkedListSlotMap::new();
    let h1 = list.insert(None, 1);
    let h2 = list.insert(Some(h1), 2);
    let (value, previous, next) = list.remove(h1);
    assert_eq!(value, 1);
    assert!(previous.is_none());
    assert!(next == Some(h2));
    let (value, previous, next) = list.remove(h2);
    assert_eq!(value, 2);
    assert!(previous.is_none());
    assert!(next.is_none());
}

#[test]
fn drain_backward_removes_every_visited_node() {
    let mut list: LinkedListSlotMap<u32> = LinkedListSlotMap::new();
    let h1 = list.insert(None, 1);
    let h2 = list.insert(Some(h1), 2);
    let h3 = list.insert(Some(h2), 3);
    let drained = list.reverse_remove_iter(h3);
    assert_eq!(drained, vec![3, 2, 1]);
    assert_eq!(list.get(h1), None);
    assert_eq!(list.get(h2), None);
    assert_eq!(list.get(h3), None);
}

#[test]
fn drain_backward_from_the_middle_leaves_the_tail_half() {
    let mut list: LinkedListSlotMap<u32> = LinkedListSlotMap::new();
    let h1 = list.insert(None, 1);
    let h2 = list.insert(Some(h1), 2);
    let h3 = list.insert(Some(h2), 3);
    let drained = list.reverse_remove_iter(h2);
    assert_eq!(drained, vec![2, 1]);
    assert_eq!(list.get(h1), None);
    assert_eq!(list.get(h2), None);
    assert_eq!(list.get(h3), Some(&3));
}

#[test]
fn get_mut_changes_only_the_target_value() {
    let mut list: LinkedListSlotMap<u32> = LinkedListSlotMap::new();
    let h1 = list.insert(None, 1);
    let h2 = list.insert(Some(h1), 2);
    *list.get_mut(h2).unwrap() = 22;
    assert_eq!(list.get(h1), Some(&1));
    assert_eq!(list.get(h2), Some(&22));
    assert_eq!(forward_values(&list, h1), vec![1, 22]);
}

#[test]
fn stale_list_handle_is_absent_everywhere() {
    let mut list: LinkedListSlotMap<u32> = LinkedListSlotMap::new();
    let h1 = list.insert(None, 1);
    let h2 = list.insert(Some(h1), 2);
    list.remove(h2);
    assert_eq!(list.get(h2), None);
    assert_eq!(list.get_mut(h2), None);
    assert!(list.get_previous_handle(h2).is_none());
    assert!(list.get_next_handle(h2).is_none());
}

#[test]
fn multiple_lists_coexist_in_one_arena() {
    let mut list: LinkedListSlotMap<u32> = LinkedListSlotMap::new();
    let a1 = list.insert(None, 10);
    let b1 = list.insert(None, 20);
    let a2 = list.insert(Some(a1), 11);
    let b2 = list.insert(Some(b1), 21);
    assert_eq!(forward_values(&list, a1), vec![10, 11]);
    assert_eq!(forward_values(&list, b1), vec![20, 21]);
    list.remove(a2);
    assert_eq!(forward_values(&list, a1), vec![10]);
    assert_eq!(forward_values(&list, b1), vec![20, 21]);
    let _ = a2;
    let _ = b2;
}

#[test]
fn inner_handle_exposes_the_arena_handle() {
    let mut list: LinkedListSlotMap<u32> = LinkedListSlotMap::new();
    let h1 = list.insert(None, 1);
    let inner = h1.inner_handle();
    let (index, generation) = inner.index_and_generation();
    assert_eq!(generation, 0);
    assert_eq!(index, 0);
    assert!(h1 == h1.clone());
}

#[test]
fn step_wise_drain_removes_as_it_goes() {
    let mut list: LinkedListSlotMap<u32> = LinkedListSlotMap::new();
    let h1 = list.insert(None, 1);
    let h2 = list.insert(Some(h1), 2);
    let h3 = list.insert(Some(h2), 3);
    let mut it = RevRemoveLinkedListSlotMapIterator::new(h3);
    assert_eq!(it.next(&mut list), Some(3));
    assert_eq!(list.get(h3), None);
    assert_eq!(list.get(h2), Some(&2));
    assert_eq!(it.next(&mut list), Some(2));
    assert_eq!(it.next(&mut list), Some(1));
    assert_eq!(it.next(&mut list), None);
    assert_eq!(list.get(h1), None);
    assert_eq!(list.get(h2), None);
}
