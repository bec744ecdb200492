use generational_graph::gen_vec::{Element, GenVec, Index};

fn handle(index: usize, generation: u32) -> Index {
    Index { index, generation }
}

#[test]
fn new_table_is_empty() {
    let table: GenVec<u8> = GenVec::new();
    assert!(table.is_empty());
    assert_eq!(table.len(), 0);
    assert_eq!(table.indexes(), Vec::<Index>::new());
    assert_eq!(table.get(handle(0, 0)), None);
}

#[test]
fn add_appends_slots_at_generation_zero() {
    let mut table = GenVec::new();
    assert_eq!(table.add("a"), handle(0, 0));
    assert_eq!(table.add("b"), handle(1, 0));
    assert_eq!(table.add("c"), handle(2, 0));
    assert_eq!(table.len(), 3);
    assert!(!table.is_empty());
    assert_eq!(table.get(handle(1, 0)), Some(&"b"));
}

#[test]
fn get_needs_the_exact_generation() {
    let mut table = GenVec::new();
    let a = table.add(10);
    assert_eq!(table.get(a), Some(&10));
    assert_eq!(table.get(handle(a.index, a.generation + 1)), None);
    assert_eq!(table.get(handle(a.index + 1, a.generation)), None);
    assert_eq!(table.get(handle(usize::MAX, 0)), None);
}

#[test]
fn remove_hands_back_the_value_and_bumps_the_generation() {
    let mut table = GenVec::new();
    let a = table.add(10);
    assert_eq!(table.remove(a), Some(10));
    assert_eq!(table.get(a), None);
    assert_eq!(table.remove(a), None);
    let b = table.add(20);
    assert_eq!(b, handle(0, 1));
    assert_eq!(table.get(a), None);
    assert_eq!(table.get(b), Some(&20));
}

#[test]
fn stale_handle_stays_stale_over_many_reuses() {
    let mut table = GenVec::new();
    let first = table.add(0u32);
    table.remove(first);
    let mut generation = 1;
    while generation < 50 {
        let next = table.add(generation);
        assert_eq!(next, handle(0, generation));
        assert_eq!(table.get(first), None);
        assert_eq!(table.remove(first), None);
        assert_eq!(table.remove(next), Some(generation));
        generation += 1;
    }
}

#[test]
fn freed_slots_are_reused_last_freed_first() {
    let mut table = GenVec::new();
    let a = table.add('a');
    let b = table.add('b');
    let c = table.add('c');
    table.remove(a);
    table.remove(b);
    assert_eq!(table.add('d'), handle(1, 1));
    assert_eq!(table.add('e'), handle(0, 1));
    assert_eq!(table.add('f'), handle(3, 0));
    assert_eq!(table.get(c), Some(&'c'));
    assert_eq!(table.len(), 4);
}

#[test]
fn get_mut_writes_through() {
    let mut table = GenVec::new();
    let a = table.add(1);
    let b = table.add(2);
    *table.get_mut(a).unwrap() = 7;
    assert_eq!(table.get(a), Some(&7));
    assert_eq!(table.get(b), Some(&2));
    assert!(table.get_mut(handle(0, 9)).is_none());
    assert!(table.get_mut(handle(9, 0)).is_none());
}

#[test]
fn listings_go_by_slot_and_skip_open_slots() {
    let mut table = GenVec::new();
    let a = table.add("a");
    let b = table.add("b");
    let c = table.add("c");
    table.remove(b);
    assert_eq!(table.indexes(), vec![a, c]);
    assert_eq!(table.iter(), vec![(a, &"a"), (c, &"c")]);
    assert_eq!(table.len(), 2);
    let d = table.add("d");
    assert_eq!(d, handle(1, 1));
    assert_eq!(table.indexes(), vec![a, d, c]);
    assert_eq!(table.iter(), vec![(a, &"a"), (d, &"d"), (c, &"c")]);
    assert_eq!(table.into_iter(), vec![(a, "a"), (d, "d"), (c, "c")]);
}

#[test]
fn clear_drops_entries_and_free_list() {
    let mut table = GenVec::new();
    let a = table.add(1);
    table.add(2);
    table.remove(a);
    table.clear();
    assert!(table.is_empty());
    assert_eq!(table.len(), 0);
    assert_eq!(table.add(3), handle(0, 0));
    assert_eq!(table.add(4), handle(1, 0));
}

#[test]
fn is_empty_with_open_slots_only() {
    let mut table = GenVec::new();
    let a = table.add(1);
    let b = table.add(2);
    table.remove(a);
    assert!(!table.is_empty());
    table.remove(b);
    assert!(table.is_empty());
    assert_eq!(table.len(), 0);
}

#[test]
fn from_entries_fills_gaps_with_open_slots() {
    let mut table = GenVec::from_entries(vec![(handle(3, 2), "d"), (handle(1, 5), "b")]);
    assert_eq!(table.len(), 2);
    assert_eq!(table.indexes(), vec![handle(1, 5), handle(3, 2)]);
    assert_eq!(table.get(handle(1, 5)), Some(&"b"));
    assert_eq!(table.get(handle(3, 2)), Some(&"d"));
    assert_eq!(table.get(handle(0, 0)), None);
    assert_eq!(table.get(handle(3, 0)), None);
    // The gaps are free, the highest first.
    assert_eq!(table.add("x"), handle(2, 0));
    assert_eq!(table.add("y"), handle(0, 0));
    assert_eq!(table.add("z"), handle(4, 0));
}

#[test]
fn from_entries_keeps_the_later_of_two_entries_for_a_slot() {
    let table = GenVec::from_entries(vec![(handle(0, 1), 'a'), (handle(0, 4), 'b')]);
    assert_eq!(table.len(), 1);
    assert_eq!(table.get(handle(0, 1)), None);
    assert_eq!(table.get(handle(0, 4)), Some(&'b'));
}

#[test]
fn from_entries_of_nothing_is_empty() {
    let mut table: GenVec<u8> = GenVec::from_entries(Vec::new());
    assert!(table.is_empty());
    assert_eq!(table.add(1), handle(0, 0));
}

#[test]
fn from_entries_round_trips_the_live_entries() {
    let mut table = GenVec::new();
    let a = table.add(1);
    let b = table.add(2);
    let c = table.add(3);
    table.remove(b);
    let again = GenVec::from_entries(table.into_iter());
    assert_eq!(again.iter(), vec![(a, &1), (c, &3)]);
    assert_eq!(again.get(b), None);
}

#[test]
fn element_accessors() {
    let occupied = Element::Occupied { value: 5, generation: 3 };
    let open: Element<i32> = Element::Open { generation: 4, next: Some(9) };
    assert_eq!(occupied.generation(), 3);
    assert_eq!(open.generation(), 4);
    assert_eq!(occupied.next_open(), None);
    assert_eq!(open.next_open(), Some(9));
    assert_eq!(occupied.as_occupied(), Some(5));
    assert_eq!(open.as_occupied(), None);
}

#[test]
fn index_getters() {
    let index = handle(7, 9);
    assert_eq!(index.index(), 7);
    assert_eq!(index.generation(), 9);
}

#[test]
fn iter_mut_reaches_every_live_value() {
    let mut table = GenVec::new();
    let a = table.add(1);
    let b = table.add(2);
    let c = table.add(3);
    table.remove(b);
    {
        let entries = table.iter_mut();
        assert_eq!(entries.len(), 2);
        assert_eq!(entries[0].0, a);
        assert_eq!(entries[1].0, c);
        for (_, value) in entries {
            *value *= 10;
        }
    }
    assert_eq!(table.iter(), vec![(a, &10), (c, &30)]);
    // The free list is as it was.
    assert_eq!(table.add(4), handle(1, 1));
}
