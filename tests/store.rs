use rent_vec::entry::Entry;
use rent_vec::store::SlotStore;

fn owned(s: &SlotStore<u32>, i: usize) -> Option<u32> {
    s.get(i).copied()
}

fn is_moved_to(s: &SlotStore<u32>, i: usize, to: usize) -> bool {
    matches!(s.slot(i), Some(Entry::Moved(t)) if *t == to)
}

fn is_empty(s: &SlotStore<u32>, i: usize) -> bool {
    matches!(s.slot(i), Some(Entry::Empty))
}

#[test]
fn push_appends_in_order() {
    let mut s = SlotStore::new();
    for k in 0..5u32 {
        assert_eq!(s.push(k * 10), k as usize);
    }
    assert_eq!(s.len(), 5);
    assert_eq!(s.tail(), 5);
    for k in 0..5usize {
        assert_eq!(owned(&s, k), Some(k as u32 * 10));
    }
}

#[test]
fn round_trip_without_removals() {
    let mut s = SlotStore::new();
    let ids: Vec<usize> = (0..100u32).map(|v| s.push(v + 1000)).collect();
    for (k, id) in ids.iter().enumerate() {
        assert_eq!(s.resolve(*id), *id);
        assert_eq!(owned(&s, *id), Some(k as u32 + 1000));
    }
    let mut sorted = ids.clone();
    sorted.dedup();
    assert_eq!(sorted.len(), 100);
}

#[test]
fn concrete_removal_relocates_last_value() {
    let mut s = SlotStore::new();
    for v in 10u32..20 {
        s.push(v);
    }
    assert_eq!(s.remove(3), Some(9));
    assert_eq!(owned(&s, 3), Some(19));
    assert!(is_moved_to(&s, 9, 3));
    assert_eq!(s.tail(), 9);
    assert_eq!(s.resolve(9), 3);
    assert_eq!(owned(&s, 3), Some(19));
    assert!(is_empty(&s, 9));
}

#[test]
fn removing_the_last_owned_slot_moves_nothing() {
    let mut s = SlotStore::new();
    for v in 0u32..3 {
        s.push(v);
    }
    assert_eq!(s.remove(2), None);
    assert!(is_empty(&s, 2));
    assert_eq!(s.tail(), 2);
}

#[test]
fn churn_keeps_other_values() {
    let mut s = SlotStore::new();
    let a = s.push(1u32);
    let b = s.push(2);
    let c = s.push(3);
    assert_eq!((a, b, c), (0, 1, 2));
    assert_eq!(s.remove(b), Some(2));
    let a2 = s.resolve(a);
    let c2 = s.resolve(c);
    assert_eq!(owned(&s, a2), Some(1));
    assert_eq!(owned(&s, c2), Some(3));
    assert_eq!(c2, 1);
}

#[test]
fn chain_of_two_redirects_collapses_in_one_resolution() {
    let mut s = SlotStore::new();
    for v in [1u32, 2, 3, 4, 5] {
        s.push(v);
    }
    // 5 moves from 4 to 1
    assert_eq!(s.remove(1), Some(4));
    assert_eq!(s.remove(3), None);
    assert_eq!(s.remove(2), None);
    // 5 moves again, from 1 to 0
    assert_eq!(s.remove(0), Some(1));
    assert!(is_moved_to(&s, 4, 1));
    assert!(is_moved_to(&s, 1, 0));
    assert_eq!(s.resolve(4), 0);
    assert_eq!(owned(&s, 0), Some(5));
    assert!(is_empty(&s, 4));
    assert!(is_empty(&s, 1));
}

#[test]
fn resolving_a_vacated_slot_finds_nothing() {
    let mut s = SlotStore::new();
    let a = s.push(7u32);
    assert_eq!(s.remove(a), None);
    assert_eq!(s.resolve(a), a);
    assert_eq!(owned(&s, a), None);
}

#[test]
fn push_skips_redirects_and_reuses_empty_slots() {
    let mut s = SlotStore::new();
    for v in 0u32..4 {
        s.push(v);
    }
    // [0, 3, 2, Moved(1)], tail 3
    assert_eq!(s.remove(1), Some(3));
    // [0, 3, Empty, Moved(1)], tail 2
    assert_eq!(s.remove(2), None);
    assert_eq!(s.tail(), 2);
    assert_eq!(s.push(9), 2);
    assert_eq!(s.tail(), 3);
    // only a redirect lies past the tail: append
    assert_eq!(s.push(10), 4);
    assert_eq!(s.len(), 5);
    assert_eq!(s.tail(), 5);
}

#[test]
fn remove_when_tail_is_loose() {
    let mut s = SlotStore::new();
    for v in 0u32..3 {
        s.push(v);
    }
    // [2, 1, Moved(0)], tail 2
    assert_eq!(s.remove(0), Some(2));
    // a push past the redirect raises the tail to 4
    assert_eq!(s.push(3), 3);
    // vacating index 3 leaves the redirect at the new tail - 1
    assert_eq!(s.remove(3), None);
    assert_eq!(s.tail(), 3);
    // removing 1 finds no owned slot above it
    assert_eq!(s.remove(1), None);
    assert!(is_empty(&s, 1));
    assert_eq!(s.tail(), 1);
    assert_eq!(owned(&s, 0), Some(2));
}

#[test]
fn shrink_drops_trailing_empty_slots() {
    let mut s = SlotStore::new();
    for v in 0u32..5 {
        s.push(v);
    }
    assert_eq!(s.remove(4), None);
    assert_eq!(s.remove(3), None);
    assert_eq!(s.remove(2), None);
    s.shrink();
    assert_eq!(s.len(), 2);
    assert_eq!(s.tail(), 2);
    assert_eq!(owned(&s, 0), Some(0));
    assert_eq!(owned(&s, 1), Some(1));
}

#[test]
fn shrink_stops_at_a_redirect() {
    let mut s = SlotStore::new();
    for v in 0u32..3 {
        s.push(v);
    }
    assert_eq!(s.remove(0), Some(2));
    s.shrink();
    assert_eq!(s.len(), 3);
    assert!(is_moved_to(&s, 2, 0));
}

#[test]
fn values_in_storage_order() {
    let mut s = SlotStore::new();
    for v in 10u32..15 {
        s.push(v);
    }
    s.remove(1);
    let vals: Vec<u32> = s.values().into_iter().copied().collect();
    assert_eq!(vals, vec![10, 14, 12, 13]);
}

#[test]
fn replace_swaps_the_value() {
    let mut s = SlotStore::new();
    let a = s.push(1u32);
    assert_eq!(s.replace(a, 5), 1);
    assert_eq!(owned(&s, a), Some(5));
}

#[test]
fn entry_owned_accessors() {
    let mut e = Entry::Owned(3u32);
    assert_eq!(e.owned(), Some(&3));
    if let Some(v) = e.owned_mut() {
        *v = 4;
    }
    assert_eq!(e.owned(), Some(&4));
    let mut m: Entry<u32> = Entry::Moved(2);
    assert_eq!(m.owned(), None);
    assert!(m.owned_mut().is_none());
    let z: Entry<u32> = Entry::Empty;
    assert_eq!(z.owned(), None);
}
