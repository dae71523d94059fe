use ssim::collections::{SparseSet, TryReserveError};

#[test]
fn test_sparse_set() {
    let n = 8;
    let mut set = SparseSet::new();

    fn to_letter(i: usize) -> char {
        (i + 97) as u8 as char
    }

    for i in 0..n {
        assert_eq!(None, set.insert_with(i as usize, to_letter(i)));
    }

    for i in 0..n {
        assert_eq!(&to_letter(i), set.get(i).unwrap());
    }

    for i in 0..n {
        assert_eq!(to_letter(i), set.remove(i).unwrap());

        for j in (i + 1)..n {
            assert_eq!(&to_letter(j), set.get(j).unwrap());
        }
    }
}

#[test]
fn latest_insert_wins_over_a_history() {
    let mut set: SparseSet<u32> = SparseSet::new();
    assert_eq!(set.insert_with(3, 30), None);
    assert_eq!(set.insert_with(5, 50), None);
    assert_eq!(set.insert_with(3, 31), Some(30));
    assert_eq!(set.remove(5), Some(50));
    assert_eq!(set.insert_with(9, 90), None);
    assert_eq!(set.remove(9), Some(90));
    assert_eq!(set.insert_with(9, 91), None);
    assert_eq!(set.get(3), Some(&31));
    assert_eq!(set.get(5), None);
    assert_eq!(set.get(9), Some(&91));
    assert_eq!(set.get(7), None);
    assert_eq!(set.len(), 2);
    assert!(set.contains(3));
    assert!(!set.contains(5));
}

#[test]
fn insert_then_remove_round_trip() {
    let mut set: SparseSet<&str> = SparseSet::new();
    set.insert_with(1, "one");
    assert_eq!(set.insert_with(4, "four"), None);
    assert_eq!(set.remove(4), Some("four"));
    assert_eq!(set.get(4), None);
    assert_eq!(set.remove(4), None);
    assert_eq!(set.get(1), Some(&"one"));
    assert_eq!(set.len(), 1);
}

#[test]
fn insert_takes_the_smallest_free_key() {
    let mut set: SparseSet<char> = SparseSet::new();
    assert_eq!(set.next_key(), 0);
    assert_eq!(set.insert('a'), 0);
    assert_eq!(set.insert('b'), 1);
    assert_eq!(set.insert('c'), 2);
    assert_eq!(set.remove(1), Some('b'));
    assert_eq!(set.next_key(), 1);
    assert_eq!(set.insert('d'), 1);
    assert_eq!(set.insert('e'), 3);
    assert_eq!(set.get(1), Some(&'d'));
    assert_eq!(set.len(), 4);
}

#[test]
fn removal_moves_the_last_slot() {
    let mut set: SparseSet<u8> = SparseSet::new();
    set.insert_with(10, 1);
    set.insert_with(20, 2);
    set.insert_with(30, 3);
    assert_eq!(set.as_slice(), &[1, 2, 3]);
    assert_eq!(set.remove(10), Some(1));
    assert_eq!(set.as_slice(), &[3, 2]);
    assert_eq!(set.get_key(0), Some(30));
    assert_eq!(set.get_key(1), Some(20));
    assert_eq!(set.get_key(2), None);
    assert_eq!(set.get(30), Some(&3));
}

#[test]
fn key_value_pairs_follow_dense_order() {
    let mut set: SparseSet<u8> = SparseSet::new();
    set.insert_with(4, 40);
    set.insert_with(2, 20);
    let mut it = set.kv_pairs();
    assert_eq!(it.next(), Some((4, &40)));
    assert_eq!(it.next(), Some((2, &20)));
    assert_eq!(it.next(), None);
    assert_eq!(set.get_kv_pair(1), Some((2, &20)));
    assert_eq!(set.get_kv_pair(2), None);
}

#[test]
fn growth_at_least_doubles() {
    let mut set: SparseSet<u8> = SparseSet::new();
    assert_eq!(set.capacity(), 0);
    set.insert_with(0, 0);
    assert_eq!(set.capacity(), 1);
    set.insert_with(1, 1);
    assert_eq!(set.capacity(), 2);
    set.insert_with(2, 2);
    assert_eq!(set.capacity(), 4);
    set.insert_with(100, 3);
    assert_eq!(set.capacity(), 101);
}

#[test]
fn get_mut_changes_one_value() {
    let mut set: SparseSet<u8> = SparseSet::new();
    set.insert_with(2, 5);
    set.insert_with(3, 6);
    *set.get_mut(2).unwrap() = 9;
    assert!(set.get_mut(7).is_none());
    assert_eq!(set.get(2), Some(&9));
    assert_eq!(set.get(3), Some(&6));
}

#[test]
fn reserve_grows_and_reports_overflow() {
    let mut set: SparseSet<u8> = SparseSet::new();
    set.insert_with(1, 7);
    assert_eq!(set.reserve(6).ok(), Some(8));
    assert_eq!(set.capacity(), 8);
    assert_eq!(set.get(1), Some(&7));
    assert!(matches!(set.reserve(usize::MAX), Err(TryReserveError::CapacityOverflow)));
    assert!(matches!(set.reserve(isize::MAX as usize), Err(TryReserveError::CapacityOverflow)));
    assert_eq!(set.capacity(), 8);
}

#[test]
fn reserve_reports_allocation_failure() {
    let mut set: SparseSet<u64> = SparseSet::new();
    set.insert_with(0, 1);
    let huge = (isize::MAX as usize) / 4;
    assert!(matches!(set.reserve(huge), Err(TryReserveError::AllocError)));
    assert_eq!(set.capacity(), 1);
    assert_eq!(set.get(0), Some(&1));
}

#[test]
fn clear_and_shrink() {
    let mut set: SparseSet<u8> = SparseSet::new();
    set.insert_with(3, 1);
    set.insert_with(9, 2);
    assert_eq!(set.remove(9), Some(2));
    set.shrink_to_fit();
    assert_eq!(set.capacity(), 4);
    assert_eq!(set.get(3), Some(&1));
    set.clear();
    assert!(set.is_empty());
    assert_eq!(set.get(3), None);
    assert_eq!(set.capacity(), 4);
    set.shrink_to_fit();
    assert_eq!(set.capacity(), 0);
    assert_eq!(set.next_key(), 0);
}

#[test]
fn empty_set() {
    let set: SparseSet<u8> = SparseSet::new();
    assert!(set.is_empty());
    assert_eq!(set.len(), 0);
    assert_eq!(set.get(0), None);
    assert_eq!(set.get(usize::MAX), None);
    assert!(!set.contains(12));
    assert_eq!(set.into_values(), Vec::<u8>::new());
}
