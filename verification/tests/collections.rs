use matchmaker::collections::{HiddenColumns, Selector};

#[test]
fn default_is_new_with_size_3() {
    assert_eq!(HiddenColumns::default(), HiddenColumns::new_with_size(3));
}

#[test]
fn resize_grows_and_truncates() {
    let mut hc = HiddenColumns::new_with_size(4);
    hc.set(1);
    hc.set(3);
    hc.pop();
    hc.set(3);

    hc.resize(2);
    assert_eq!(hc.mask_len(), 2);
    assert_eq!(hc.mask(), vec![false, true]);

    hc.resize(5);
    assert_eq!(hc.mask_len(), 5);
    assert_eq!(hc.mask(), vec![false, true, false, false, false]);
    // In-range hidden column survives a grow-truncate round trip.
    hc.resize(2);
    assert_eq!(hc.mask(), vec![false, true]);
}

#[test]
fn resize_noop_on_same_size() {
    let mut hc = HiddenColumns::new_with_size(3);
    hc.set(2);
    hc.resize(3);
    assert_eq!(hc.mask_len(), 3);
    assert_eq!(hc.mask(), vec![false, false, true]);
}

#[test]
fn resize_clamps_to_64() {
    let mut hc = HiddenColumns::new_with_size(1);
    hc.resize(100);
    assert_eq!(hc.mask_len(), 64);
}

#[test]
fn from_iter_builds_at_max_capacity() {
    let hc = HiddenColumns::from_iter(vec![0, 2, 63]).unwrap();
    assert_eq!(hc.mask_len(), 64);
    assert!(hc.contains(0));
    assert!(hc.contains(2));
    assert!(hc.contains(63));
    assert!(!hc.contains(1));
    assert_eq!(hc.visible_count(), 61);
}

#[test]
fn from_iter_preserves_push_order() {
    let mut hc = HiddenColumns::from_iter(vec![3, 1]).unwrap();
    assert_eq!(hc.pop(), Some(1));
    assert_eq!(hc.pop(), Some(3));
}

#[test]
fn from_iter_collect() {
    let hc = HiddenColumns::from_iter(vec![2, 5].into_iter().collect()).unwrap();
    assert!(hc.contains(2));
    assert!(hc.contains(5));
    assert_eq!(hc.mask_len(), 64);
}

#[test]
#[should_panic(expected = "out of range")]
fn from_iter_panics_on_index_64() {
    let _ = HiddenColumns::from_iter(vec![64]).expect("HiddenColumns index is out of range");
}

#[test]
#[should_panic(expected = "out of range")]
fn from_iter_panics_on_index_over_64() {
    let _ = HiddenColumns::from_iter(vec![1, 65]).expect("HiddenColumns index is out of range");
}

#[test]
fn pop_undoes_set() {
    let mut hc = HiddenColumns::new_with_size(5);
    hc.set(4);
    let before = hc.clone();
    hc.set(2);
    assert_eq!(hc.pop(), Some(2));
    assert_eq!(hc, before);
}

#[test]
fn set_twice_and_out_of_range_change_nothing() {
    let mut hc = HiddenColumns::new_with_size(3);
    hc.set(1);
    let once = hc.clone();
    hc.set(1);
    hc.set(7);
    assert_eq!(hc, once);
    assert_eq!(hc.iter(), vec![(0, false), (1, true), (2, false)]);
}

#[test]
fn unset_and_clear() {
    let mut hc = HiddenColumns::new_with_size(4);
    hc.set(0);
    hc.set(2);
    hc.set(3);
    hc.unset(2);
    assert_eq!(hc.mask(), vec![true, false, false, true]);
    assert_eq!(hc.pop(), Some(3));
    assert_eq!(hc.pop(), Some(0));
    assert_eq!(hc.pop(), None);
    hc.set(1);
    hc.clear();
    assert_eq!(hc.visible_count(), 4);
}

#[test]
fn gaps_skip_hidden_columns() {
    let mut hc = HiddenColumns::new_with_size(6);
    hc.set(1);
    hc.set(2);
    hc.set(5);
    assert_eq!(hc.next_gap(1), 3);
    assert_eq!(hc.next_gap(5), 6);
    assert_eq!(hc.prev_gap(3), Some(0));
    assert_eq!(hc.prev_gap(0), None);
    assert_eq!(hc.next_gap_wrapping(5), 0);
    assert_eq!(hc.prev_gap_wrapping(9), Some(4));
    assert_eq!(hc.nth_gap(0), 0);
    assert_eq!(hc.nth_gap(1), 3);
    assert_eq!(hc.nth_gap(2), 4);
    assert_eq!(hc.nth_gap(3), 6);
    assert_eq!(hc.gap_index(4), Some(2));
    assert_eq!(hc.gap_index(2), None);
    assert_eq!(hc.gap_index(8), Some(5));
    // nth_gap and gap_index are inverse on visible columns
    for x in [0usize, 3, 4, 6, 10] {
        assert_eq!(hc.nth_gap(hc.gap_index(x).unwrap()), x);
    }
}

#[test]
fn selector_cycles_a_group() {
    let mut s = Selector::new();
    s.insert(7);
    s.cycle_all_bg(&vec![1, 2]);
    assert_eq!(s.items(), vec![7, 1, 2]);
    s.cycle_all_bg(&vec![1, 2]);
    assert_eq!(s.len(), 0);
    // a group larger than the selection is added, not toggled off
    s.insert(1);
    s.cycle_all_bg(&vec![1, 1]);
    assert_eq!(s.items(), vec![1]);
}

#[test]
fn selector_insert_and_extend() {
    let mut s = Selector::new();
    assert!(s.insert(5));
    assert!(!s.insert(5));
    s.extend(&vec![3, 5, 4]);
    assert_eq!(s.items(), vec![5, 3, 4]);
    assert!(s.contains(4));
    assert!(!s.contains(9));
    s.clear();
    assert_eq!(s.items(), Vec::<u32>::new());
}

#[test]
fn pops_give_each_hidden_column_once_latest_first() {
    let mut hc = HiddenColumns::new_with_size(6);
    hc.set(3);
    hc.set(1);
    hc.set(5);
    hc.set(1);
    assert_eq!(hc.pop(), Some(5));
    assert_eq!(hc.pop(), Some(1));
    assert_eq!(hc.pop(), Some(3));
    assert_eq!(hc.pop(), None);
    assert_eq!(hc.mask_len(), 6);
    assert_eq!(hc.visible_count(), hc.mask_len());
}

#[test]
fn nth_gap_and_gap_index_are_inverse() {
    let mut hc = HiddenColumns::new_with_size(8);
    hc.set(1);
    hc.set(4);
    for k in 0..10usize {
        let x = hc.nth_gap(k);
        assert!(!hc.contains(x));
        assert_eq!(hc.gap_index(x), Some(k));
    }
    for x in [0usize, 2, 3, 5, 9] {
        assert_eq!(hc.nth_gap(hc.gap_index(x).unwrap()), x);
    }
    assert_eq!(hc.gap_index(4), None);
}
