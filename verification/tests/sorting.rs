use web_slinger::sorting::{arrange, sort_indices};

#[test]
fn sort_indices_orders_by_key() {
    assert_eq!(sort_indices(&vec![30, 10, 20]), vec![1, 2, 0]);
}

#[test]
fn sort_indices_of_nothing_is_empty() {
    assert_eq!(sort_indices(&vec![]), Vec::<usize>::new());
}

#[test]
fn sort_indices_of_one_key() {
    assert_eq!(sort_indices(&vec![-5]), vec![0]);
}

#[test]
fn sort_indices_keeps_equal_keys_in_place() {
    assert_eq!(sort_indices(&vec![2, 1, 2, 1, 2]), vec![1, 3, 0, 2, 4]);
}

#[test]
fn sort_indices_of_sorted_keys_is_identity() {
    assert_eq!(sort_indices(&vec![-3, -1, 0, 4, 9]), vec![0, 1, 2, 3, 4]);
}

#[test]
fn sort_indices_of_descending_keys_reverses() {
    assert_eq!(sort_indices(&vec![9, 4, 0, -1, -3]), vec![4, 3, 2, 1, 0]);
}

#[test]
fn sort_indices_handles_extreme_keys() {
    assert_eq!(sort_indices(&vec![i64::MAX, i64::MIN, 0]), vec![1, 2, 0]);
}

#[test]
fn sort_indices_lists_every_index_once() {
    let keys: Vec<i64> = (0..50).map(|i| (i * 37 % 11) as i64).collect();
    let order = sort_indices(&keys);
    let mut seen = vec![false; keys.len()];
    for &i in &order {
        assert!(!seen[i]);
        seen[i] = true;
    }
    assert!(seen.iter().all(|&s| s));
    for w in order.windows(2) {
        let (a, b) = (w[0], w[1]);
        assert!(keys[a] < keys[b] || (keys[a] == keys[b] && a < b));
    }
}

#[test]
fn arrange_picks_items_in_the_given_order() {
    let items = vec!['a', 'b', 'c'];
    assert_eq!(arrange(&items, &vec![2, 0, 1]), vec!['c', 'a', 'b']);
}

#[test]
fn arrange_may_pick_fewer_items_or_repeat_them() {
    let items = vec![10u8, 20, 30];
    assert_eq!(arrange(&items, &vec![1, 1]), vec![20, 20]);
    assert_eq!(arrange(&items, &vec![]), Vec::<u8>::new());
}

#[test]
fn arrange_by_sorted_indices_sorts_the_items() {
    let items = vec![("c", 3i64), ("a", 1), ("b", 2), ("a2", 1)];
    let keys: Vec<i64> = items.iter().map(|item| item.1).collect();
    let sorted = arrange(&items, &sort_indices(&keys));
    assert_eq!(sorted, vec![("a", 1), ("a2", 1), ("b", 2), ("c", 3)]);
}
