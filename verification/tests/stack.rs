use glance::stack::{newest, stacked, Layer};

#[test]
fn things_stack_in_the_order_they_were_made() {
    assert_eq!(stacked(&vec![]), [0usize; 0]);
    assert_eq!(stacked(&vec![7]), [0]);
    assert_eq!(stacked(&vec![1, 4, 6, 2, 3, 5]), [0, 3, 4, 1, 5, 2]);
    assert_eq!(stacked(&vec![9, 8, 7]), [2, 1, 0]);
    assert_eq!(stacked(&vec![2, 1, 2, 1]), [1, 3, 0, 2]);
}

#[test]
fn there_is_one_stack() {
    let made = vec![5u64, 3, 3, 9, 0, u64::MAX, 3];
    let mut sorted: Vec<usize> = (0..made.len()).collect();
    sorted.sort_by_key(|place| made[*place]);
    assert_eq!(stacked(&made), sorted);
}

#[test]
fn the_newest_is_taken_back_first() {
    assert_eq!(newest(None, None), None);
    assert_eq!(newest(Some(1), None), Some(Layer::Mark));
    assert_eq!(newest(None, Some(1)), Some(Layer::Text));
    assert_eq!(newest(Some(3), Some(2)), Some(Layer::Mark));
    assert_eq!(newest(Some(2), Some(3)), Some(Layer::Text));
}
