use online_squares::bullets::remove_marked;

#[test]
fn removes_exactly_the_marked_items() {
    let mut items = vec!['a', 'b', 'c', 'd', 'e'];
    remove_marked(&mut items, &vec![false, true, true, false, true]);
    assert_eq!(items, vec!['a', 'd']);
}

#[test]
fn nothing_marked_keeps_everything() {
    let mut items = vec![1, 2, 3];
    remove_marked(&mut items, &vec![false, false, false]);
    assert_eq!(items, vec![1, 2, 3]);
    remove_marked(&mut items, &vec![true, true, true]);
    assert!(items.is_empty());
}
