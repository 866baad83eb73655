use cowbump::recently_used_list::RecentlyUsedList;

#[test]
fn test() {
    let mut ru = RecentlyUsedList::default();
    ru.use_(4);
    ru.use_(8);
    assert_eq!(ru.most_recent(), Some(&8));
    ru.use_(4);
    assert_eq!(ru.most_recent(), Some(&4));
    assert_eq!(ru.len(), 2);
    for i in 0..10 {
        ru.use_(i);
    }
    assert_eq!(ru.len(), 7);
    assert_eq!(ru.most_recent(), Some(&9));
    let items: Vec<_> = ru.iter();
    assert_eq!(items[0], &9);
    assert_eq!(items[6], &3);
}

#[test]
fn empty_list_has_no_most_recent() {
    let ru: RecentlyUsedList<u64> = RecentlyUsedList::default();
    assert_eq!(ru.most_recent(), None);
    assert_eq!(ru.len(), 0);
    assert!(ru.iter().is_empty());
}

#[test]
fn reusing_an_item_moves_it_to_the_front_without_duplicating() {
    let mut ru = RecentlyUsedList::default();
    ru.use_(1u64);
    ru.use_(2);
    ru.use_(3);
    ru.use_(1);
    let items: Vec<u64> = ru.iter().into_iter().copied().collect();
    assert_eq!(items, vec![1, 3, 2]);
}

#[test]
fn oldest_item_drops_out_past_seven() {
    let mut ru = RecentlyUsedList::default();
    for i in 0..8u64 {
        ru.use_(i);
    }
    let items: Vec<u64> = ru.iter().into_iter().copied().collect();
    assert_eq!(items, vec![7, 6, 5, 4, 3, 2, 1]);
}
