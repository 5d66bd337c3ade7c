use transaction_log::skip_list::{DuplicateKey, SkipList};

#[test]
fn scenario_insert_iterate_find_pop_remove() {
    let mut list = SkipList::new_empty(16);
    assert!(list.insert(10, "a".to_string()).is_ok());
    assert!(list.insert(5, "b".to_string()).is_ok());
    assert!(list.insert(20, "c".to_string()).is_ok());
    let items = list.iterate();
    assert_eq!(
        items,
        vec![
            (5, "b".to_string()),
            (10, "a".to_string()),
            (20, "c".to_string()),
        ]
    );
    assert_eq!(list.find(10), Some("a".to_string()));
    assert_eq!(list.pop_front(), Some((5, "b".to_string())));
    assert_eq!(list.length(), 2);
    assert_eq!(list.remove(999), None);
}

#[test]
fn scenario_thousand_sequential_offsets() {
    let mut list = SkipList::new_empty(16);
    let mut i: u64 = 0;
    while i < 1000 {
        assert!(list.append(i, format!("cmd{}", i)).is_ok());
        i += 1;
    }
    assert_eq!(list.length(), 1000);

    // towers are drawn with a fair coin: the mean height approximates
    // 1 / (1 - 1/2) = 2
    let heights = list.tower_heights();
    assert_eq!(heights.len(), 1000);
    let mut total: u64 = 0;
    for h in &heights {
        total += *h as u64;
    }
    let avg = total as f64 / 1000.0;
    assert!(avg > 1.5 && avg < 2.5, "average tower height {}", avg);

    let mut k: u64 = 0;
    while k < 1000 {
        assert_eq!(list.find(k), Some(format!("cmd{}", k)));
        k += 1;
    }
    assert_eq!(list.find(1000), None);
}

#[test]
fn insert_then_find_round_trip() {
    let mut list = SkipList::new_empty(8);
    assert!(list.insert(42, "answer".to_string()).is_ok());
    assert_eq!(list.find(42), Some("answer".to_string()));
    assert!(list.insert(7, "seven".to_string()).is_ok());
    assert_eq!(list.find(7), Some("seven".to_string()));
    assert_eq!(list.find(42), Some("answer".to_string()));
}

#[test]
fn duplicate_offset_is_rejected() {
    let mut list = SkipList::new_empty(8);
    assert_eq!(list.insert(1, "x".to_string()), Ok(()));
    assert_eq!(list.insert(1, "y".to_string()), Err(DuplicateKey));
    // the first value stays retrievable, unchanged
    assert_eq!(list.find(1), Some("x".to_string()));
    assert_eq!(list.length(), 1);
}

#[test]
fn removing_an_absent_key_changes_nothing() {
    let mut list = SkipList::new_empty(8);
    assert_eq!(list.remove(3), None);
    assert_eq!(list.length(), 0);
    assert!(list.insert(3, "three".to_string()).is_ok());
    assert!(list.insert(9, "nine".to_string()).is_ok());
    assert_eq!(list.remove(4), None);
    assert_eq!(list.length(), 2);
    assert_eq!(list.find(3), Some("three".to_string()));
    assert_eq!(list.find(9), Some("nine".to_string()));
}

#[test]
fn remove_unsplices_at_every_level() {
    let mut list = SkipList::new_empty(8);
    let mut i: u64 = 0;
    while i < 100 {
        assert!(list.insert(i, format!("v{}", i)).is_ok());
        i += 1;
    }
    // take out every even offset, wherever its tower reaches
    let mut k: u64 = 0;
    while k < 100 {
        assert_eq!(list.remove(k), Some((k, format!("v{}", k))));
        k += 2;
    }
    assert_eq!(list.length(), 50);
    let items = list.iterate();
    assert_eq!(items.len(), 50);
    for (j, (off, cmd)) in items.iter().enumerate() {
        assert_eq!(*off, 2 * j as u64 + 1);
        assert_eq!(*cmd, format!("v{}", off));
    }
    assert_eq!(list.find(4), None);
    assert_eq!(list.find(5), Some("v5".to_string()));
}

#[test]
fn iteration_stays_sorted_under_mixed_updates() {
    let mut list = SkipList::new_empty(8);
    let offsets: Vec<u64> = vec![50, 10, 90, 30, 70, 20, 80, 40, 60, 100];
    for off in &offsets {
        assert!(list.insert(*off, format!("c{}", off)).is_ok());
    }
    assert_eq!(list.remove(30), Some((30, "c30".to_string())));
    assert_eq!(list.pop_front(), Some((10, "c10".to_string())));
    assert!(list.insert(35, "c35".to_string()).is_ok());
    let items = list.iterate();
    assert_eq!(items.len() as u64, list.length());
    for w in items.windows(2) {
        assert!(w[0].0 < w[1].0, "offsets out of order");
    }
}

#[test]
fn pop_front_empties_the_list_in_order() {
    let mut list = SkipList::new_empty(4);
    assert_eq!(list.pop_front(), None);
    assert!(list.insert(2, "b".to_string()).is_ok());
    assert!(list.insert(1, "a".to_string()).is_ok());
    assert!(list.insert(3, "c".to_string()).is_ok());
    assert_eq!(list.pop_front(), Some((1, "a".to_string())));
    assert_eq!(list.pop_front(), Some((2, "b".to_string())));
    assert_eq!(list.pop_front(), Some((3, "c".to_string())));
    assert_eq!(list.pop_front(), None);
    assert_eq!(list.length(), 0);
}

#[test]
fn single_level_ceiling_still_works() {
    let mut list = SkipList::new_empty(0);
    assert!(list.insert(8, "h".to_string()).is_ok());
    assert!(list.insert(4, "d".to_string()).is_ok());
    assert_eq!(list.find(4), Some("d".to_string()));
    assert_eq!(list.find(8), Some("h".to_string()));
    assert_eq!(list.remove(4), Some((4, "d".to_string())));
    assert_eq!(list.find(4), None);
    assert_eq!(list.length(), 1);
}

#[test]
fn find_on_empty_list_is_absent() {
    let list = SkipList::new_empty(16);
    assert_eq!(list.find(0), None);
    assert_eq!(list.length(), 0);
    assert_eq!(list.iterate(), vec![]);
}
