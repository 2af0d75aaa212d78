use restaurant_api::kitchen::{Kitchen, KitchenError, WHEEL_LEN};

fn added(k: &mut Kitchen, table_no: u32, content: &str, now: u64, time_take: u32) -> u64 {
    let it = k
        .begin_add_timed(table_no, content.to_string(), now, time_take)
        .unwrap();
    k.finish_add(it.item_no).unwrap();
    it.item_no
}

#[test]
fn add_then_get_returns_content() {
    let mut k = Kitchen::new(60);
    for table_no in [1u32, 7, 100] {
        let it = k.begin_add(table_no, "noodles".to_string(), 1000).unwrap();
        assert!(k.get_item(table_no, it.item_no).is_err());
        k.finish_add(it.item_no).unwrap();
        let got = k.get_item(table_no, it.item_no).unwrap();
        assert_eq!(got.content, "noodles");
        assert_eq!(got.table_no, table_no);
        assert_eq!(got.create_at, 1000);
    }
}

#[test]
fn item_numbers_strictly_increase() {
    let mut k = Kitchen::new(60);
    let mut last = 0u64;
    for i in 0..30u32 {
        let it = k.begin_add(1 + i % 5, "rice".to_string(), 0).unwrap();
        assert!(it.item_no > last);
        last = it.item_no;
        if i % 3 == 0 {
            k.finish_add(it.item_no).unwrap();
        } else if i % 3 == 1 {
            assert!(k.abandon_add(it.item_no));
        }
        k.sweep();
    }
    assert_eq!(last, 30);
    assert_eq!(k.next_item_no(), 31);
}

#[test]
fn first_item_number_is_one() {
    let mut k = Kitchen::new(60);
    let it = k.begin_add_timed(3, "tea".to_string(), 5, 9).unwrap();
    assert_eq!(it.item_no, 1);
    assert_eq!(it.time_take, 9);
}

#[test]
fn invalid_tables_are_refused() {
    let mut k = Kitchen::new(60);
    assert_eq!(
        k.begin_add(0, "soup".to_string(), 0).err(),
        Some(KitchenError::InvalidTable)
    );
    assert_eq!(
        k.begin_add_timed(101, "soup".to_string(), 0, 6).err(),
        Some(KitchenError::InvalidTable)
    );
    assert_eq!(k.next_item_no(), 1);
    assert!(k.begin_add(1, "soup".to_string(), 0).is_ok());
    assert!(k.begin_add(100, "soup".to_string(), 0).is_ok());
}

#[test]
fn random_preparation_time_in_range() {
    let mut k = Kitchen::new(60);
    let mut seen_other_than_lowest = false;
    for _ in 0..200 {
        let it = k.begin_add(2, "dumplings".to_string(), 0).unwrap();
        assert!(it.time_take >= 5 && it.time_take < 15);
        if it.time_take != 5 {
            seen_other_than_lowest = true;
        }
        assert!(k.abandon_add(it.item_no));
    }
    assert!(seen_other_than_lowest);
}

#[test]
fn finish_unknown_item_is_not_found() {
    let mut k = Kitchen::new(60);
    assert_eq!(k.finish_add(1), Err(KitchenError::NotFound));
    let n = added(&mut k, 4, "fish", 0, 6);
    assert_eq!(k.finish_add(n), Err(KitchenError::NotFound));
    assert!(!k.abandon_add(n));
}

#[test]
fn removed_item_is_gone_and_never_cooked() {
    let mut k = Kitchen::new(60);
    let n = added(&mut k, 5, "salad", 0, 8);
    assert_eq!(k.remove_item(5, n, 60), Ok(()));
    assert_eq!(k.get_item(5, n).err(), Some(KitchenError::NotFound));
    assert_eq!(k.remove_item(5, n, 60), Err(KitchenError::NotFound));
    for _ in 0..(2 * WHEEL_LEN) {
        let cooked = k.sweep();
        assert!(!cooked.contains(&(5, n)));
    }
    assert!(k.get_item(5, n).is_err());
}

#[test]
fn remove_unknown_item_is_not_found() {
    let mut k = Kitchen::new(60);
    let n = added(&mut k, 5, "salad", 0, 8);
    assert_eq!(k.remove_item(6, n, 0), Err(KitchenError::NotFound));
    assert_eq!(k.remove_item(5, n + 1, 0), Err(KitchenError::NotFound));
    assert!(k.get_item(5, n).is_ok());
}

#[test]
fn too_late_to_cancel_keeps_item() {
    let mut k = Kitchen::new(60);
    let n = added(&mut k, 9, "steak", 1000, 7);
    // completion at 1000 + 7 * 60; the grace window starts at 1000 + 4 * 60
    assert_eq!(k.remove_item(9, n, 1241), Err(KitchenError::TooLateToCancel));
    let got = k.get_item(9, n).unwrap();
    assert_eq!(got.content, "steak");
    assert_eq!(k.list_table(9).len(), 1);
    assert_eq!(k.remove_item(9, n, 1240), Ok(()));
}

#[test]
fn grace_window_of_short_items() {
    let mut k = Kitchen::new(60);
    // two minutes to go: the window opened a minute before creation
    let n = added(&mut k, 9, "bread", 1000, 2);
    assert_eq!(k.remove_item(9, n, 941), Err(KitchenError::TooLateToCancel));
    assert_eq!(k.remove_item(9, n, 940), Ok(()));
    let m = added(&mut k, 9, "bread", 1000, 3);
    assert_eq!(k.remove_item(9, m, 1001), Err(KitchenError::TooLateToCancel));
    assert_eq!(k.remove_item(9, m, 1000), Ok(()));
}

#[test]
fn cooked_after_time_take_ticks() {
    let mut k = Kitchen::new(60);
    let n = added(&mut k, 2, "curry", 0, 12);
    for _ in 0..12 {
        assert!(k.sweep().is_empty());
        assert!(k.get_item(2, n).is_ok());
    }
    assert_eq!(k.sweep(), vec![(2, n)]);
    assert_eq!(k.get_item(2, n).err(), Some(KitchenError::NotFound));
    for _ in 0..WHEEL_LEN {
        assert!(k.sweep().is_empty());
    }
}

#[test]
fn wheel_twenty_cursor_three_time_seven() {
    let mut k = Kitchen::new(60);
    for _ in 0..3 {
        k.sweep();
    }
    assert_eq!(k.cursor(), 3);
    let it = k.begin_add_timed(11, "pie".to_string(), 0, 7).unwrap();
    let slot = k.finish_add(it.item_no).unwrap();
    assert_eq!(slot, 10);
    for _ in 0..7 {
        assert!(k.sweep().is_empty());
    }
    assert_eq!(k.cursor(), 10);
    assert_eq!(k.sweep(), vec![(11, it.item_no)]);
    assert_eq!(k.cursor(), 11);
    assert!(k.get_item(11, it.item_no).is_err());
}

#[test]
fn same_bucket_items_cooked_in_one_sweep() {
    for order in [false, true] {
        let mut k = Kitchen::new(60);
        let (a, b) = if order {
            let a = added(&mut k, 1, "tofu", 0, 6);
            k.sweep();
            let b = added(&mut k, 2, "eggs", 60, 5);
            (a, b)
        } else {
            k.sweep();
            let b = added(&mut k, 2, "eggs", 60, 5);
            let a = added(&mut k, 1, "tofu", 60, 5);
            (a, b)
        };
        let mut swept = Vec::new();
        for _ in 0..WHEEL_LEN {
            let cooked = k.sweep();
            if !cooked.is_empty() {
                swept.push(cooked);
            }
        }
        assert_eq!(swept.len(), 1);
        assert_eq!(swept[0].len(), 2);
        assert!(swept[0].contains(&(1, a)));
        assert!(swept[0].contains(&(2, b)));
    }
}

#[test]
fn canceled_and_live_items_share_a_bucket() {
    let mut k = Kitchen::new(60);
    let a = added(&mut k, 1, "tofu", 0, 6);
    let b = added(&mut k, 1, "eggs", 0, 6);
    assert_eq!(k.remove_item(1, a, 0), Ok(()));
    let mut all = Vec::new();
    for _ in 0..WHEEL_LEN {
        all.extend(k.sweep());
    }
    assert_eq!(all, vec![(1, b)]);
}

#[test]
fn time_take_wraps_around_wheel() {
    let mut k = Kitchen::new(60);
    let it = k.begin_add_timed(3, "stew".to_string(), 0, 25).unwrap();
    assert_eq!(k.finish_add(it.item_no), Ok(5));
    let n = added(&mut k, 3, "broth", 0, 20);
    let first = k.sweep();
    assert_eq!(first, vec![(3, n)]);
}

#[test]
fn list_table_shows_live_items_in_order() {
    let mut k = Kitchen::new(60);
    let a = added(&mut k, 4, "tea", 0, 9);
    let _other = added(&mut k, 5, "coffee", 0, 9);
    let b = added(&mut k, 4, "cake", 0, 9);
    let pending = k.begin_add_timed(4, "scone".to_string(), 0, 9).unwrap();
    let listed = k.list_table(4);
    assert_eq!(listed, vec![(a, "tea".to_string()), (b, "cake".to_string())]);
    k.finish_add(pending.item_no).unwrap();
    assert_eq!(k.remove_item(4, a, 0), Ok(()));
    let listed = k.list_table(4);
    assert_eq!(
        listed,
        vec![(b, "cake".to_string()), (pending.item_no, "scone".to_string())]
    );
    assert!(k.list_table(6).is_empty());
}
