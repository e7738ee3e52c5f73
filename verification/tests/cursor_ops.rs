use key_node_list::KeyNodeList;

#[test]
fn test_cursor_move() {
    let mut list = KeyNodeList::new();
    for i in 0..10u64 {
        list.push_front(i, (i * 2) as i64).unwrap();
    }
    let mut cur = list.cursor_back();
    assert_eq!(cur.key(), Some(0));
    cur.move_prev();
    assert_eq!(cur.key(), Some(1));
    assert_eq!(cur.next_key(), Some(0));
    cur.move_next();
    assert_eq!(cur.key(), Some(0));
    cur.move_next();
    assert_eq!(cur.key(), None);
    cur.move_next();
    assert_eq!(cur.key(), Some(9));
}

#[test]
fn test_cursor_insert_remove() {
    let mut list = KeyNodeList::new();
    for i in 0..10u64 {
        list.push_back(i * 10, (i * 10) as i64).unwrap();
    }
    let mut cur = list.cursor_front_mut();
    while cur.key() != Some(40) {
        cur.move_next();
    }
    cur.insert_before(37, 37i64).unwrap();
    cur.insert_before(38, 38i64).unwrap();
    cur.insert_before(39, 39i64).unwrap();
    cur.insert_after(42, 42i64).unwrap();
    cur.insert_after(41, 41i64).unwrap();
    for i in 0..3u64 {
        assert_eq!(
            cur.remove_current().map(|(k, n)| (k, n.into_value())),
            Some((40 + i, (40 + i) as i64))
        );
    }
    assert_eq!(cur.key(), Some(50));
    for i in 0..3u64 {
        cur.move_prev();
        assert_eq!(
            cur.remove_current().map(|(k, n)| (k, n.into_value())),
            Some((39 - i, (39 - i) as i64))
        );
    }
    assert_eq!(cur.prev_key(), Some(30));
}

#[test]
fn test_cursor_round_trip() {
    let mut list = KeyNodeList::new();
    for i in 1..=9u64 {
        list.push_back(i * 10, (i * 10) as i64).unwrap();
    }
    let mut cur = list.cursor_front_mut();
    while cur.key() != Some(40) {
        cur.move_next();
    }
    cur.insert_before(35, 35i64).unwrap();
    cur.insert_after(45, 45i64).unwrap();
    assert_eq!(cur.key(), Some(40));
    let list = cur.into_list();
    let mut keys = Vec::new();
    let mut it = list.keys();
    while let Some(k) = it.next() {
        keys.push(k);
    }
    assert_eq!(keys, vec![10, 20, 30, 35, 40, 45, 50, 60, 70, 80, 90]);
}

#[test]
fn test_pop_cursor_coupling() {
    let mut list = KeyNodeList::new();
    list.push_back(1, 10i64).unwrap();
    list.push_back(2, 20i64).unwrap();
    list.push_back(3, 30i64).unwrap();
    let mut cur = list.cursor_front_mut();
    assert_eq!(cur.key(), Some(1));
    let (k, n) = cur.pop_front().unwrap();
    assert_eq!((k, n.into_value()), (1, 10));
    assert_eq!(cur.key(), Some(2));
    assert_eq!(cur.front_key(), Some(2));
    let (k, n) = cur.pop_back().unwrap();
    assert_eq!((k, n.into_value()), (3, 30));
    assert_eq!(cur.key(), Some(2));
}

#[test]
fn test_pop_back_moves_cursor_to_null() {
    let mut list = KeyNodeList::new();
    list.push_back(1, 10i64).unwrap();
    list.push_back(2, 20i64).unwrap();
    let mut cur = list.cursor_back_mut();
    assert_eq!(cur.key(), Some(2));
    let (k, _) = cur.pop_back().unwrap();
    assert_eq!(k, 2);
    assert_eq!(cur.key(), None);
}

#[test]
fn test_null_boundary_cycling() {
    let mut list = KeyNodeList::new();
    list.push_back(1, 1i64).unwrap();
    list.push_back(2, 2i64).unwrap();
    list.push_back(3, 3i64).unwrap();
    let mut cur = list.cursor(99);
    assert_eq!(cur.key(), None);
    let expected = [Some(1), Some(2), Some(3), None, Some(1), Some(2), Some(3), None, Some(1)];
    for want in expected {
        cur.move_next();
        assert_eq!(cur.key(), want);
    }
}

#[test]
fn test_cursor_push_keeps_position() {
    let mut list = KeyNodeList::new();
    list.push_back(5, 50i64).unwrap();
    let mut cur = list.cursor_front_mut();
    cur.push_front(4, 40i64).unwrap();
    cur.push_back(6, 60i64).unwrap();
    assert_eq!(cur.key(), Some(5));
    assert_eq!(cur.front_key(), Some(4));
    assert_eq!(cur.back_key(), Some(6));
    assert_eq!(cur.prev_key(), Some(4));
    assert_eq!(cur.next_key(), Some(6));
}

#[test]
fn test_insert_at_null_position() {
    let list = KeyNodeList::new();
    let mut cur = list.cursor_mut(1);
    assert!(cur.is_null());
    cur.insert_after(2, 20i64).unwrap();
    cur.insert_after(1, 10i64).unwrap();
    cur.insert_before(3, 30i64).unwrap();
    assert!(cur.is_null());
    let list = cur.into_list();
    let mut pairs = Vec::new();
    let mut it = list.iter();
    while let Some((k, n)) = it.next() {
        pairs.push((k, *n.value()));
    }
    assert_eq!(pairs, vec![(1, 10), (2, 20), (3, 30)]);
}

#[test]
fn test_insert_key_relative() {
    let mut list = KeyNodeList::<()>::new();
    list.push_key_back(1).unwrap();
    list.push_key_back(4).unwrap();
    let mut cur = list.cursor_front_mut();
    cur.insert_key_after(2).unwrap();
    assert_eq!(cur.insert_key_after(2), Err(2));
    cur.move_next();
    cur.insert_key_after(3).unwrap();
    assert_eq!(cur.insert_key_before(4), Err(4));
    let list = cur.into_list();
    let mut keys = Vec::new();
    let mut it = list.keys();
    while let Some(k) = it.next() {
        keys.push(k);
    }
    assert_eq!(keys, vec![1, 2, 3, 4]);
}

#[test]
fn test_remove_current_at_null() {
    let mut list = KeyNodeList::new();
    list.push_back(1, 1i64).unwrap();
    let mut cur = list.cursor_mut(9);
    assert!(cur.remove_current().is_none());
    assert_eq!(cur.into_list().len(), 1);
}

#[test]
fn test_cursor_nodes_and_snapshot() {
    let mut list = KeyNodeList::new();
    list.push_back(1, 10i64).unwrap();
    list.push_back(2, 20i64).unwrap();
    let mut cur = list.cursor_front_mut();
    assert_eq!(cur.node().map(|n| *n.value()), Some(10));
    assert_eq!(cur.next_node().map(|n| *n.value()), Some(20));
    assert!(cur.prev_node().is_none());
    assert_eq!(cur.front_node().map(|n| *n.value()), Some(10));
    assert_eq!(cur.back_node().map(|n| *n.value()), Some(20));
    *cur.node_mut().unwrap().value_mut() = 11;
    *cur.front_node_mut().unwrap().value_mut() += 1;
    *cur.back_node_mut().unwrap().value_mut() = 21;
    let snap = cur.as_cursor();
    assert_eq!(snap.key(), Some(1));
    assert_eq!(snap.node().map(|n| *n.value()), Some(12));
    assert_eq!(snap.back_node().map(|n| *n.value()), Some(21));
    assert_eq!(snap.front_key(), Some(1));
    assert_eq!(snap.back_key(), Some(2));
}
