use key_node_list::KeyNodeList;

#[test]
fn test_capacity() {
    let mut list = KeyNodeList::new();
    assert_eq!(list.front_key(), None);
    assert_eq!(list.back_key(), None);
    assert_eq!(list.len(), 0);
    assert!(list.is_empty());
    list.push_back(1, 1i64).unwrap();
    assert_eq!(list.front_key(), Some(1));
    assert_eq!(list.back_key(), Some(1));
    assert_eq!(list.len(), 1);
    assert!(!list.is_empty());
    list.push_back(2, 2i64).unwrap();
    assert_eq!(list.front_key(), Some(1));
    assert_eq!(list.back_key(), Some(2));
    assert_eq!(list.len(), 2);
    assert!(!list.is_empty());
    list.clear();
    assert_eq!(list.front_key(), None);
    assert_eq!(list.back_key(), None);
    assert_eq!(list.len(), 0);
    assert!(list.is_empty());
}

#[test]
fn test_push_pop() {
    let mut list = KeyNodeList::<i64>::new();
    assert!(list.pop_back().is_none());
    assert!(list.pop_front().is_none());
    for i in 0..10u64 {
        list.push_back(i, i as i64).unwrap();
    }
    let mut cur: i64 = 9;
    while let Some((k, n)) = list.pop_back() {
        assert_eq!(cur, k as i64);
        assert_eq!(cur, n.into_value());
        cur -= 1;
    }
    assert_eq!(cur, -1);
}

#[test]
fn test_from_eq() {
    let mut list1 = KeyNodeList::new();
    let mut list2 = KeyNodeList::new();
    let mut list3 = KeyNodeList::new();
    for (k, v) in [(1u64, 1i64), (2, 2), (3, 3)] {
        list1.push_back(k, v).unwrap();
    }
    for (k, v) in [(1u64, 1i64), (2, 2), (3, 3)] {
        list2.push_back(k, v).unwrap();
    }
    for (k, v) in [(1u64, 1i64), (2, 2), (3, 4)] {
        list3.push_back(k, v).unwrap();
    }
    assert!(list1 == list2);
    assert!(list1 != list3);
}

#[test]
fn test_with_map() {
    let map = std::collections::HashMap::new();
    let mut list = KeyNodeList::with_map(map);
    assert!(list.is_empty());
    list.push_back(7, "seven").unwrap();
    assert_eq!(list.len(), 1);
    assert_eq!(list.front_key(), Some(7));
}

#[test]
fn test_duplicate_rejection() {
    let mut list = KeyNodeList::new();
    list.push_back(1, 10i64).unwrap();
    list.push_back(2, 20i64).unwrap();
    assert_eq!(list.push_back(1, 99), Err((1, 99)));
    assert_eq!(list.push_front(2, 88), Err((2, 88)));
    let mut cur = list.cursor_front_mut();
    assert_eq!(cur.insert_after(1, 77), Err((1, 77)));
    assert_eq!(cur.insert_before(2, 66), Err((2, 66)));
    let list = cur.into_list();
    let mut it = list.iter();
    let first = it.next().map(|(k, n)| (k, *n.value()));
    let second = it.next().map(|(k, n)| (k, *n.value()));
    assert_eq!(first, Some((1, 10)));
    assert_eq!(second, Some((2, 20)));
    assert!(it.next().is_none());
}

#[test]
fn test_remove_relinks_neighbours() {
    let mut list = KeyNodeList::new();
    for i in 1..=5u64 {
        list.push_back(i, i as i64).unwrap();
    }
    assert!(list.remove(9).is_none());
    let (k, n) = list.remove(3).unwrap();
    assert_eq!(k, 3);
    assert_eq!(n.into_value(), 3);
    let mut keys = Vec::new();
    let mut it = list.keys();
    while let Some(k) = it.next() {
        keys.push(k);
    }
    assert_eq!(keys, vec![1, 2, 4, 5]);
    let (k, _) = list.remove(1).unwrap();
    assert_eq!(k, 1);
    assert_eq!(list.front_key(), Some(2));
    let (k, _) = list.remove(5).unwrap();
    assert_eq!(k, 5);
    assert_eq!(list.back_key(), Some(4));
}

#[test]
fn test_contains_and_node() {
    let mut list = KeyNodeList::new();
    list.push_back(4, 40i64).unwrap();
    list.push_back(5, 50i64).unwrap();
    assert!(list.contains_key(4));
    assert!(!list.contains_key(6));
    assert_eq!(list.node(4).map(|n| *n.value()), Some(40));
    assert!(list.node(6).is_none());
    assert_eq!(list.node(4).unwrap().next(), Some(5));
    assert_eq!(list.node(5).unwrap().prev(), Some(4));
    assert_eq!(list.front_node().map(|n| *n.value()), Some(40));
    assert_eq!(list.back_node().map(|n| *n.value()), Some(50));
}

#[test]
fn test_node_mut_updates_value() {
    let mut list = KeyNodeList::new();
    list.push_back(1, String::from("Reimu")).unwrap();
    list.push_back(2, String::from("Marisa")).unwrap();
    *list.node_mut(2).unwrap().value_mut() = String::from("Youmu");
    *list.front_node_mut().unwrap().value_mut() = String::from("Mokou");
    assert_eq!(list.node(2).map(|n| n.value().clone()), Some(String::from("Youmu")));
    assert_eq!(list.node(1).map(|n| n.value().clone()), Some(String::from("Mokou")));
    *list.back_node_mut().unwrap().value_mut() = String::from("Yuyuko");
    assert_eq!(list.node(2).map(|n| n.value().clone()), Some(String::from("Yuyuko")));
    assert_eq!(list.node(1).unwrap().next(), Some(2));
    assert_eq!(list.node(2).unwrap().prev(), Some(1));
}

#[test]
fn test_push_key_ends() {
    let mut list = KeyNodeList::<()>::new();
    list.push_key_back(2).unwrap();
    list.push_key_back(3).unwrap();
    list.push_key_front(1).unwrap();
    assert_eq!(list.push_key_back(2), Err(2));
    assert_eq!(list.push_key_front(3), Err(3));
    let mut keys = Vec::new();
    let mut it = list.keys();
    while let Some(k) = it.next() {
        keys.push(k);
    }
    assert_eq!(keys, vec![1, 2, 3]);
}

#[test]
fn test_ordering_fidelity() {
    let mut back = KeyNodeList::new();
    back.push_back(1, 11i64).unwrap();
    back.push_back(2, 22i64).unwrap();
    back.push_back(3, 33i64).unwrap();
    let mut pairs = Vec::new();
    let mut it = back.iter();
    while let Some((k, n)) = it.next() {
        pairs.push((k, *n.value()));
    }
    assert_eq!(pairs, vec![(1, 11), (2, 22), (3, 33)]);
    let mut front = KeyNodeList::new();
    front.push_front(1, 11i64).unwrap();
    front.push_front(2, 22i64).unwrap();
    front.push_front(3, 33i64).unwrap();
    let mut pairs = Vec::new();
    let mut it = front.iter();
    while let Some((k, n)) = it.next() {
        pairs.push((k, *n.value()));
    }
    assert_eq!(pairs, vec![(3, 33), (2, 22), (1, 11)]);
}
