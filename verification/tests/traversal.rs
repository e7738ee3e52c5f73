use key_node_list::KeyNodeList;

#[test]
fn test_push_into_iter() {
    let mut list = KeyNodeList::new();
    for i in 0..10u64 {
        list.push_back(i, i as i64).unwrap();
    }
    let mut vec = Vec::new();
    let mut it = list.into_iter();
    while let Some(pair) = it.next() {
        vec.push(pair);
    }
    assert_eq!(vec.len(), 10);
    for (i, (k, n)) in vec.into_iter().enumerate() {
        assert_eq!(i as u64, k);
        assert_eq!(i as i64, n.into_value());
    }
}

#[test]
fn test_push_front_iter() {
    let mut list = KeyNodeList::new();
    for i in 0..10u64 {
        list.push_front(i, (i * 2) as i64).unwrap();
    }
    let mut i: u64 = 0;
    let mut it = list.iter();
    while let Some((k, n)) = it.next() {
        assert_eq!(9 - i, k);
        assert_eq!(((9 - i) * 2) as i64, *n.value());
        i += 1;
    }
    let mut i: u64 = 0;
    let mut keys = list.keys();
    while let Some(k) = keys.next() {
        assert_eq!(9 - i, k);
        i += 1;
    }
    let mut i: u64 = 0;
    let mut nodes = list.nodes();
    while let Some(n) = nodes.next() {
        assert_eq!(((9 - i) * 2) as i64, *n.value());
        i += 1;
    }
}

#[test]
fn test_into_iter_exhaustion() {
    let mut list = KeyNodeList::new();
    for i in 0..5u64 {
        list.push_back(i, (i * 3) as i64).unwrap();
    }
    let mut it = list.into_iter();
    let mut count = 0u64;
    while let Some((k, n)) = it.next() {
        assert_eq!(k, count);
        assert_eq!(n.into_value(), (count * 3) as i64);
        count += 1;
    }
    assert_eq!(count, 5);
    assert!(it.next().is_none());
    assert!(it.next().is_none());
}

#[test]
fn test_into_keys_and_nodes() {
    let mut list = KeyNodeList::new();
    list.push_back(1, 10i64).unwrap();
    list.push_back(2, 20i64).unwrap();
    let mut keys = list.into_keys();
    assert_eq!(keys.next(), Some(1));
    assert_eq!(keys.next(), Some(2));
    assert!(keys.next().is_none());
    let mut list = KeyNodeList::new();
    list.push_back(1, 10i64).unwrap();
    list.push_back(2, 20i64).unwrap();
    let mut nodes = list.into_nodes();
    assert_eq!(nodes.next().map(|n| n.into_value()), Some(10));
    assert_eq!(nodes.next().map(|n| n.into_value()), Some(20));
    assert!(nodes.next().is_none());
}

#[test]
fn test_iter_restarts_fresh() {
    let mut list = KeyNodeList::new();
    list.push_back(1, 1i64).unwrap();
    list.push_back(2, 2i64).unwrap();
    let mut first = list.iter();
    assert_eq!(first.next().map(|(k, _)| k), Some(1));
    assert_eq!(first.next().map(|(k, _)| k), Some(2));
    assert!(first.next().is_none());
    let mut second = list.iter();
    assert_eq!(second.next().map(|(k, _)| k), Some(1));
}

#[test]
fn test_value_node_accessors() {
    let mut node = key_node_list::ValueNode::new(41i64);
    assert_eq!(*node.value(), 41);
    *node.value_mut() += 1;
    assert_eq!(*node.value(), 42);
    assert_eq!(node.prev(), None);
    assert_eq!(node.next(), None);
    assert_eq!(node.into_value(), 42);
}
