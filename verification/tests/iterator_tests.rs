use skiplist::SkipList;

#[test]
fn test_borrowed_iterator() {
    let mut skip_list = SkipList::new();

    for i in [3, 1, 4, 1, 5, 9, 2, 6] {
        skip_list.insert(i, i * 10);
    }

    // Test borrowed iterator
    let mut items = Vec::new();
    let mut it = skip_list.iter();
    while let Some((&k, &v)) = it.next() {
        items.push((k, v));
    }
    assert_eq!(items, vec![(1, 10), (2, 20), (3, 30), (4, 40), (5, 50), (6, 60), (9, 90)]);

    // Skip list should still be usable after borrowed iteration
    assert_eq!(skip_list.len(), 7);
    assert_eq!(skip_list.get(&3), Some(&30));
}

#[test]
fn test_consuming_iterator() {
    let mut skip_list = SkipList::new();

    for i in [3, 1, 4, 1, 5, 9, 2, 6] {
        skip_list.insert(i, i * 10);
    }

    // Test consuming iterator
    let mut items = Vec::new();
    let mut it = skip_list.into_iter();
    while let Some(kv) = it.next() {
        items.push(kv);
    }
    assert_eq!(items, vec![(1, 10), (2, 20), (3, 30), (4, 40), (5, 50), (6, 60), (9, 90)]);

    // skip_list is now consumed and cannot be used
}

#[test]
fn test_partial_consuming_iteration() {
    let mut skip_list = SkipList::new();

    for i in 1..=10 {
        skip_list.insert(i, i * 10);
    }

    let mut iter = skip_list.into_iter();

    // Take only first 3 items
    assert_eq!(iter.next(), Some((1, 10)));
    assert_eq!(iter.next(), Some((2, 20)));
    assert_eq!(iter.next(), Some((3, 30)));

    // Drop the iterator early - should properly clean up remaining items
    drop(iter);
}

#[test]
fn test_empty_iterator() {
    let skip_list: SkipList<i32> = SkipList::new();

    // Test borrowed iterator on empty list
    let mut it = skip_list.iter();
    assert_eq!(it.next(), None);

    // Test consuming iterator on empty list
    let mut items: Vec<(i64, i32)> = Vec::new();
    let mut into_it = skip_list.into_iter();
    while let Some(kv) = into_it.next() {
        items.push(kv);
    }
    assert_eq!(items, vec![]);
}

#[test]
fn test_iterator_size_hint() {
    let mut skip_list = SkipList::new();

    for i in 1..=5 {
        skip_list.insert(i, i);
    }

    // The walk has no size hint to offer, but we can check that it yields
    // the correct number of entries
    let mut iter = skip_list.iter();
    let mut count: usize = 0;
    while iter.next().is_some() {
        count += 1;
    }
    assert_eq!(count, 5);
}

#[test]
fn test_iterator_with_duplicate_keys() {
    let mut skip_list = SkipList::new();

    // Insert with duplicates (should replace values)
    skip_list.insert(1, 10);
    skip_list.insert(2, 20);
    skip_list.insert(1, 100); // Replaces the first value
    skip_list.insert(3, 30);

    let mut items = Vec::new();
    let mut it = skip_list.iter();
    while let Some((&k, &v)) = it.next() {
        items.push((k, v));
    }
    assert_eq!(items, vec![(1, 100), (2, 20), (3, 30)]);
}

#[test]
fn test_iterator_preserves_order() {
    let mut skip_list = SkipList::new();

    // Insert in reverse order
    for i in (1..=100).rev() {
        skip_list.insert(i, i * 2);
    }

    // Iterator should still return in sorted order
    let mut keys = Vec::new();
    let mut it = skip_list.iter();
    while let Some((&k, _)) = it.next() {
        keys.push(k);
    }
    let expected: Vec<i64> = (1..=100).collect();
    assert_eq!(keys, expected);
}
