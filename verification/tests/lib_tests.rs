use skiplist::SkipList;

#[test]
fn test_basic_skiplist_operations() {
    let mut skip_list = SkipList::new();

    assert_eq!(skip_list.len(), 0);
    assert!(skip_list.is_empty());

    // Test insertion
    assert_eq!(skip_list.insert(5, "five"), None);
    assert_eq!(skip_list.len(), 1);
    assert!(!skip_list.is_empty());

    // Test retrieval
    assert_eq!(skip_list.get(&5), Some(&"five"));
    assert_eq!(skip_list.get(&3), None);

    // Test replacement
    assert_eq!(skip_list.insert(5, "FIVE"), Some("five"));
    assert_eq!(skip_list.len(), 1);
    assert_eq!(skip_list.get(&5), Some(&"FIVE"));

    // Test removal
    assert_eq!(skip_list.remove(&5), Some("FIVE"));
    assert_eq!(skip_list.len(), 0);
    assert!(skip_list.is_empty());
    assert_eq!(skip_list.get(&5), None);
}

#[test]
fn test_ordering_property() {
    let mut skip_list = SkipList::new();
    let keys = [3, 1, 4, 1, 5, 9, 2, 6, 5];

    for &key in &keys {
        skip_list.insert(key, key * 10);
    }

    // Collect keys from the iterator - should be in sorted order
    let mut result_keys = Vec::new();
    let mut it = skip_list.iter();
    while let Some((&k, _)) = it.next() {
        result_keys.push(k);
    }
    assert_eq!(result_keys, vec![1, 2, 3, 4, 5, 6, 9]);
}

#[test]
fn test_span_verification() {
    let mut skip_list = SkipList::new();

    // Test empty list
    assert!(skip_list.verify_spans());

    // Test with elements
    for i in [10, 5, 15, 3, 7, 12, 18] {
        skip_list.insert(i, i);
        assert!(skip_list.verify_spans(), "Span verification failed after inserting {}", i);
    }

    // Test after removals
    for i in [5, 15, 3] {
        skip_list.remove(&i);
        assert!(skip_list.verify_spans(), "Span verification failed after removing {}", i);
    }
}

#[test]
fn test_index_basic() {
    let mut skip_list = SkipList::new();

    // Test empty list
    assert_eq!(skip_list.index(0), None);

    // Test single element
    skip_list.insert(5, "five");
    assert_eq!(skip_list.index(0), Some((&5, &"five")));
    assert_eq!(skip_list.index(1), None);

    // Test multiple elements
    skip_list.insert(3, "three");
    skip_list.insert(7, "seven");
    skip_list.insert(1, "one");

    // Elements should be in sorted order by key
    assert_eq!(skip_list.index(0), Some((&1, &"one")));
    assert_eq!(skip_list.index(1), Some((&3, &"three")));
    assert_eq!(skip_list.index(2), Some((&5, &"five")));
    assert_eq!(skip_list.index(3), Some((&7, &"seven")));
    assert_eq!(skip_list.index(4), None);
}

#[test]
fn lib_test_index_mut() {
    let mut skip_list = SkipList::new();

    skip_list.insert(1, 10);
    skip_list.insert(2, 20);
    skip_list.insert(3, 30);

    // Test mutable access
    if let Some((key, value)) = skip_list.index_mut(1) {
        assert_eq!(*key, 2);
        *value = 200;
    }

    // Verify the change
    assert_eq!(skip_list.index(1), Some((&2, &200)));
    assert_eq!(skip_list.get(&2), Some(&200));
}

#[test]
fn lib_test_index_large_dataset() {
    let mut skip_list = SkipList::new();

    // Insert many elements
    let elements: Vec<i64> = (0..1000).collect();
    for &elem in &elements {
        skip_list.insert(elem, elem * 10);
    }

    // Test random indices
    for &i in &[0usize, 50, 100, 500, 999] {
        let result = skip_list.index(i);
        assert_eq!(result, Some((&elements[i], &(elements[i] * 10))));
    }

    // Test out of bounds
    assert_eq!(skip_list.index(1000), None);
    assert_eq!(skip_list.index(1500), None);
}

#[test]
fn lib_test_index_with_removals() {
    let mut skip_list = SkipList::new();

    // Insert elements 0..10
    for i in 0..10 {
        skip_list.insert(i, i * 10);
    }

    // Remove some elements [2, 4, 6, 8]
    for i in [2, 4, 6, 8] {
        skip_list.remove(&i);
    }

    // Remaining elements should be [0, 1, 3, 5, 7, 9]
    let expected = [0i64, 1, 3, 5, 7, 9];

    for (idx, &expected_key) in expected.iter().enumerate() {
        assert_eq!(skip_list.index(idx), Some((&expected_key, &(expected_key * 10))));
    }

    // Test out of bounds after removals
    assert_eq!(skip_list.index(6), None);
}

#[test]
fn test_index_random_insertions() {
    let mut skip_list = SkipList::new();

    // Insert in random order
    let mut keys = vec![15, 3, 8, 1, 12, 20, 5, 18, 9, 7];
    for &key in &keys {
        skip_list.insert(key, key);
    }

    // Sort keys to get expected order
    keys.sort();

    // Test that index returns elements in sorted order
    for (idx, &expected_key) in keys.iter().enumerate() {
        assert_eq!(skip_list.index(idx), Some((&expected_key, &expected_key)));
    }
}

#[test]
fn lib_test_index_consistency_with_iteration() {
    let mut skip_list = SkipList::new();

    // Insert random elements
    let elements = [42, 17, 8, 23, 4, 15, 31, 6, 19, 12];
    for &elem in &elements {
        skip_list.insert(elem, elem * 2);
    }

    // Collect via iteration
    let mut iterated = Vec::new();
    let mut it = skip_list.iter();
    while let Some((&k, &v)) = it.next() {
        iterated.push((k, v));
    }

    // Check that index method gives same results as iteration
    for (idx, &(expected_key, expected_value)) in iterated.iter().enumerate() {
        assert_eq!(skip_list.index(idx), Some((&expected_key, &expected_value)));
    }
}
