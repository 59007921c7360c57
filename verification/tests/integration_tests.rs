use skiplist::SkipList;
use std::collections::BTreeSet;

#[test]
fn test_ordering() {
    let mut skip_list = SkipList::new();
    let mut expected = BTreeSet::new();

    // Insert random order
    let keys = [5, 2, 8, 1, 7, 3, 9, 4, 6];
    for &key in &keys {
        skip_list.insert(key, key * 10);
        expected.insert((key, key * 10));
    }

    // Collect items using the borrowing walk
    let mut items = Vec::new();
    let mut it = skip_list.iter();
    while let Some((&k, &v)) = it.next() {
        items.push((k, v));
    }
    let expected_items: Vec<_> = expected.iter().map(|&(k, v)| (k, v)).collect();

    assert_eq!(items, expected_items);

    // Test that keys are in sorted order
    let keys_only: Vec<_> = items.iter().map(|&(k, _)| k).collect();
    let mut sorted_keys = keys_only.clone();
    sorted_keys.sort();
    assert_eq!(keys_only, sorted_keys);
}

#[test]
fn test_edge_cases() {
    let mut skip_list = SkipList::new();

    // Test empty skip list
    assert_eq!(skip_list.len(), 0);
    assert_eq!(skip_list.get(&1), None);
    assert_eq!(skip_list.remove(&1), None);

    // Test single element
    skip_list.insert(42, "answer");
    assert_eq!(skip_list.len(), 1);
    assert_eq!(skip_list.get(&42), Some(&"answer"));

    // Test removal of single element
    assert_eq!(skip_list.remove(&42), Some("answer"));
    assert_eq!(skip_list.len(), 0);
    assert_eq!(skip_list.get(&42), None);

    // Test duplicate insertions
    skip_list.insert(1, "one");
    skip_list.insert(1, "ONE");
    assert_eq!(skip_list.len(), 1);
    assert_eq!(skip_list.get(&1), Some(&"ONE"));
}

#[test]
fn test_large_dataset() {
    let mut skip_list = SkipList::new();
    let mut expected = BTreeSet::new();

    // Insert 1000 random elements
    for i in 0..1000 {
        let key = (i * 7) % 1000; // Creates some duplicates
        let old_val = skip_list.insert(key, key * 2);

        if expected.contains(&key) {
            assert!(old_val.is_some());
        } else {
            assert!(old_val.is_none());
        }
        expected.insert(key);
    }

    assert_eq!(skip_list.len(), expected.len());

    // Verify all elements are present and in order
    let mut skip_list_keys = Vec::new();
    let mut it = skip_list.iter();
    while let Some((&k, _)) = it.next() {
        skip_list_keys.push(k);
    }
    let expected_keys: Vec<_> = expected.iter().copied().collect();
    assert_eq!(skip_list_keys, expected_keys);

    // Remove half the elements
    let to_remove: Vec<_> = expected.iter().step_by(2).copied().collect();
    for key in &to_remove {
        assert_eq!(skip_list.remove(key), Some(key * 2));
        expected.remove(key);
    }

    assert_eq!(skip_list.len(), expected.len());

    // Verify remaining elements
    let mut remaining_keys = Vec::new();
    let mut it2 = skip_list.iter();
    while let Some((&k, _)) = it2.next() {
        remaining_keys.push(k);
    }
    let expected_remaining: Vec<_> = expected.iter().copied().collect();
    assert_eq!(remaining_keys, expected_remaining);
}

#[test]
fn test_negative_numbers() {
    let mut skip_list = SkipList::new();

    let numbers = [-5i64, -1, 0, 3, -10, 7, -3];
    for &num in &numbers {
        skip_list.insert(num, num.abs());
    }

    // Should be in numerical order
    let mut keys = Vec::new();
    let mut it = skip_list.iter();
    while let Some((&k, _)) = it.next() {
        keys.push(k);
    }
    assert_eq!(keys, vec![-10, -5, -3, -1, 0, 3, 7]);
}
