use skiplist::SkipList;

#[test]
fn test_span_consistency_manual() {
    let mut skip_list = SkipList::new();

    // Insert some elements
    for i in [1, 3, 5, 7, 9] {
        skip_list.insert(i, i * 10);

        // Verify spans after each insertion
        assert!(skip_list.verify_spans(), "Span verification failed after inserting {}", i);
    }

    // Verify that the skip list maintains correct ordering
    let mut keys = Vec::new();
    let mut it = skip_list.iter();
    while let Some((&k, _)) = it.next() {
        keys.push(k);
    }
    assert_eq!(keys, vec![1, 3, 5, 7, 9]);

    // Remove middle element and verify ordering is maintained
    skip_list.remove(&5);

    // Verify spans after removal
    assert!(skip_list.verify_spans(), "Span verification failed after removing 5");

    let mut keys = Vec::new();
    let mut it = skip_list.iter();
    while let Some((&k, _)) = it.next() {
        keys.push(k);
    }
    assert_eq!(keys, vec![1, 3, 7, 9]);
}

#[test]
fn test_large_dataset_property() {
    let mut skip_list = SkipList::new();
    let mut expected_keys = Vec::new();

    // Insert 1000 elements
    for i in 0..1000 {
        let key = (i * 17) % 500; // Some duplicates
        skip_list.insert(key, key);
        if !expected_keys.contains(&key) {
            expected_keys.push(key);
        }

        // Verify spans periodically to avoid performance issues
        if i % 100 == 0 {
            assert!(
                skip_list.verify_spans(),
                "Span verification failed after inserting {} elements",
                i + 1
            );
        }
    }

    expected_keys.sort();

    let mut actual_keys = Vec::new();
    let mut it = skip_list.iter();
    while let Some((&k, _)) = it.next() {
        actual_keys.push(k);
    }
    assert_eq!(actual_keys, expected_keys);
    assert_eq!(skip_list.len(), expected_keys.len());

    // Final comprehensive span verification
    assert!(skip_list.verify_spans(), "Final span verification failed for large dataset");
}
