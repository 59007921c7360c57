use skiplist::SkipList;
use std::collections::BTreeMap;
use std::rc::Rc;

fn collect<V: Clone>(skip_list: &SkipList<V>) -> Vec<(i64, V)> {
    let mut items = Vec::new();
    let mut it = skip_list.iter();
    while let Some((&k, v)) = it.next() {
        items.push((k, v.clone()));
    }
    items
}

#[test]
fn test_scenario_mixed_inserts() {
    let mut skip_list = SkipList::new();
    for (k, v) in [(3, 3), (1, 1), (2, 2), (10, 10), (-10, -10)] {
        skip_list.insert(k, v);
    }
    assert_eq!(collect(&skip_list), vec![(-10, -10), (1, 1), (2, 2), (3, 3), (10, 10)]);
}

#[test]
fn test_scenario_removals_to_empty() {
    let mut skip_list = SkipList::new();
    for (k, v) in [(3, 3), (1, 1), (2, 2), (10, 10), (-10, -10)] {
        skip_list.insert(k, v);
    }
    for k in [10, 2, -10, 3, 1] {
        assert_eq!(skip_list.remove(&k), Some(k));
        assert!(skip_list.verify_spans(), "inconsistent after removing {}", k);
    }
    assert_eq!(skip_list.len(), 0);
    assert_eq!(collect(&skip_list), vec![]);
}

#[test]
fn test_scenario_sequential_thousand() {
    let mut skip_list = SkipList::new();
    for k in 0..1000 {
        skip_list.insert(k, k * 10);
    }
    assert_eq!(skip_list.index(500), Some((&500, &5000)));
    assert_eq!(skip_list.index(1000), None);
}

#[test]
fn test_scenario_remove_evens() {
    let mut skip_list = SkipList::new();
    for k in 0..10 {
        skip_list.insert(k, k);
    }
    for k in [0, 2, 4, 6, 8] {
        skip_list.remove(&k);
    }
    assert_eq!(collect(&skip_list), vec![(1, 1), (3, 3), (5, 5), (7, 7), (9, 9)]);
    assert_eq!(skip_list.index(5), None);
}

#[test]
fn test_order_matches_reference_map() {
    let mut skip_list = SkipList::new();
    let mut reference = BTreeMap::new();
    let inserts = [13, 2, 99, 41, 2, 7, 55, 13, 0, -8, 21, 99];
    let removes = [2, 100, 41, -8, 13];
    for &k in &inserts {
        assert_eq!(skip_list.insert(k, k * 3), reference.insert(k, k * 3));
    }
    for &k in &removes {
        assert_eq!(skip_list.remove(&k), reference.remove(&k));
    }
    let expected: Vec<_> = reference.iter().map(|(&k, &v)| (k, v)).collect();
    assert_eq!(collect(&skip_list), expected);
}

#[test]
fn test_len_counts_distinct_keys() {
    let mut skip_list = SkipList::new();
    assert_eq!(skip_list.len(), 0);
    skip_list.insert(4, 1);
    skip_list.insert(8, 2);
    skip_list.insert(4, 3); // replacement: no new key
    assert_eq!(skip_list.len(), 2);
    skip_list.remove(&4);
    assert_eq!(skip_list.len(), 1);
    skip_list.remove(&4); // absent: no change
    assert_eq!(skip_list.len(), 1);
}

#[test]
fn test_replace_leaves_everything_else() {
    let mut skip_list = SkipList::new();
    for k in [6, 1, 9, 3] {
        skip_list.insert(k, k * 100);
    }
    let before = collect(&skip_list);
    assert_eq!(skip_list.insert(9, -1), Some(900));
    let after = collect(&skip_list);
    assert_eq!(after.len(), before.len());
    for (b, a) in before.iter().zip(after.iter()) {
        if b.0 == 9 {
            assert_eq!(*a, (9, -1));
        } else {
            assert_eq!(a, b);
        }
    }
}

#[test]
fn test_absent_key_and_out_of_range() {
    let mut skip_list = SkipList::new();
    skip_list.insert(5, "five");
    skip_list.insert(7, "seven");
    assert_eq!(skip_list.get(&6), None);
    assert_eq!(skip_list.remove(&6), None);
    assert_eq!(skip_list.len(), 2);
    assert_eq!(skip_list.index(2), None);
    assert_eq!(skip_list.index_mut(2), None);
    assert_eq!(skip_list.get_mut(&6), None);
}

#[test]
fn test_index_equals_iteration_everywhere() {
    let mut skip_list = SkipList::new();
    for k in [44, -3, 17, 29, 5, 61, -20] {
        skip_list.insert(k, k * 2);
    }
    let items = collect(&skip_list);
    for (p, &(k, v)) in items.iter().enumerate() {
        assert_eq!(skip_list.index(p), Some((&k, &v)));
    }
    assert_eq!(skip_list.index(items.len()), None);
}

#[test]
fn test_get_mut_writes_through() {
    let mut skip_list = SkipList::new();
    skip_list.insert(11, 110);
    skip_list.insert(22, 220);
    if let Some(v) = skip_list.get_mut(&11) {
        *v = -110;
    }
    assert_eq!(skip_list.get(&11), Some(&-110));
    assert_eq!(skip_list.get(&22), Some(&220));
    assert!(skip_list.verify_spans());
}

#[test]
fn test_partial_consumption_releases_rest() {
    // Canary values: each entry holds a handle to a shared counter, so a
    // leak or a double release would show in the reference counts.
    let canary = Rc::new(());
    let mut skip_list = SkipList::new();
    for k in 0..8 {
        skip_list.insert(k, Rc::clone(&canary));
    }
    assert_eq!(Rc::strong_count(&canary), 9);

    let mut iter = skip_list.into_iter();
    let first = iter.next();
    let second = iter.next();
    assert!(first.is_some() && second.is_some());
    drop(iter);
    drop(first);
    drop(second);

    // Every entry was released exactly once.
    assert_eq!(Rc::strong_count(&canary), 1);
}

#[test]
fn test_injected_levels_are_reproducible() {
    let mut a = SkipList::new();
    let mut b = SkipList::new();
    let levels = [0usize, 3, 1, 0, 2, 5, 0, 1];
    for (i, &lvl) in levels.iter().enumerate() {
        let k = (i as i64) * 7 % 5; // a few replacements
        a.insert_with_level(k, i, lvl);
        b.insert_with_level(k, i, lvl);
        assert!(a.verify_spans());
    }
    // The same injected draws give the same structure, level by level.
    assert_eq!(a.len(), b.len());
    assert_eq!(a.level_count(), b.level_count());
    for lvl in 0..a.level_count() {
        assert_eq!(a.level_chain(lvl), b.level_chain(lvl));
    }
    // And the contents never depend on the draws at all.
    let mut c = SkipList::new();
    for (i, _) in levels.iter().enumerate() {
        let k = (i as i64) * 7 % 5;
        c.insert(k, i);
    }
    let mut ia = a.iter();
    let mut ic = c.iter();
    loop {
        match (ia.next(), ic.next()) {
            (None, None) => break,
            (x, y) => assert_eq!(x, y),
        }
    }
}

#[test]
fn test_level_chain_structure() {
    let mut skip_list = SkipList::new();
    for k in 0..50 {
        skip_list.insert(k, k);
    }
    let levels = skip_list.level_count();
    assert!(levels >= 1);
    for lvl in 0..levels {
        let chain = skip_list.level_chain(lvl);
        let mut expect: usize = 0;
        let mut total: usize = 0;
        for &(src, span) in &chain {
            assert_eq!(src, expect);
            assert!(span >= 1);
            expect = src + span;
            total += span;
        }
        // Each level's spans sum to one past the number of entries.
        assert_eq!(total, skip_list.len() + 1);
    }
    // The level-0 chain passes every entry in turn.
    let chain0 = skip_list.level_chain(0);
    assert_eq!(chain0.len(), skip_list.len() + 1);
    assert!(chain0.iter().all(|&(_, span)| span == 1));
}

#[test]
fn test_extreme_keys() {
    let mut skip_list = SkipList::new();
    skip_list.insert(i64::MAX, "max");
    skip_list.insert(i64::MIN, "min");
    skip_list.insert(0, "zero");
    assert_eq!(
        collect(&skip_list),
        vec![(i64::MIN, "min"), (0, "zero"), (i64::MAX, "max")]
    );
    assert_eq!(skip_list.remove(&i64::MIN), Some("min"));
    assert_eq!(skip_list.get(&i64::MAX), Some(&"max"));
    assert!(skip_list.verify_spans());
}
