use skiplist_rs::Probability;
use skiplist_rs::SkipList;

#[test]
fn scenario_small_map_ordered_traversal() {
    let mut skiplist = SkipList::with_params(4, Probability::half());
    skiplist.insert(5, "five");
    skiplist.insert(1, "one");
    skiplist.insert(3, "three");
    skiplist.insert(7, "seven");
    skiplist.insert(2, "two");

    assert_eq!(skiplist.get(&3), Some("three"));
    assert_eq!(skiplist.keys(), vec![1, 2, 3, 5, 7]);
}

#[test]
fn scenario_upsert_same_key() {
    let mut skiplist = SkipList::new();
    assert_eq!(skiplist.insert(1, "one"), None);
    assert_eq!(skiplist.insert(1, "ONE"), Some("one"));
    assert_eq!(skiplist.get(&1), Some("ONE"));
    assert_eq!(skiplist.len(), 1);
}

#[test]
fn scenario_empty_list() {
    let skiplist: SkipList<&str> = SkipList::new();
    assert_eq!(skiplist.len(), 0);
    assert!(skiplist.is_empty());
    assert_eq!(skiplist.get(&0), None);
    assert_eq!(skiplist.get(&12345), None);
    assert_eq!(skiplist.get(&u64::MAX), None);
}

#[test]
fn scenario_sequential_growth() {
    let mut skiplist = SkipList::with_params(4, Probability::half());
    for key in 0..1000 {
        assert_eq!(skiplist.insert(key, key * 10), None);
    }
    assert_eq!(skiplist.len(), 1000);
    assert!(skiplist.levels() > 4);
}

#[test]
fn scenario_disjoint_ranges() {
    // Four disjoint ranges of 1000 keys each, written in interleaved
    // order as an external write-serialization policy would produce.
    let mut skiplist = SkipList::new();
    for i in 0..1000u64 {
        for t in 0..4u64 {
            let key = t * 1000 + i;
            skiplist.insert(key, format!("val-{}", key));
        }
    }
    assert_eq!(skiplist.len(), 4000);
    for key in 0..4000u64 {
        assert_eq!(skiplist.get(&key), Some(format!("val-{}", key)));
    }
}

#[test]
fn keys_sorted_and_distinct_after_mixed_inserts() {
    let mut skiplist = SkipList::new();
    // keys inserted in a scrambled order, some of them twice
    let inserts = vec![13, 2, 99, 47, 2, 68, 5, 13, 71, 30, 99, 1, 84, 47, 55];
    for &k in &inserts {
        skiplist.insert(k, k + 1);
    }
    let keys = skiplist.keys();
    assert_eq!(keys.len(), skiplist.len());
    for w in keys.windows(2) {
        assert!(w[0] < w[1]);
    }
    for &k in &inserts {
        assert!(keys.contains(&k));
    }
}

#[test]
fn cardinality_counts_distinct_keys_only() {
    let mut skiplist = SkipList::new();
    for round in 0..3u64 {
        for key in 0..50u64 {
            skiplist.insert(key, round);
        }
    }
    assert_eq!(skiplist.len(), 50);
}

#[test]
fn level_count_never_decreases() {
    let mut skiplist = SkipList::with_params(1, Probability::half());
    let mut last = skiplist.levels();
    assert_eq!(last, 1);
    for key in 0..200 {
        skiplist.insert(key, ());
        let now = skiplist.levels();
        assert!(now >= last);
        last = now;
    }
    assert!(skiplist.levels() > 1);
}

#[test]
fn keys_of_empty_list() {
    let skiplist: SkipList<&str> = SkipList::new();
    assert_eq!(skiplist.keys(), Vec::<u64>::new());
}

#[test]
fn get_returns_latest_value() {
    let mut skiplist = SkipList::new();
    skiplist.insert(7, "first");
    skiplist.insert(7, "second");
    skiplist.insert(8, "other");
    skiplist.insert(7, "third");
    assert_eq!(skiplist.get(&7), Some("third"));
    assert_eq!(skiplist.get(&8), Some("other"));
    assert_eq!(skiplist.len(), 2);
}

#[test]
fn probability_rejects_degenerate_ratios() {
    assert!(Probability::new(0, 2).is_none()); // zero
    assert!(Probability::new(2, 2).is_none()); // one
    assert!(Probability::new(3, 2).is_none()); // above one
    assert!(Probability::new(1, 0).is_none()); // undefined
    let quarter = Probability::new(1, 4).expect("1/4 lies strictly between 0 and 1");
    assert_eq!(quarter.numerator(), 1);
    assert_eq!(quarter.denominator(), 4);
}

#[test]
fn quarter_probability_list_works() {
    let mut skiplist = SkipList::with_params(8, Probability::new(1, 4).unwrap());
    for key in 0..300u64 {
        skiplist.insert(2 * key, format!("v{}", key));
    }
    assert_eq!(skiplist.len(), 300);
    for key in 0..300u64 {
        assert_eq!(skiplist.get(&(2 * key)), Some(format!("v{}", key)));
        assert_eq!(skiplist.get(&(2 * key + 1)), None);
    }
}

#[test]
fn default_is_empty_with_four_levels() {
    let skiplist: SkipList<u64> = Default::default();
    assert!(skiplist.is_empty());
    assert_eq!(skiplist.levels(), 4);
}
