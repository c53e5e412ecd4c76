use skiplist_rs::Probability;
use skiplist_rs::SkipList;

#[test]
fn insertion_test() {
    let mut skiplist = SkipList::with_params(4, Probability::half());

    // Insert some key-value pairs
    assert_eq!(skiplist.insert(1, "one"), None);
    assert_eq!(skiplist.insert(3, "three"), None);
    assert_eq!(skiplist.insert(2, "two"), None);

    // Verify size
    assert_eq!(skiplist.len(), 3);

    // Verify all values can be retrieved
    assert_eq!(skiplist.get(&1), Some("one"));
    assert_eq!(skiplist.get(&2), Some("two"));
    assert_eq!(skiplist.get(&3), Some("three"));
}

#[test]
fn in_place_update_test() {
    let mut skiplist = SkipList::with_params(4, Probability::half());

    // Insert initial value
    assert_eq!(skiplist.insert(42, "initial"), None);
    assert_eq!(skiplist.len(), 1);

    // Update existing key - should return old value
    assert_eq!(skiplist.insert(42, "updated"), Some("initial"));
    assert_eq!(skiplist.len(), 1); // Size should remain the same

    // Verify the updated value
    assert_eq!(skiplist.get(&42), Some("updated"));
}

#[test]
fn get_test() {
    let mut skiplist = SkipList::with_params(4, Probability::half());

    // Insert values in non-sorted order
    skiplist.insert(10, "ten");
    skiplist.insert(5, "five");
    skiplist.insert(15, "fifteen");
    skiplist.insert(7, "seven");

    // Test getting existing values
    assert_eq!(skiplist.get(&5), Some("five"));
    assert_eq!(skiplist.get(&7), Some("seven"));
    assert_eq!(skiplist.get(&10), Some("ten"));
    assert_eq!(skiplist.get(&15), Some("fifteen"));
}

#[test]
fn missing_key_test() {
    let mut skiplist = SkipList::with_params(4, Probability::half());

    // Test getting from empty skiplist
    assert_eq!(skiplist.get(&1), None);

    // Insert some values
    skiplist.insert(2, "two");
    skiplist.insert(4, "four");
    skiplist.insert(6, "six");

    // Test getting non-existent keys
    assert_eq!(skiplist.get(&1), None); // Before range
    assert_eq!(skiplist.get(&3), None); // In middle
    assert_eq!(skiplist.get(&5), None); // In middle
    assert_eq!(skiplist.get(&7), None); // After range

    // Verify existing keys still work
    assert_eq!(skiplist.get(&2), Some("two"));
    assert_eq!(skiplist.get(&4), Some("four"));
    assert_eq!(skiplist.get(&6), Some("six"));
}
