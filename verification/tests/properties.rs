use hashmap::HashMap;

#[test]
fn get_after_insert_returns_value() {
    let mut m = HashMap::new();
    m.insert(7, "seven");
    assert_eq!(*m.get(7).unwrap(), "seven");
    m.insert(11, "eleven");
    assert_eq!(*m.get(11).unwrap(), "eleven");
    assert_eq!(*m.get(7).unwrap(), "seven");
    m.insert(7, "newer seven");
    assert_eq!(*m.get(7).unwrap(), "newer seven");
    assert_eq!(*m.get(11).unwrap(), "eleven");
}

#[test]
fn insert_returns_previous_value() {
    let mut m = HashMap::new();
    assert_eq!(m.insert(1, 42), None);
    assert_eq!(m.insert(1, 10), Some(42));
    assert_eq!(m.insert(1, 99), Some(10));
    assert_eq!(m.insert(2, 20), None);
}

#[test]
fn count_changes_only_for_new_keys() {
    let mut m = HashMap::new();
    m.insert(5u64, 50);
    assert_eq!(m.count(), 1);
    m.insert(5u64, 51);
    assert_eq!(m.count(), 1);
    m.insert(5u64, 52);
    assert_eq!(m.count(), 1);
    m.insert(6u64, 60);
    assert_eq!(m.count(), 2);
    m.insert(7u64, 70);
    assert_eq!(m.count(), 3);
}

#[test]
fn count_is_distinct_inserts_minus_removes() {
    let mut m = HashMap::new();
    let mut expected: usize = 0;
    for k in 0..20i32 {
        m.insert(k, k * 2);
        expected += 1;
        assert_eq!(m.count(), expected);
    }
    // re-inserting existing keys adds nothing
    m.insert(3, 0);
    m.insert(4, 0);
    assert_eq!(m.count(), expected);
    // successful removes subtract one each
    assert!(m.remove(3).is_some());
    assert!(m.remove(4).is_some());
    expected -= 2;
    assert_eq!(m.count(), expected);
    // an unsuccessful remove subtracts nothing
    assert!(m.remove(100).is_none());
    assert_eq!(m.count(), expected);
}

#[test]
fn capacity_is_power_of_two_and_nondecreasing() {
    let mut m = HashMap::new();
    assert_eq!(m.capacity(), 0);
    let mut prev: usize = 0;
    for k in 0..100u64 {
        m.insert(k, k);
        let cap = m.capacity();
        assert!(cap.is_power_of_two());
        assert!(cap >= prev);
        prev = cap;
    }
    // removal never shrinks
    for k in 0..100u64 {
        m.remove(k);
        assert_eq!(m.capacity(), prev);
    }
}

#[test]
fn growth_triggers_at_three_quarters() {
    let mut m = HashMap::new();
    // count before each insert, capacity expected after it: growth happens
    // exactly when count == 0 or count > 3 * capacity / 4
    let expected_caps: [usize; 9] = [1, 2, 4, 4, 8, 8, 8, 16, 16];
    for (i, cap) in expected_caps.iter().enumerate() {
        m.insert(i as u64, i);
        assert_eq!(m.capacity(), *cap);
        assert_eq!(m.count(), i + 1);
    }
}

#[test]
fn emptied_table_grows_on_next_insert() {
    let mut m = HashMap::new();
    m.insert(1, 10);
    assert_eq!(m.capacity(), 1);
    m.remove(1);
    assert_eq!(m.count(), 0);
    assert_eq!(m.capacity(), 1);
    // a table holding zero entries grows before inserting, even though the
    // load is far below three quarters
    m.insert(2, 20);
    assert_eq!(m.capacity(), 2);
    assert_eq!(m.count(), 1);
}

#[test]
fn rehash_loses_no_entries() {
    let mut m = HashMap::new();
    for k in 0..200i64 {
        m.insert(k, k + 1000);
    }
    assert!(m.capacity() >= 200);
    for k in 0..200i64 {
        assert_eq!(*m.get(k).unwrap(), k + 1000);
    }
    assert_eq!(m.get(200), None);
}

#[test]
fn remove_returns_removed_value() {
    let mut m = HashMap::new();
    m.insert(1, 42);
    m.insert(2, 20);
    assert_eq!(m.remove(1), Some(42));
    assert_eq!(m.remove(1), None);
    assert_eq!(m.remove(99), None);
    assert_eq!(m.remove(2), Some(20));
    assert_eq!(m.count(), 0);
}

#[test]
fn removed_key_reports_absent() {
    let mut m = HashMap::new();
    m.insert("a".to_string(), 1);
    m.insert("b".to_string(), 2);
    m.remove("a".to_string());
    assert_eq!(m.get("a".to_string()), None);
    assert_eq!(*m.get("b".to_string()).unwrap(), 2);
}

#[test]
fn removing_absent_key_changes_nothing() {
    let mut m = HashMap::new();
    m.insert(1, 10);
    m.insert(2, 20);
    let count = m.count();
    let cap = m.capacity();
    assert_eq!(m.remove(3), None);
    assert_eq!(m.count(), count);
    assert_eq!(m.capacity(), cap);
    assert_eq!(*m.get(1).unwrap(), 10);
    assert_eq!(*m.get(2).unwrap(), 20);
}

#[test]
fn fresh_table_reports_absence() {
    let mut m: HashMap<i32, i32> = HashMap::new();
    assert_eq!(m.get(0), None);
    assert_eq!(m.remove(0), None);
    assert_eq!(m.count(), 0);
    assert_eq!(m.capacity(), 0);
}

#[test]
fn string_and_int_keys_transition_alike() {
    let mut a = HashMap::new();
    let mut b = HashMap::new();
    let words = ["one", "two", "three", "four", "five", "six"];
    for (i, w) in words.iter().enumerate() {
        a.insert(i as i32, i);
        b.insert(w.to_string(), i);
        assert_eq!(a.count(), b.count());
        assert_eq!(a.capacity(), b.capacity());
    }
    a.remove(2);
    b.remove("three".to_string());
    assert_eq!(a.count(), b.count());
    assert_eq!(a.capacity(), b.capacity());
}

#[test]
fn negative_and_boundary_keys() {
    let mut m = HashMap::new();
    m.insert(i64::MIN, "low");
    m.insert(i64::MAX, "high");
    m.insert(-1i64, "minus one");
    m.insert(0i64, "zero");
    assert_eq!(*m.get(i64::MIN).unwrap(), "low");
    assert_eq!(*m.get(i64::MAX).unwrap(), "high");
    assert_eq!(*m.get(-1i64).unwrap(), "minus one");
    assert_eq!(*m.get(0i64).unwrap(), "zero");
    assert_eq!(m.get(1i64), None);
}

#[test]
fn assorted_integer_key_types() {
    let mut a = HashMap::new();
    a.insert(200u8, 1);
    assert_eq!(*a.get(200u8).unwrap(), 1);
    let mut b = HashMap::new();
    b.insert(-300i16, 2);
    assert_eq!(*b.get(-300i16).unwrap(), 2);
    assert_eq!(b.get(300i16), None);
    let mut c = HashMap::new();
    c.insert(70000u32, 3);
    assert_eq!(*c.get(70000u32).unwrap(), 3);
    let mut d = HashMap::new();
    d.insert(5usize, 4);
    d.insert(usize::MAX, 5);
    assert_eq!(*d.get(5usize).unwrap(), 4);
    assert_eq!(*d.get(usize::MAX).unwrap(), 5);
    let mut e = HashMap::new();
    e.insert(-9isize, 6);
    assert_eq!(*e.get(-9isize).unwrap(), 6);
    assert_eq!(e.get(9isize), None);
}

#[test]
fn str_keys_compare_by_contents() {
    let mut m = HashMap::new();
    let owned = String::from("alpha");
    m.insert(owned.as_str(), 1);
    // an equal string in different storage finds the same entry
    let other = String::from("alpha");
    assert_eq!(*m.get(other.as_str()).unwrap(), 1);
    assert_eq!(m.get("alphb"), None);
    assert_eq!(m.get("alph"), None);
    // non-ASCII contents hash and compare by their characters too
    let mut u = HashMap::new();
    u.insert("käse", 7);
    assert_eq!(*u.get("käse").unwrap(), 7);
    assert_eq!(u.get("kase"), None);
}
