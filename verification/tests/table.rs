use hashmap::HashMap;

#[test]
fn insert() {
    // Create new HashMap
    let mut m = HashMap::new();
    // No item
    assert_eq!(m.count(), 0);
    assert_eq!(m.capacity(), 0);
    assert_eq!(m.get(100), None);
    // Insert
    m.insert(1, 42);
    assert_eq!(m.count(), 1);
    assert_eq!(m.capacity(), 1);
    assert_eq!(*m.get(1).unwrap(), 42);
    assert_eq!(m.get(100), None);
    // Insert another value with existing key
    m.insert(1, 10);
    assert_eq!(m.count(), 1);
    assert_eq!(m.capacity(), 2);
    assert_eq!(*m.get(1).unwrap(), 10);
    assert_eq!(m.get(100), None);
    // Insert another value with new key
    m.insert(2, 20);
    assert_eq!(m.count(), 2);
    assert_eq!(m.capacity(), 2);
    assert_eq!(*m.get(1).unwrap(), 10);
    assert_eq!(*m.get(2).unwrap(), 20);
    assert_eq!(m.get(100), None);
    // Insert another value with new key
    m.insert(3, 30);
    assert_eq!(m.count(), 3);
    assert_eq!(m.capacity(), 4);
    assert_eq!(*m.get(1).unwrap(), 10);
    assert_eq!(*m.get(2).unwrap(), 20);
    assert_eq!(*m.get(3).unwrap(), 30);
    assert_eq!(m.get(100), None);
    // Insert another value with new key
    m.insert(4, 40);
    assert_eq!(m.count(), 4);
    assert_eq!(m.capacity(), 4);
    assert_eq!(*m.get(1).unwrap(), 10);
    assert_eq!(*m.get(2).unwrap(), 20);
    assert_eq!(*m.get(3).unwrap(), 30);
    assert_eq!(*m.get(4).unwrap(), 40);
    assert_eq!(m.get(100), None);
    // Insert another value with new key
    m.insert(5, 50);
    assert_eq!(m.count(), 5);
    assert_eq!(m.capacity(), 8);
    assert_eq!(*m.get(1).unwrap(), 10);
    assert_eq!(*m.get(2).unwrap(), 20);
    assert_eq!(*m.get(3).unwrap(), 30);
    assert_eq!(*m.get(4).unwrap(), 40);
    assert_eq!(*m.get(5).unwrap(), 50);
    assert_eq!(m.get(100), None);
    // Remove value by key
    m.remove(3);
    assert_eq!(m.count(), 4);
    assert_eq!(m.capacity(), 8);
    assert_eq!(*m.get(1).unwrap(), 10);
    assert_eq!(*m.get(2).unwrap(), 20);
    assert_eq!(*m.get(4).unwrap(), 40);
    assert_eq!(*m.get(5).unwrap(), 50);
    assert_eq!(m.get(3), None);
    assert_eq!(m.get(100), None);

    let mut m = HashMap::new();
    assert_eq!(m.count(), 0);
    assert_eq!(m.capacity(), 0);
    assert_eq!(m.get("key100".to_string()), None);
    m.insert("key".to_string(), 42);
    assert_eq!(m.count(), 1);
    assert_eq!(m.capacity(), 1);
    assert_eq!(*m.get("key".to_string()).unwrap(), 42);
    assert_eq!(m.get("key100".to_string()), None);
    m.insert("key".to_string(), 10);
    assert_eq!(m.count(), 1);
    assert_eq!(m.capacity(), 2);
    assert_eq!(*m.get("key".to_string()).unwrap(), 10);
    assert_eq!(m.get("key100".to_string()), None);
    m.insert("key2".to_string(), 20);
    assert_eq!(m.count(), 2);
    assert_eq!(m.capacity(), 2);
    assert_eq!(*m.get("key".to_string()).unwrap(), 10);
    assert_eq!(*m.get("key2".to_string()).unwrap(), 20);
    assert_eq!(m.get("key100".to_string()), None);
    m.insert("key3".to_string(), 30);
    assert_eq!(m.count(), 3);
    assert_eq!(m.capacity(), 4);
    assert_eq!(*m.get("key".to_string()).unwrap(), 10);
    assert_eq!(*m.get("key2".to_string()).unwrap(), 20);
    assert_eq!(*m.get("key3".to_string()).unwrap(), 30);
    assert_eq!(m.get("key100".to_string()), None);
    m.insert("key4".to_string(), 40);
    assert_eq!(m.count(), 4);
    assert_eq!(m.capacity(), 4);
    assert_eq!(*m.get("key".to_string()).unwrap(), 10);
    assert_eq!(*m.get("key2".to_string()).unwrap(), 20);
    assert_eq!(*m.get("key3".to_string()).unwrap(), 30);
    assert_eq!(*m.get("key4".to_string()).unwrap(), 40);
    assert_eq!(m.get("key100".to_string()), None);
    m.insert("key5".to_string(), 50);
    assert_eq!(m.count(), 5);
    assert_eq!(m.capacity(), 8);
    assert_eq!(*m.get("key".to_string()).unwrap(), 10);
    assert_eq!(*m.get("key2".to_string()).unwrap(), 20);
    assert_eq!(*m.get("key3".to_string()).unwrap(), 30);
    assert_eq!(*m.get("key4".to_string()).unwrap(), 40);
    assert_eq!(*m.get("key5".to_string()).unwrap(), 50);
    assert_eq!(m.get("key100".to_string()), None);
    m.remove("key3".to_string());
    assert_eq!(m.count(), 4);
    assert_eq!(m.capacity(), 8);
    assert_eq!(*m.get("key".to_string()).unwrap(), 10);
    assert_eq!(*m.get("key2".to_string()).unwrap(), 20);
    assert_eq!(*m.get("key4".to_string()).unwrap(), 40);
    assert_eq!(*m.get("key5".to_string()).unwrap(), 50);
    assert_eq!(m.get("key3".to_string()), None);
    assert_eq!(m.get("key100".to_string()), None);

    let mut m = HashMap::new();
    assert_eq!(m.count(), 0);
    assert_eq!(m.capacity(), 0);
    assert_eq!(m.get("key100"), None);
    m.insert("key", 42);
    assert_eq!(m.count(), 1);
    assert_eq!(m.capacity(), 1);
    assert_eq!(*m.get("key").unwrap(), 42);
    assert_eq!(m.get("key100"), None);
    m.insert("key", 10);
    assert_eq!(m.count(), 1);
    assert_eq!(m.capacity(), 2);
    assert_eq!(*m.get("key").unwrap(), 10);
    assert_eq!(m.get("key100"), None);
    m.insert("key2", 20);
    assert_eq!(m.count(), 2);
    assert_eq!(m.capacity(), 2);
    assert_eq!(*m.get("key").unwrap(), 10);
    assert_eq!(*m.get("key2").unwrap(), 20);
    assert_eq!(m.get("key100"), None);
    m.insert("key3", 30);
    assert_eq!(m.count(), 3);
    assert_eq!(m.capacity(), 4);
    assert_eq!(*m.get("key").unwrap(), 10);
    assert_eq!(*m.get("key2").unwrap(), 20);
    assert_eq!(*m.get("key3").unwrap(), 30);
    assert_eq!(m.get("key100"), None);
    m.insert("key4", 40);
    assert_eq!(m.count(), 4);
    assert_eq!(m.capacity(), 4);
    assert_eq!(*m.get("key").unwrap(), 10);
    assert_eq!(*m.get("key2").unwrap(), 20);
    assert_eq!(*m.get("key3").unwrap(), 30);
    assert_eq!(*m.get("key4").unwrap(), 40);
    assert_eq!(m.get("key100"), None);
    m.insert("key5", 50);
    assert_eq!(m.count(), 5);
    assert_eq!(m.capacity(), 8);
    assert_eq!(*m.get("key").unwrap(), 10);
    assert_eq!(*m.get("key2").unwrap(), 20);
    assert_eq!(*m.get("key3").unwrap(), 30);
    assert_eq!(*m.get("key4").unwrap(), 40);
    assert_eq!(*m.get("key5").unwrap(), 50);
    assert_eq!(m.get("key100"), None);
    m.remove("key3");
    assert_eq!(m.count(), 4);
    assert_eq!(m.capacity(), 8);
    assert_eq!(*m.get("key").unwrap(), 10);
    assert_eq!(*m.get("key2").unwrap(), 20);
    assert_eq!(*m.get("key4").unwrap(), 40);
    assert_eq!(*m.get("key5").unwrap(), 50);
    assert_eq!(m.get("key3"), None);
    assert_eq!(m.get("key100"), None);
}
