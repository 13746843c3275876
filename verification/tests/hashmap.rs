use bump_allocator::hashmap::HashMap;

#[test]
fn new_map_is_empty() {
    let m: HashMap<u32> = HashMap::new();
    assert_eq!(m.len(), 0);
    let mut it = m.iter();
    assert!(it.next().is_none());
}

#[test]
fn insert_and_len() {
    let mut m: HashMap<&str> = HashMap::new();
    m.insert(1, "one");
    m.insert(2, "two");
    m.insert(3, "three");
    assert_eq!(m.len(), 3);
}

#[test]
fn insert_overwrites_existing_key() {
    let mut m: HashMap<u32> = HashMap::new();
    m.insert(7, 10);
    m.insert(7, 20);
    assert_eq!(m.len(), 1);
    let mut it = m.iter();
    let (k, v) = it.next().unwrap();
    assert_eq!(k, 7);
    assert_eq!(*v, 20);
    assert!(it.next().is_none());
}

#[test]
fn iter_yields_every_entry_once() {
    let mut m: HashMap<u64> = HashMap::new();
    for k in 0..40u64 {
        m.insert(k, k * k);
    }
    assert_eq!(m.len(), 40);
    let mut seen = vec![false; 40];
    let mut it = m.iter();
    let mut count = 0;
    while let Some((k, v)) = it.next() {
        assert!(k < 40);
        assert_eq!(*v, k * k);
        assert!(!seen[k as usize]);
        seen[k as usize] = true;
        count += 1;
    }
    assert_eq!(count, 40);
    assert!(seen.iter().all(|&s| s));
}

#[test]
fn growth_keeps_all_entries() {
    let mut m: HashMap<u64> = HashMap::new();
    for k in 0..1000u64 {
        m.insert(k * 7919, k);
    }
    assert_eq!(m.len(), 1000);
    let mut it = m.iter();
    let mut count = 0u64;
    while let Some((k, v)) = it.next() {
        assert_eq!(k, *v * 7919);
        count += 1;
    }
    assert_eq!(count, 1000);
}

#[test]
fn update_after_growth() {
    let mut m: HashMap<i64> = HashMap::new();
    for k in 0..100u64 {
        m.insert(k, -1);
    }
    for k in 0..100u64 {
        m.insert(k, k as i64);
    }
    assert_eq!(m.len(), 100);
    let mut it = m.iter();
    while let Some((k, v)) = it.next() {
        assert_eq!(k as i64, *v);
    }
}
