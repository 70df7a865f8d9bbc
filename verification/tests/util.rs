use treedeco::counter::Counter;
use treedeco::multimap::MultiMap;

#[test]
fn test_get() {
    let mut map: MultiMap<i32, i32> = MultiMap::new();
    map.insert(&1, 2);
    map.insert(&1, 3);
    map.insert(&2, 4);

    let r = map.get(&1).unwrap();
    assert_eq!(r.len(), 2);
    assert_eq!(r[0], 2);
    assert_eq!(r[1], 3);

    let r = map.get(&2).unwrap();
    assert_eq!(r.len(), 1);
    assert_eq!(r[0], 4);
}

#[test]
fn multimap_iter_keeps_order() {
    let mut map: MultiMap<i32, i32> = MultiMap::new();
    map.insert(&7, 1);
    map.insert(&3, 2);
    map.insert(&7, 3);
    let entries = map.iter();
    assert_eq!(entries.len(), 2);
    assert_eq!(entries[0].0, 7);
    assert_eq!(entries[0].1, vec![1, 3]);
    assert_eq!(entries[1].0, 3);
    assert_eq!(entries[1].1, vec![2]);
}

#[test]
fn counter_counts_per_key() {
    let mut counter = Counter::new();
    let log = "log".to_string();
    let txt = "txt".to_string();
    counter.inc(&log);
    counter.inc(&log);
    counter.inc(&txt);
    counter.dec(&txt);
    assert_eq!(counter.get(&log), Some(2));
    assert_eq!(counter.get(&txt), Some(0));
    assert_eq!(counter.get(&"missing".to_string()), None);

    let entries = counter.iter();
    assert_eq!(entries.len(), 2);
    assert_eq!(entries[0].0, "log");
    assert_eq!(entries[0].1, 2);
    assert_eq!(entries[1].0, "txt");
    assert_eq!(entries[1].1, 0);

    counter.clear();
    assert_eq!(counter.get(&log), None);
    assert_eq!(counter.iter().len(), 0);
}

#[test]
fn counter_dec_opens_negative_keys() {
    let mut counter = Counter::new();
    let key = "k".to_string();
    counter.dec(&key);
    assert_eq!(counter.get(&key), Some(-1));
}
