use onesubml::ordered_map::OrderedMap;
use onesubml::unwindmap::UnwindMap;

#[test]
fn unwind_restores_earlier_state() {
    let mut m: UnwindMap<u64, &str> = UnwindMap::new();
    m.insert(1, "a");
    let p = m.unwind_point();
    m.insert(1, "b");
    m.insert(2, "c");
    m.remove(&1);
    assert_eq!(m.get(&1), None);
    assert_eq!(m.get(&2), Some(&"c"));
    m.unwind(p);
    assert_eq!(m.get(&1), Some(&"a"));
    assert_eq!(m.get(&2), None);
}

#[test]
fn make_permanent_forgets_history() {
    let mut m: UnwindMap<u64, u64> = UnwindMap::new();
    let p = m.unwind_point();
    m.insert(3, 30);
    m.make_permanent();
    m.unwind(p);
    assert_eq!(m.get(&3), Some(&30));
}

#[test]
fn ordered_map_keeps_insertion_order() {
    let mut m: OrderedMap<u64, &str> = OrderedMap::new();
    assert_eq!(m.insert(5, "five"), None);
    assert_eq!(m.insert(1, "one"), None);
    assert_eq!(m.insert(5, "FIVE"), Some("five"));
    let items: Vec<(u64, &str)> = m.iter().into_iter().map(|(k, v)| (k, *v)).collect();
    assert_eq!(items, vec![(5, "FIVE"), (1, "one")]);
}

#[test]
fn ordered_map_entry_or_insert_with() {
    let mut m: OrderedMap<u64, Vec<u64>> = OrderedMap::new();
    m.entry_or_insert_with(2, Vec::new).push(1);
    m.entry_or_insert_with(2, Vec::new).push(2);
    m.entry_or_insert_with(7, Vec::new).push(3);
    assert_eq!(m.into_iter(), vec![(2, vec![1, 2]), (7, vec![3])]);
}

#[test]
fn ordered_map_retain() {
    let mut m: OrderedMap<u64, u64> = OrderedMap::new();
    for k in [4u64, 9, 2, 7] {
        m.insert(k, k * 10);
    }
    m.retain(|k| *k < 5);
    assert_eq!(m.into_iter(), vec![(4, 40), (2, 20)]);
}

#[test]
fn ordered_map_retain_reaches_unlisted_entries_and_drops_stale_keys() {
    let mut m: OrderedMap<u64, u64> = OrderedMap::new();
    m.insert(1, 10);
    m.insert(3, 30);
    m.m.insert(2, 20);
    m.m.remove(&3);
    m.retain(|k| *k != 1);
    assert!(m.m.contains_key(&2));
    assert!(!m.m.contains_key(&1));
    assert!(m.keys.is_empty());
}

#[test]
fn ordered_map_iter_skips_stale_keys() {
    let mut m: OrderedMap<u64, u64> = OrderedMap::new();
    m.insert(1, 10);
    m.insert(2, 20);
    m.m.remove(&1);
    let items: Vec<(u64, u64)> = m.iter().into_iter().map(|(k, v)| (k, *v)).collect();
    assert_eq!(items, vec![(2, 20)]);
}
