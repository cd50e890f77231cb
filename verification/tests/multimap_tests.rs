use muiz::multimap::MultiMap;

#[test]
fn insert_and_get() {
    let mut m: MultiMap<i32> = MultiMap::with_capacity(4);
    let prev = m.insert(String::from("a"), 10);
    assert!(prev.is_none());
    assert_eq!(m.get(&String::from("a")), Some(&10));
    assert!(m.contains_key(&String::from("a")));
    assert!(!m.contains_key(&String::from("b")));
    assert_eq!(m.keys_len(), 1);
    assert_eq!(m.data_len(), 1);
    assert_eq!(m.len(), 2);
    assert_eq!(m.unique_keys_count(), 1);
}

#[test]
fn indices_strictly_increase() {
    let mut m: MultiMap<i32> = MultiMap::with_capacity(0);
    let i0 = m.next_index();
    m.insert(String::from("a"), 1);
    let i1 = m.next_index();
    m.insert(String::from("b"), 2);
    let i2 = m.next_index();
    assert_ne!(i0, i1);
    assert_ne!(i1, i2);
    assert_ne!(i0, i2);
    assert_eq!(m.unique_keys_count(), 2);
}

#[test]
fn key_and_alias_are_exclusive() {
    let mut m: MultiMap<i32> = MultiMap::with_capacity(0);
    m.insert(String::from("base"), 7);
    m.alias(&String::from("base"), String::from("other"));
    // A canonical key is not an alias, an alias is not a canonical key,
    // and an unknown key is neither.
    assert!(m.is_key(&String::from("base")));
    assert!(!m.is_alias(&String::from("base")));
    assert!(m.is_alias(&String::from("other")));
    assert!(!m.is_key(&String::from("other")));
    assert!(!m.is_key(&String::from("unknown")));
    assert!(!m.is_alias(&String::from("unknown")));
}

#[test]
fn alias_resolves_in_one_hop() {
    let mut m: MultiMap<i32> = MultiMap::with_capacity(0);
    m.insert(String::from("base"), 42);
    let displaced = m.alias(&String::from("base"), String::from("nick"));
    assert!(displaced.is_none());
    assert_eq!(m.get(&String::from("nick")), Some(&42));
    assert_eq!(
        m.keys_get(&String::from("nick")),
        m.keys_get(&String::from("base"))
    );
    assert!(m.is_alias_of(&String::from("base"), &String::from("nick")));
}

#[test]
fn alias_on_alias_fails_unchanged() {
    let mut m: MultiMap<i32> = MultiMap::with_capacity(0);
    m.insert(String::from("base"), 1);
    m.alias(&String::from("base"), String::from("a"));
    // Aliasing through an alias must fail and leave the table unchanged:
    // alias chains never form.
    let r = m.alias(&String::from("a"), String::from("b"));
    assert!(r.is_none());
    assert!(!m.contains_key(&String::from("b")));
    assert!(m.is_key(&String::from("base")));
    assert!(m.is_alias(&String::from("a")));
    assert_eq!(m.keys_len(), 2);
    // Aliasing from an unknown base also fails without a change.
    let r2 = m.alias(&String::from("ghostly"), String::from("c"));
    assert!(r2.is_none());
    assert!(!m.contains_key(&String::from("c")));
}

#[test]
fn unalias_removes_exactly_the_aliases() {
    let mut m: MultiMap<i32> = MultiMap::with_capacity(0);
    m.insert(String::from("base"), 5);
    let idx = *m.keys_get(&String::from("base")).unwrap();
    m.alias(&String::from("base"), String::from("a"));
    m.alias(&String::from("base"), String::from("b"));
    let removed = m.unalias(&String::from("base"));
    let mut names: Vec<String> = removed;
    names.sort();
    assert_eq!(names, vec![String::from("a"), String::from("b")]);
    assert!(m.is_key(&String::from("base")));
    assert_eq!(m.keys_get(&String::from("base")), Some(&idx));
    assert_eq!(m.get(&String::from("base")), Some(&5));
    assert!(!m.contains_key(&String::from("a")));
    assert!(!m.contains_key(&String::from("b")));
}

#[test]
fn unalias_on_non_key_is_a_no_op() {
    let mut m: MultiMap<i32> = MultiMap::with_capacity(0);
    m.insert(String::from("base"), 5);
    m.alias(&String::from("base"), String::from("a"));
    let removed = m.unalias(&String::from("a"));
    assert!(removed.is_empty());
    assert!(m.contains_key(&String::from("a")));
    let removed2 = m.unalias(&String::from("nope"));
    assert!(removed2.is_empty());
    assert_eq!(m.keys_len(), 2);
}

#[test]
fn remove_cascades_only_from_canonical_keys() {
    let mut m: MultiMap<i32> = MultiMap::with_capacity(0);
    m.insert(String::from("base"), 9);
    m.alias(&String::from("base"), String::from("a"));
    // Removing an alias through `remove` does nothing.
    assert_eq!(m.remove(&String::from("a")), None);
    assert_eq!(m.get(&String::from("base")), Some(&9));
    // Removing the canonical key takes the slot with it.
    assert_eq!(m.remove(&String::from("base")), Some(9));
    assert!(!m.contains_key(&String::from("base")));
    // The alias is left dangling by design; it names an empty slot now.
    assert!(m.is_alias(&String::from("a")));
    assert_eq!(m.get(&String::from("a")), None);
}

#[test]
fn remove_alias_leaves_the_slot_intact() {
    let mut m: MultiMap<i32> = MultiMap::with_capacity(0);
    m.insert(String::from("base"), 3);
    m.alias(&String::from("base"), String::from("a"));
    m.remove_alias(&String::from("a"));
    assert!(!m.contains_key(&String::from("a")));
    assert_eq!(m.get(&String::from("base")), Some(&3));
    // remove_alias refuses canonical keys.
    m.remove_alias(&String::from("base"));
    assert!(m.is_key(&String::from("base")));
}

#[test]
fn replace_key_moves_the_binding() {
    let mut m: MultiMap<i32> = MultiMap::with_capacity(0);
    m.insert(String::from("old"), 8);
    let idx = *m.keys_get(&String::from("old")).unwrap();
    let displaced = m.replace_key(&String::from("old"), String::from("new"));
    assert!(displaced.is_none());
    assert!(!m.contains_key(&String::from("old")));
    assert_eq!(m.keys_get(&String::from("new")), Some(&idx));
    assert_eq!(m.get(&String::from("new")), Some(&8));
    // Replacing through an alias or an unknown key does nothing.
    assert!(m.replace_key(&String::from("missing"), String::from("x")).is_none());
    assert!(!m.contains_key(&String::from("x")));
}

#[test]
fn insert_data_needs_a_known_key() {
    let mut m: MultiMap<i32> = MultiMap::with_capacity(0);
    m.insert(String::from("k"), 1);
    assert_eq!(m.insert_data(String::from("k"), 2), Some(1));
    assert_eq!(m.get(&String::from("k")), Some(&2));
    assert_eq!(m.insert_data(String::from("unknown"), 3), None);
    assert!(!m.contains_key(&String::from("unknown")));
}

#[test]
fn drop_key_removes_any_binding() {
    let mut m: MultiMap<i32> = MultiMap::with_capacity(0);
    m.insert(String::from("base"), 4);
    m.alias(&String::from("base"), String::from("a"));
    assert!(m.drop_key(&String::from("a")).is_some());
    assert!(m.drop_key(&String::from("a")).is_none());
    assert!(m.drop_key(&String::from("base")).is_some());
    // The slot survives a key-only drop.
    assert_eq!(m.data_len(), 1);
}

#[test]
fn clear_and_emptiness() {
    let mut m: MultiMap<i32> = MultiMap::with_capacity(2);
    assert!(m.is_empty());
    m.insert(String::from("a"), 1);
    assert!(!m.is_empty());
    m.clear();
    assert!(m.is_empty());
    assert_eq!(m.unique_keys_count(), 0);
    assert_eq!(m.order(), 0);
}

#[test]
fn order_counts_distinct_slots() {
    let mut m: MultiMap<i32> = MultiMap::with_capacity(0);
    m.insert(String::from("a"), 1);
    m.insert(String::from("b"), 2);
    m.alias(&String::from("a"), String::from("a2"));
    assert_eq!(m.order(), 2);
    assert_eq!(m.keys_len(), 3);
}

#[test]
fn remove_index_empties_one_slot() {
    let mut m: MultiMap<i32> = MultiMap::with_capacity(0);
    m.insert(String::from("a"), 1);
    let idx = *m.keys_get(&String::from("a")).unwrap();
    assert!(m.contains_index(&idx));
    assert_eq!(m.remove_index(&idx), Some(1));
    assert!(!m.contains_index(&idx));
    assert_eq!(m.remove_index(&idx), None);
}

#[test]
fn keys_lists_every_binding() {
    let mut m: MultiMap<i32> = MultiMap::with_capacity(0);
    m.insert(String::from("a"), 1);
    m.alias(&String::from("a"), String::from("b"));
    let mut ks = m.keys();
    ks.sort();
    assert_eq!(ks, vec![String::from("a"), String::from("b")]);
}

#[test]
fn data_indices_lists_occupied_slots_in_order() {
    let mut m: MultiMap<i32> = MultiMap::with_capacity(0);
    m.insert(String::from("a"), 1);
    m.insert(String::from("b"), 2);
    let ia = *m.keys_get(&String::from("a")).unwrap();
    let ib = *m.keys_get(&String::from("b")).unwrap();
    assert_eq!(m.data_indices(), vec![ia, ib]);
    m.remove(&String::from("a"));
    assert_eq!(m.data_indices(), vec![ib]);
}

#[test]
fn keys_values_pairs_names_with_indices() {
    let mut m: MultiMap<i32> = MultiMap::with_capacity(0);
    m.insert(String::from("a"), 1);
    m.alias(&String::from("a"), String::from("b"));
    let idx = *m.keys_get(&String::from("a")).unwrap();
    let mut kv = m.keys_values();
    kv.sort_by(|x, y| x.0.cmp(&y.0));
    assert_eq!(kv.len(), 2);
    assert_eq!(kv[0], (String::from("a"), idx));
    assert_eq!(kv[1], (String::from("b"), idx));
}

#[test]
fn insert_key_rebinds_and_reports() {
    let mut m: MultiMap<i32> = MultiMap::with_capacity(0);
    m.insert(String::from("a"), 1);
    let idx = *m.keys_get(&String::from("a")).unwrap();
    let fresh = m.next_index();
    let prev = m.insert_key(String::from("a"), fresh);
    assert_eq!(prev, Some((idx, 1)));
    assert_eq!(m.keys_get(&String::from("a")), Some(&fresh));
}
