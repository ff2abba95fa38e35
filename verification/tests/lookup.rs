use lazy_combinatorics::lookup::Lookup;

#[test]
fn lookup_groups_in_order() {
    let mut lookup: Lookup<u64, char> = Lookup::new();
    assert_eq!(lookup.len(), 0);
    lookup.insert(2, 'a');
    lookup.insert(1, 'b');
    lookup.insert(2, 'c');
    assert_eq!(lookup.len(), 2);
    assert_eq!(lookup.hash_map.get(&2), Some(&vec!['a', 'c']));
    assert_eq!(lookup.hash_map.get(&1), Some(&vec!['b']));
    assert_eq!(lookup.hash_map.get(&3), None);
}

#[test]
fn lookup_hands_out_groups_and_pairs() {
    let mut lookup: Lookup<u8, u32> = Lookup::new();
    assert_eq!(lookup.values().count(), 0);
    assert_eq!(lookup.iter().count(), 0);
    lookup.insert(7, 70);
    lookup.insert(9, 90);
    lookup.insert(7, 71);
    let mut groups: Vec<Vec<u32>> = lookup.values().cloned().collect();
    groups.sort();
    assert_eq!(groups, vec![vec![70, 71], vec![90]]);
    let mut pairs: Vec<(u8, Vec<u32>)> = lookup.iter().map(|(k, v)| (*k, v.clone())).collect();
    pairs.sort();
    assert_eq!(pairs, vec![(7, vec![70, 71]), (9, vec![90])]);
}

#[test]
fn lookup_from_pairs() {
    let lookup = Lookup::from_pairs(vec![(2u8, 'a'), (1, 'b'), (2, 'c'), (2, 'd')]);
    assert_eq!(lookup.len(), 2);
    assert_eq!(lookup.hash_map.get(&2), Some(&vec!['a', 'c', 'd']));
    assert_eq!(lookup.hash_map.get(&1), Some(&vec!['b']));
    let none: Lookup<u8, char> = Lookup::from_pairs(Vec::new());
    assert_eq!(none.len(), 0);
}
