use layer_workspace::utils::{InsertResult, NtoN, Pair, UniqueValueMap};
use std::collections::HashSet;

#[test]
fn uniq_val_map() {
    let mut map: UniqueValueMap<String, usize> = UniqueValueMap::new();
    let x = map.insert("center".to_string(), 1);
    let y = map.insert("center".to_string(), 2);
    let z = map.insert("entry".to_string(), 2);
    assert_eq!(x, InsertResult::Created);
    assert_eq!(y, InsertResult::Updated(1));
    assert_eq!(z, InsertResult::Duplicated("center".to_string()));
    let data = map.data();
    assert_eq!(data.len(), 1);
    assert_eq!(data[0].0, "center".to_string());
    assert_eq!(data[0].1, 2);
}

#[test]
fn pair_creation() {
    let pair1 = Pair::new(1, 2);
    let pair2 = Pair::new(1, 2);
    let pair3 = Pair::new(2, 4);
    let pair4 = Pair::new(3, 4);
    let set = HashSet::from([pair1, pair2, pair3, pair4]);
    assert_eq!(
        set,
        HashSet::from([Pair::new(1, 2), Pair::new(2, 4), Pair::new(3, 4)])
    );
    assert_eq!(
        set.into_iter()
            .filter(|pair| pair.contains(&4))
            .collect::<Vec<_>>()
            .len(),
        2
    );
}

#[test]
fn id_registry_scenario() {
    let mut map: UniqueValueMap<usize, String> = UniqueValueMap::new();
    assert_eq!(map.insert(1, "a".to_string()), InsertResult::Created);
    assert_eq!(
        map.insert(1, "b".to_string()),
        InsertResult::Updated("a".to_string())
    );
    assert_eq!(map.insert(2, "b".to_string()), InsertResult::Duplicated(1));
    let data = map.data();
    assert_eq!(data.len(), 1);
    assert_eq!(data[0], (1, "b".to_string()));
}

#[test]
fn id_remove_releases_value() {
    let mut map: UniqueValueMap<usize, String> = UniqueValueMap::new();
    assert_eq!(map.insert(1, "a".to_string()), InsertResult::Created);
    assert_eq!(map.remove(&1), Some("a".to_string()));
    assert_eq!(map.remove(&1), None);
    assert_eq!(map.insert(2, "a".to_string()), InsertResult::Created);
}

#[test]
fn from_map_rejects_duplicates() {
    let ok = UniqueValueMap::from_map(vec![(1usize, "x".to_string()), (2, "y".to_string())]);
    assert!(ok.is_ok());
    let dup_values = vec![(1usize, "x".to_string()), (2, "x".to_string())];
    match UniqueValueMap::from_map(dup_values.clone()) {
        Err(returned) => assert_eq!(returned, dup_values),
        Ok(_) => panic!("duplicate values must be rejected"),
    }
    let dup_keys = vec![(1usize, "x".to_string()), (1, "y".to_string())];
    assert!(UniqueValueMap::from_map(dup_keys).is_err());
}

#[test]
fn pair_get_another() {
    let p = Pair::new(7, 3);
    assert_eq!(p.to_tuple(), (&3, &7));
    assert_eq!(p.get_another(&3), Some(&7));
    assert_eq!(p.get_another(&7), Some(&3));
    assert_eq!(p.get_another(&5), None);
    assert!(p.contains(&3));
    assert!(!p.contains(&5));
}

#[test]
fn relation_symmetry() {
    let mut reg: NtoN<usize, String> = NtoN::new();
    assert!(reg.insert(3, "x".to_string()));
    assert!(reg.get_left(&3).contains(&"x".to_string()));
    assert!(reg.get_right(&"x".to_string()).contains(&3));
    assert!(!reg.insert(3, "x".to_string()));
    assert!(reg.remove(&3, &"x".to_string()));
    assert!(!reg.remove(&3, &"x".to_string()));
    assert!(reg.get_left(&3).is_empty());
}

#[test]
fn tag_registry_scenario() {
    let mut reg: NtoN<usize, String> = NtoN::new();
    assert!(reg.insert(5, "red".to_string()));
    assert!(reg.insert(5, "blue".to_string()));
    assert!(reg.insert(1, "red".to_string()));
    reg.remove_left(&5);
    assert!(reg.get_left(&5).is_empty());
    assert_eq!(reg.get_left(&1), vec!["red".to_string()]);
    assert_eq!(reg.get_right(&"red".to_string()), vec![1usize]);
}

#[test]
fn remove_right_purges_class() {
    let mut reg: NtoN<usize, String> = NtoN::new();
    reg.insert(1, "red".to_string());
    reg.insert(2, "red".to_string());
    reg.insert(2, "blue".to_string());
    reg.remove_right(&"red".to_string());
    assert!(reg.get_right(&"red".to_string()).is_empty());
    assert_eq!(reg.get_left(&2), vec!["blue".to_string()]);
    assert_eq!(reg.data().len(), 1);
}
