use optimism::collections::{KeyMap, KeySet};
use optimism::primitives::{Address, StorageKey, U256};

#[test]
fn a_set_keeps_the_order_of_its_members() {
    let mut set: KeySet<usize> = KeySet::new();
    assert!(set.is_empty());
    assert!(set.insert(4));
    assert!(set.insert(2));
    assert!(!set.insert(4));
    assert_eq!(set.len(), 2);
    assert_eq!((set.at(0), set.at(1)), (4, 2));
    let mut other: KeySet<usize> = KeySet::new();
    other.insert(2);
    other.insert(9);
    other.extend(&set);
    assert_eq!(other.len(), 3);
    assert!(other.contains(&4));
    assert!(other.remove(&2));
    assert!(!other.remove(&2));
    assert!(!other.contains(&2));
    assert_eq!(set.clone().len(), 2);
}

#[test]
fn a_map_holds_the_last_value_of_a_key() {
    let mut map: KeyMap<StorageKey, u8> = KeyMap::new();
    let key = (Address { hi: 1, lo: 2 }, U256::from_u64(3));
    let other = (Address { hi: 2, lo: 2 }, U256::from_u64(3));
    map.insert(key, 1);
    map.insert(key, 2);
    map.insert(other, 3);
    assert_eq!(map.len(), 2);
    assert_eq!(map.get(&key), Some(&2));
    assert_eq!(map.key_at(0), key);
    assert_eq!(*map.value_at(1), 3);
    assert!(map.contains_key(&other));
    assert_eq!(map.remove(&key), Some(2));
    assert_eq!(map.remove(&key), None);
    assert_eq!(map.pop(), Some((other, 3)));
    assert_eq!(map.pop(), None);
    map.insert(key, 7);
    map.clear();
    assert!(!map.contains_key(&key));
}
