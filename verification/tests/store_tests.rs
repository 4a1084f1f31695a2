use miniredis::store::Store;

#[test]
fn test_get_on_empty_store_is_none() {
    let store = Store::new();
    assert_eq!(store.get(&b"mykey".to_vec()), None);
}

#[test]
fn test_set_then_get_returns_value() {
    let mut store = Store::new();
    store.set(b"mykey".to_vec(), b"hello".to_vec());
    assert_eq!(store.get(&b"mykey".to_vec()), Some(b"hello".to_vec()));
}

#[test]
fn test_second_set_of_same_key_wins_whole() {
    let mut store = Store::new();
    store.set(b"k".to_vec(), b"first".to_vec());
    store.set(b"k".to_vec(), b"second".to_vec());
    assert_eq!(store.get(&b"k".to_vec()), Some(b"second".to_vec()));
}

#[test]
fn test_keys_are_independent() {
    let mut store = Store::new();
    store.set(b"a".to_vec(), b"1".to_vec());
    store.set(b"b".to_vec(), b"2".to_vec());
    assert_eq!(store.get(&b"a".to_vec()), Some(b"1".to_vec()));
    assert_eq!(store.get(&b"b".to_vec()), Some(b"2".to_vec()));
}

#[test]
fn test_binary_keys_and_values() {
    let mut store = Store::new();
    store.set(b"a\r\nb".to_vec(), b"x\r\ny".to_vec());
    assert_eq!(store.get(&b"a\r\nb".to_vec()), Some(b"x\r\ny".to_vec()));
    assert_eq!(store.get(&b"a".to_vec()), None);
}
