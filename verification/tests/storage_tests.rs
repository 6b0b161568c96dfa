use kvs::Kvpair;
use kvs::MemTable;
use kvs::Storage;
use kvs::Value;

fn test_basi_interface(mut store: impl Storage) {
    // the first set creates the table, inserts the key, and reports no prior value
    let v = store.set("t1", "hello".into(), "world".into());
    assert!(v.unwrap().is_none());
    // a second set of the same key updates it and reports the prior value
    let v1 = store.set("t1", "hello".into(), "world1".into());
    assert_eq!(v1, Ok(Some("world".into())));

    // get of an existing key sees the latest value
    let v = store.get("t1", "hello");
    assert_eq!(v, Ok(Some("world1".into())));

    // get of a missing key or table is None, not an error
    assert_eq!(Ok(None), store.get("t1", "hello1"));
    assert!(store.get("t2", "hello1").unwrap().is_none());

    // contains is true exactly for present keys
    assert_eq!(store.contains("t1", "hello"), Ok(true));
    assert_eq!(store.contains("t1", "hello1"), Ok(false));
    assert_eq!(store.contains("t2", "hello"), Ok(false));

    // del of an existing key reports the prior value
    let v = store.del("t1", "hello");
    assert_eq!(v, Ok(Some("world1".into())));

    // del of a missing key or table is None, not an error
    assert_eq!(Ok(None), store.del("t1", "hello1"));
    assert_eq!(Ok(None), store.del("t2", "hello"));
}

fn test_get_all(mut store: impl Storage) {
    store.set("t2", "k1".into(), "v1".into()).unwrap();
    store.set("t2", "k2".into(), "v2".into()).unwrap();
    let mut data = store.get_all("t2").unwrap();
    data.sort_by(|a, b| a.key.cmp(&b.key));
    assert_eq!(
        data,
        vec![
            Kvpair::new("k1", "v1".into()),
            Kvpair::new("k2", "v2".into())
        ]
    )
}

#[test]
fn memtable_basic_interface_should_work() {
    let store = MemTable::new();
    test_basi_interface(store);
}

#[test]
fn memtable_get_all_should_work() {
    let store = MemTable::new();
    test_get_all(store);
}

#[test]
fn get_all_is_insertion_order_independent() {
    let mut a = MemTable::new();
    a.set("t", "k1".into(), Value::Int(1)).unwrap();
    a.set("t", "k2".into(), Value::Int(2)).unwrap();
    a.set("t", "k3".into(), Value::Int(3)).unwrap();

    let mut b = MemTable::new();
    b.set("t", "k3".into(), Value::Int(3)).unwrap();
    b.set("t", "k1".into(), Value::Int(1)).unwrap();
    b.set("t", "k2".into(), Value::Int(2)).unwrap();

    let mut pa = a.get_all("t").unwrap();
    let mut pb = b.get_all("t").unwrap();
    pa.sort_by(|x, y| x.key.cmp(&y.key));
    pb.sort_by(|x, y| x.key.cmp(&y.key));
    assert_eq!(pa, pb);
    assert_eq!(pa.len(), 3);
}

#[test]
fn del_twice_and_missing_table() {
    let mut store = MemTable::new();
    store.set("t", "k".into(), Value::Bool(true)).unwrap();
    assert_eq!(store.del("t", "k"), Ok(Some(Value::Bool(true))));
    assert_eq!(store.del("t", "k"), Ok(None));
    assert_eq!(store.del("absent", "k"), Ok(None));
    assert_eq!(store.contains("t", "k"), Ok(false));
}

#[test]
fn contains_tracks_set_and_del() {
    let mut store = MemTable::new();
    assert_eq!(store.contains("t", "k"), Ok(false));
    store.set("t", "k".into(), Value::Int(7)).unwrap();
    assert_eq!(store.contains("t", "k"), Ok(true));
    store.del("t", "k").unwrap();
    assert_eq!(store.contains("t", "k"), Ok(false));
    store.set("t", "k".into(), Value::Int(8)).unwrap();
    assert_eq!(store.contains("t", "k"), Ok(true));
    assert_eq!(store.get("t", "k"), Ok(Some(Value::Int(8))));
}

#[test]
fn storage_iter_walks_a_frozen_snapshot() {
    let mut store = MemTable::new();
    store.set("t", "k1".into(), Value::Int(1)).unwrap();
    store.set("t", "k2".into(), Value::Int(2)).unwrap();
    let mut it = store.get_iter("t").unwrap();
    // writes after the iterator was made are not reflected in it
    store.set("t", "k3".into(), Value::Int(3)).unwrap();
    let mut seen = Vec::new();
    while let Some(p) = it.next() {
        seen.push(p);
    }
    seen.sort_by(|a, b| a.key.cmp(&b.key));
    assert_eq!(
        seen,
        vec![
            Kvpair::new("k1", Value::Int(1)),
            Kvpair::new("k2", Value::Int(2))
        ]
    );
    assert!(it.next().is_none());
}

#[test]
fn float_bits_round_trip_through_the_store() {
    let mut store = MemTable::new();
    let bits = (3.5f64).to_bits();
    store.set("t", "pi".into(), Value::Float(bits)).unwrap();
    match store.get("t", "pi").unwrap() {
        Some(Value::Float(b)) => assert_eq!(f64::from_bits(b), 3.5f64),
        other => panic!("unexpected value: {:?}", other),
    }
}
