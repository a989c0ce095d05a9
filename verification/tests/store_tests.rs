use minikv::store::Store;

fn v(s: &str) -> Vec<u8> {
    s.as_bytes().to_vec()
}

#[test]
fn get_on_empty_store() {
    let db = Store::new();
    assert_eq!(db.get(&v("missing")), None);
    assert_eq!(db.len(), 0);
}

#[test]
fn set_returns_previous_value() {
    let mut db = Store::new();
    assert_eq!(db.set(v("k"), v("one")), None);
    assert_eq!(db.set(v("k"), v("two")), Some(v("one")));
    assert_eq!(db.get(&v("k")), Some(v("two")));
    assert_eq!(db.len(), 1);
}

#[test]
fn remove_returns_removed_value() {
    let mut db = Store::new();
    db.set(v("a"), v("1"));
    db.set(v("b"), v("2"));
    assert_eq!(db.remove(&v("a")), Some(v("1")));
    assert_eq!(db.remove(&v("a")), None);
    assert_eq!(db.get(&v("a")), None);
    assert_eq!(db.get(&v("b")), Some(v("2")));
    assert_eq!(db.len(), 1);
}

#[test]
fn keys_lists_every_key_once() {
    let mut db = Store::new();
    db.set(v("a"), v("1"));
    db.set(v("b"), v("2"));
    db.set(v("a"), v("3"));
    let mut keys = db.keys();
    keys.sort();
    assert_eq!(keys, vec![v("a"), v("b")]);
}

#[test]
fn distinct_keys_all_visible() {
    // serialized writes to distinct keys lose nothing
    let mut db = Store::new();
    for i in 0..32 {
        db.set(v(&format!("key{}", i)), v(&format!("val{}", i)));
    }
    for i in 0..32 {
        assert_eq!(db.get(&v(&format!("key{}", i))), Some(v(&format!("val{}", i))));
    }
    assert_eq!(db.len(), 32);
}
