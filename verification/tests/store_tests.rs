use kvstore::store::Store;

#[test]
fn set_then_get_returns_value() {
    let mut s = Store::new();
    s.set(b"foo".to_vec(), b"{\"a\":1}".to_vec());
    assert_eq!(s.get(b"foo"), Some(b"{\"a\":1}".to_vec()));
}

#[test]
fn second_set_wins() {
    // SET(k, v1); SET(k, v2); GET(k) = v2.
    let mut s = Store::new();
    s.set(b"k".to_vec(), b"{\"a\":1}".to_vec());
    s.set(b"k".to_vec(), b"{\"b\":2}".to_vec());
    assert_eq!(s.get(b"k"), Some(b"{\"b\":2}".to_vec()));
}

#[test]
fn get_never_set_is_absent() {
    let s = Store::new();
    assert_eq!(s.get(b"nothing"), None);
}

#[test]
fn get_other_key_is_absent() {
    let mut s = Store::new();
    s.set(b"foo".to_vec(), b"{}".to_vec());
    assert_eq!(s.get(b"bar"), None);
}

#[test]
fn delete_absent_returns_false_and_changes_nothing() {
    let mut s = Store::new();
    s.set(b"keep".to_vec(), b"{\"x\":0}".to_vec());
    assert!(!s.delete(b"gone"));
    assert_eq!(s.get(b"keep"), Some(b"{\"x\":0}".to_vec()));
}

#[test]
fn delete_present_returns_true_and_removes() {
    let mut s = Store::new();
    s.set(b"k".to_vec(), b"{}".to_vec());
    assert!(s.delete(b"k"));
    assert_eq!(s.get(b"k"), None);
}

#[test]
fn delete_is_idempotent() {
    let mut s = Store::new();
    s.set(b"k".to_vec(), b"{}".to_vec());
    assert!(s.delete(b"k"));
    assert!(!s.delete(b"k"));
    assert_eq!(s.get(b"k"), None);
}

#[test]
fn get_returns_independent_copy() {
    let mut s = Store::new();
    s.set(b"k".to_vec(), b"{\"a\":1}".to_vec());
    let mut copy = s.get(b"k").unwrap();
    copy.clear();
    assert_eq!(s.get(b"k"), Some(b"{\"a\":1}".to_vec()));
}

#[test]
fn empty_key_and_empty_object_are_ordinary_values() {
    let mut s = Store::new();
    s.set(b"".to_vec(), b"{}".to_vec());
    assert_eq!(s.get(b""), Some(b"{}".to_vec()));
    assert!(s.delete(b""));
}
