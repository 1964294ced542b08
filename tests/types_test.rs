use anode_kv::types::{Blob, BlobSet, Value};

#[test]
fn debug_format_is_readable() {
    assert_eq!(Blob::from("foo".as_bytes().to_vec()).to_text(), "foo");
}

#[test]
fn sets_compare_as_sets() {
    let mut a = BlobSet::new();
    let mut b = BlobSet::new();
    assert!(a.insert(Blob(b"x".to_vec())));
    assert!(a.insert(Blob(b"y".to_vec())));
    assert!(!a.insert(Blob(b"x".to_vec())));
    assert!(b.insert(Blob(b"y".to_vec())));
    assert!(b.insert(Blob(b"x".to_vec())));
    assert_eq!(a.len(), 2);
    assert_eq!(Value::Members(a.clone()), Value::Members(b.clone()));
    assert!(b.remove(&Blob(b"x".to_vec())));
    assert!(!b.remove(&Blob(b"x".to_vec())));
    assert_ne!(a, b);
    assert_eq!(a.intersection(&b).len(), 1);
    assert_eq!(b.union(&a), a);
}
