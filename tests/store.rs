use hit::error::Error;
use hit::store::{decode_object, frame, hash_payload, Object, ObjectKind, ObjectStore};

const HELLO_ID: &str = "b6fc4c620b67d95f953a5c1c1230aaab5db5a1b0";

#[test]
fn blob_id_is_sha1_of_framing() {
    assert_eq!(frame(ObjectKind::Blob, b"hello"), b"blob 5\0hello".to_vec());
    assert_eq!(hash_payload(ObjectKind::Blob, b"hello"), HELLO_ID);
    assert_eq!(hash_payload(ObjectKind::Blob, b""), "e69de29bb2d1d6434b8b29ae775ad8c2e48c5391");
}

#[test]
fn hashing_twice_is_stable_and_rewrite_is_noop() {
    let mut store = ObjectStore::new();
    let a = store.write(ObjectKind::Blob, b"hello").unwrap();
    let b = store.write(ObjectKind::Blob, b"hello").unwrap();
    assert_eq!(a, b);
    assert_eq!(a, HELLO_ID);
    assert_eq!(store.len(), 1);
    store.write(ObjectKind::Blob, b"other").unwrap();
    assert_eq!(store.len(), 2);
}

#[test]
fn written_object_reads_back() {
    let mut store = ObjectStore::new();
    let id = store.write(ObjectKind::Blob, b"hello").unwrap();
    match store.read(&id).unwrap() {
        Object::Blob(b) => assert_eq!(b, b"hello".to_vec()),
        _ => panic!("expected a blob"),
    }
}

#[test]
fn read_errors() {
    let mut store = ObjectStore::new();
    assert_eq!(store.read("a").err(), Some(Error::InvalidInput));
    assert_eq!(store.read("").err(), Some(Error::InvalidInput));
    assert_eq!(store.read(HELLO_ID).err(), Some(Error::NotFound));
    store.insert_stored(HELLO_ID.to_string(), vec![1, 2, 3]);
    assert_eq!(store.read(HELLO_ID).err(), Some(Error::CorruptObject));
}

#[test]
fn object_stored_under_another_name_still_reads() {
    let mut other = ObjectStore::new();
    let id = other.write(ObjectKind::Blob, b"bye").unwrap();
    let data = other.get(&id).unwrap().clone();
    let mut store = ObjectStore::new();
    store.insert_stored("abc".to_string(), data);
    match store.read("abc").unwrap() {
        Object::Blob(b) => assert_eq!(b, b"bye".to_vec()),
        _ => panic!("expected a blob"),
    }
}

#[test]
fn rewriting_existing_id_keeps_store() {
    let mut store = ObjectStore::new();
    let a = store.write(ObjectKind::Tree, b"").unwrap();
    let before = store.get(&a).unwrap().clone();
    let b = store.write(ObjectKind::Tree, b"").unwrap();
    assert_eq!(a, b);
    assert_eq!(store.len(), 1);
    assert_eq!(store.get(&a).unwrap(), &before);
}

#[test]
fn header_checks() {
    assert!(matches!(decode_object(b"blob 5\0hello"), Ok(Object::Blob(_))));
    assert_eq!(decode_object(b"blob 4\0hello").err(), Some(Error::CorruptObject));
    assert_eq!(decode_object(b"blob 05\0hello").err(), Some(Error::CorruptObject));
    assert_eq!(decode_object(b"blob 5hello").err(), Some(Error::CorruptObject));
    assert_eq!(decode_object(b"blub 5\0hello").err(), Some(Error::CorruptObject));
    assert!(matches!(decode_object(b"tree 0\0"), Ok(Object::Tree(_))));
}

#[test]
fn insert_stored_keeps_first() {
    let mut store = ObjectStore::new();
    store.insert_stored("abcd".to_string(), vec![1]);
    store.insert_stored("abcd".to_string(), vec![2]);
    assert_eq!(store.len(), 1);
    assert_eq!(store.get("abcd"), Some(&vec![1u8]));
}

#[test]
fn cat_file_gives_payload_of_any_kind() {
    let mut store = ObjectStore::new();
    let id = store.write(ObjectKind::Blob, b"hello").unwrap();
    assert_eq!(hit::store::cat_file(&store, &id).unwrap(), b"hello".to_vec());
    let t = store.write(ObjectKind::Tree, b"").unwrap();
    assert_eq!(hit::store::cat_file(&store, &t).unwrap(), Vec::<u8>::new());
    assert_eq!(hit::store::cat_file(&store, "x").err(), Some(Error::InvalidInput));
    assert_eq!(
        hit::store::cat_file(&store, "0000000000000000000000000000000000000000").err(),
        Some(Error::NotFound)
    );
}

#[test]
fn object_read_by_id() {
    let mut store = ObjectStore::new();
    let id = store.write(ObjectKind::Commit, b"not a commit").unwrap();
    assert_eq!(Object::read(&store, &id).err(), Some(Error::CorruptObject));
    let b = store.write(ObjectKind::Blob, b"x").unwrap();
    assert!(matches!(Object::read(&store, &b), Ok(Object::Blob(_))));
}
