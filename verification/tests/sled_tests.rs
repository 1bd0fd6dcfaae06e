use kvs::errors::KvStoreError;
use kvs::kv::KvsEngine;
use kvs::kvs_sled::{get_outcome, open_outcome, remove_outcome, set_outcome, SledKvsEngine};

#[test]
fn sled_engine_sets_gets_and_removes() {
    let directory = tempfile::TempDir::new().unwrap();
    let engine = SledKvsEngine::open(directory.path()).unwrap();
    assert_eq!(engine.get("a".to_owned()).unwrap(), None);
    engine.set("a".to_owned(), "1".to_owned()).unwrap();
    engine.set("b".to_owned(), "".to_owned()).unwrap();
    assert_eq!(engine.get("a".to_owned()).unwrap(), Some("1".to_owned()));
    assert_eq!(engine.get("b".to_owned()).unwrap(), Some(String::new()));
    engine.set("a".to_owned(), "2".to_owned()).unwrap();
    assert_eq!(engine.get("a".to_owned()).unwrap(), Some("2".to_owned()));
    engine.remove("a".to_owned()).unwrap();
    assert_eq!(engine.get("a".to_owned()).unwrap(), None);
    match engine.remove("a".to_owned()) {
        Err(KvStoreError::NonExistentKey(key)) => assert_eq!(key, "a"),
        other => panic!("unexpected outcome: {:?}", other),
    }
}

#[test]
fn sled_engine_clones_share_one_store() {
    let directory = tempfile::TempDir::new().unwrap();
    let engine = SledKvsEngine::open(directory.path()).unwrap();
    let other = engine.clone();
    engine.set("k".to_owned(), "v".to_owned()).unwrap();
    assert_eq!(other.get("k".to_owned()).unwrap(), Some("v".to_owned()));
}

#[test]
fn sled_engine_keeps_values_across_reopening() {
    let directory = tempfile::TempDir::new().unwrap();
    {
        let engine = SledKvsEngine::open(directory.path()).unwrap();
        engine.set("k".to_owned(), "v".to_owned()).unwrap();
    }
    let engine = SledKvsEngine::open(directory.path()).unwrap();
    assert_eq!(engine.get("k".to_owned()).unwrap(), Some("v".to_owned()));
}

#[test]
fn sled_engine_fails_to_open_what_is_no_directory() {
    let file = tempfile::NamedTempFile::new().unwrap();
    assert!(matches!(SledKvsEngine::open(file.path()), Err(KvStoreError::BackendError(_))));
}

#[test]
fn outcomes_follow_the_database() {
    assert_eq!(get_outcome(Ok(Some(b"text".to_vec()))).unwrap(), Some("text".to_owned()));
    assert_eq!(get_outcome(Ok(Some(vec![0xff, b'a']))).unwrap(), Some("\u{fffd}a".to_owned()));
    assert_eq!(get_outcome(Ok(None)).unwrap(), None);
    let failure = || sled::Error::Unsupported("no".to_owned());
    assert!(matches!(get_outcome(Err(failure())), Err(KvStoreError::BackendError(_))));
    assert!(set_outcome(Ok(None), Ok(0)).is_ok());
    assert!(set_outcome(Ok(Some(vec![1])), Ok(3)).is_ok());
    assert!(matches!(set_outcome(Err(failure()), Ok(0)), Err(KvStoreError::BackendError(_))));
    assert!(matches!(set_outcome(Ok(None), Err(failure())), Err(KvStoreError::BackendError(_))));
    assert!(remove_outcome("k".to_owned(), Ok(Some(vec![1])), Ok(0)).is_ok());
    assert!(matches!(
        remove_outcome("k".to_owned(), Ok(None), Ok(0)),
        Err(KvStoreError::NonExistentKey(key)) if key == "k"
    ));
    assert!(matches!(
        remove_outcome("k".to_owned(), Err(failure()), Ok(0)),
        Err(KvStoreError::BackendError(_))
    ));
    assert!(matches!(
        remove_outcome("k".to_owned(), Ok(Some(vec![1])), Err(failure())),
        Err(KvStoreError::BackendError(_))
    ));
}

#[test]
fn opening_follows_the_database() {
    let directory = tempfile::TempDir::new().unwrap();
    let db = sled::open(directory.path()).unwrap();
    db.insert("k", "v").unwrap();
    let engine = open_outcome(Ok(db)).unwrap();
    assert_eq!(engine.get("k".to_owned()).unwrap(), Some("v".to_owned()));
    let failed = open_outcome(Err(sled::Error::Unsupported("no".to_owned())));
    assert!(matches!(failed, Err(KvStoreError::BackendError(_))));
}
