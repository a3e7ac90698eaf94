//! The adapter over a temporary `sled` database.

use kvs::engines::sled::interpret_lookup;
use kvs::engines::KvsEngine;
use kvs::engines::SledServer;
use kvs::error::KvsErrorType;

fn temp_engine() -> SledServer {
    let db = sled::Config::new()
        .temporary(true)
        .open()
        .expect("temporary database");
    SledServer::new(db)
}

#[test]
fn sled_set_get_overwrite() {
    let mut engine = temp_engine();
    engine.set(String::from("a"), String::from("1")).unwrap();
    assert_eq!(engine.get(String::from("a")).unwrap(), Some(String::from("1")));
    engine.set(String::from("a"), String::from("2")).unwrap();
    assert_eq!(engine.get(String::from("a")).unwrap(), Some(String::from("2")));
    assert_eq!(engine.get(String::from("b")).unwrap(), None);
}

#[test]
fn sled_remove_and_key_not_found() {
    let mut engine = temp_engine();
    engine.set(String::from("a"), String::from("1")).unwrap();
    engine.remove(String::from("a")).unwrap();
    assert_eq!(engine.get(String::from("a")).unwrap(), None);
    let err = engine.remove(String::from("a")).unwrap_err();
    assert_eq!(err.kind(), KvsErrorType::KeyNotFound);
}

#[test]
fn sled_kind_is_sled() {
    let engine = temp_engine();
    assert_eq!(engine.get_type(), "sled");
}

#[test]
fn lookup_interpretation() {
    assert_eq!(interpret_lookup(None).unwrap(), None);
    assert_eq!(
        interpret_lookup(Some(b"ok".to_vec())).unwrap(),
        Some(String::from("ok"))
    );
    let err = interpret_lookup(Some(vec![0xFF, 0xFE])).unwrap_err();
    assert_eq!(err.kind(), KvsErrorType::SerdeError);
}
