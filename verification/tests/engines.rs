//! The storage engines.

use kvs::engines::{select_engine, Engine, EngineMismatch, KvsEngine, SledStore};
use kvs::proto::{Request, Response};
use kvs::EngineError;

#[test]
fn engine_selection() {
    assert_eq!(select_engine(None, None), Ok(Engine::Kvs));
    assert_eq!(select_engine(Some(Engine::Sled), None), Ok(Engine::Sled));
    assert_eq!(select_engine(None, Some(Engine::Sled)), Ok(Engine::Sled));
    assert_eq!(select_engine(Some(Engine::Kvs), Some(Engine::Kvs)), Ok(Engine::Kvs));
    assert_eq!(select_engine(Some(Engine::Kvs), Some(Engine::Sled)), Err(EngineMismatch::DifferentEngine));
}

#[test]
fn sled_set_get_remove() {
    let dir = tempfile::TempDir::new().unwrap();
    let mut store = SledStore::open(dir.path().to_str().unwrap().to_owned()).unwrap();
    assert_eq!(store.get("k".into()).unwrap(), None);
    store.set("k".into(), "v1".into()).unwrap();
    assert_eq!(store.get("k".into()).unwrap(), Some("v1".into()));
    store.set("k".into(), "v2".into()).unwrap();
    assert_eq!(store.get("k".into()).unwrap(), Some("v2".into()));
    store.remove("k".into()).unwrap();
    assert_eq!(store.get("k".into()).unwrap(), None);
    assert!(matches!(store.remove("k".into()), Err(EngineError::KeyNotFound)));
}

#[test]
fn sled_persists_across_open() {
    let dir = tempfile::TempDir::new().unwrap();
    {
        let mut store = SledStore::open(dir.path().to_str().unwrap().to_owned()).unwrap();
        store.set("a".into(), "1".into()).unwrap();
        store.set("b".into(), "2".into()).unwrap();
        store.remove("a".into()).unwrap();
    }
    let mut store = SledStore::open(dir.path().to_str().unwrap().to_owned()).unwrap();
    assert_eq!(store.get("a".into()).unwrap(), None);
    assert_eq!(store.get("b".into()).unwrap(), Some("2".into()));
}

#[test]
fn protocol_values() {
    let req = Request::Put { key: "k".into(), value: "v".into() };
    assert_eq!(req, Request::Put { key: "k".into(), value: "v".into() });
    let resp = Response::Get(kvs::proto::Result(Ok(Some("v".to_string()))));
    assert_eq!(resp, Response::Get(kvs::proto::Result(Ok(Some("v".to_string())))));
}

#[test]
fn sled_opens_at_the_given_path() {
    let dir = tempfile::TempDir::new().unwrap();
    let path = dir.path().join("db");
    let _store = SledStore::open(path.to_str().unwrap().to_owned()).unwrap();
    assert!(path.exists());
}
