//! Tests of the ordered-tree adapter, run against a real temporary `sled`
//! tree, and of the promise that both engines answer a session alike.
use kvs::{do_command, Command, KvStore, KvsEngine, KvsError, Response, Segment, ServerError};
use kvs::SledStore;

fn temporary_sled() -> SledStore {
    let db = sled::Config::new()
        .temporary(true)
        .open()
        .expect("a temporary sled tree must open");
    SledStore::new(db)
}

#[test]
fn sled_set_get_remove() {
    let mut store = temporary_sled();
    store.set("a".to_string(), "1".to_string()).unwrap();
    assert_eq!(store.get("a".to_string()).unwrap(), Some("1".to_string()));
    store.set("a".to_string(), "2".to_string()).unwrap();
    assert_eq!(store.get("a".to_string()).unwrap(), Some("2".to_string()));
    assert_eq!(store.get("b".to_string()).unwrap(), None);
    store.remove("a".to_string()).unwrap();
    assert_eq!(store.get("a".to_string()).unwrap(), None);
    assert_eq!(store.remove("a".to_string()), Err(KvsError::NotFound));
}

#[test]
fn sled_values_survive_reopening_the_same_tree() {
    let db = sled::Config::new()
        .temporary(true)
        .open()
        .expect("a temporary sled tree must open");
    let mut store = SledStore::new(db.clone());
    store.set("k".to_string(), "v".to_string()).unwrap();
    let mut second = SledStore::new(db);
    assert_eq!(second.get("k".to_string()).unwrap(), Some("v".to_string()));
}

fn run_session<E: kvs::KvsEngine>(engine: &mut E) -> Vec<Response> {
    let script = vec![
        Command::Put("a".to_string(), "1".to_string()),
        Command::Get("a".to_string()),
        Command::Get("b".to_string()),
        Command::Put("a".to_string(), "2".to_string()),
        Command::Get("a".to_string()),
        Command::Rm("a".to_string()),
        Command::Get("a".to_string()),
        Command::Rm("a".to_string()),
        Command::Put("b".to_string(), "2".to_string()),
        Command::Get("b".to_string()),
    ];
    script.into_iter().map(|c| do_command(engine, c)).collect()
}

#[test]
fn s6_both_engines_answer_a_session_alike() {
    let mut tree = temporary_sled();
    let mut log = KvStore::open_from(&Vec::<Segment>::new()).expect("open failed");
    let from_tree = run_session(&mut tree);
    let from_log = run_session(&mut log);
    assert_eq!(from_tree.len(), from_log.len());
    for (a, b) in from_tree.iter().zip(from_log.iter()) {
        let same = match (a, b) {
            (Response::Null, Response::Null) => true,
            (Response::Value(x), Response::Value(y)) => x == y,
            (Response::Error(x), Response::Error(y)) => x == y,
            _ => false,
        };
        assert!(same, "the two engines answered a session differently");
    }
}

#[test]
fn sled_not_found_says_so_on_the_wire() {
    let mut tree = temporary_sled();
    match do_command(&mut tree, Command::Rm("ghost".to_string())) {
        Response::Error(ServerError::NotFound) => {}
        _ => panic!("an rm of an unbound key must answer NotFound"),
    }
}
