//! Tests of the service layer: a whole request/response exchange against
//! the log-structured engine, and the engine selection rules.
use kvs::{
    do_command, engine_file_exists, handle_request, match_engine, select_engine, Command, Engine,
    KvStore, KvsError, Response, Segment, ServerError,
};

fn open_empty() -> KvStore {
    KvStore::open_from(&Vec::<Segment>::new()).expect("open failed")
}

#[test]
fn s5_one_session_over_the_wire() {
    let mut store = open_empty();
    let reply = handle_request(&mut store, b"S1 xy");
    assert_eq!(reply, b"N".to_vec());
    let reply = handle_request(&mut store, b"Gx");
    assert_eq!(reply, b"Vy".to_vec());
    let reply = handle_request(&mut store, b"Rx");
    assert_eq!(reply, b"N".to_vec());
    let reply = handle_request(&mut store, b"Rx");
    assert_eq!(reply, b"En".to_vec());
    let reply = handle_request(&mut store, b"this is no command");
    assert_eq!(reply, b"Ei".to_vec());
}

#[test]
fn dispatch_maps_engine_results_to_responses() {
    let mut store = open_empty();
    match do_command(&mut store, Command::Put("a".to_string(), "1".to_string())) {
        Response::Null => {}
        _ => panic!("a set must answer Null"),
    }
    match do_command(&mut store, Command::Get("a".to_string())) {
        Response::Value(s) => assert_eq!(s, "1".to_string()),
        _ => panic!("a get of a bound key must answer its value"),
    }
    match do_command(&mut store, Command::Get("b".to_string())) {
        Response::Error(ServerError::NotFound) => {}
        _ => panic!("a get of an unbound key must answer NotFound"),
    }
    match do_command(&mut store, Command::Rm("b".to_string())) {
        Response::Error(ServerError::NotFound) => {}
        _ => panic!("an rm of an unbound key must answer NotFound"),
    }
    // A key no record can carry is an engine error, and collapses to
    // OtherError on the wire.
    match do_command(&mut store, Command::Put("".to_string(), "1".to_string())) {
        Response::Error(ServerError::OtherError) => {}
        _ => panic!("an engine failure must answer OtherError"),
    }
}

#[test]
fn engine_detection_prefers_the_kvs_directory() {
    assert_eq!(engine_file_exists(true, false), Some(Engine::Kvs));
    assert_eq!(engine_file_exists(true, true), Some(Engine::Kvs));
    assert_eq!(engine_file_exists(false, true), Some(Engine::Sled));
    assert_eq!(engine_file_exists(false, false), None);
}

#[test]
fn engine_selection_agrees_with_the_directory() {
    assert_eq!(select_engine(None, None), Ok(Engine::Kvs));
    assert_eq!(select_engine(None, Some(Engine::Sled)), Ok(Engine::Sled));
    assert_eq!(select_engine(Some(Engine::Sled), None), Ok(Engine::Sled));
    assert_eq!(
        select_engine(Some(Engine::Kvs), Some(Engine::Kvs)),
        Ok(Engine::Kvs)
    );
    assert_eq!(
        select_engine(Some(Engine::Kvs), Some(Engine::Sled)),
        Err(KvsError::Io)
    );
}

#[test]
fn engine_names_parse_exactly() {
    assert_eq!(match_engine("kvs"), Some(Engine::Kvs));
    assert_eq!(match_engine("sled"), Some(Engine::Sled));
    assert_eq!(match_engine("kv"), None);
    assert_eq!(match_engine("sledge"), None);
    assert_eq!(match_engine(""), None);
}
