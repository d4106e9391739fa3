//! Tests of the wire codec: exact encodings, round trips for every
//! variant, and the refusals of bytes that name no message.
use kvs::wire::{decode_command, decode_response, encode_command, encode_response};
use kvs::{Command, Response, ServerError};

fn command_round_trips(c: &Command) -> bool {
    match (decode_command(&encode_command(c)), c) {
        (Some(Command::Put(k2, v2)), Command::Put(k, v)) => k2 == *k && v2 == *v,
        (Some(Command::Get(k2)), Command::Get(k)) => k2 == *k,
        (Some(Command::Rm(k2)), Command::Rm(k)) => k2 == *k,
        _ => false,
    }
}

fn response_round_trips(r: &Response) -> bool {
    match (decode_response(&encode_response(r)), r) {
        (Some(Response::Null), Response::Null) => true,
        (Some(Response::Value(s2)), Response::Value(s)) => s2 == *s,
        (Some(Response::Error(e2)), Response::Error(e)) => e2 == *e,
        _ => false,
    }
}

#[test]
fn command_encodings_are_exact() {
    assert_eq!(
        encode_command(&Command::Put("x".to_string(), "y".to_string())),
        b"S1 xy".to_vec()
    );
    assert_eq!(encode_command(&Command::Get("x".to_string())), b"Gx".to_vec());
    assert_eq!(encode_command(&Command::Rm("x".to_string())), b"Rx".to_vec());
    assert_eq!(
        encode_command(&Command::Put("key".to_string(), "".to_string())),
        b"S3 key".to_vec()
    );
}

#[test]
fn response_encodings_are_exact() {
    assert_eq!(encode_response(&Response::Null), b"N".to_vec());
    assert_eq!(encode_response(&Response::Value("y".to_string())), b"Vy".to_vec());
    assert_eq!(
        encode_response(&Response::Error(ServerError::NotFound)),
        b"En".to_vec()
    );
    assert_eq!(
        encode_response(&Response::Error(ServerError::InvalidCommand)),
        b"Ei".to_vec()
    );
    assert_eq!(
        encode_response(&Response::Error(ServerError::OtherError)),
        b"Eo".to_vec()
    );
}

#[test]
fn every_command_round_trips() {
    assert!(command_round_trips(&Command::Put("x".to_string(), "y".to_string())));
    assert!(command_round_trips(&Command::Put("a b".to_string(), "line\nbreak".to_string())));
    assert!(command_round_trips(&Command::Put("12 ".to_string(), "S1 x".to_string())));
    assert!(command_round_trips(&Command::Get("schl\u{00fc}ssel".to_string())));
    assert!(command_round_trips(&Command::Rm("x".to_string())));
}

#[test]
fn every_response_round_trips() {
    assert!(response_round_trips(&Response::Null));
    assert!(response_round_trips(&Response::Value("".to_string())));
    assert!(response_round_trips(&Response::Value("with \u{2603} snow".to_string())));
    assert!(response_round_trips(&Response::Error(ServerError::NotFound)));
    assert!(response_round_trips(&Response::Error(ServerError::InvalidCommand)));
    assert!(response_round_trips(&Response::Error(ServerError::OtherError)));
}

#[test]
fn bytes_that_name_no_message_are_refused() {
    assert!(decode_command(b"").is_none());
    assert!(decode_command(b"G").is_none());
    assert!(decode_command(b"Zx").is_none());
    assert!(decode_command(b"S9 x").is_none());
    assert!(decode_command(b"Sx y").is_none());
    assert!(decode_command(&[b'G', 0xff]).is_none());
    assert!(decode_response(b"").is_none());
    assert!(decode_response(b"Nx").is_none());
    assert!(decode_response(b"Ez").is_none());
    assert!(decode_response(&[b'V', 0xff]).is_none());
}
