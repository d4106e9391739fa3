//! The service layer: one request per connection is decoded, dispatched
//! through the engine interface, and answered with one encoded response.
//! The caller owns the sockets; this module owns every decision between
//! the received bytes and the bytes sent back, and the engine selection
//! rule at server startup.
use vstd::prelude::*;
use vstd::utf8::encode_utf8;
use crate::codec::bytes_eq;
use crate::engine::KvsEngine;
use crate::error::KvsError;
use crate::wire::{
    decode_command, encode_response, spec_decode_command, spec_encode_response, Command,
    CommandModel, Response, ResponseModel, ServerError,
};

verus! {

/// The response that a command must draw from an engine whose contents
/// went from `pre` to `post`: a store error collapses to `OtherError` on
/// the wire, a missing key to `NotFound`, and success carries the value
/// or nothing.
pub open spec fn response_ok(
    pre: Map<Seq<u8>, Seq<u8>>,
    op: CommandModel,
    resp: ResponseModel,
    post: Map<Seq<u8>, Seq<u8>>,
) -> bool {
    match op {
        CommandModel::Put(k, v) => match resp {
            ResponseModel::Null => post == pre.insert(encode_utf8(k), encode_utf8(v)),
            ResponseModel::Error(e) => e == ServerError::OtherError,
            _ => false,
        },
        CommandModel::Get(k) => post == pre && match resp {
            ResponseModel::Value(s) => pre.contains_key(encode_utf8(k)) && pre[encode_utf8(k)]
                == encode_utf8(s),
            ResponseModel::Error(ServerError::NotFound) => !pre.contains_key(encode_utf8(k)),
            ResponseModel::Error(ServerError::OtherError) => true,
            _ => false,
        },
        CommandModel::Rm(k) => match resp {
            ResponseModel::Null => pre.contains_key(encode_utf8(k)) && post == pre.remove(
                encode_utf8(k),
            ),
            ResponseModel::Error(ServerError::NotFound) => !pre.contains_key(encode_utf8(k))
                && post == pre,
            ResponseModel::Error(ServerError::OtherError) => true,
            _ => false,
        },
    }
}

/// Dispatches one decoded command through an engine and shapes the reply:
/// `set` answers `Null`, `get` answers the value or `NotFound`, `rm`
/// answers `Null` or `NotFound`, and every other engine failure collapses
/// to `OtherError`.
pub fn do_command<E: KvsEngine>(engine: &mut E, op: Command) -> (resp: Response)
    requires
        old(engine).wf(),
    ensures
        final(engine).wf(),
        response_ok(old(engine).kv(), op@, resp@, final(engine).kv()),
{
    match op {
        Command::Put(k, v) => {
            match engine.set(k, v) {
                Ok(()) => Response::Null,
                Err(_) => Response::Error(ServerError::OtherError),
            }
        },
        Command::Get(k) => {
            match engine.get(k) {
                Ok(Some(s)) => Response::Value(s),
                Ok(None) => Response::Error(ServerError::NotFound),
                Err(_) => Response::Error(ServerError::OtherError),
            }
        },
        Command::Rm(k) => {
            match engine.remove(k) {
                Ok(()) => Response::Null,
                Err(KvsError::NotFound) => Response::Error(ServerError::NotFound),
                Err(_) => Response::Error(ServerError::OtherError),
            }
        },
    }
}

/// What a whole request handling must produce: the reply encodes a
/// response that fits the decoded command, or names an invalid command
/// and leaves the engine alone.
pub open spec fn reply_ok(
    pre: Map<Seq<u8>, Seq<u8>>,
    request: Seq<u8>,
    reply: Seq<u8>,
    post: Map<Seq<u8>, Seq<u8>>,
) -> bool {
    match spec_decode_command(request) {
        Option::Some(op) => exists|resp: ResponseModel|
            reply == spec_encode_response(resp) && #[trigger] response_ok(pre, op, resp, post),
        Option::None => reply == spec_encode_response(
            ResponseModel::Error(ServerError::InvalidCommand),
        ) && post == pre,
    }
}

/// Serves one connection's worth of bytes: decode the request, dispatch
/// it, encode the reply. Bytes that decode to no command are answered
/// with `InvalidCommand`.
pub fn handle_request<E: KvsEngine>(engine: &mut E, request: &[u8]) -> (reply: Vec<u8>)
    requires
        old(engine).wf(),
    ensures
        final(engine).wf(),
        reply_ok(old(engine).kv(), request@, reply@, final(engine).kv()),
{
    match decode_command(request) {
        Some(op) => {
            let ghost opv = op@;
            let resp = do_command(engine, op);
            let out = encode_response(&resp);
            proof {
                assert(response_ok(old(engine).kv(), opv, resp@, engine.kv()));
            }
            out
        },
        None => encode_response(&Response::Error(ServerError::InvalidCommand)),
    }
}

/// The two engines a server can run on.
#[derive(Clone, Copy, Debug, PartialEq, Eq, Structural)]
pub enum Engine {
    Kvs,
    Sled,
}

/// Which engine a data directory already pins: a directory of the
/// log-structured store wins, then one of the tree backend. The caller
/// reports whether each directory exists.
pub fn engine_file_exists(kvs_dir: bool, sled_dir: bool) -> (e: Option<Engine>)
    ensures
        e == if kvs_dir {
            Some(Engine::Kvs)
        } else if sled_dir {
            Some(Engine::Sled)
        } else {
            None::<Engine>
        },
{
    if kvs_dir {
        Some(Engine::Kvs)
    } else if sled_dir {
        Some(Engine::Sled)
    } else {
        None
    }
}

/// The engine name on the command line: `kvs` or `sled`, nothing else.
pub fn match_engine(name: &str) -> (r: Option<Engine>)
    ensures
        r == Some(Engine::Kvs) <==> name@ == "kvs"@,
        r == Some(Engine::Sled) <==> name@ == "sled"@,
{
    broadcast use vstd::utf8::group_utf8_lib;

    proof {
        reveal_strlit("kvs");
        reveal_strlit("sled");
        assert("kvs"@.len() == 3 && "sled"@.len() == 4);
    }
    if bytes_eq(name.as_bytes(), "kvs".as_bytes()) {
        proof {
            assert(vstd::utf8::decode_utf8(encode_utf8(name@)) == name@);
            assert(vstd::utf8::decode_utf8(encode_utf8("kvs"@)) == "kvs"@);
            assert(name@ == "kvs"@);
        }
        Some(Engine::Kvs)
    } else if bytes_eq(name.as_bytes(), "sled".as_bytes()) {
        proof {
            assert(vstd::utf8::decode_utf8(encode_utf8(name@)) == name@);
            assert(vstd::utf8::decode_utf8(encode_utf8("sled"@)) == "sled"@);
            assert(name@ == "sled"@);
            assert(name@ != "kvs"@);
        }
        Some(Engine::Sled)
    } else {
        proof {
            assert(name@ != "kvs"@);
            assert(name@ != "sled"@);
        }
        None
    }
}

/// The engine selection rule at server startup: an existing data
/// directory wins; a flag must agree with it; with neither, the
/// log-structured engine is the default. A mismatch is a startup error.
pub fn select_engine(exists: Option<Engine>, specified: Option<Engine>) -> (r: Result<
    Engine,
    KvsError,
>)
    ensures
        match (exists, specified) {
            (Option::None, Option::None) => r == Ok::<Engine, KvsError>(Engine::Kvs),
            (Option::None, Option::Some(e)) => r == Ok::<Engine, KvsError>(e),
            (Option::Some(e), Option::None) => r == Ok::<Engine, KvsError>(e),
            (Option::Some(e1), Option::Some(e2)) => if e1 == e2 {
                r == Ok::<Engine, KvsError>(e1)
            } else {
                r == Err::<Engine, KvsError>(KvsError::Io)
            },
        },
{
    match (exists, specified) {
        (None, None) => Ok(Engine::Kvs),
        (None, Some(e)) => Ok(e),
        (Some(e), None) => Ok(e),
        (Some(e1), Some(e2)) => {
            if e1 == e2 {
                Ok(e1)
            } else {
                Err(KvsError::Io)
            }
        },
    }
}

} // verus!
