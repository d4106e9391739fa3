//! The wire protocol: one request per connection, one encoded `Command` in,
//! one encoded `Response` out. A `Put` request reuses the record line form
//! (tag, key length, key, value); `Get` and `Rm` are a tag byte and the
//! key; a response is a tag byte with the value or an error code. No
//! message carries a terminator, so keys and values may hold any
//! characters; only the empty key has no encoding.
use vstd::prelude::*;
use vstd::utf8::{decode_utf8, encode_utf8, valid_utf8};
use crate::codec::{
    copy_range, decode_record, encode_record, lemma_decode_encode, spec_decode_line,
    spec_encode_line, Record, RecordModel, TAG_REMOVE, TAG_SET,
};
use crate::text::{bytes_to_string, str_to_bytes};

verus! {

broadcast use vstd::utf8::group_utf8_lib;

/// The tag byte that opens an encoded `Get` request (`G`).
pub const TAG_GET: u8 = 71;

/// The tag byte of the empty response (`N`).
pub const TAG_NULL: u8 = 78;

/// The tag byte that opens a value response (`V`).
pub const TAG_VALUE: u8 = 86;

/// The tag byte that opens an error response (`E`).
pub const TAG_ERROR: u8 = 69;

/// The error code of a key that is not found (`n`).
pub const ERR_NOT_FOUND: u8 = 110;

/// The error code of a request that did not decode (`i`).
pub const ERR_INVALID: u8 = 105;

/// The error code of any other server-side failure (`o`).
pub const ERR_OTHER: u8 = 111;

/// One request to the store server.
pub enum Command {
    Put(String, String),
    Get(String),
    Rm(String),
}

/// The mathematical view of a request.
pub enum CommandModel {
    Put(Seq<char>, Seq<char>),
    Get(Seq<char>),
    Rm(Seq<char>),
}

impl View for Command {
    type V = CommandModel;

    open spec fn view(&self) -> CommandModel {
        match self {
            Command::Put(k, v) => CommandModel::Put(k@, v@),
            Command::Get(k) => CommandModel::Get(k@),
            Command::Rm(k) => CommandModel::Rm(k@),
        }
    }
}

/// The key a request speaks of.
pub open spec fn command_key(c: CommandModel) -> Seq<char> {
    match c {
        CommandModel::Put(k, _) => k,
        CommandModel::Get(k) => k,
        CommandModel::Rm(k) => k,
    }
}

/// What the server did wrong, from the client's point of view.
#[derive(Clone, Copy, Debug, PartialEq, Eq, Structural)]
pub enum ServerError {
    NotFound,
    InvalidCommand,
    OtherError,
}

/// One reply from the store server.
pub enum Response {
    Null,
    Value(String),
    Error(ServerError),
}

/// The mathematical view of a reply.
pub enum ResponseModel {
    Null,
    Value(Seq<char>),
    Error(ServerError),
}

impl View for Response {
    type V = ResponseModel;

    open spec fn view(&self) -> ResponseModel {
        match self {
            Response::Null => ResponseModel::Null,
            Response::Value(s) => ResponseModel::Value(s@),
            Response::Error(e) => ResponseModel::Error(*e),
        }
    }
}

/// The bytes of an encoded request.
pub open spec fn spec_encode_command(c: CommandModel) -> Seq<u8> {
    match c {
        CommandModel::Put(k, v) => spec_encode_line(
            RecordModel::Put(encode_utf8(k), encode_utf8(v)),
        ),
        CommandModel::Get(k) => seq![TAG_GET] + encode_utf8(k),
        CommandModel::Rm(k) => spec_encode_line(RecordModel::Remove(encode_utf8(k))),
    }
}

/// Decoding of a request. Total: anything else is an invalid command.
pub open spec fn spec_decode_command(b: Seq<u8>) -> Option<CommandModel> {
    if b.len() >= 2 && b[0] == TAG_GET {
        let kb = b.drop_first();
        if valid_utf8(kb) {
            Some(CommandModel::Get(decode_utf8(kb)))
        } else {
            None
        }
    } else {
        match spec_decode_line(b) {
            Option::Some(RecordModel::Put(kb, vb)) => if valid_utf8(kb) && valid_utf8(vb) {
                Some(CommandModel::Put(decode_utf8(kb), decode_utf8(vb)))
            } else {
                None
            },
            Option::Some(RecordModel::Remove(kb)) => if valid_utf8(kb) {
                Some(CommandModel::Rm(decode_utf8(kb)))
            } else {
                None
            },
            Option::None => None,
        }
    }
}

/// The bytes of an encoded reply.
pub open spec fn spec_encode_response(r: ResponseModel) -> Seq<u8> {
    match r {
        ResponseModel::Null => seq![TAG_NULL],
        ResponseModel::Value(s) => seq![TAG_VALUE] + encode_utf8(s),
        ResponseModel::Error(ServerError::NotFound) => seq![TAG_ERROR, ERR_NOT_FOUND],
        ResponseModel::Error(ServerError::InvalidCommand) => seq![TAG_ERROR, ERR_INVALID],
        ResponseModel::Error(ServerError::OtherError) => seq![TAG_ERROR, ERR_OTHER],
    }
}

/// Decoding of a reply. Total: anything else is `None`.
pub open spec fn spec_decode_response(b: Seq<u8>) -> Option<ResponseModel> {
    if b.len() == 1 && b[0] == TAG_NULL {
        Some(ResponseModel::Null)
    } else if b.len() >= 1 && b[0] == TAG_VALUE {
        let sb = b.drop_first();
        if valid_utf8(sb) {
            Some(ResponseModel::Value(decode_utf8(sb)))
        } else {
            None
        }
    } else if b.len() == 2 && b[0] == TAG_ERROR {
        if b[1] == ERR_NOT_FOUND {
            Some(ResponseModel::Error(ServerError::NotFound))
        } else if b[1] == ERR_INVALID {
            Some(ResponseModel::Error(ServerError::InvalidCommand))
        } else if b[1] == ERR_OTHER {
            Some(ResponseModel::Error(ServerError::OtherError))
        } else {
            None
        }
    } else {
        None
    }
}

/// Wire round trip for requests: every command with a non-empty key comes
/// back from its own encoding. The empty key is the one exception: its
/// `Get` encoding would be a bare tag, which decoding refuses.
pub proof fn lemma_command_round_trip(c: CommandModel)
    requires
        command_key(c).len() > 0,
    ensures
        spec_decode_command(spec_encode_command(c)) == Some(c),
{
    match c {
        CommandModel::Put(k, v) => {
            let r = RecordModel::Put(encode_utf8(k), encode_utf8(v));
            lemma_decode_encode(r);
            let e = spec_encode_line(r);
            assert(e[0] == TAG_SET);
        },
        CommandModel::Get(k) => {
            let e = spec_encode_command(c);
            assert(e.drop_first() =~= encode_utf8(k));
            assert(e[0] == TAG_GET);
        },
        CommandModel::Rm(k) => {
            let r = RecordModel::Remove(encode_utf8(k));
            lemma_decode_encode(r);
            let e = spec_encode_line(r);
            assert(e[0] == TAG_REMOVE);
        },
    }
}

/// Wire round trip for replies: every response comes back from its own
/// encoding, with no exception.
pub proof fn lemma_response_round_trip(r: ResponseModel)
    ensures
        spec_decode_response(spec_encode_response(r)) == Some(r),
{
    match r {
        ResponseModel::Null => {},
        ResponseModel::Value(s) => {
            let e = spec_encode_response(r);
            assert(e.drop_first() =~= encode_utf8(s));
            assert(e[0] == TAG_VALUE);
        },
        ResponseModel::Error(code) => {},
    }
}

/// Encodes a request for one trip over a connection.
pub fn encode_command(c: &Command) -> (out: Vec<u8>)
    ensures
        out@ == spec_encode_command(c@),
{
    match c {
        Command::Put(k, v) => {
            let kb = str_to_bytes(k.as_str());
            let vb = str_to_bytes(v.as_str());
            let mut out = encode_record(&Record::Put(kb, vb));
            let _ = out.pop();
            proof {
                assert(out@ =~= spec_encode_command(c@));
            }
            out
        },
        Command::Get(k) => {
            let mut out: Vec<u8> = Vec::new();
            out.push(TAG_GET);
            let kb = str_to_bytes(k.as_str());
            out.extend_from_slice(kb.as_slice());
            proof {
                assert(out@ =~= spec_encode_command(c@));
            }
            out
        },
        Command::Rm(k) => {
            let kb = str_to_bytes(k.as_str());
            let mut out = encode_record(&Record::Remove(kb));
            let _ = out.pop();
            proof {
                assert(out@ =~= spec_encode_command(c@));
            }
            out
        },
    }
}

/// Decodes a request; `None` is an invalid command.
pub fn decode_command(b: &[u8]) -> (r: Option<Command>)
    ensures
        match r {
            Some(c) => spec_decode_command(b@) == Some(c@),
            None => spec_decode_command(b@) is None,
        },
{
    if b.len() >= 2 && b[0] == TAG_GET {
        let kb = copy_range(b, 1, b.len());
        proof {
            assert(kb@ =~= b@.drop_first());
        }
        match bytes_to_string(kb) {
            Some(k) => Some(Command::Get(k)),
            None => None,
        }
    } else {
        match decode_record(b) {
            Some(Record::Put(kb, vb)) => {
                match bytes_to_string(kb) {
                    Some(k) => match bytes_to_string(vb) {
                        Some(v) => Some(Command::Put(k, v)),
                        None => None,
                    },
                    None => None,
                }
            },
            Some(Record::Remove(kb)) => {
                match bytes_to_string(kb) {
                    Some(k) => Some(Command::Rm(k)),
                    None => None,
                }
            },
            None => None,
        }
    }
}

/// Encodes a reply for the trip back.
pub fn encode_response(r: &Response) -> (out: Vec<u8>)
    ensures
        out@ == spec_encode_response(r@),
{
    let mut out: Vec<u8> = Vec::new();
    match r {
        Response::Null => {
            out.push(TAG_NULL);
        },
        Response::Value(s) => {
            out.push(TAG_VALUE);
            let sb = str_to_bytes(s.as_str());
            out.extend_from_slice(sb.as_slice());
        },
        Response::Error(e) => {
            out.push(TAG_ERROR);
            match e {
                ServerError::NotFound => out.push(ERR_NOT_FOUND),
                ServerError::InvalidCommand => out.push(ERR_INVALID),
                ServerError::OtherError => out.push(ERR_OTHER),
            }
        },
    }
    proof {
        assert(out@ =~= spec_encode_response(r@));
    }
    out
}

/// Decodes a reply; `None` is a reply this protocol never sends.
pub fn decode_response(b: &[u8]) -> (r: Option<Response>)
    ensures
        match r {
            Some(resp) => spec_decode_response(b@) == Some(resp@),
            None => spec_decode_response(b@) is None,
        },
{
    if b.len() == 1 && b[0] == TAG_NULL {
        Some(Response::Null)
    } else if b.len() >= 1 && b[0] == TAG_VALUE {
        let sb = copy_range(b, 1, b.len());
        proof {
            assert(sb@ =~= b@.drop_first());
        }
        match bytes_to_string(sb) {
            Some(s) => Some(Response::Value(s)),
            None => None,
        }
    } else if b.len() == 2 && b[0] == TAG_ERROR {
        if b[1] == ERR_NOT_FOUND {
            Some(Response::Error(ServerError::NotFound))
        } else if b[1] == ERR_INVALID {
            Some(Response::Error(ServerError::InvalidCommand))
        } else if b[1] == ERR_OTHER {
            Some(Response::Error(ServerError::OtherError))
        } else {
            None
        }
    } else {
        None
    }
}

} // verus!
