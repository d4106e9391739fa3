//! Conversions between the strings of the public interface and the bytes
//! that records, segments and the wire carry, together with the facts about
//! UTF-8 that the contracts lean on.
use vstd::prelude::*;
use vstd::utf8::{
    decode_utf8, encode_scalar, encode_utf8, has_width_1_encoding, has_width_2_encoding,
    has_width_3_encoding, valid_utf8,
};
use crate::codec::RECORD_SEP;

verus! {

broadcast use vstd::utf8::group_utf8_lib;

/// The UTF-8 bytes of a string, as an owned vector.
pub fn str_to_bytes(s: &str) -> (out: Vec<u8>)
    ensures
        out@ == encode_utf8(s@),
{
    let b = s.as_bytes();
    let mut out: Vec<u8> = Vec::new();
    out.extend_from_slice(b);
    proof {
        assert(out@ =~= encode_utf8(s@));
    }
    out
}

/// Relies on `String::from_utf8`: bytes that are valid UTF-8 come back as
/// the unique string they encode, and any other bytes are refused.
#[verifier::external_body]
pub fn bytes_to_string(v: Vec<u8>) -> (r: Option<String>)
    ensures
        match r {
            Some(s) => encode_utf8(s@) == v@,
            None => !valid_utf8(v@),
        },
{
    match String::from_utf8(v) {
        Ok(s) => Some(s),
        Err(_) => None,
    }
}

/// The one-byte encoding is the scalar itself, and the longer encodings
/// use no byte below 0x80: so the record separator appears in the encoding
/// of a string exactly where the string holds a newline, and the encoding
/// is empty exactly when the string is.
pub proof fn lemma_encoding_separator(s: Seq<char>)
    ensures
        encode_utf8(s).contains(RECORD_SEP) <==> s.contains('\n'),
        encode_utf8(s).len() == 0 <==> s.len() == 0,
    decreases s.len(),
{
    if s.len() == 0 {
        assert(!encode_utf8(s).contains(RECORD_SEP)) by {
            if encode_utf8(s).contains(RECORD_SEP) {
                let i = choose|i: int|
                    0 <= i < encode_utf8(s).len() && encode_utf8(s)[i] == RECORD_SEP;
            }
        }
        assert(!s.contains('\n')) by {
            if s.contains('\n') {
                let i = choose|i: int| 0 <= i < s.len() && s[i] == '\n';
            }
        }
    } else {
        let c = s[0];
        let u = c as u32;
        let head = encode_scalar(u);
        let tail = encode_utf8(s.drop_first());
        lemma_encoding_separator(s.drop_first());
        assert(encode_utf8(s) == head + tail);
        lemma_scalar_separator(u);
        assert(head.contains(RECORD_SEP) <==> u == 10);
        assert(encode_utf8(s).contains(RECORD_SEP) <==> (head.contains(RECORD_SEP)
            || tail.contains(RECORD_SEP))) by {
            if encode_utf8(s).contains(RECORD_SEP) {
                let i = choose|i: int|
                    0 <= i < encode_utf8(s).len() && encode_utf8(s)[i] == RECORD_SEP;
                if i < head.len() {
                    assert(head[i] == RECORD_SEP);
                } else {
                    assert(tail[i - head.len()] == RECORD_SEP);
                }
            }
            if head.contains(RECORD_SEP) {
                let i = choose|i: int| 0 <= i < head.len() && head[i] == RECORD_SEP;
                assert(encode_utf8(s)[i] == RECORD_SEP);
            }
            if tail.contains(RECORD_SEP) {
                let i = choose|i: int| 0 <= i < tail.len() && tail[i] == RECORD_SEP;
                assert(encode_utf8(s)[head.len() + i] == RECORD_SEP);
            }
        }
        assert(s.contains('\n') <==> (c == '\n' || s.drop_first().contains('\n'))) by {
            if s.contains('\n') {
                let i = choose|i: int| 0 <= i < s.len() && s[i] == '\n';
                if i > 0 {
                    assert(s.drop_first()[i - 1] == '\n');
                }
            }
            if s.drop_first().contains('\n') {
                let i = choose|i: int|
                    0 <= i < s.drop_first().len() && s.drop_first()[i] == '\n';
                assert(s[i + 1] == '\n');
            }
            if c == '\n' {
                assert(s[0] == '\n');
            }
        }
        assert(c == '\n' <==> u == 10) by {
            vstd::utf8::char_u32_cast(c, u);
            assert('\n' as u32 == 10);
            if u == 10 && c != '\n' {
                assert(('\n' as u32) == (c as u32));
                assert(c == '\n') by {
                    vstd::utf8::char_u32_cast('\n', 10);
                }
            }
        }
        assert(head.len() >= 1);
    }
}

/// The UTF-8 encoding of one scalar holds the byte 10 exactly when the
/// scalar is 10 itself: a one-byte encoding is the scalar, and every byte
/// of a longer encoding is at least 0x80.
proof fn lemma_scalar_separator(u: u32)
    ensures
        encode_scalar(u).contains(RECORD_SEP) <==> u == 10,
        encode_scalar(u).len() >= 1,
{
    let e = encode_scalar(u);
    if has_width_1_encoding(u) {
        assert(e =~= seq![(u & 0x7F) as u8]);
        assert(u <= 0x7f ==> ((u & 0x7F) as u8 == 10 <==> u == 10)) by (bit_vector);
        if u == 10 {
            assert(e[0] == RECORD_SEP);
        } else {
            if e.contains(RECORD_SEP) {
                let i = choose|i: int| 0 <= i < e.len() && e[i] == RECORD_SEP;
            }
        }
    } else {
        assert(forall|i: int| 0 <= i < e.len() ==> e[i] >= 0x80) by {
            assert(0xC0 | ((u >> 6) & 0x1F) as u8 >= 0x80) by (bit_vector);
            assert(0xE0 | ((u >> 12) & 0x0F) as u8 >= 0x80) by (bit_vector);
            assert(0xF0 | ((u >> 18) & 0x7) as u8 >= 0x80) by (bit_vector);
            assert(0x80 | (u & 0x3F) as u8 >= 0x80) by (bit_vector);
            assert(0x80 | ((u >> 6) & 0x3F) as u8 >= 0x80) by (bit_vector);
            assert(0x80 | ((u >> 12) & 0x3F) as u8 >= 0x80) by (bit_vector);
        }
        if e.contains(RECORD_SEP) {
            let i = choose|i: int| 0 <= i < e.len() && e[i] == RECORD_SEP;
        }
        if !has_width_2_encoding(u) && !has_width_3_encoding(u) {
            assert(e.len() == 4);
        }
    }
}

} // verus!
