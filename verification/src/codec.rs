//! The record codec: each operation on the store is written to a log segment
//! as one line of bytes, terminated by a single record-separator byte.
//!
//! A `Set` line is `S<key-length in decimal><space><key bytes><value bytes>`;
//! a `Remove` line is `R<key bytes>`. The key length prefix makes the split
//! between key and value unambiguous, and no encoded line contains the
//! record separator, so lines can be recovered by splitting on that byte.
use vstd::prelude::*;

verus! {

/// The byte that terminates every record on disk (newline).
pub const RECORD_SEP: u8 = 10;

/// The tag byte that opens an encoded `Set` record (`S`).
pub const TAG_SET: u8 = 83;

/// The tag byte that opens an encoded `Remove` record (`R`).
pub const TAG_REMOVE: u8 = 82;

/// The byte that closes the decimal key-length field (space).
pub const LEN_SEP: u8 = 32;

/// One operation as it is written to a log segment: either a binding of a
/// key to a value, or a tombstone that unbinds a key.
pub enum Record {
    Put(Vec<u8>, Vec<u8>),
    Remove(Vec<u8>),
}

/// The mathematical model of a `Record`: the same two variants over byte
/// sequences.
pub enum RecordModel {
    Put(Seq<u8>, Seq<u8>),
    Remove(Seq<u8>),
}

impl View for Record {
    type V = RecordModel;

    open spec fn view(&self) -> RecordModel {
        match self {
            Record::Put(k, v) => RecordModel::Put(k@, v@),
            Record::Remove(k) => RecordModel::Remove(k@),
        }
    }
}

/// The key that a record speaks of.
pub open spec fn record_key(r: RecordModel) -> Seq<u8> {
    match r {
        RecordModel::Put(k, _) => k,
        RecordModel::Remove(k) => k,
    }
}

/// A record can be written faithfully only when its key is non-empty and
/// neither key nor value contains the record separator.
pub open spec fn wf_record(r: RecordModel) -> bool {
    match r {
        RecordModel::Put(k, v) => k.len() > 0 && !k.contains(RECORD_SEP) && !v.contains(
            RECORD_SEP,
        ),
        RecordModel::Remove(k) => k.len() > 0 && !k.contains(RECORD_SEP),
    }
}

/// The decimal digit characters of `n`, most significant first.
pub open spec fn spec_digits(n: nat) -> Seq<u8>
    decreases n,
{
    if n < 10 {
        seq![(48 + n) as u8]
    } else {
        spec_digits(n / 10).push((48 + n % 10) as u8)
    }
}

/// Whether `b` is a decimal digit character.
pub open spec fn is_digit(b: u8) -> bool {
    48 <= b <= 57
}

/// Whether every byte of `s` is a decimal digit character.
pub open spec fn all_digits(s: Seq<u8>) -> bool {
    forall|i: int| 0 <= i < s.len() ==> is_digit(#[trigger] s[i])
}

/// The number denoted by a sequence of decimal digit characters.
pub open spec fn spec_dec_value(s: Seq<u8>) -> int
    decreases s.len(),
{
    if s.len() == 0 {
        0
    } else {
        spec_dec_value(s.drop_last()) * 10 + (s.last() - 48)
    }
}

/// The index of the first occurrence of `b` in `s`, or `-1` when absent.
pub open spec fn find_byte(s: Seq<u8>, b: u8) -> int
    decreases s.len(),
{
    if s.len() == 0 {
        -1
    } else if s[0] == b {
        0
    } else {
        let r = find_byte(s.drop_first(), b);
        if r < 0 {
            -1
        } else {
            r + 1
        }
    }
}

/// What `find_byte` returns: the first index holding `b`, or `-1` when no
/// index does.
pub proof fn lemma_find_byte(s: Seq<u8>, b: u8)
    ensures
        find_byte(s, b) == -1 <==> !s.contains(b),
        find_byte(s, b) >= 0 ==> find_byte(s, b) < s.len() && s[find_byte(s, b)] == b && (forall|
            j: int,
        |
            0 <= j < find_byte(s, b) ==> s[j] != b),
    decreases s.len(),
{
    if s.len() == 0 {
    } else if s[0] == b {
        assert(s.contains(b));
    } else {
        lemma_find_byte(s.drop_first(), b);
        let t = s.drop_first();
        if find_byte(t, b) == -1 {
            assert(!s.contains(b)) by {
                if s.contains(b) {
                    let i = choose|i: int| 0 <= i < s.len() && s[i] == b;
                    assert(t[i - 1] == b);
                    assert(t.contains(b));
                }
            }
        } else {
            let r = find_byte(t, b);
            assert(s[r + 1] == t[r]);
            assert(forall|j: int| 0 <= j < r + 1 ==> s[j] != b) by {
                assert(forall|j: int| 1 <= j < r + 1 ==> s[j] == t[j - 1]);
            }
            assert(s.contains(b));
        }
    }
}

/// When index `i` is the first occurrence of `b` in `s`, `find_byte`
/// returns `i`.
pub proof fn lemma_find_byte_at(s: Seq<u8>, b: u8, i: int)
    requires
        0 <= i < s.len(),
        s[i] == b,
        forall|j: int| 0 <= j < i ==> s[j] != b,
    ensures
        find_byte(s, b) == i,
{
    lemma_find_byte(s, b);
    assert(s.contains(b));
    let r = find_byte(s, b);
    if r < i {
        assert(s[r] != b);
    }
    if r > i {
        assert(s[i] != b);
    }
}

/// The encoded line of a record, without the terminator.
pub open spec fn spec_encode_line(r: RecordModel) -> Seq<u8> {
    match r {
        RecordModel::Put(k, v) => seq![TAG_SET] + spec_digits(k.len()) + seq![LEN_SEP] + k + v,
        RecordModel::Remove(k) => seq![TAG_REMOVE] + k,
    }
}

/// The full on-disk encoding of a record: its line followed by the
/// record separator.
pub open spec fn spec_encode(r: RecordModel) -> Seq<u8> {
    spec_encode_line(r).push(RECORD_SEP)
}

/// Decoding of one complete line (without its terminator). Total: any byte
/// sequence either names a record or is malformed (`None`).
pub open spec fn spec_decode_line(line: Seq<u8>) -> Option<RecordModel> {
    if line.len() < 2 {
        None
    } else if line[0] == TAG_REMOVE {
        Some(RecordModel::Remove(line.drop_first()))
    } else if line[0] == TAG_SET {
        let body = line.drop_first();
        let sp = find_byte(body, LEN_SEP);
        if sp < 1 {
            None
        } else {
            let digits = body.take(sp);
            let rest = body.skip(sp + 1);
            if !all_digits(digits) {
                None
            } else {
                let klen = spec_dec_value(digits);
                if klen < 1 || klen > rest.len() {
                    None
                } else {
                    Some(RecordModel::Put(rest.take(klen), rest.skip(klen)))
                }
            }
        }
    } else {
        None
    }
}

/// Every character of `spec_digits(n)` is a decimal digit, and the digits
/// denote `n` itself.
pub proof fn lemma_digits(n: nat)
    ensures
        all_digits(spec_digits(n)),
        spec_digits(n).len() >= 1,
        spec_dec_value(spec_digits(n)) == n,
    decreases n,
{
    if n < 10 {
        assert(spec_digits(n) =~= seq![(48 + n) as u8]);
        assert(spec_dec_value(spec_digits(n)) == spec_dec_value(seq![(48 + n) as u8].drop_last())
            * 10 + (48 + n) - 48);
        assert(seq![(48 + n) as u8].drop_last() =~= Seq::<u8>::empty());
    } else {
        lemma_digits(n / 10);
        let d = spec_digits(n / 10);
        let whole = spec_digits(n);
        assert(whole == d.push((48 + n % 10) as u8));
        assert(whole.drop_last() =~= d);
        assert(whole.last() == (48 + n % 10) as u8);
        vstd::arithmetic::div_mod::lemma_fundamental_div_mod(n as int, 10);
        assert(spec_dec_value(whole) == (n / 10) * 10 + (n % 10));
        assert(all_digits(whole)) by {
            assert(forall|i: int| 0 <= i < d.len() ==> whole[i] == d[i]);
        }
    }
}

/// A digit string denotes a non-negative number.
pub proof fn lemma_dec_value_nonneg(s: Seq<u8>)
    requires
        all_digits(s),
    ensures
        spec_dec_value(s) >= 0,
    decreases s.len(),
{
    if s.len() > 0 {
        assert(all_digits(s.drop_last())) by {
            assert(forall|i: int| 0 <= i < s.len() - 1 ==> s.drop_last()[i] == s[i]);
        }
        lemma_dec_value_nonneg(s.drop_last());
        assert(is_digit(s.last()));
    }
}

/// Reading more digits never shrinks the denoted number.
pub proof fn lemma_dec_value_prefix(s: Seq<u8>, i: int)
    requires
        all_digits(s),
        0 <= i <= s.len(),
    ensures
        spec_dec_value(s.take(i)) <= spec_dec_value(s),
    decreases s.len() - i,
{
    if i == s.len() {
        assert(s.take(i) =~= s);
    } else {
        lemma_dec_value_prefix(s, i + 1);
        let t = s.take(i + 1);
        assert(all_digits(t)) by {
            assert(forall|j: int| 0 <= j < t.len() ==> t[j] == s[j]);
        }
        assert(t.drop_last() =~= s.take(i));
        lemma_dec_value_nonneg(s.take(i));
        assert(is_digit(t.last()));
        assert(spec_dec_value(t) == spec_dec_value(s.take(i)) * 10 + (t.last() - 48));
        assert(spec_dec_value(s.take(i)) <= spec_dec_value(s.take(i)) * 10 + (t.last() - 48));
    }
}

/// The encoding of a well-formed record holds the separator exactly once,
/// as its final byte.
pub proof fn lemma_encode_sep(r: RecordModel)
    requires
        wf_record(r),
    ensures
        spec_encode(r).len() >= 3,
        spec_encode(r).last() == RECORD_SEP,
        forall|i: int| 0 <= i < spec_encode(r).len() - 1 ==> spec_encode(r)[i] != RECORD_SEP,
        spec_encode(r).len() == spec_encode_line(r).len() + 1,
        !spec_encode_line(r).contains(RECORD_SEP),
{
    let line = spec_encode_line(r);
    match r {
        RecordModel::Put(k, v) => {
            lemma_digits(k.len());
            let d = spec_digits(k.len());
            assert(forall|i: int| 0 <= i < line.len() ==> line[i] != RECORD_SEP) by {
                assert forall|i: int| 0 <= i < line.len() implies line[i] != RECORD_SEP by {
                    if i == 0 {
                        assert(line[i] == TAG_SET);
                    } else if i < 1 + d.len() {
                        assert(line[i] == d[i - 1]);
                        assert(is_digit(d[i - 1]));
                    } else if i == 1 + d.len() {
                        assert(line[i] == LEN_SEP);
                    } else if i < 2 + d.len() + k.len() {
                        assert(line[i] == k[i - 2 - d.len()]);
                        assert(!k.contains(RECORD_SEP));
                        if line[i] == RECORD_SEP {
                            assert(k.contains(RECORD_SEP));
                        }
                    } else {
                        assert(line[i] == v[i - 2 - d.len() - k.len()]);
                        if line[i] == RECORD_SEP {
                            assert(v.contains(RECORD_SEP));
                        }
                    }
                }
            }
            if line.contains(RECORD_SEP) {
                let i = choose|i: int| 0 <= i < line.len() && line[i] == RECORD_SEP;
            }
        },
        RecordModel::Remove(k) => {
            assert(forall|i: int| 0 <= i < line.len() ==> line[i] != RECORD_SEP) by {
                assert forall|i: int| 0 <= i < line.len() implies line[i] != RECORD_SEP by {
                    if i == 0 {
                        assert(line[i] == TAG_REMOVE);
                    } else {
                        assert(line[i] == k[i - 1]);
                        if line[i] == RECORD_SEP {
                            assert(k.contains(RECORD_SEP));
                        }
                    }
                }
            }
            if line.contains(RECORD_SEP) {
                let i = choose|i: int| 0 <= i < line.len() && line[i] == RECORD_SEP;
            }
        },
    }
    assert(forall|i: int| 0 <= i < line.len() ==> spec_encode(r)[i] == line[i]);
}

/// Whether two byte slices hold the same bytes.
pub fn bytes_eq(a: &[u8], b: &[u8]) -> (r: bool)
    ensures
        r == (a@ == b@),
{
    if a.len() != b.len() {
        return false;
    }
    let mut i: usize = 0;
    while i < a.len()
        invariant
            0 <= i <= a@.len(),
            a@.len() == b@.len(),
            forall|j: int| 0 <= j < i ==> a@[j] == b@[j],
        decreases a@.len() - i,
    {
        if a[i] != b[i] {
            return false;
        }
        i += 1;
    }
    proof {
        assert(a@ =~= b@);
    }
    true
}

/// The index of the first occurrence of `b` in `data` at or after `from`.
pub fn find_byte_from(data: &[u8], from: usize, b: u8) -> (r: Option<usize>)
    requires
        from <= data@.len(),
    ensures
        match r {
            Some(i) => from <= i < data@.len() && data@[i as int] == b && (forall|j: int|
                from <= j < i ==> data@[j] != b),
            None => forall|j: int| from <= j < data@.len() ==> data@[j] != b,
        },
{
    let mut i: usize = from;
    while i < data.len()
        invariant
            from <= i <= data@.len(),
            forall|j: int| from <= j < i ==> data@[j] != b,
        decreases data@.len() - i,
    {
        if data[i] == b {
            return Some(i);
        }
        i += 1;
    }
    None
}

/// Whether `data` holds the byte `b` anywhere.
pub fn contains_byte(data: &[u8], b: u8) -> (r: bool)
    ensures
        r == data@.contains(b),
{
    match find_byte_from(data, 0, b) {
        Some(i) => {
            proof {
                assert(data@.contains(b));
            }
            true
        },
        None => {
            proof {
                if data@.contains(b) {
                    let i = choose|i: int| 0 <= i < data@.len() && data@[i] == b;
                }
            }
            false
        },
    }
}

/// A copy of `data[from..to]` as an owned vector.
pub fn copy_range(data: &[u8], from: usize, to: usize) -> (out: Vec<u8>)
    requires
        from <= to <= data@.len(),
    ensures
        out@ == data@.subrange(from as int, to as int),
{
    let mut out: Vec<u8> = Vec::new();
    let mut i: usize = from;
    while i < to
        invariant
            from <= i <= to <= data@.len(),
            out@ == data@.subrange(from as int, i as int),
        decreases to - i,
    {
        out.push(data[i]);
        proof {
            assert(out@ =~= data@.subrange(from as int, i + 1));
        }
        i += 1;
    }
    out
}

/// Appends the decimal digits of `n` to `out`.
fn push_digits(out: &mut Vec<u8>, n: usize)
    ensures
        final(out)@ == old(out)@ + spec_digits(n as nat),
    decreases n,
{
    let ghost entry = old(out)@;
    if n < 10 {
        out.push(48 + n as u8);
        proof {
            assert(out@ =~= entry + spec_digits(n as nat));
        }
    } else {
        push_digits(out, n / 10);
        out.push(48 + (n % 10) as u8);
        proof {
            assert(out@ =~= entry + spec_digits(n as nat));
        }
    }
}

/// Encodes a record into the bytes that are appended to a segment,
/// terminator included.
pub fn encode_record(r: &Record) -> (out: Vec<u8>)
    ensures
        out@ == spec_encode(r@),
{
    let mut out: Vec<u8> = Vec::new();
    match r {
        Record::Put(k, v) => {
            out.push(TAG_SET);
            push_digits(&mut out, k.len());
            out.push(LEN_SEP);
            out.extend_from_slice(k.as_slice());
            out.extend_from_slice(v.as_slice());
        },
        Record::Remove(k) => {
            out.push(TAG_REMOVE);
            out.extend_from_slice(k.as_slice());
        },
    }
    out.push(RECORD_SEP);
    proof {
        assert(out@ =~= spec_encode(r@));
    }
    out
}

/// Decodes one complete line (without its terminator); `None` names a
/// malformed record.
pub fn decode_record(line: &[u8]) -> (r: Option<Record>)
    ensures
        match r {
            Some(rec) => spec_decode_line(line@) == Some(rec@),
            None => spec_decode_line(line@) is None,
        },
{
    if line.len() < 2 {
        return None;
    }
    let tag = line[0];
    if tag == TAG_REMOVE {
        let k = copy_range(line, 1, line.len());
        proof {
            assert(k@ =~= line@.drop_first());
        }
        return Some(Record::Remove(k));
    }
    if tag != TAG_SET {
        return None;
    }
    let ghost body = line@.drop_first();
    let sp_line = match find_byte_from(line, 1, LEN_SEP) {
        Some(i) => i,
        None => {
            proof {
                lemma_find_byte(body, LEN_SEP);
                if body.contains(LEN_SEP) {
                    let i = choose|i: int| 0 <= i < body.len() && body[i] == LEN_SEP;
                    assert(line@[i + 1] == LEN_SEP);
                }
            }
            return None;
        },
    };
    proof {
        assert(forall|j: int| 0 <= j < sp_line - 1 ==> body[j] == line@[j + 1]);
        lemma_find_byte_at(body, LEN_SEP, sp_line - 1);
    }
    if sp_line < 2 {
        return None;
    }
    let ghost digits = body.take(sp_line - 1);
    let ghost rest = body.skip(sp_line as int);
    let rest_len = line.len() - sp_line - 1;
    proof {
        assert(rest.len() == rest_len);
    }
    // Parse the decimal key length; a non-digit is malformed, and a value
    // beyond the remaining length cannot name a key, so the parse stops
    // early without risking overflow.
    let mut acc: u128 = 0;
    let mut i: usize = 1;
    while i < sp_line
        invariant
            1 <= i <= sp_line,
            2 <= sp_line < line@.len(),
            line@.len() >= 2,
            line@[0] == TAG_SET,
            body == line@.drop_first(),
            find_byte(body, LEN_SEP) == sp_line - 1,
            digits == body.take(sp_line - 1),
            rest == body.skip(sp_line as int),
            rest_len == line@.len() - sp_line - 1,
            rest.len() == rest_len,
            all_digits(digits.take(i - 1)),
            acc == spec_dec_value(digits.take(i - 1)),
            acc <= rest_len,
        decreases sp_line - i,
    {
        let b = line[i];
        if b < 48 || b > 57 {
            proof {
                assert(digits[i - 1] == line@[i as int]);
                assert(!all_digits(digits));
            }
            return None;
        }
        proof {
            assert(digits.take(i as int).drop_last() =~= digits.take(i - 1));
            assert(digits.take(i as int).last() == line@[i as int]);
            assert(all_digits(digits.take(i as int))) by {
                assert(forall|j: int|
                    0 <= j < i - 1 ==> digits.take(i as int)[j] == digits.take(i - 1)[j]);
            }
        }
        acc = acc * 10 + ((b - 48) as u128);
        if acc > rest_len as u128 {
            proof {
                assert(spec_dec_value(digits.take(i as int)) == acc);
                if all_digits(digits) {
                    lemma_dec_value_prefix(digits, i as int);
                    assert(spec_dec_value(digits) > rest.len());
                }
            }
            return None;
        }
        i += 1;
    }
    proof {
        assert(digits.take(sp_line - 1) =~= digits);
    }
    let klen = acc as usize;
    if klen < 1 {
        return None;
    }
    let key = copy_range(line, sp_line + 1, sp_line + 1 + klen);
    let value = copy_range(line, sp_line + 1 + klen, line.len());
    proof {
        assert(key@ =~= rest.take(klen as int));
        assert(value@ =~= rest.skip(klen as int));
    }
    Some(Record::Put(key, value))
}

/// A record decoded from a line free of the separator is well-formed: its
/// key is non-empty and its key and value are parts of the line.
pub proof fn lemma_decode_wf(line: Seq<u8>, r: RecordModel)
    requires
        !line.contains(RECORD_SEP),
        spec_decode_line(line) == Some(r),
    ensures
        wf_record(r),
{
    assert(forall|i: int| 0 <= i < line.len() ==> line[i] != RECORD_SEP) by {
        assert forall|i: int| 0 <= i < line.len() implies line[i] != RECORD_SEP by {
            if line[i] == RECORD_SEP {
                assert(line.contains(RECORD_SEP));
            }
        }
    }
    match r {
        RecordModel::Put(k, v) => {
            let body = line.drop_first();
            let sp = find_byte(body, LEN_SEP);
            lemma_find_byte(body, LEN_SEP);
            assert(1 <= sp < body.len());
            let rest = body.skip(sp + 1);
            assert(rest.len() == body.len() - sp - 1);
            assert(forall|i: int| 0 <= i < body.len() ==> body[i] == line[i + 1]);
            assert(forall|i: int| 0 <= i < rest.len() ==> rest[i] == body[sp + 1 + i]);
            assert(forall|i: int| 0 <= i < rest.len() ==> rest[i] == line[sp + 2 + i]);
            assert(k == rest.take(spec_dec_value(body.take(sp))));
            assert(v == rest.skip(spec_dec_value(body.take(sp))));
            assert(forall|i: int| 0 <= i < k.len() ==> k[i] == rest[i]);
            let klen = spec_dec_value(body.take(sp));
            assert(forall|i: int| 0 <= i < v.len() ==> v[i] == rest[klen + i]);
            assert(!k.contains(RECORD_SEP)) by {
                if k.contains(RECORD_SEP) {
                    let i = choose|i: int| 0 <= i < k.len() && k[i] == RECORD_SEP;
                    assert(line[sp + 2 + i] == RECORD_SEP);
                }
            }
            assert(!v.contains(RECORD_SEP)) by {
                if v.contains(RECORD_SEP) {
                    let i = choose|i: int| 0 <= i < v.len() && v[i] == RECORD_SEP;
                    assert(line[sp + 2 + klen + i] == RECORD_SEP);
                }
            }
        },
        RecordModel::Remove(k) => {
            assert(k == line.drop_first());
            assert(forall|i: int| 0 <= i < k.len() ==> k[i] == line[i + 1]);
            assert(!k.contains(RECORD_SEP)) by {
                if k.contains(RECORD_SEP) {
                    let i = choose|i: int| 0 <= i < k.len() && k[i] == RECORD_SEP;
                    assert(line[i + 1] == RECORD_SEP);
                }
            }
        },
    }
}

/// Round trip: decoding the encoded line of a record with a non-empty key
/// gives the record back. The separator plays no part: a line is decoded
/// only after it has been cut out.
pub proof fn lemma_decode_encode(r: RecordModel)
    requires
        record_key(r).len() > 0,
    ensures
        spec_decode_line(spec_encode_line(r)) == Some(r),
{
    let line = spec_encode_line(r);
    match r {
        RecordModel::Put(k, v) => {
            lemma_digits(k.len());
            let d = spec_digits(k.len());
            let body = line.drop_first();
            assert(body =~= d + seq![LEN_SEP] + k + v);
            assert(body[d.len() as int] == LEN_SEP);
            assert(forall|j: int| 0 <= j < d.len() ==> body[j] == d[j]);
            assert(forall|j: int| 0 <= j < d.len() ==> is_digit(d[j]) && body[j] != LEN_SEP);
            lemma_find_byte_at(body, LEN_SEP, d.len() as int);
            assert(body.take(d.len() as int) =~= d);
            assert(body.skip(d.len() as int + 1) =~= k + v);
            let rest = body.skip(d.len() as int + 1);
            assert(spec_dec_value(d) == k.len());
            assert(rest.take(k.len() as int) =~= k);
            assert(rest.skip(k.len() as int) =~= v);
            assert(line[0] == TAG_SET);
            assert(line.len() >= 2);
        },
        RecordModel::Remove(k) => {
            assert(line[0] == TAG_REMOVE);
            assert(line.len() >= 2);
            assert(line.drop_first() =~= k);
        },
    }
}

} // verus!
