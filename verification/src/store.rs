//! The log-structured store: append-only segments mirrored in memory, an
//! index from each live key to the record that last set it, replay of the
//! segments at open, and online compaction.
//!
//! The store never touches the file system itself. It keeps a byte-exact
//! mirror of every segment file and reports, through [`KvStore::take_pending`],
//! the file operations the caller must apply to the data directory to keep
//! it equal to the mirror. Replaying the mirror always rebuilds the index,
//! which is what makes a clean close durable.
use vstd::prelude::*;
use crate::codec::{
    bytes_eq, contains_byte, copy_range, decode_record, encode_record, find_byte, find_byte_from,
    lemma_decode_encode, lemma_decode_wf, lemma_encode_sep, lemma_find_byte, lemma_find_byte_at,
    spec_decode_line, spec_encode, spec_encode_line, wf_record, Record, RecordModel, RECORD_SEP,
};
use crate::error::KvsError;
use crate::text::{bytes_to_string, lemma_encoding_separator, str_to_bytes};
use vstd::utf8::{encode_utf8, valid_utf8};

verus! {

/// One log segment: its numeric id and the bytes of its file. A segment's
/// file is named by its decimal id; larger ids are younger, and the caller
/// hands segments over in id order.
pub struct Segment {
    /// The segment's id; larger ids are younger.
    pub id: u64,
    /// The bytes of the segment's file.
    pub data: Vec<u8>,
}

/// The mathematical view of a segment.
#[verifier::ext_equal]
pub struct SegmentModel {
    pub id: u64,
    pub data: Seq<u8>,
}

impl View for Segment {
    type V = SegmentModel;

    open spec fn view(&self) -> SegmentModel {
        SegmentModel { id: self.id, data: self.data@ }
    }
}

/// The views of a sequence of segments.
pub open spec fn seg_views(segs: Seq<Segment>) -> Seq<SegmentModel> {
    segs.map_values(|s: Segment| s@)
}

/// One file operation that the caller must mirror onto the data directory,
/// in the order the operations are handed out.
pub enum DiskAction {
    /// Create the empty file of the segment with this id.
    Create(u64),
    /// Append these bytes to the file of the segment with this id and
    /// flush it.
    Append(u64, Vec<u8>),
    /// Cut the file of the segment with this id down to this many bytes.
    Truncate(u64, usize),
    /// Delete the file of the segment with this id.
    Delete(u64),
}

/// The mathematical view of a disk action.
pub enum DiskActionModel {
    Create(u64),
    Append(u64, Seq<u8>),
    Truncate(u64, int),
    Delete(u64),
}

impl View for DiskAction {
    type V = DiskActionModel;

    open spec fn view(&self) -> DiskActionModel {
        match self {
            DiskAction::Create(id) => DiskActionModel::Create(*id),
            DiskAction::Append(id, bytes) => DiskActionModel::Append(*id, bytes@),
            DiskAction::Truncate(id, n) => DiskActionModel::Truncate(*id, *n as int),
            DiskAction::Delete(id) => DiskActionModel::Delete(*id),
        }
    }
}

/// The views of a sequence of disk actions.
pub open spec fn act_views(acts: Seq<DiskAction>) -> Seq<DiskActionModel> {
    acts.map_values(|a: DiskAction| a@)
}

/// A directory as a mapping from segment id to file bytes.
pub type DiskModel = Map<u64, Seq<u8>>;

/// The directory contents described by a sequence of segments.
pub open spec fn disk_of(segs: Seq<SegmentModel>) -> DiskModel
    decreases segs.len(),
{
    if segs.len() == 0 {
        Map::empty()
    } else {
        disk_of(segs.drop_last()).insert(segs.last().id, segs.last().data)
    }
}

/// The effect of one disk action on a directory.
pub open spec fn apply_action(d: DiskModel, a: DiskActionModel) -> DiskModel {
    match a {
        DiskActionModel::Create(id) => d.insert(id, Seq::empty()),
        DiskActionModel::Append(id, bytes) => if d.contains_key(id) {
            d.insert(id, d[id] + bytes)
        } else {
            d
        },
        DiskActionModel::Truncate(id, n) => if d.contains_key(id) && 0 <= n <= d[id].len() {
            d.insert(id, d[id].take(n))
        } else {
            d
        },
        DiskActionModel::Delete(id) => d.remove(id),
    }
}

/// The effect of a sequence of disk actions, applied in order.
pub open spec fn apply_actions(d: DiskModel, acts: Seq<DiskActionModel>) -> DiskModel
    decreases acts.len(),
{
    if acts.len() == 0 {
        d
    } else {
        apply_action(apply_actions(d, acts.drop_last()), acts.last())
    }
}

/// Where a key's current value lives: the segment, the byte offset of the
/// owning record, and the value that record carries.
#[verifier::ext_equal]
pub struct Slot {
    pub sid: u64,
    pub off: int,
    pub value: Seq<u8>,
}

/// One in-memory index entry: a key and the location of the record that
/// last set it.
struct IndexEntry {
    key: Vec<u8>,
    sid: u64,
    off: usize,
}

/// The effect of one record, found at offset `off` of segment `sid`, on
/// the replayed index.
pub open spec fn apply_one(m: Map<Seq<u8>, Slot>, sid: u64, off: int, r: RecordModel) -> Map<
    Seq<u8>,
    Slot,
> {
    match r {
        RecordModel::Put(k, v) => m.insert(k, Slot { sid, off, value: v }),
        RecordModel::Remove(k) => m.remove(k),
    }
}

/// Replay of the bytes of one segment, starting at absolute offset `base`,
/// onto the index map `m`. A terminated line that does not decode makes the
/// whole segment corrupt (`None`); a trailing fragment with no terminator
/// is ignored.
pub open spec fn scan_apply(m: Map<Seq<u8>, Slot>, sid: u64, base: int, data: Seq<u8>) -> Option<
    Map<Seq<u8>, Slot>,
>
    decreases data.len(),
{
    if data.len() == 0 {
        Some(m)
    } else {
        let i = find_byte(data, RECORD_SEP);
        if i < 0 || i >= data.len() {
            Some(m)
        } else {
            match spec_decode_line(data.take(i)) {
                Option::None => None,
                Option::Some(r) => scan_apply(
                    apply_one(m, sid, base, r),
                    sid,
                    base + i + 1,
                    data.skip(i + 1),
                ),
            }
        }
    }
}

/// Replay of a sequence of segments, oldest first, from the empty index.
pub open spec fn replay(segs: Seq<SegmentModel>) -> Option<Map<Seq<u8>, Slot>>
    decreases segs.len(),
{
    if segs.len() == 0 {
        Some(Map::empty())
    } else {
        match replay(segs.drop_last()) {
            Option::None => None,
            Option::Some(m) => scan_apply(m, segs.last().id, 0, segs.last().data),
        }
    }
}

/// The replayed index, when replay succeeds.
pub open spec fn replay_map(segs: Seq<SegmentModel>) -> Map<Seq<u8>, Slot> {
    match replay(segs) {
        Option::Some(m) => m,
        Option::None => Map::empty(),
    }
}

/// A segment's bytes are a whole number of records: empty, or ending with
/// the record separator.
pub open spec fn clean(data: Seq<u8>) -> bool {
    data.len() == 0 || data.last() == RECORD_SEP
}

/// Segment ids strictly increase with position: sorted order is age order.
pub open spec fn seg_ids_sorted(segs: Seq<SegmentModel>) -> bool {
    forall|i: int, j: int| 0 <= i < j < segs.len() ==> segs[i].id < segs[j].id
}

/// The position of the segment with id `sid`, or `-1` when none has it.
pub open spec fn find_seg(segs: Seq<SegmentModel>, sid: u64) -> int
    decreases segs.len(),
{
    if segs.len() == 0 {
        -1
    } else if segs[0].id == sid {
        0
    } else {
        let r = find_seg(segs.drop_first(), sid);
        if r < 0 {
            -1
        } else {
            r + 1
        }
    }
}

/// What `find_seg` returns: a position holding `sid`, or `-1` when no
/// position does.
proof fn lemma_find_seg(segs: Seq<SegmentModel>, sid: u64)
    ensures
        find_seg(segs, sid) == -1 <==> (forall|i: int|
            0 <= i < segs.len() ==> segs[i].id != sid),
        find_seg(segs, sid) >= 0 ==> find_seg(segs, sid) < segs.len() && segs[find_seg(
            segs,
            sid,
        )].id == sid && (forall|j: int| 0 <= j < find_seg(segs, sid) ==> segs[j].id != sid),
    decreases segs.len(),
{
    if segs.len() == 0 {
    } else if segs[0].id == sid {
    } else {
        lemma_find_seg(segs.drop_first(), sid);
        let t = segs.drop_first();
        assert(forall|i: int| 0 <= i < t.len() ==> t[i] == segs[i + 1]);
        if find_seg(t, sid) == -1 {
            assert(forall|i: int| 0 <= i < segs.len() ==> segs[i].id != sid) by {
                assert(forall|i: int| 1 <= i < segs.len() ==> segs[i] == t[i - 1]);
            }
        } else {
            let r = find_seg(t, sid);
            assert(forall|j: int| 0 <= j < r + 1 ==> segs[j].id != sid) by {
                assert(forall|j: int| 1 <= j < r + 1 ==> segs[j] == t[j - 1]);
            }
        }
    }
}

/// When position `i` is the first holding id `sid`, `find_seg` returns `i`.
proof fn lemma_find_seg_at(segs: Seq<SegmentModel>, sid: u64, i: int)
    requires
        0 <= i < segs.len(),
        segs[i].id == sid,
        forall|j: int| 0 <= j < i ==> segs[j].id != sid,
    ensures
        find_seg(segs, sid) == i,
{
    lemma_find_seg(segs, sid);
    let r = find_seg(segs, sid);
    if r == -1 {
        assert(segs[i].id != sid);
    }
    if 0 <= r < i {
        assert(segs[r].id != sid);
    }
    if r > i {
        assert(segs[i].id != sid);
    }
}

/// Once a prefix of the segments replays to a corruption, the whole
/// sequence does.
proof fn lemma_replay_none(segs: Seq<SegmentModel>, i: int)
    requires
        0 <= i <= segs.len(),
        replay(segs.take(i)) is None,
    ensures
        replay(segs) is None,
    decreases segs.len() - i,
{
    if i == segs.len() {
        assert(segs.take(i) =~= segs);
    } else {
        assert(segs.take(i + 1).drop_last() =~= segs.take(i));
        assert(replay(segs.take(i + 1)) is None);
        lemma_replay_none(segs, i + 1);
    }
}

/// Two segment sequences with the same ids at the same positions are
/// searched alike.
proof fn lemma_find_seg_same_ids(a: Seq<SegmentModel>, b: Seq<SegmentModel>, sid: u64)
    requires
        a.len() == b.len(),
        forall|i: int| 0 <= i < a.len() ==> a[i].id == b[i].id,
    ensures
        find_seg(a, sid) == find_seg(b, sid),
    decreases a.len(),
{
    if a.len() == 0 {
    } else if a[0].id == sid {
    } else {
        assert(forall|i: int|
            0 <= i < a.len() - 1 ==> a.drop_first()[i].id == b.drop_first()[i].id) by {
            assert(forall|i: int| 0 <= i < a.len() - 1 ==> a.drop_first()[i] == a[i + 1]);
            assert(forall|i: int| 0 <= i < b.len() - 1 ==> b.drop_first()[i] == b[i + 1]);
        }
        lemma_find_seg_same_ids(a.drop_first(), b.drop_first(), sid);
    }
}

/// A terminated line of the given length sits at offset `off` of `data`
/// and decodes to the record `r`.
pub open spec fn record_at_len(data: Seq<u8>, off: int, len: int, r: RecordModel) -> bool {
    &&& 0 <= off
    &&& len >= 1
    &&& off + len <= data.len()
    &&& data[off + len - 1] == RECORD_SEP
    &&& forall|j: int| off <= j < off + len - 1 ==> data[j] != RECORD_SEP
    &&& spec_decode_line(data.subrange(off, off + len - 1)) == Some(r)
    &&& wf_record(r)
}

/// Some terminated line at offset `off` of `data` decodes to the record `r`.
pub open spec fn record_at(data: Seq<u8>, off: int, r: RecordModel) -> bool {
    exists|len: int| record_at_len(data, off, len, r)
}

/// A record that sits within a prefix still sits there when the data grows
/// or is cut back no further than the record's end.
proof fn lemma_record_at_extend(data: Seq<u8>, more: Seq<u8>, off: int, r: RecordModel)
    requires
        record_at(data, off, r),
    ensures
        record_at(data + more, off, r),
{
    let len = choose|len: int| record_at_len(data, off, len, r);
    let whole = data + more;
    assert((data + more).subrange(off, off + len - 1) =~= data.subrange(off, off + len - 1));
    assert(record_at_len(data + more, off, len, r));
}

/// The encoding of a well-formed record, placed at the end of `data`, is a
/// record at that offset.
proof fn lemma_record_at_encoded(data: Seq<u8>, r: RecordModel)
    requires
        wf_record(r),
    ensures
        record_at(data + spec_encode(r), data.len() as int, r),
{
    lemma_encode_sep(r);
    lemma_decode_encode(r);
    let e = spec_encode(r);
    let whole = data + e;
    let off = data.len() as int;
    let len = e.len() as int;
    assert(forall|j: int| off <= j < off + len ==> whole[j] == e[j - off]);
    assert(whole.subrange(off, off + len - 1) =~= spec_encode_line(r));
    assert(record_at_len(whole, off, len, r));
}

/// The slot of key `k` points into a present segment, at a record that
/// sets `k` to the slot's value.
pub open spec fn slot_valid(segs: Seq<SegmentModel>, k: Seq<u8>, s: Slot) -> bool {
    let si = find_seg(segs, s.sid);
    &&& 0 <= si < segs.len()
    &&& record_at(segs[si].data, s.off, RecordModel::Put(k, s.value))
}

/// Whether some entry of the index holds key `k`.
spec fn index_has(ix: Seq<IndexEntry>, k: Seq<u8>) -> bool {
    exists|i: int| 0 <= i < ix.len() && ix[i].key@ == k
}

/// The index agrees with the map `m`: entries have distinct keys, each
/// entry names a key of `m` at that key's slot, and every key of `m` has
/// an entry.
spec fn index_matches(ix: Seq<IndexEntry>, m: Map<Seq<u8>, Slot>) -> bool {
    &&& forall|i: int, j: int| 0 <= i < j < ix.len() ==> ix[i].key@ != ix[j].key@
    &&& forall|i: int|
        0 <= i < ix.len() ==> m.contains_key(#[trigger] ix[i].key@) && m[ix[i].key@].sid
            == ix[i].sid && m[ix[i].key@].off == ix[i].off
    &&& forall|k: Seq<u8>| #[trigger] m.contains_key(k) ==> index_has(ix, k)
}

/// An index that matches a map holds exactly the map's keys, once each:
/// the map has as many keys as the index has entries.
proof fn lemma_index_len(ix: Seq<IndexEntry>, m: Map<Seq<u8>, Slot>)
    requires
        index_matches(ix, m),
    ensures
        m.dom().finite(),
        m.len() == ix.len(),
{
    let keys = ix.map_values(|e: IndexEntry| e.key@);
    assert(forall|i: int| 0 <= i < ix.len() ==> keys[i] == ix[i].key@);
    assert(keys.no_duplicates()) by {
        assert forall|i: int, j: int|
            0 <= i < keys.len() && 0 <= j < keys.len() && i != j implies keys[i] != keys[j] by {
            if i < j {
                assert(ix[i].key@ != ix[j].key@);
            } else {
                assert(ix[j].key@ != ix[i].key@);
            }
        }
    }
    keys.unique_seq_to_set();
    assert(m.dom() =~= keys.to_set()) by {
        assert forall|k: Seq<u8>| #[trigger] m.dom().contains(k) implies keys.to_set().contains(
            k,
        ) by {
            assert(index_has(ix, k));
            let i = choose|i: int| 0 <= i < ix.len() && ix[i].key@ == k;
            assert(keys[i] == k);
            assert(keys.contains(k));
        }
        assert forall|k: Seq<u8>| #[trigger] keys.to_set().contains(k) implies m.dom().contains(
            k,
        ) by {
            let i = choose|i: int| 0 <= i < keys.len() && keys[i] == k;
            assert(m.contains_key(ix[i].key@));
        }
    }
}

/// The segment-level well-formedness of a store whose mirror is `segs`,
/// whose replayed index is `m`, and whose handed-out directory state plus
/// pending actions are `flushed` and `acts`: at least one segment, ids in
/// age order, every segment a whole number of records, replay succeeds and
/// gives `m`, every slot points at a record that sets its key, and the
/// pending actions carry the directory to the mirror.
spec fn core_inv(
    segs: Seq<SegmentModel>,
    m: Map<Seq<u8>, Slot>,
    flushed: DiskModel,
    acts: Seq<DiskActionModel>,
) -> bool {
    &&& segs.len() >= 1
    &&& seg_ids_sorted(segs)
    &&& (forall|i: int| 0 <= i < segs.len() ==> clean(#[trigger] segs[i].data))
    &&& replay(segs) == Some(m)
    &&& (forall|k: Seq<u8>| #[trigger] m.contains_key(k) ==> slot_valid(segs, k, m[k]))
    &&& apply_actions(flushed, acts) == disk_of(segs)
}

/// How many whole records the segment bytes hold.
pub open spec fn record_count(data: Seq<u8>) -> nat
    decreases data.len(),
{
    if data.len() == 0 {
        0
    } else {
        let i = find_byte(data, RECORD_SEP);
        if i < 0 || i >= data.len() {
            0
        } else {
            1 + record_count(data.skip(i + 1))
        }
    }
}

/// Appending one terminated line to a whole segment adds one record.
proof fn lemma_count_append(data: Seq<u8>, piece: Seq<u8>)
    requires
        clean(data),
        piece.len() >= 1,
        piece.last() == RECORD_SEP,
        forall|i: int| 0 <= i < piece.len() - 1 ==> piece[i] != RECORD_SEP,
    ensures
        record_count(data + piece) == record_count(data) + 1,
    decreases data.len(),
{
    let whole = data + piece;
    if data.len() == 0 {
        assert(whole =~= piece);
        lemma_find_byte_at(piece, RECORD_SEP, piece.len() - 1);
        assert(piece.skip(piece.len() - 1 + 1) =~= Seq::<u8>::empty());
        assert(record_count(Seq::<u8>::empty()) == 0);
        assert(record_count(data) == 0);
        assert(record_count(piece) == 1);
    } else {
        assert(data.last() == RECORD_SEP);
        assert(data.contains(RECORD_SEP));
        lemma_find_byte(data, RECORD_SEP);
        let i = find_byte(data, RECORD_SEP);
        assert(forall|j: int| 0 <= j < i ==> whole[j] == data[j]);
        assert(whole[i] == data[i]);
        lemma_find_byte_at(whole, RECORD_SEP, i);
        assert(whole.skip(i + 1) =~= data.skip(i + 1) + piece);
        assert(clean(data.skip(i + 1))) by {
            let rest = data.skip(i + 1);
            if rest.len() > 0 {
                assert(rest.last() == data.last());
            }
        }
        lemma_count_append(data.skip(i + 1), piece);
    }
}

/// Looks a key up among the index entries.
fn index_find_in(ix: &Vec<IndexEntry>, key: &[u8]) -> (r: Option<usize>)
    ensures
        match r {
            Option::Some(i) => i < ix@.len() && ix@[i as int].key@ == key@,
            Option::None => forall|i: int| 0 <= i < ix@.len() ==> ix@[i].key@ != key@,
        },
{
    let mut i: usize = 0;
    while i < ix.len()
        invariant
            0 <= i <= ix@.len(),
            forall|j: int| 0 <= j < i ==> ix@[j].key@ != key@,
        decreases ix@.len() - i,
    {
        if bytes_eq(ix[i].key.as_slice(), key) {
            return Some(i);
        }
        i += 1;
    }
    None
}

/// Binds `key` to the location `(sid, off)` in the index, replacing any
/// previous binding, and says whether one was replaced.
fn index_upsert(
    ix: &mut Vec<IndexEntry>,
    key: Vec<u8>,
    sid: u64,
    off: usize,
    Ghost(m): Ghost<Map<Seq<u8>, Slot>>,
    Ghost(slot): Ghost<Slot>,
) -> (existed: bool)
    requires
        index_matches(old(ix)@, m),
        slot.sid == sid,
        slot.off == off as int,
    ensures
        index_matches(final(ix)@, m.insert(key@, slot)),
        existed == m.contains_key(key@),
{
    let ghost m1 = m.insert(key@, slot);
    let ghost k0 = key@;
    match index_find_in(ix, key.as_slice()) {
        Some(i) => {
            proof {
                assert(m.contains_key(k0));
            }
            let e = &mut ix[i];
            e.sid = sid;
            e.off = off;
            proof {
                assert(forall|j: int| 0 <= j < ix@.len() && j != i ==> ix@[j] == old(ix)@[j]);
                assert(ix@[i as int].key@ == k0);
                assert(forall|a: int, b: int|
                    0 <= a < b < ix@.len() ==> ix@[a].key@ != ix@[b].key@) by {
                    assert(forall|j: int| 0 <= j < ix@.len() ==> ix@[j].key@ == old(ix)@[j].key@);
                }
                assert forall|j: int| 0 <= j < ix@.len() implies m1.contains_key(
                    #[trigger] ix@[j].key@,
                ) && m1[ix@[j].key@].sid == ix@[j].sid && m1[ix@[j].key@].off == ix@[j].off by {
                    if j == i {
                    } else {
                        assert(old(ix)@[j].key@ != old(ix)@[i as int].key@);
                    }
                }
                assert forall|k: Seq<u8>| #[trigger] m1.contains_key(k) implies index_has(
                    ix@,
                    k,
                ) by {
                    if k == k0 {
                        assert(ix@[i as int].key@ == k);
                    } else {
                        assert(m.contains_key(k));
                        let j = choose|j: int| 0 <= j < old(ix)@.len() && old(ix)@[j].key@ == k;
                        assert(ix@[j].key@ == k);
                    }
                }
            }
            true
        },
        None => {
            proof {
                assert(!m.contains_key(k0)) by {
                    if m.contains_key(k0) {
                        let j = choose|j: int|
                            0 <= j < old(ix)@.len() && old(ix)@[j].key@ == k0;
                    }
                }
            }
            ix.push(IndexEntry { key, sid, off });
            proof {
                let n = ix@.len() - 1;
                assert(forall|j: int| 0 <= j < n ==> ix@[j] == old(ix)@[j]);
                assert(ix@[n].key@ == k0);
                assert forall|k: Seq<u8>| #[trigger] m1.contains_key(k) implies index_has(
                    ix@,
                    k,
                ) by {
                    if k == k0 {
                        assert(ix@[n].key@ == k);
                    } else {
                        let j = choose|j: int| 0 <= j < old(ix)@.len() && old(ix)@[j].key@ == k;
                        assert(ix@[j].key@ == k);
                    }
                }
            }
            false
        },
    }
}

/// Unbinds `key` in the index, and says whether it was bound.
fn index_erase(
    ix: &mut Vec<IndexEntry>,
    key: &[u8],
    Ghost(m): Ghost<Map<Seq<u8>, Slot>>,
) -> (existed: bool)
    requires
        index_matches(old(ix)@, m),
    ensures
        index_matches(final(ix)@, m.remove(key@)),
        existed == m.contains_key(key@),
{
    let ghost k0 = key@;
    match index_find_in(ix, key) {
        Some(i) => {
            let ghost pre = ix@;
            let ghost last = ix@[ix@.len() - 1];
            ix.swap_remove(i);
            proof {
                assert(m.contains_key(k0));
                let n = pre.len() - 1;
                assert(ix@ =~= pre.update(i as int, pre[n]).drop_last());
                assert(forall|j: int| 0 <= j < n && j != i ==> ix@[j] == pre[j]);
                if (i as int) < n {
                    assert(ix@[i as int] == pre[n]);
                }
                assert forall|k: Seq<u8>| #[trigger] m.remove(k0).contains_key(k) implies index_has(
                    ix@,
                    k,
                ) by {
                    assert(m.contains_key(k) && k != k0);
                    let j = choose|j: int| 0 <= j < pre.len() && pre[j].key@ == k;
                    assert(j != i);
                    if j == n {
                        assert((i as int) < n);
                        assert(ix@[i as int].key@ == k);
                    } else {
                        assert(ix@[j].key@ == k);
                    }
                }
            }
            true
        },
        None => {
            proof {
                assert(!m.contains_key(k0)) by {
                    if m.contains_key(k0) {
                        let j = choose|j: int| 0 <= j < ix@.len() && ix@[j].key@ == k0;
                    }
                }
                assert(m.remove(k0) =~= m);
            }
            false
        },
    }
}

/// Appending one terminated, decodable line to a whole segment replays to
/// one more application of the decoded record, at the offset where the
/// line begins.
proof fn lemma_scan_append_line(
    m: Map<Seq<u8>, Slot>,
    sid: u64,
    base: int,
    data: Seq<u8>,
    piece: Seq<u8>,
    r: RecordModel,
    m1: Map<Seq<u8>, Slot>,
)
    requires
        clean(data),
        scan_apply(m, sid, base, data) == Some(m1),
        piece.len() >= 1,
        piece.last() == RECORD_SEP,
        forall|i: int| 0 <= i < piece.len() - 1 ==> piece[i] != RECORD_SEP,
        spec_decode_line(piece.drop_last()) == Some(r),
    ensures
        scan_apply(m, sid, base, data + piece) == Some(
            apply_one(m1, sid, base + data.len(), r),
        ),
        clean(data + piece),
    decreases data.len(),
{
    let whole = data + piece;
    assert(whole.last() == RECORD_SEP);
    if data.len() == 0 {
        assert(whole =~= piece);
        assert(m1 == m);
        lemma_find_byte_at(piece, RECORD_SEP, piece.len() - 1);
        let i = piece.len() - 1;
        assert(piece.take(i) =~= piece.drop_last());
        assert(spec_decode_line(piece.take(i)) == Some(r));
        let m2 = apply_one(m, sid, base, r);
        assert(piece.skip(i + 1) =~= Seq::<u8>::empty());
        assert(scan_apply(m2, sid, base + i + 1, piece.skip(i + 1)) == Some(m2));
        assert(scan_apply(m, sid, base, piece) == Some(m2));
    } else {
        assert(data.last() == RECORD_SEP);
        assert(data.contains(RECORD_SEP));
        lemma_find_byte(data, RECORD_SEP);
        let i = find_byte(data, RECORD_SEP);
        assert(0 <= i < data.len());
        assert(forall|j: int| 0 <= j < i ==> whole[j] == data[j]);
        assert(whole[i] == data[i]);
        lemma_find_byte_at(whole, RECORD_SEP, i);
        assert(whole.take(i) =~= data.take(i));
        let dec = spec_decode_line(data.take(i));
        assert(dec is Some) by {
            if dec is None {
                assert(scan_apply(m, sid, base, data) is None);
            }
        }
        let r0 = dec->Some_0;
        let m2 = apply_one(m, sid, base, r0);
        assert(scan_apply(m2, sid, base + i + 1, data.skip(i + 1)) == Some(m1));
        assert(whole.skip(i + 1) =~= data.skip(i + 1) + piece);
        assert(clean(data.skip(i + 1))) by {
            let rest = data.skip(i + 1);
            if rest.len() > 0 {
                assert(rest.last() == data.last());
            }
        }
        lemma_scan_append_line(m2, sid, base + i + 1, data.skip(i + 1), piece, r, m1);
        assert(base + i + 1 + data.skip(i + 1).len() == base + data.len());
        assert(scan_apply(m, sid, base, whole) == scan_apply(m2, sid, base + i + 1, whole.skip(i + 1)));
    }
}

/// Appending the encoding of a well-formed record to a whole segment
/// replays to one application of that record at the old end of the data.
proof fn lemma_scan_append(
    m: Map<Seq<u8>, Slot>,
    sid: u64,
    base: int,
    data: Seq<u8>,
    r: RecordModel,
    m1: Map<Seq<u8>, Slot>,
)
    requires
        clean(data),
        scan_apply(m, sid, base, data) == Some(m1),
        wf_record(r),
    ensures
        scan_apply(m, sid, base, data + spec_encode(r)) == Some(
            apply_one(m1, sid, base + data.len(), r),
        ),
        clean(data + spec_encode(r)),
    decreases data.len(),
{
    lemma_encode_sep(r);
    lemma_decode_encode(r);
    assert(spec_encode(r).drop_last() =~= spec_encode_line(r));
    lemma_scan_append_line(m, sid, base, data, spec_encode(r), r, m1);
}

/// A directory built from segments with distinct ids holds exactly those
/// segments' files.
proof fn lemma_disk_of(segs: Seq<SegmentModel>)
    requires
        forall|i: int, j: int| 0 <= i < j < segs.len() ==> segs[i].id != segs[j].id,
    ensures
        forall|id: u64| #[trigger]
            disk_of(segs).contains_key(id) <==> exists|i: int|
                0 <= i < segs.len() && segs[i].id == id,
        forall|i: int|
            0 <= i < segs.len() ==> disk_of(segs).contains_key(#[trigger] segs[i].id) && disk_of(
                segs,
            )[segs[i].id] == segs[i].data,
    decreases segs.len(),
{
    if segs.len() > 0 {
        let front = segs.drop_last();
        assert(forall|i: int| 0 <= i < front.len() ==> front[i] == segs[i]);
        lemma_disk_of(front);
        assert forall|id: u64| #[trigger] disk_of(segs).contains_key(id) implies exists|i: int|
            0 <= i < segs.len() && segs[i].id == id by {
            if id == segs.last().id {
                assert(segs[segs.len() - 1].id == id);
            } else {
                assert(disk_of(front).contains_key(id));
                let i = choose|i: int| 0 <= i < front.len() && front[i].id == id;
                assert(front[i] == segs[i]);
                assert(segs[i].id == id);
            }
        }
        assert forall|i: int| 0 <= i < segs.len() implies disk_of(segs).contains_key(
            #[trigger] segs[i].id,
        ) && disk_of(segs)[segs[i].id] == segs[i].data by {
            if i < segs.len() - 1 {
                assert(front[i] == segs[i]);
                assert(segs[i].id != segs.last().id);
            }
        }
    }
}

/// The persistent key-value store: a byte-exact mirror of its on-disk
/// segments, the in-memory index, the garbage counter that triggers
/// compaction, and the file operations not yet handed to the caller.
pub struct KvStore {
    segments: Vec<Segment>,
    index: Vec<IndexEntry>,
    garbage: u64,
    pending: Vec<DiskAction>,
    flushed: Ghost<DiskModel>,
}

impl KvStore {
    /// The views of the store's segment mirror, oldest first.
    pub closed spec fn segs(&self) -> Seq<SegmentModel> {
        seg_views(self.segments@)
    }

    /// Where each live key's current value lives.
    pub closed spec fn locs(&self) -> Map<Seq<u8>, Slot> {
        replay_map(self.segs())
    }

    /// The store's contents: the value bytes of each live key.
    pub closed spec fn kv(&self) -> Map<Seq<u8>, Seq<u8>> {
        self.locs().map_values(|s: Slot| s.value)
    }

    /// The directory contents after every action handed out so far has
    /// been applied to it.
    pub closed spec fn flushed_disk(&self) -> DiskModel {
        self.flushed@
    }

    /// The actions not yet handed out.
    pub closed spec fn pending_acts(&self) -> Seq<DiskActionModel> {
        act_views(self.pending@)
    }

    /// The store's invariant: at least one segment, ids in age order, every
    /// segment a whole number of records, replay of the mirror succeeds and
    /// is what the index holds, every indexed slot points at a record that
    /// sets its key, and the pending actions carry the directory to the
    /// mirror.
    pub closed spec fn inv(&self) -> bool {
        let segs = seg_views(self.segments@);
        let m = replay_map(segs);
        &&& core_inv(segs, m, self.flushed@, act_views(self.pending@))
        &&& index_matches(self.index@, m)
    }

    /// How many segments the store currently has.
    pub fn segment_count(&self) -> (n: usize)
        ensures
            n == self.segs().len(),
    {
        self.segments.len()
    }

    /// Reads the value bytes of the record at `(sid, off)`, the slot of
    /// the live key `k`.
    #[verifier::loop_isolation(false)]
    fn read_value(&self, sid: u64, off: usize, Ghost(k): Ghost<Seq<u8>>) -> (v: Vec<u8>)
        requires
            self.inv(),
            self.locs().contains_key(k),
            self.locs()[k].sid == sid,
            self.locs()[k].off == off as int,
        ensures
            v@ == self.locs()[k].value,
    {
        let ghost segs = self.segs();
        let ghost slot = self.locs()[k];
        let ghost target = find_seg(segs, sid);
        proof {
            assert(slot_valid(segs, k, slot));
            lemma_find_seg(segs, sid);
        }
        let n = self.segments.len();
        let mut si: usize = 0;
        while self.segments[si].id != sid
            invariant
                0 <= si <= target,
            decreases target - si,
        {
            proof {
                assert(segs[si as int].id != sid);
                assert((si as int) < target);
                assert(target < n as int);
            }
            si += 1;
        }
        proof {
            assert(segs[si as int].id == sid);
            assert(si as int == target) by {
                if (si as int) < target {
                    assert(segs[si as int].id != sid);
                }
            }
        }
        let seg = &self.segments[si];
        let ghost data = seg.data@;
        let ghost rec = RecordModel::Put(k, slot.value);
        let ghost len = choose|len: int| record_at_len(data, off as int, len, rec);
        proof {
            assert(record_at_len(data, off as int, len, rec));
        }
        let end = match find_byte_from(seg.data.as_slice(), off, RECORD_SEP) {
            Some(e) => e,
            None => {
                proof {
                    assert(data[off + len - 1] == RECORD_SEP);
                    assert(false);
                }
                0
            },
        };
        proof {
            assert(end == off + len - 1) by {
                if end < off + len - 1 {
                    assert(data[end as int] != RECORD_SEP);
                }
                if end > off + len - 1 {
                    assert(data[off + len - 1] != RECORD_SEP);
                }
            }
        }
        let line = copy_range(seg.data.as_slice(), off, end);
        proof {
            assert(line@ =~= data.subrange(off as int, off + len - 1));
            assert(spec_decode_line(line@) == Some(rec));
        }
        match decode_record(line.as_slice()) {
            Some(Record::Put(_, v)) => {
                proof {
                    assert(v@ == slot.value);
                }
                v
            },
            _ => {
                proof {
                    assert(false);
                }
                Vec::new()
            },
        }
    }

    /// Looks a key up: the value bound to it, `None` when it is unbound,
    /// or a failure when the stored value bytes are not a string.
    pub fn get(&self, key: String) -> (r: Result<Option<String>, KvsError>)
        requires
            self.inv(),
        ensures
            ({
                let kb = encode_utf8(key@);
                match r {
                    Result::Ok(Some(s)) => self.kv().contains_key(kb) && self.kv()[kb]
                        == encode_utf8(s@),
                    Result::Ok(None) => !self.kv().contains_key(kb),
                    Result::Err(e) => e == KvsError::FromUtf8Error && self.kv().contains_key(kb)
                        && !valid_utf8(self.kv()[kb]),
                }
            }),
    {
        let kb = str_to_bytes(key.as_str());
        match index_find_in(&self.index, kb.as_slice()) {
            None => {
                proof {
                    assert(!self.locs().contains_key(kb@)) by {
                        if self.locs().contains_key(kb@) {
                            let j = choose|j: int|
                                0 <= j < self.index@.len() && self.index@[j].key@ == kb@;
                        }
                    }
                }
                Ok(None)
            },
            Some(i) => {
                let entry_sid = self.index[i].sid;
                let entry_off = self.index[i].off;
                proof {
                    assert(self.locs().contains_key(kb@));
                }
                let vbytes = self.read_value(entry_sid, entry_off, Ghost(kb@));
                match bytes_to_string(vbytes) {
                    Some(s) => Ok(Some(s)),
                    None => Err(KvsError::FromUtf8Error),
                }
            },
        }
    }

    /// Hands out the file operations that carry the data directory from
    /// its last handed-out state to the current mirror, in order.
    pub fn take_pending(&mut self) -> (acts: Vec<DiskAction>)
        requires
            old(self).inv(),
        ensures
            final(self).inv(),
            final(self).segs() == old(self).segs(),
            final(self).locs() == old(self).locs(),
            final(self).kv() == old(self).kv(),
            act_views(acts@) == old(self).pending_acts(),
            final(self).pending_acts().len() == 0,
            apply_actions(old(self).flushed_disk(), act_views(acts@)) == disk_of(
                final(self).segs(),
            ),
            final(self).flushed_disk() == disk_of(final(self).segs()),
    {
        let mut acts: Vec<DiskAction> = Vec::new();
        core::mem::swap(&mut acts, &mut self.pending);
        self.flushed = Ghost(disk_of(seg_views(self.segments@)));
        proof {
            assert(act_views(self.pending@) =~= Seq::<DiskActionModel>::empty());
            assert(apply_actions(self.flushed@, act_views(self.pending@)) == self.flushed@);
        }
        acts
    }

    /// Rewrites the live records into one fresh segment and retires every
    /// old segment: the contents are unchanged, and the new segment holds
    /// exactly one record per live key. The new file is created and written
    /// before any old file is deleted, so a crash between the handed-out
    /// operations leaves a readable directory. When the segment ids are
    /// exhausted nothing happens; ids grow by one per compaction, so this
    /// is out of reach in practice.
    #[verifier::loop_isolation(false)]
    #[verifier::rlimit(100)]
    pub fn compact(&mut self)
        requires
            old(self).inv(),
        ensures
            final(self).inv(),
            final(self).kv() == old(self).kv(),
            final(self).flushed_disk() == old(self).flushed_disk(),
            old(self).segs().last().id < u64::MAX ==> final(self).segs().len() == 1
                && record_count(final(self).segs()[0].data) == final(self).locs().len(),
    {
        let last = self.segments.len() - 1;
        let last_id = self.segments[last].id;
        if last_id == u64::MAX {
            return ;
        }
        let new_id = last_id + 1;
        let ghost segs0 = self.segs();
        let ghost m = replay_map(segs0);
        proof {
            assert forall|l: int| 0 <= l < segs0.len() implies #[trigger] segs0[l].id
                <= last_id by {
                if l < segs0.len() - 1 {
                    assert(segs0[l].id < segs0[segs0.len() - 1].id);
                }
            }
        }

        // Rewrite one record per live key into the new segment's bytes.
        let mut new_data: Vec<u8> = Vec::new();
        let mut new_index: Vec<IndexEntry> = Vec::new();
        let ghost mut mnew = Map::<Seq<u8>, Slot>::empty();
        proof {
            assert(scan_apply(Map::<Seq<u8>, Slot>::empty(), new_id, 0, new_data@) == Some(mnew));
            assert(record_count(new_data@) == 0);
        }
        let mut i: usize = 0;
        while i < self.index.len()
            invariant
                0 <= i <= self.index@.len(),
                clean(new_data@),
                record_count(new_data@) == i as nat,
                scan_apply(Map::<Seq<u8>, Slot>::empty(), new_id, 0, new_data@) == Some(mnew),
                index_matches(new_index@, mnew),
                forall|k: Seq<u8>| #[trigger]
                    mnew.contains_key(k) <==> (exists|j: int|
                        0 <= j < i && self.index@[j].key@ == k),
                forall|k: Seq<u8>| #[trigger]
                    mnew.contains_key(k) ==> m.contains_key(k) && mnew[k].sid == new_id
                        && mnew[k].value == m[k].value && record_at(
                        new_data@,
                        mnew[k].off,
                        RecordModel::Put(k, m[k].value),
                    ),
            decreases self.index@.len() - i,
        {
            let entry_sid = self.index[i].sid;
            let entry_off = self.index[i].off;
            let ghost k = self.index@[i as int].key@;
            proof {
                assert(m.contains_key(k));
                assert(slot_valid(segs0, k, m[k]));
            }
            let vbytes = self.read_value(entry_sid, entry_off, Ghost(k));
            let kcopy = copy_range(self.index[i].key.as_slice(), 0, self.index[i].key.len());
            proof {
                assert(kcopy@ =~= k);
            }
            let rec = Record::Put(kcopy, vbytes);
            let ghost recv = rec@;
            let enc = encode_record(&rec);
            let off_new = new_data.len();
            let ghost nd0 = new_data@;
            let ghost mpre = mnew;
            new_data.extend_from_slice(enc.as_slice());
            proof {
                assert(new_data@ == nd0 + spec_encode(recv));
                assert(wf_record(recv));
                lemma_encode_sep(recv);
                lemma_count_append(nd0, spec_encode(recv));
                lemma_scan_append(Map::<Seq<u8>, Slot>::empty(), new_id, 0, nd0, recv, mpre);
                mnew = mpre.insert(k, Slot { sid: new_id, off: off_new as int, value: m[k].value });
                assert(apply_one(mpre, new_id, off_new as int, recv) == mnew);
                lemma_record_at_encoded(nd0, recv);
            }
            let kidx = match rec {
                Record::Put(k2, _) => k2,
                Record::Remove(k2) => k2,
            };
            let _ = index_upsert(
                &mut new_index,
                kidx,
                new_id,
                off_new,
                Ghost(mpre),
                Ghost(Slot { sid: new_id, off: off_new as int, value: m[k].value }),
            );
            proof {
                assert forall|kk: Seq<u8>| #[trigger] mnew.contains_key(kk) implies m.contains_key(
                    kk,
                ) && mnew[kk].sid == new_id && mnew[kk].value == m[kk].value && record_at(
                    new_data@,
                    mnew[kk].off,
                    RecordModel::Put(kk, m[kk].value),
                ) by {
                    if kk == k {
                    } else {
                        lemma_record_at_extend(
                            nd0,
                            spec_encode(recv),
                            mpre[kk].off,
                            RecordModel::Put(kk, m[kk].value),
                        );
                    }
                }
                assert forall|kk: Seq<u8>| #[trigger] mnew.contains_key(kk) implies (exists|j: int|
                    0 <= j < i + 1 && self.index@[j].key@ == kk) by {
                    if kk == k {
                        assert(self.index@[i as int].key@ == kk);
                    } else {
                        let j = choose|j: int| 0 <= j < i && self.index@[j].key@ == kk;
                    }
                }
                assert forall|kk: Seq<u8>|
                    (exists|j: int| 0 <= j < i + 1 && self.index@[j].key@ == kk) implies #[trigger]
                    mnew.contains_key(kk) by {
                    let j = choose|j: int| 0 <= j < i + 1 && self.index@[j].key@ == kk;
                    if j < i {
                        assert(mpre.contains_key(kk));
                    }
                }
            }
            i += 1;
        }

        // The new file is created and fully written first; the old files
        // are deleted only after it.
        let ghost flushed0 = self.flushed@;
        let data_copy = copy_range(new_data.as_slice(), 0, new_data.len());
        let ghost acts0 = act_views(self.pending@);
        let ghost d0 = apply_actions(self.flushed@, acts0);
        self.pending.push(DiskAction::Create(new_id));
        proof {
            let acts1 = act_views(self.pending@);
            assert(acts1 =~= acts0.push(DiskActionModel::Create(new_id)));
            assert(acts1.drop_last() =~= acts0);
            assert(apply_actions(self.flushed@, acts1) == d0.insert(new_id, Seq::<u8>::empty()));
        }
        let ghost acts1 = act_views(self.pending@);
        proof {
            assert(data_copy@ =~= new_data@);
        }
        self.pending.push(DiskAction::Append(new_id, data_copy));
        proof {
            let acts2 = act_views(self.pending@);
            assert(acts2 =~= acts1.push(DiskActionModel::Append(new_id, new_data@)));
            assert(acts2.drop_last() =~= acts1);
            assert(Seq::<u8>::empty() + new_data@ =~= new_data@);
            assert(apply_actions(self.flushed@, acts2) == d0.insert(new_id, new_data@));
            assert(segs0.take(segs0.len() as int) =~= segs0);
            assert(apply_actions(self.flushed@, acts2) == disk_of(
                segs0.take(segs0.len() as int),
            ).insert(new_id, new_data@));
        }
        let mut j: usize = self.segments.len();
        while j > 0
            invariant
                0 <= j <= segs0.len(),
                seg_views(self.segments@) == segs0,
                self.flushed@ == flushed0,
                apply_actions(self.flushed@, act_views(self.pending@)) == disk_of(
                    segs0.take(j as int),
                ).insert(new_id, new_data@),
            decreases j,
        {
            j = j - 1;
            let gone = self.segments[j].id;
            proof {
                assert(segs0[j as int].id == gone);
            }
            let ghost actsb = act_views(self.pending@);
            let ghost db = apply_actions(self.flushed@, actsb);
            self.pending.push(DiskAction::Delete(gone));
            proof {
                let actsa = act_views(self.pending@);
                assert(actsa =~= actsb.push(DiskActionModel::Delete(gone)));
                assert(actsa.drop_last() =~= actsb);
                assert(apply_actions(self.flushed@, actsa) == db.remove(gone));
                assert(segs0.take(j + 1).drop_last() =~= segs0.take(j as int));
                assert(segs0.take(j + 1).last() == segs0[j as int]);
                assert(disk_of(segs0.take(j + 1)) == disk_of(segs0.take(j as int)).insert(
                    gone,
                    segs0[j as int].data,
                ));
                assert(forall|a: int, b: int|
                    0 <= a < b < segs0.take(j as int).len() ==> segs0.take(j as int)[a].id
                        != segs0.take(j as int)[b].id);
                lemma_disk_of(segs0.take(j as int));
                assert(!disk_of(segs0.take(j as int)).contains_key(gone)) by {
                    if disk_of(segs0.take(j as int)).contains_key(gone) {
                        let l = choose|l: int|
                            0 <= l < segs0.take(j as int).len() && segs0.take(j as int)[l].id
                                == gone;
                        assert(segs0[l].id < segs0[j as int].id);
                    }
                }
                assert(gone != new_id);
                assert(db.remove(gone) =~= disk_of(segs0.take(j as int)).insert(
                    new_id,
                    new_data@,
                ));
            }
        }

        // Swap in the compacted state.
        let mut only: Vec<Segment> = Vec::new();
        only.push(Segment { id: new_id, data: new_data });
        self.segments = only;
        self.index = new_index;
        self.garbage = 0;
        proof {
            let segs1 = seg_views(self.segments@);
            assert(segs1 =~= seq![SegmentModel { id: new_id, data: new_data@ }]);
            assert(segs1.drop_last() =~= Seq::<SegmentModel>::empty());
            assert(replay(Seq::<SegmentModel>::empty()) == Some(Map::<Seq<u8>, Slot>::empty()));
            assert(replay(segs1) == Some(mnew));
            assert(segs0.take(0) =~= Seq::<SegmentModel>::empty());
            assert(disk_of(Seq::<SegmentModel>::empty()) == Map::<u64, Seq<u8>>::empty());
            assert(disk_of(segs1) =~= Map::<u64, Seq<u8>>::empty().insert(new_id, new_data@));
            assert(apply_actions(self.flushed@, act_views(self.pending@)) == disk_of(segs1));
            // every live key was rewritten, none invented
            assert forall|k: Seq<u8>| #[trigger] m.contains_key(k) implies mnew.contains_key(
                k,
            ) by {
                assert(index_has(old(self).index@, k));
                let jx = choose|jx: int|
                    0 <= jx < old(self).index@.len() && old(self).index@[jx].key@ == k;
            }
            assert forall|k: Seq<u8>| #[trigger] mnew.contains_key(k) implies slot_valid(
                segs1,
                k,
                mnew[k],
            ) by {
                assert(segs1[0].id == new_id);
                assert(find_seg(segs1, new_id) == 0);
            }
            assert(self.kv() =~= m.map_values(|s: Slot| s.value));
            assert(self.inv());
            // one record per live key: the counts agree
            lemma_index_len(old(self).index@, m);
            lemma_index_len(self.index@, mnew);
            assert(m.dom() =~= mnew.dom());
            assert(record_count(segs1[0].data) == self.locs().len());
        }
    }

    /// Appends one well-formed record to the active segment, leaves the
    /// matching file append pending, and returns the segment id and offset
    /// where the record begins. The caller owns the index update.
    #[verifier::rlimit(100)]
    fn append_record(&mut self, rec: Record, Ghost(m): Ghost<Map<Seq<u8>, Slot>>) -> (loc: (
        u64,
        usize,
    ))
        requires
            core_inv(
                seg_views(old(self).segments@),
                m,
                old(self).flushed@,
                act_views(old(self).pending@),
            ),
            wf_record(rec@),
        ensures
            core_inv(
                seg_views(final(self).segments@),
                apply_one(m, loc.0, loc.1 as int, rec@),
                final(self).flushed@,
                act_views(final(self).pending@),
            ),
            final(self).index == old(self).index,
            final(self).garbage == old(self).garbage,
            final(self).flushed == old(self).flushed,
    {
        let ghost segs1 = seg_views(self.segments@);
        let last = self.segments.len() - 1;
        let sid = self.segments[last].id;
        let off = self.segments[last].data.len();
        let ghost recv = rec@;
        let enc = encode_record(&rec);
        let enc2 = copy_range(enc.as_slice(), 0, enc.len());
        let ghost d_old = segs1.last().data;
        {
            let seg = &mut self.segments[last];
            seg.data.extend_from_slice(enc.as_slice());
        }
        self.pending.push(DiskAction::Append(sid, enc2));
        proof {
            let segs2 = seg_views(self.segments@);
            let m2 = apply_one(m, sid, off as int, recv);
            assert(segs2.len() == segs1.len());
            assert(forall|i: int| 0 <= i < segs1.len() - 1 ==> segs2[i] == segs1[i]);
            assert(segs2[segs1.len() - 1].id == sid);
            assert(segs2[segs1.len() - 1].data == d_old + spec_encode(recv));
            assert(segs2.drop_last() =~= segs1.drop_last());
            // replay of the extended mirror
            let mfront = match replay(segs1.drop_last()) {
                Option::Some(x) => x,
                Option::None => Map::empty(),
            };
            assert(replay(segs1.drop_last()) == Some(mfront));
            assert(scan_apply(mfront, sid, 0, d_old) == Some(m));
            assert(clean(d_old));
            lemma_scan_append(mfront, sid, 0, d_old, recv, m);
            assert(replay(segs2) == Some(m2));
            // ids and cleanliness
            assert(forall|i: int| 0 <= i < segs2.len() ==> segs2[i].id == segs1[i].id);
            assert(seg_ids_sorted(segs2));
            assert forall|i: int| 0 <= i < segs2.len() implies clean(
                #[trigger] segs2[i].data,
            ) by {
                if i < segs2.len() - 1 {
                    assert(segs2[i] == segs1[i]);
                }
            }
            // the last segment holds sid first among no other
            assert(forall|i: int, j: int| 0 <= i < j < segs1.len() ==> segs1[i].id != segs1[j].id);
            assert forall|l: int| 0 <= l < segs1.len() - 1 implies #[trigger] segs1[l].id
                != sid by {
                assert(segs1[l].id < segs1[segs1.len() - 1].id);
            }
            lemma_find_seg_at(segs2, sid, segs1.len() - 1);
            lemma_find_seg_at(segs1, sid, segs1.len() - 1);
            // every slot of the new map points at its record
            assert forall|k: Seq<u8>| #[trigger] m2.contains_key(k) implies slot_valid(
                segs2,
                k,
                m2[k],
            ) by {
                let fresh = match recv {
                    RecordModel::Put(pk, _) => k == pk,
                    RecordModel::Remove(_) => false,
                };
                if fresh {
                    lemma_record_at_encoded(d_old, recv);
                    assert(m2[k] == Slot {
                        sid,
                        off: off as int,
                        value: match recv {
                            RecordModel::Put(_, pv) => pv,
                            RecordModel::Remove(_) => Seq::empty(),
                        },
                    });
                } else {
                    assert(m.contains_key(k) && m2[k] == m[k]);
                    assert(slot_valid(segs1, k, m[k]));
                    lemma_find_seg_same_ids(segs1, segs2, m[k].sid);
                    lemma_find_seg(segs1, m[k].sid);
                    let si = find_seg(segs1, m[k].sid);
                    if si == segs1.len() - 1 {
                        assert(m[k].sid == sid);
                        lemma_record_at_extend(
                            d_old,
                            spec_encode(recv),
                            m[k].off,
                            RecordModel::Put(k, m[k].value),
                        );
                    } else {
                        assert(segs2[si] == segs1[si]);
                    }
                }
            }
            // the handed-out appends still carry the directory to the mirror
            let acts1 = act_views(old(self).pending@);
            let acts2 = act_views(self.pending@);
            assert(acts2 =~= acts1.push(DiskActionModel::Append(sid, spec_encode(recv)))) by {
                assert(enc2@ =~= spec_encode(recv));
            }
            assert(acts2.drop_last() =~= acts1);
            let d0 = apply_actions(self.flushed@, acts1);
            assert(d0 == disk_of(segs1));
            assert(forall|i: int, j: int| 0 <= i < j < segs2.len() ==> segs2[i].id != segs2[j].id);
            lemma_disk_of(segs1);
            assert(d0.contains_key(sid) && d0[sid] == d_old);
            assert(apply_actions(self.flushed@, acts2) == d0.insert(sid, d_old + spec_encode(recv)));
            assert(disk_of(segs2) == disk_of(segs2.drop_last()).insert(sid, d_old + spec_encode(recv)));
            assert(disk_of(segs1) == disk_of(segs1.drop_last()).insert(sid, d_old));
            assert(d0.insert(sid, d_old + spec_encode(recv)) =~= disk_of(segs2));
        }
        (sid, off)
    }

    /// Binds `key` to `value`, durably: the record is handed out for an
    /// append-and-flush before any later operation's actions. A key or
    /// value that no record can carry — an empty key, or a newline in
    /// either — is refused, and the store is unchanged. An overwrite
    /// counts as garbage, and when garbage outweighs a quarter of the live
    /// keys the store compacts itself first.
    #[verifier::rlimit(100)]
    pub fn set(&mut self, key: String, value: String) -> (r: Result<(), KvsError>)
        requires
            old(self).inv(),
        ensures
            final(self).inv(),
            final(self).flushed_disk() == old(self).flushed_disk(),
            ({
                let kb = encode_utf8(key@);
                let vb = encode_utf8(value@);
                if key@.len() > 0 && !key@.contains('\n') && !value@.contains('\n') {
                    r is Ok && final(self).kv() == old(self).kv().insert(kb, vb)
                } else {
                    r == Err::<(), KvsError>(KvsError::MalformedRecord) && final(self).kv() == old(self).kv()
                        && final(self).segs() == old(self).segs() && final(self).pending_acts()
                        == old(self).pending_acts()
                }
            }),
    {
        let kb = str_to_bytes(key.as_str());
        let vb = str_to_bytes(value.as_str());
        proof {
            lemma_encoding_separator(key@);
            lemma_encoding_separator(value@);
        }
        if kb.len() == 0 || contains_byte(kb.as_slice(), RECORD_SEP) || contains_byte(
            vb.as_slice(),
            RECORD_SEP,
        ) {
            return Err(KvsError::MalformedRecord);
        }
        let existed = match index_find_in(&self.index, kb.as_slice()) {
            Some(_) => true,
            None => false,
        };
        if existed {
            if self.garbage < u64::MAX {
                self.garbage = self.garbage + 1;
            }
        }
        if self.garbage > (self.index.len() as u64) / 4 {
            self.compact();
        }
        let ghost m1 = replay_map(seg_views(self.segments@));
        let ghost kv1 = self.kv();
        let kb2 = copy_range(kb.as_slice(), 0, kb.len());
        proof {
            assert(kb2@ =~= kb@);
        }
        let rec = Record::Put(kb, vb);
        let ghost recv = rec@;
        let loc = self.append_record(rec, Ghost(m1));
        let ghost slot = Slot { sid: loc.0, off: loc.1 as int, value: encode_utf8(value@) };
        let ghost m2 = m1.insert(encode_utf8(key@), slot);
        proof {
            assert(apply_one(m1, loc.0, loc.1 as int, recv) == m2);
        }
        let _ = index_upsert(&mut self.index, kb2, loc.0, loc.1, Ghost(m1), Ghost(slot));
        proof {
            assert(replay_map(seg_views(self.segments@)) == m2);
            assert(self.inv());
            assert(self.kv() =~= kv1.insert(encode_utf8(key@), encode_utf8(value@)));
        }
        Ok(())
    }

    /// Unbinds `key`: a tombstone record is appended and the index entry
    /// goes away, so a later lookup finds nothing. Removing a key that is
    /// not bound fails with `NotFound` and changes nothing.
    #[verifier::rlimit(100)]
    pub fn remove(&mut self, key: String) -> (r: Result<(), KvsError>)
        requires
            old(self).inv(),
        ensures
            final(self).inv(),
            final(self).flushed_disk() == old(self).flushed_disk(),
            ({
                let kb = encode_utf8(key@);
                if old(self).kv().contains_key(kb) {
                    r is Ok && final(self).kv() == old(self).kv().remove(kb)
                } else {
                    &&& r == Err::<(), KvsError>(KvsError::NotFound)
                    &&& final(self).kv() == old(self).kv()
                    &&& final(self).segs() == old(self).segs()
                    &&& final(self).pending_acts() == old(self).pending_acts()
                }
            }),
    {
        let kb = str_to_bytes(key.as_str());
        let found = match index_find_in(&self.index, kb.as_slice()) {
            Some(_) => true,
            None => false,
        };
        if !found {
            proof {
                assert(!self.locs().contains_key(kb@)) by {
                    if self.locs().contains_key(kb@) {
                        let j = choose|j: int|
                            0 <= j < self.index@.len() && self.index@[j].key@ == kb@;
                    }
                }
            }
            return Err(KvsError::NotFound);
        }
        if self.garbage < u64::MAX {
            self.garbage = self.garbage + 1;
        }
        let ghost m1 = replay_map(seg_views(self.segments@));
        let ghost kv1 = self.kv();
        proof {
            assert(m1.contains_key(kb@));
            assert(slot_valid(seg_views(self.segments@), kb@, m1[kb@]));
            assert(wf_record(RecordModel::Put(kb@, m1[kb@].value))) by {
                let si = find_seg(seg_views(self.segments@), m1[kb@].sid);
                let len = choose|len: int|
                    record_at_len(
                        seg_views(self.segments@)[si].data,
                        m1[kb@].off,
                        len,
                        RecordModel::Put(kb@, m1[kb@].value),
                    );
            }
        }
        let _ = index_erase(&mut self.index, kb.as_slice(), Ghost(m1));
        let rec = Record::Remove(kb);
        let ghost recv = rec@;
        let loc = self.append_record(rec, Ghost(m1));
        let ghost m2 = m1.remove(encode_utf8(key@));
        proof {
            assert(apply_one(m1, loc.0, loc.1 as int, recv) == m2);
            assert(replay_map(seg_views(self.segments@)) == m2);
            assert(self.inv());
            assert(self.kv() =~= kv1.remove(encode_utf8(key@)));
        }
        Ok(())
    }

    /// A store over a directory with no segment files yet: one empty
    /// segment `0`, whose file creation is left pending.
    fn fresh() -> (s: KvStore)
        ensures
            s.inv(),
            s.locs() == Map::<Seq<u8>, Slot>::empty(),
            s.flushed_disk() == Map::<u64, Seq<u8>>::empty(),
    {
        let mut mirror: Vec<Segment> = Vec::new();
        let index: Vec<IndexEntry> = Vec::new();
        let mut pending: Vec<DiskAction> = Vec::new();
        mirror.push(Segment { id: 0, data: Vec::new() });
        pending.push(DiskAction::Create(0));
        let store = KvStore {
            segments: mirror,
            index,
            garbage: 0,
            pending,
            flushed: Ghost(Map::empty()),
        };
        proof {
            let segs = seg_views(store.segments@);
            assert(segs =~= seq![SegmentModel { id: 0u64, data: Seq::<u8>::empty() }]);
            assert(segs.drop_last() =~= Seq::<SegmentModel>::empty());
            assert(segs.last().data.len() == 0);
            assert(replay(Seq::<SegmentModel>::empty()) == Some(Map::<Seq<u8>, Slot>::empty()));
            assert(scan_apply(Map::<Seq<u8>, Slot>::empty(), 0u64, 0, segs.last().data) == Some(
                Map::<Seq<u8>, Slot>::empty(),
            ));
            assert(replay(segs) == Some(Map::<Seq<u8>, Slot>::empty()));
            let acts = act_views(store.pending@);
            assert(acts =~= seq![DiskActionModel::Create(0u64)]);
            assert(acts.drop_last() =~= Seq::<DiskActionModel>::empty());
            assert(apply_actions(store.flushed@, acts.drop_last()) == store.flushed@);
            assert(disk_of(Seq::<SegmentModel>::empty()) == Map::<u64, Seq<u8>>::empty());
            assert(disk_of(segs) =~= Map::<u64, Seq<u8>>::empty().insert(0u64, Seq::<u8>::empty()));
            assert(apply_actions(store.flushed@, acts) =~= disk_of(segs));
            assert(store.inv());
        }
        store
    }

    /// Opens a store from the segment files of a data directory, handed in
    /// oldest first. An empty directory gets a fresh, empty segment `0`. A
    /// terminated record that does not decode makes the store corrupt; an
    /// unterminated trailing fragment is cut off, both from the mirror and,
    /// through a pending action, from the file.
    #[verifier::loop_isolation(false)]
    #[verifier::rlimit(100)]
    pub fn open_from(segments: &Vec<Segment>) -> (r: Result<KvStore, KvsError>)
        requires
            seg_ids_sorted(seg_views(segments@)),
        ensures
            match r {
                Result::Ok(s) => {
                    &&& s.inv()
                    &&& replay(seg_views(segments@)) is Some
                    &&& s.locs() == replay_map(seg_views(segments@))
                    &&& s.flushed_disk() == disk_of(seg_views(segments@))
                },
                Result::Err(e) => {
                    &&& e == KvsError::Corrupt
                    &&& replay(seg_views(segments@)) is None
                },
            },
    {
        let ghost input = seg_views(segments@);
        let mut mirror: Vec<Segment> = Vec::new();
        let mut index: Vec<IndexEntry> = Vec::new();
        let mut garbage: u64 = 0;
        let mut pending: Vec<DiskAction> = Vec::new();
        let ghost mut m = Map::<Seq<u8>, Slot>::empty();

        if segments.len() == 0 {
            let store = Self::fresh();
            proof {
                assert(input =~= Seq::<SegmentModel>::empty());
                assert(replay(input) == Some(Map::<Seq<u8>, Slot>::empty()));
                assert(store.locs() =~= replay_map(input));
                assert(disk_of(input) =~= Map::<u64, Seq<u8>>::empty());
            }
            return Ok(store);
        }

        proof {
            assert(act_views(pending@) =~= Seq::<DiskActionModel>::empty());
            assert(apply_actions(disk_of(input), act_views(pending@)) == disk_of(input));
            assert(forall|i: int, j: int|
                0 <= i < j < input.len() ==> input[i].id != input[j].id);
            lemma_disk_of(input);
            assert(input.take(0) =~= Seq::<SegmentModel>::empty());
            assert(seg_views(mirror@) =~= Seq::<SegmentModel>::empty());
            assert(replay(Seq::<SegmentModel>::empty()) == Some(m));
        }
        let mut si: usize = 0;
        while si < segments.len()
            invariant
                0 <= si <= segments@.len(),
                mirror@.len() == si,
                forall|i: int| 0 <= i < si ==> seg_views(mirror@)[i].id == input[i].id,
                forall|i: int| 0 <= i < si ==> clean(#[trigger] seg_views(mirror@)[i].data),
                replay(input.take(si as int)) == Some(m),
                replay(seg_views(mirror@)) == Some(m),
                index_matches(index@, m),
                forall|k: Seq<u8>| #[trigger]
                    m.contains_key(k) ==> slot_valid(seg_views(mirror@), k, m[k]),
                ({
                    let d = apply_actions(disk_of(input), act_views(pending@));
                    &&& (forall|id: u64| #[trigger]
                        d.contains_key(id) <==> disk_of(input).contains_key(id))
                    &&& (forall|i: int|
                        0 <= i < si ==> d[#[trigger] input[i].id] == seg_views(
                            mirror@,
                        )[i].data)
                    &&& (forall|i: int|
                        si <= i < input.len() ==> d[#[trigger] input[i].id] == input[i].data)
                }),
            decreases segments@.len() - si,
        {
            let seg_ref = &segments[si];
            let sid = seg_ref.id;
            let data = &seg_ref.data;
            proof {
                assert(input[si as int].id == sid);
                assert(input[si as int].data == data@);
            }
            let ghost m0 = m;
            let dlen: usize = data.len();
            let mut pos: usize = 0;
            proof {
                assert(data@.skip(0) =~= data@);
                assert(data@.take(0) =~= Seq::<u8>::empty());
                assert(scan_apply(m0, sid, 0, data@.take(0)) == Some(m));
            }
            #[verifier::loop_isolation(true)]
            loop
                invariant
                    input == seg_views(segments@),
                    si < segments@.len(),
                    input[si as int].id == sid,
                    input[si as int].data == data@,
                    replay(input.take(si as int)) == Some(m0),
                    data@.len() == dlen as int,
                    pos <= data@.len(),
                    scan_apply(m0, sid, 0, data@) == scan_apply(
                        m,
                        sid,
                        pos as int,
                        data@.skip(pos as int),
                    ),
                    scan_apply(m0, sid, 0, data@.take(pos as int)) == Some(m),
                    clean(data@.take(pos as int)),
                    index_matches(index@, m),
                    forall|k: Seq<u8>| #[trigger]
                        m.contains_key(k) ==> (slot_valid(seg_views(mirror@), k, m[k]) || (
                        m[k].sid == sid && m[k].off < pos && record_at(
                            data@.take(pos as int),
                            m[k].off,
                            RecordModel::Put(k, m[k].value),
                        ))),
                ensures
                    pos <= data@.len(),
                    scan_apply(m0, sid, 0, data@) == Some(m),
                    scan_apply(m0, sid, 0, data@.take(pos as int)) == Some(m),
                    clean(data@.take(pos as int)),
                    index_matches(index@, m),
                    forall|k: Seq<u8>| #[trigger]
                        m.contains_key(k) ==> (slot_valid(seg_views(mirror@), k, m[k]) || (
                        m[k].sid == sid && m[k].off < pos && record_at(
                            data@.take(pos as int),
                            m[k].off,
                            RecordModel::Put(k, m[k].value),
                        ))),
                decreases data@.len() - pos,
            {
                match find_byte_from(data.as_slice(), pos, RECORD_SEP) {
                    None => {
                        proof {
                            let rest = data@.skip(pos as int);
                            assert(forall|j: int|
                                0 <= j < rest.len() ==> rest[j] == data@[pos + j]);
                            assert(forall|j: int| 0 <= j < rest.len() ==> rest[j] != RECORD_SEP);
                            if rest.len() > 0 {
                                lemma_find_byte(rest, RECORD_SEP);
                                if rest.contains(RECORD_SEP) {
                                    let j = choose|j: int|
                                        0 <= j < rest.len() && rest[j] == RECORD_SEP;
                                }
                                assert(find_byte(rest, RECORD_SEP) == -1);
                            }
                            assert(scan_apply(m, sid, pos as int, rest) == Some(m));
                        }
                        break;
                    },
                    Some(end) => {
                        let line = copy_range(data.as_slice(), pos, end);
                        let ghost rest = data@.skip(pos as int);
                        proof {
                            assert(forall|j: int|
                                0 <= j < rest.len() ==> rest[j] == data@[pos + j]);
                            assert(rest[end - pos] == RECORD_SEP);
                            assert(forall|j: int| 0 <= j < end - pos ==> rest[j] != RECORD_SEP);
                            lemma_find_byte_at(rest, RECORD_SEP, end - pos);
                            assert(rest.take(end - pos) =~= line@);
                            assert(!line@.contains(RECORD_SEP)) by {
                                if line@.contains(RECORD_SEP) {
                                    let j = choose|j: int|
                                        0 <= j < line@.len() && line@[j] == RECORD_SEP;
                                }
                            }
                        }
                        match decode_record(line.as_slice()) {
                            None => {
                                proof {
                                    assert(scan_apply(m, sid, pos as int, rest) is None);
                                    assert(scan_apply(m0, sid, 0, data@) is None);
                                    assert(input.take(si as int + 1).drop_last() =~= input.take(
                                        si as int,
                                    ));
                                    assert(replay(input.take(si as int + 1)) is None);
                                    lemma_replay_none(input, si as int + 1);
                                }
                                return Err(KvsError::Corrupt);
                            },
                            Some(rec) => {
                                let ghost recv = rec@;
                                let ghost mprev = m;
                                let ghost piece = data@.subrange(pos as int, end + 1);
                                proof {
                                    lemma_decode_wf(line@, recv);
                                }
                                match rec {
                                    Record::Put(k, v) => {
                                        let ghost vv = v@;
                                        let existed = index_upsert(
                                            &mut index,
                                            k,
                                            sid,
                                            pos,
                                            Ghost(m),
                                            Ghost(Slot { sid, off: pos as int, value: vv }),
                                        );
                                        if existed {
                                            if garbage < u64::MAX {
                                                garbage = garbage + 1;
                                            }
                                        }
                                        proof {
                                            m = apply_one(m, sid, pos as int, recv);
                                        }
                                    },
                                    Record::Remove(k) => {
                                        let _ = index_erase(&mut index, k.as_slice(), Ghost(m));
                                        proof {
                                            m = apply_one(m, sid, pos as int, recv);
                                        }
                                    },
                                }
                                proof {
                                    assert(rest.skip(end - pos + 1) =~= data@.skip(end + 1));
                                    assert(scan_apply(mprev, sid, pos as int, rest) == scan_apply(
                                        m,
                                        sid,
                                        end + 1,
                                        data@.skip(end + 1),
                                    ));
                                    assert(piece.len() == end + 1 - pos);
                                    assert(piece.last() == RECORD_SEP);
                                    assert(forall|j: int|
                                        0 <= j < piece.len() - 1 ==> piece[j] != RECORD_SEP) by {
                                        assert(forall|j: int|
                                            0 <= j < piece.len() ==> piece[j] == data@[pos + j]);
                                    }
                                    assert(piece.drop_last() =~= line@);
                                    lemma_scan_append_line(
                                        m0,
                                        sid,
                                        0,
                                        data@.take(pos as int),
                                        piece,
                                        recv,
                                        mprev,
                                    );
                                    assert(data@.take(end + 1) =~= data@.take(pos as int) + piece);
                                    assert(scan_apply(m0, sid, 0, data@.take(end + 1)) == Some(m));
                                    // every old slot still points at its record
                                    assert forall|k: Seq<u8>| #[trigger]
                                        m.contains_key(k) implies (slot_valid(
                                        seg_views(mirror@),
                                        k,
                                        m[k],
                                    ) || (m[k].sid == sid && m[k].off < end + 1 && record_at(
                                        data@.take(end + 1),
                                        m[k].off,
                                        RecordModel::Put(k, m[k].value),
                                    ))) by {
                                        let fresh = match recv {
                                            RecordModel::Put(pk, _) => k == pk,
                                            RecordModel::Remove(_) => false,
                                        };
                                        if fresh {
                                            let pv = m[k].value;
                                            assert(m[k] == Slot {
                                                sid,
                                                off: pos as int,
                                                value: pv,
                                            });
                                            assert(record_at_len(
                                                data@.take(end + 1),
                                                pos as int,
                                                end + 1 - pos,
                                                RecordModel::Put(k, pv),
                                            )) by {
                                                assert(data@.take(end + 1).subrange(
                                                    pos as int,
                                                    end as int,
                                                ) =~= line@);
                                            }
                                        } else {
                                            assert(mprev.contains_key(k) && m[k] == mprev[k]);
                                            if !slot_valid(seg_views(mirror@), k, m[k]) {
                                                lemma_record_at_extend(
                                                    data@.take(pos as int),
                                                    piece,
                                                    m[k].off,
                                                    RecordModel::Put(k, m[k].value),
                                                );
                                            }
                                        }
                                    }
                                }
                                pos = end + 1;
                            },
                        }
                    },
                }
            }
            // The segment's whole records end at `pos`; anything after is an
            // unterminated fragment that is cut off.
            let trunc = copy_range(data.as_slice(), 0, pos);
            let ghost dpre = apply_actions(disk_of(input), act_views(pending@));
            let ghost acts_pre = act_views(pending@);
            proof {
                assert(forall|i: int, j: int|
                    0 <= i < j < input.len() ==> input[i].id != input[j].id);
                lemma_disk_of(input);
                assert(dpre[sid] == data@);
            }
            if pos < data.len() {
                pending.push(DiskAction::Truncate(sid, pos));
                proof {
                    let acts = act_views(pending@);
                    assert(acts =~= acts_pre.push(DiskActionModel::Truncate(sid, pos as int)));
                    assert(acts.drop_last() =~= acts_pre);
                    assert(apply_actions(disk_of(input), acts) == apply_action(
                        dpre,
                        DiskActionModel::Truncate(sid, pos as int),
                    ));
                    assert(apply_actions(disk_of(input), acts) == dpre.insert(
                        sid,
                        data@.take(pos as int),
                    ));
                }
            } else {
                proof {
                    assert(data@.take(pos as int) =~= data@);
                    assert(dpre.insert(sid, data@.take(pos as int)) =~= dpre);
                }
            }
            let ghost mirror_pre = seg_views(mirror@);
            mirror.push(Segment { id: sid, data: trunc });
            proof {
                let mirror_now = seg_views(mirror@);
                assert(mirror_now =~= mirror_pre.push(
                    SegmentModel { id: sid, data: data@.take(pos as int) },
                ));
                assert(mirror_now.drop_last() =~= mirror_pre);
                assert(replay(seg_views(mirror@)) == Some(m));
                assert(input.take(si as int + 1).drop_last() =~= input.take(si as int));
                assert(replay(input.take(si as int + 1)) == Some(m));
                // ids of the new mirror prefix
                assert(forall|i: int| 0 <= i < si + 1 ==> mirror_now[i].id == input[i].id);
                // slots in earlier segments are untouched; slots in this one
                // now point at the pushed segment
                assert forall|k: Seq<u8>| #[trigger] m.contains_key(k) implies slot_valid(
                    mirror_now,
                    k,
                    m[k],
                ) by {
                    if slot_valid(mirror_pre, k, m[k]) {
                        lemma_find_seg(mirror_pre, m[k].sid);
                        let j = find_seg(mirror_pre, m[k].sid);
                        assert(forall|l: int| 0 <= l < j ==> mirror_now[l] == mirror_pre[l]);
                        lemma_find_seg_at(mirror_now, m[k].sid, j);
                        assert(mirror_now[j] == mirror_pre[j]);
                    } else {
                        assert(m[k].sid == sid);
                        assert(forall|l: int| 0 <= l < si ==> mirror_now[l].id == input[l].id
                            && input[l].id < sid);
                        lemma_find_seg_at(mirror_now, sid, si as int);
                    }
                }
                // the directory after the pending actions: this segment's
                // file is now the truncated data, the rest is untouched
                let d = apply_actions(disk_of(input), act_views(pending@));
                assert(d == dpre.insert(sid, data@.take(pos as int)));
                assert forall|id: u64| #[trigger] d.contains_key(id) <==> disk_of(
                    input,
                ).contains_key(id) by {
                    assert(disk_of(input).contains_key(sid));
                }
                assert forall|i: int| 0 <= i < si + 1 implies d[#[trigger] input[i].id]
                    == mirror_now[i].data by {
                    if i < si {
                        assert(input[i].id != sid);
                        assert(mirror_now[i] == mirror_pre[i]);
                    }
                }
                assert forall|i: int| si + 1 <= i < input.len() implies d[#[trigger] input[i].id]
                    == input[i].data by {
                    assert(input[i].id != sid);
                }
            }
            si += 1;
        }
        let store = KvStore {
            segments: mirror,
            index,
            garbage,
            pending,
            flushed: Ghost(disk_of(input)),
        };
        proof {
            assert(input.take(si as int) =~= input);
            let segs = seg_views(store.segments@);
            assert(seg_ids_sorted(segs)) by {
                assert(forall|i: int, j: int|
                    0 <= i < j < segs.len() ==> segs[i].id == input[i].id && segs[j].id
                        == input[j].id && input[i].id < input[j].id);
            }
            assert(forall|i: int, j: int| 0 <= i < j < segs.len() ==> segs[i].id != segs[j].id);
            assert(forall|i: int, j: int|
                0 <= i < j < input.len() ==> input[i].id != input[j].id);
            lemma_disk_of(input);
            lemma_disk_of(segs);
            let d = apply_actions(disk_of(input), act_views(store.pending@));
            assert(d =~= disk_of(segs)) by {
                assert forall|id: u64| #[trigger] d.contains_key(id) implies disk_of(
                    segs,
                ).contains_key(id) by {
                    let i = choose|i: int| 0 <= i < input.len() && input[i].id == id;
                    assert(segs[i].id == id);
                }
                assert forall|id: u64| #[trigger] disk_of(segs).contains_key(id) implies d
                    .contains_key(id) by {
                    let i = choose|i: int| 0 <= i < segs.len() && segs[i].id == id;
                    assert(input[i].id == id);
                    assert(disk_of(input).contains_key(id));
                }
                assert forall|id: u64| #[trigger] d.contains_key(id) implies d[id] == disk_of(
                    segs,
                )[id] by {
                    let i = choose|i: int| 0 <= i < input.len() && input[i].id == id;
                    assert(d[input[i].id] == segs[i].data);
                    assert(disk_of(segs)[segs[i].id] == segs[i].data);
                }
            }
            assert(store.inv());
            assert(store.locs() == replay_map(seg_views(segments@)));
        }
        Ok(store)
    }
}

/// `set(k, v)` then `get(k)` finds exactly `v`: after the insert the key
/// is bound, its value bytes are the encoding of `v`, and they decode to
/// `v` alone — so `get`'s contract admits only `Ok(Some(v))`.
pub proof fn lemma_set_then_get(m: Map<Seq<u8>, Seq<u8>>, k: Seq<char>, v: Seq<char>)
    ensures
        ({
            let m1 = m.insert(encode_utf8(k), encode_utf8(v));
            &&& m1.contains_key(encode_utf8(k))
            &&& m1[encode_utf8(k)] == encode_utf8(v)
            &&& valid_utf8(m1[encode_utf8(k)])
            &&& vstd::utf8::decode_utf8(m1[encode_utf8(k)]) == v
        }),
{
    broadcast use vstd::utf8::group_utf8_lib;

}

/// The later of two sets of one key wins: binding `k` to `v1` and then to
/// `v2` is the same as binding it to `v2` alone, so `get(k)` finds `v2`.
pub proof fn lemma_set_twice(m: Map<Seq<u8>, Seq<u8>>, k: Seq<char>, v1: Seq<char>, v2: Seq<char>)
    ensures
        m.insert(encode_utf8(k), encode_utf8(v1)).insert(encode_utf8(k), encode_utf8(v2))
            == m.insert(encode_utf8(k), encode_utf8(v2)),
{
    assert(m.insert(encode_utf8(k), encode_utf8(v1)).insert(encode_utf8(k), encode_utf8(v2))
        =~= m.insert(encode_utf8(k), encode_utf8(v2)));
}

/// A set of `k` followed by a remove of `k` leaves `k` unbound — `get(k)`
/// finds nothing — and every other key exactly as it was.
pub proof fn lemma_set_then_remove(m: Map<Seq<u8>, Seq<u8>>, k: Seq<char>, v: Seq<char>)
    ensures
        !m.insert(encode_utf8(k), encode_utf8(v)).remove(encode_utf8(k)).contains_key(
            encode_utf8(k),
        ),
        m.insert(encode_utf8(k), encode_utf8(v)).remove(encode_utf8(k)) == m.remove(
            encode_utf8(k),
        ),
{
    assert(m.insert(encode_utf8(k), encode_utf8(v)).remove(encode_utf8(k)) =~= m.remove(
        encode_utf8(k),
    ));
}

impl KvStore {
    /// The store's contents are exactly the values of its locations: the
    /// two views have the same keys, and each key's content is its
    /// location's value.
    pub proof fn lemma_kv_is_locs(&self)
        ensures
            self.kv() == self.locs().map_values(|s: Slot| s.value),
            self.kv().dom() == self.locs().dom(),
            forall|k: Seq<u8>| #[trigger]
                self.kv().contains_key(k) <==> self.locs().contains_key(k),
    {
        assert(self.kv().dom() =~= self.locs().dom());
    }

    /// Durability after a clean close: the segment mirror — which the
    /// handed-out file operations carry the directory to — replays exactly
    /// to the store's own contents, so a later open finds every binding.
    pub proof fn lemma_reopen(&self)
        requires
            self.inv(),
        ensures
            replay(self.segs()) is Some,
            replay_map(self.segs()) == self.locs(),
            seg_ids_sorted(self.segs()),
    {
    }

    /// Replay is a function of the durable record stream alone: two
    /// well-formed stores over equal segment bytes hold equal locations
    /// and equal contents, so opening twice without mutation tells them
    /// apart in no way.
    pub proof fn lemma_open_deterministic(&self, other: &KvStore)
        requires
            self.inv(),
            other.inv(),
            self.segs() == other.segs(),
        ensures
            self.locs() == other.locs(),
            self.kv() == other.kv(),
    {
    }

    /// Every live key's location names a present segment and a terminated
    /// line there that decodes to a record binding exactly that key to the
    /// store's value for it.
    pub proof fn lemma_location_points_to_put(&self, k: Seq<u8>)
        requires
            self.inv(),
            self.locs().contains_key(k),
        ensures
            slot_valid(self.segs(), k, self.locs()[k]),
            record_at(
                self.segs()[find_seg(self.segs(), self.locs()[k].sid)].data,
                self.locs()[k].off,
                RecordModel::Put(k, self.locs()[k].value),
            ),
            self.kv().contains_key(k) && self.kv()[k] == self.locs()[k].value,
    {
    }
}

impl crate::engine::KvsEngine for KvStore {
    closed spec fn kv(&self) -> Map<Seq<u8>, Seq<u8>> {
        KvStore::kv(self)
    }

    closed spec fn wf(&self) -> bool {
        KvStore::inv(self)
    }

    fn set(&mut self, key: String, value: String) -> (r: Result<(), KvsError>) {
        KvStore::set(self, key, value)
    }

    fn get(&mut self, key: String) -> (r: Result<Option<String>, KvsError>) {
        KvStore::get(&*self, key)
    }

    fn remove(&mut self, key: String) -> (r: Result<(), KvsError>) {
        KvStore::remove(self, key)
    }
}

} // verus!
