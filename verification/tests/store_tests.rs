//! Tests of the log-structured store: the basic operations, durability
//! across a simulated directory, replay of hand-written segments, and
//! compaction.
use kvs::{DiskAction, KvStore, KvsError, Segment};

/// A tiny in-memory stand-in for the data directory: file bytes by
/// segment id, kept sorted by id as a real directory listing would be.
fn apply_actions(disk: &mut Vec<(u64, Vec<u8>)>, acts: Vec<DiskAction>) {
    for a in acts {
        match a {
            DiskAction::Create(id) => {
                disk.push((id, Vec::new()));
            }
            DiskAction::Append(id, bytes) => {
                let entry = disk.iter_mut().find(|p| p.0 == id).expect("append to a missing file");
                entry.1.extend_from_slice(&bytes);
            }
            DiskAction::Truncate(id, n) => {
                let entry = disk.iter_mut().find(|p| p.0 == id).expect("truncate of a missing file");
                entry.1.truncate(n);
            }
            DiskAction::Delete(id) => {
                disk.retain(|p| p.0 != id);
            }
        }
    }
    disk.sort_by_key(|p| p.0);
}

fn to_segments(disk: &[(u64, Vec<u8>)]) -> Vec<Segment> {
    disk.iter().map(|p| Segment { id: p.0, data: p.1.clone() }).collect()
}

fn fresh_store(disk: &mut Vec<(u64, Vec<u8>)>) -> KvStore {
    let mut store = KvStore::open_from(&to_segments(disk)).expect("open failed");
    apply_actions(disk, store.take_pending());
    store
}

#[test]
fn s1_set_then_get_and_missing_key() {
    let mut disk: Vec<(u64, Vec<u8>)> = Vec::new();
    let mut store = fresh_store(&mut disk);
    store.set("a".to_string(), "1".to_string()).unwrap();
    assert_eq!(store.get("a".to_string()).unwrap(), Some("1".to_string()));
    assert_eq!(store.get("b".to_string()).unwrap(), None);
}

#[test]
fn s2_overwrite_remove_and_remove_again() {
    let mut disk: Vec<(u64, Vec<u8>)> = Vec::new();
    let mut store = fresh_store(&mut disk);
    store.set("a".to_string(), "1".to_string()).unwrap();
    store.set("a".to_string(), "2".to_string()).unwrap();
    assert_eq!(store.get("a".to_string()).unwrap(), Some("2".to_string()));
    store.remove("a".to_string()).unwrap();
    assert_eq!(store.get("a".to_string()).unwrap(), None);
    assert_eq!(store.remove("a".to_string()), Err(KvsError::NotFound));
}

#[test]
fn s3_reopen_finds_both_keys() {
    let mut disk: Vec<(u64, Vec<u8>)> = Vec::new();
    let mut store = fresh_store(&mut disk);
    store.set("a".to_string(), "1".to_string()).unwrap();
    store.set("b".to_string(), "2".to_string()).unwrap();
    apply_actions(&mut disk, store.take_pending());
    drop(store);
    let mut reopened = fresh_store(&mut disk);
    assert_eq!(reopened.get("a".to_string()).unwrap(), Some("1".to_string()));
    assert_eq!(reopened.get("b".to_string()).unwrap(), Some("2".to_string()));
}

#[test]
fn s4_many_overwrites_compact_to_one_small_segment() {
    let mut disk: Vec<(u64, Vec<u8>)> = Vec::new();
    let mut store = fresh_store(&mut disk);
    for i in 1..=1000u32 {
        store
            .set("k".to_string(), format!("v_{}", i))
            .unwrap();
        apply_actions(&mut disk, store.take_pending());
    }
    assert_eq!(store.get("k".to_string()).unwrap(), Some("v_1000".to_string()));
    assert_eq!(store.segment_count(), 1);
    // One live record ("S1 kv_1000" and a terminator) is 11 bytes; the
    // directory may hold at most twice the minimal footprint.
    let total: usize = disk.iter().map(|p| p.1.len()).sum();
    assert!(total <= 22, "footprint {} exceeds twice the minimal size", total);
    let mut reopened = fresh_store(&mut disk);
    assert_eq!(reopened.get("k".to_string()).unwrap(), Some("v_1000".to_string()));
}

#[test]
fn removed_key_stays_gone_after_reopen() {
    let mut disk: Vec<(u64, Vec<u8>)> = Vec::new();
    let mut store = fresh_store(&mut disk);
    store.set("a".to_string(), "1".to_string()).unwrap();
    store.remove("a".to_string()).unwrap();
    apply_actions(&mut disk, store.take_pending());
    let reopened = fresh_store(&mut disk);
    assert_eq!(reopened.get("a".to_string()).unwrap(), None);
}

#[test]
fn reopening_twice_is_indistinguishable() {
    let mut disk: Vec<(u64, Vec<u8>)> = Vec::new();
    let mut store = fresh_store(&mut disk);
    store.set("x".to_string(), "1".to_string()).unwrap();
    store.set("y".to_string(), "2".to_string()).unwrap();
    store.remove("x".to_string()).unwrap();
    apply_actions(&mut disk, store.take_pending());
    let first = KvStore::open_from(&to_segments(&disk)).unwrap();
    let second = KvStore::open_from(&to_segments(&disk)).unwrap();
    for key in ["x", "y", "z"] {
        assert_eq!(
            first.get(key.to_string()).unwrap(),
            second.get(key.to_string()).unwrap()
        );
    }
}

#[test]
fn rejects_inputs_no_record_can_carry() {
    let mut disk: Vec<(u64, Vec<u8>)> = Vec::new();
    let mut store = fresh_store(&mut disk);
    assert_eq!(
        store.set("".to_string(), "v".to_string()),
        Err(KvsError::MalformedRecord)
    );
    assert_eq!(
        store.set("a\nb".to_string(), "v".to_string()),
        Err(KvsError::MalformedRecord)
    );
    assert_eq!(
        store.set("a".to_string(), "v\n".to_string()),
        Err(KvsError::MalformedRecord)
    );
    assert_eq!(store.get("a".to_string()).unwrap(), None);
}

#[test]
fn keys_that_look_like_the_record_form_still_work() {
    let mut disk: Vec<(u64, Vec<u8>)> = Vec::new();
    let mut store = fresh_store(&mut disk);
    store.set("12 ".to_string(), "S1 x".to_string()).unwrap();
    store.set("k with spaces".to_string(), "v v".to_string()).unwrap();
    apply_actions(&mut disk, store.take_pending());
    assert_eq!(store.get("12 ".to_string()).unwrap(), Some("S1 x".to_string()));
    let reopened = fresh_store(&mut disk);
    assert_eq!(reopened.get("12 ".to_string()).unwrap(), Some("S1 x".to_string()));
    assert_eq!(
        reopened.get("k with spaces".to_string()).unwrap(),
        Some("v v".to_string())
    );
}

#[test]
fn a_key_with_a_newline_is_never_bound() {
    let mut disk: Vec<(u64, Vec<u8>)> = Vec::new();
    let mut store = fresh_store(&mut disk);
    assert_eq!(
        store.set("a\nb".to_string(), "v".to_string()),
        Err(KvsError::MalformedRecord)
    );
    assert_eq!(store.get("a\nb".to_string()).unwrap(), None);
    assert_eq!(store.remove("a\nb".to_string()), Err(KvsError::NotFound));
}

#[test]
fn empty_value_round_trips() {
    let mut disk: Vec<(u64, Vec<u8>)> = Vec::new();
    let mut store = fresh_store(&mut disk);
    store.set("a".to_string(), "".to_string()).unwrap();
    assert_eq!(store.get("a".to_string()).unwrap(), Some("".to_string()));
}

#[test]
fn replay_applies_records_in_order() {
    let data = b"S1 a1\nS1 b2\nS1 a3\nRb\n".to_vec();
    let store = KvStore::open_from(&vec![Segment { id: 0, data }]).unwrap();
    assert_eq!(store.get("a".to_string()).unwrap(), Some("3".to_string()));
    assert_eq!(store.get("b".to_string()).unwrap(), None);
}

#[test]
fn replay_spans_segments_in_id_order() {
    let older = Segment { id: 3, data: b"S1 a1\n".to_vec() };
    let newer = Segment { id: 7, data: b"S1 a2\n".to_vec() };
    let store = KvStore::open_from(&vec![older, newer]).unwrap();
    assert_eq!(store.get("a".to_string()).unwrap(), Some("2".to_string()));
}

#[test]
fn corrupt_record_in_the_middle_refuses_to_open() {
    let data = b"S1 a1\nnot a record\nS1 b2\n".to_vec();
    match KvStore::open_from(&vec![Segment { id: 0, data }]) {
        Err(KvsError::Corrupt) => {}
        other => panic!("expected a corrupt store, got {:?}", other.is_ok()),
    }
}

#[test]
fn unterminated_tail_is_cut_off() {
    let mut disk: Vec<(u64, Vec<u8>)> = vec![(0, b"S1 a1\nS1 b".to_vec())];
    let mut store = KvStore::open_from(&to_segments(&disk)).unwrap();
    apply_actions(&mut disk, store.take_pending());
    assert_eq!(store.get("a".to_string()).unwrap(), Some("1".to_string()));
    assert_eq!(store.get("b".to_string()).unwrap(), None);
    assert_eq!(disk[0].1, b"S1 a1\n".to_vec());
    let reopened = fresh_store(&mut disk);
    assert_eq!(reopened.get("a".to_string()).unwrap(), Some("1".to_string()));
}

#[test]
fn stored_bytes_that_are_not_utf8_fail_a_get() {
    let mut data = b"S1 k".to_vec();
    data.push(0xff);
    data.push(b'\n');
    let store = KvStore::open_from(&vec![Segment { id: 0, data }]).unwrap();
    assert_eq!(store.get("k".to_string()), Err(KvsError::FromUtf8Error));
}

#[test]
fn compaction_keeps_every_live_binding() {
    let mut disk: Vec<(u64, Vec<u8>)> = Vec::new();
    let mut store = fresh_store(&mut disk);
    for i in 0..50u32 {
        store.set(format!("key{}", i % 5), format!("val{}", i)).unwrap();
    }
    store.compact();
    apply_actions(&mut disk, store.take_pending());
    assert_eq!(store.segment_count(), 1);
    for j in 0..5u32 {
        let want = format!("val{}", 45 + j);
        assert_eq!(store.get(format!("key{}", j)).unwrap(), Some(want));
    }
    let reopened = fresh_store(&mut disk);
    for j in 0..5u32 {
        let want = format!("val{}", 45 + j);
        assert_eq!(reopened.get(format!("key{}", j)).unwrap(), Some(want));
    }
}
