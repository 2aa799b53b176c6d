use borg_extract::segment::FramingError;
use borg_extract::segment::LogEntry;
use borg_extract::store::same_key;
use borg_extract::store::ObjectStore;

fn put_record(key: [u8; 32], data: &[u8]) -> Vec<u8> {
    let mut record = vec![0, 0, 0, 0];
    record.extend_from_slice(&(41 + data.len() as u32).to_le_bytes());
    record.push(0);
    record.extend_from_slice(&key);
    record.extend_from_slice(data);
    record
}

fn delete_record(key: [u8; 32]) -> Vec<u8> {
    let mut record = vec![0, 0, 0, 0];
    record.extend_from_slice(&41u32.to_le_bytes());
    record.push(1);
    record.extend_from_slice(&key);
    record
}

fn commit_record() -> Vec<u8> {
    vec![0, 0, 0, 0, 9, 0, 0, 0, 2]
}

fn segment_file(records: &[Vec<u8>]) -> Vec<u8> {
    let mut file = b"BORG_SEG".to_vec();
    for record in records {
        file.extend_from_slice(record);
    }
    file
}

#[test]
fn new_store_is_empty() {
    let store = ObjectStore::new();
    assert!(!store.contains(&[0; 32]));
    assert_eq!(store.get(&[0; 32]), None);
}

#[test]
fn put_then_get() {
    let mut store = ObjectStore::new();
    store.insert([1; 32], b"one".to_vec());
    store.insert([2; 32], b"two".to_vec());
    assert_eq!(store.get(&[1; 32]), Some(&b"one".to_vec()));
    assert_eq!(store.get(&[2; 32]), Some(&b"two".to_vec()));
    assert_eq!(store.get(&[3; 32]), None);
    assert!(store.contains(&[2; 32]));
}

#[test]
fn put_overwrites() {
    let mut store = ObjectStore::new();
    store.insert([1; 32], b"old".to_vec());
    store.insert([2; 32], b"other".to_vec());
    store.insert([1; 32], b"new".to_vec());
    assert_eq!(store.get(&[1; 32]), Some(&b"new".to_vec()));
    assert_eq!(store.get(&[2; 32]), Some(&b"other".to_vec()));
}

#[test]
fn remove_of_missing_key_is_no_error() {
    let mut store = ObjectStore::new();
    store.remove(&[1; 32]);
    store.insert([2; 32], b"two".to_vec());
    store.remove(&[1; 32]);
    assert_eq!(store.get(&[2; 32]), Some(&b"two".to_vec()));
}

#[test]
fn remove_keeps_the_other_keys() {
    let mut store = ObjectStore::new();
    for i in 0..10u8 {
        store.insert([i; 32], vec![i]);
    }
    store.remove(&[0; 32]);
    store.remove(&[4; 32]);
    store.remove(&[9; 32]);
    for i in 0..10u8 {
        if i == 0 || i == 4 || i == 9 {
            assert_eq!(store.get(&[i; 32]), None);
        } else {
            assert_eq!(store.get(&[i; 32]), Some(&vec![i]));
        }
    }
}

#[test]
fn keys_differ_in_any_byte() {
    let mut store = ObjectStore::new();
    let mut near = [5u8; 32];
    near[31] = 6;
    store.insert([5; 32], b"a".to_vec());
    store.insert(near, b"b".to_vec());
    assert_eq!(store.get(&[5; 32]), Some(&b"a".to_vec()));
    assert_eq!(store.get(&near), Some(&b"b".to_vec()));
    assert!(same_key(&near, &near));
    assert!(!same_key(&near, &[5; 32]));
}

#[test]
fn delete_erases() {
    let store = ObjectStore::replay(vec![
        LogEntry::Put { key: [42; 32], data: b"v1".to_vec() },
        LogEntry::Delete { key: [42; 32] },
        LogEntry::Commit,
    ]);
    assert!(!store.contains(&[42; 32]));
}

#[test]
fn delete_then_reput_across_segments() {
    let mut store = ObjectStore::new();
    let first = segment_file(&[put_record([42; 32], b"old")]);
    let second = segment_file(&[
        delete_record([42; 32]),
        put_record([42; 32], b"new"),
        commit_record(),
    ]);
    assert_eq!(store.replay_segment(first), Ok(()));
    assert_eq!(store.get(&[42; 32]), Some(&b"old".to_vec()));
    assert_eq!(store.replay_segment(second), Ok(()));
    assert_eq!(store.get(&[42; 32]), Some(&b"new".to_vec()));
}

#[test]
fn last_writer_wins() {
    let store = ObjectStore::replay(vec![
        LogEntry::Put { key: [1; 32], data: b"a".to_vec() },
        LogEntry::Put { key: [2; 32], data: b"x".to_vec() },
        LogEntry::Put { key: [1; 32], data: b"b".to_vec() },
        LogEntry::Commit,
        LogEntry::Delete { key: [2; 32] },
        LogEntry::Put { key: [1; 32], data: b"c".to_vec() },
    ]);
    assert_eq!(store.get(&[1; 32]), Some(&b"c".to_vec()));
    assert_eq!(store.get(&[2; 32]), None);
}

#[test]
fn entries_are_applied_in_order() {
    let forward = ObjectStore::replay(vec![
        LogEntry::Put { key: [1; 32], data: b"a".to_vec() },
        LogEntry::Delete { key: [1; 32] },
    ]);
    let backward = ObjectStore::replay(vec![
        LogEntry::Delete { key: [1; 32] },
        LogEntry::Put { key: [1; 32], data: b"a".to_vec() },
    ]);
    assert_eq!(forward.get(&[1; 32]), None);
    assert_eq!(backward.get(&[1; 32]), Some(&b"a".to_vec()));
}

#[test]
fn records_past_the_last_commit_count() {
    let store = ObjectStore::replay(vec![
        LogEntry::Commit,
        LogEntry::Put { key: [1; 32], data: b"late".to_vec() },
    ]);
    assert_eq!(store.get(&[1; 32]), Some(&b"late".to_vec()));
}

#[test]
fn apply_one_entry_at_a_time() {
    let mut store = ObjectStore::new();
    store.apply(LogEntry::Put { key: [3; 32], data: vec![1] });
    store.apply(LogEntry::Commit);
    assert_eq!(store.get(&[3; 32]), Some(&vec![1]));
    store.apply(LogEntry::Delete { key: [3; 32] });
    assert_eq!(store.get(&[3; 32]), None);
}

#[test]
fn unreadable_segment_leaves_the_store() {
    let mut store = ObjectStore::new();
    store.insert([1; 32], b"kept".to_vec());
    let mut bad = segment_file(&[put_record([1; 32], b"lost"), commit_record()]);
    let last = bad.len() - 1;
    bad[last] = 7;
    assert_eq!(store.replay_segment(bad), Err(FramingError::UnknownTag));
    assert_eq!(store.get(&[1; 32]), Some(&b"kept".to_vec()));
    assert_eq!(
        store.replay_segment(b"not a segment".to_vec()),
        Err(FramingError::NotASegment)
    );
}

#[test]
fn replay_twice_gives_the_same_store() {
    let files = vec![
        segment_file(&[put_record([1; 32], b"a"), put_record([2; 32], b"b")]),
        segment_file(&[delete_record([1; 32]), put_record([3; 32], b"c"), commit_record()]),
    ];
    let mut first = ObjectStore::new();
    let mut second = ObjectStore::new();
    for file in &files {
        assert_eq!(first.replay_segment(file.clone()), Ok(()));
    }
    for file in &files {
        assert_eq!(second.replay_segment(file.clone()), Ok(()));
    }
    for key in [[1u8; 32], [2; 32], [3; 32], [4; 32]] {
        assert_eq!(first.get(&key), second.get(&key));
    }
    assert_eq!(first.get(&[1; 32]), None);
    assert_eq!(first.get(&[3; 32]), Some(&b"c".to_vec()));
}
