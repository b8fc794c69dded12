use bitcask::codec::encode;
use bitcask::error::DatastoreError;
use bitcask::keydir::{Keydir, KeydirEntry};
use bitcask::recovery::{replay_file, FileScan};
use bitcask::store::{value_from_record, Datastore, Segment};

/// The data files of a directory, kept in memory: identifier and bytes.
type Files = Vec<(u64, Vec<u8>)>;

fn open_files(files: &mut Files, now: u64) -> (Datastore, Vec<FileScan>) {
    let segments: Vec<Segment> = files
        .iter()
        .map(|(id, bytes)| Segment { id: *id, bytes: bytes.clone() })
        .collect();
    let (store, scans) = match Datastore::open(segments, now) {
        Ok(pair) => pair,
        Err(e) => panic!("open failed: {:?}", e),
    };
    files.push((store.active_file_id(), Vec::new()));
    (store, scans)
}

fn put(store: &mut Datastore, files: &mut Files, key: &[u8], value: &[u8], ts: u64) {
    let append = match store.insert(key.to_vec(), &value.to_vec(), ts) {
        Ok(a) => a,
        Err(e) => panic!("insert failed: {:?}", e),
    };
    let file = files.iter_mut().find(|f| f.0 == append.file_id).unwrap();
    assert_eq!(file.1.len() as u64, append.offset);
    file.1.extend_from_slice(&append.bytes);
}

fn get(store: &Datastore, files: &Files, key: &[u8]) -> Result<Option<Vec<u8>>, DatastoreError> {
    match store.locate(&key.to_vec()) {
        None => Ok(None),
        Some(span) => {
            let file = files.iter().find(|f| f.0 == span.file_id).unwrap();
            let start = span.offset as usize;
            let bytes = file.1[start..start + span.len as usize].to_vec();
            value_from_record(&key.to_vec(), &bytes).map(Some)
        }
    }
}

#[test]
fn read_your_write() {
    let mut files: Files = Vec::new();
    let (mut store, _) = open_files(&mut files, 100);
    put(&mut store, &mut files, b"k", b"v", 1);
    assert_eq!(get(&store, &files, b"k"), Ok(Some(b"v".to_vec())));
    assert_eq!(store.len(), 1);
}

#[test]
fn last_write_wins() {
    let mut files: Files = Vec::new();
    let (mut store, _) = open_files(&mut files, 100);
    put(&mut store, &mut files, b"k", b"v1", 1);
    put(&mut store, &mut files, b"k", b"v2", 2);
    assert_eq!(get(&store, &files, b"k"), Ok(Some(b"v2".to_vec())));
    assert_eq!(store.len(), 1);
}

#[test]
fn recovery_restores_latest_values() {
    let mut files: Files = Vec::new();
    let (mut store, _) = open_files(&mut files, 100);
    put(&mut store, &mut files, b"a", b"1", 1);
    put(&mut store, &mut files, b"b", b"2", 2);
    put(&mut store, &mut files, b"a", b"3", 3);
    drop(store);
    let (store, scans) = open_files(&mut files, 100);
    assert_eq!(store.active_file_id(), 101);
    assert_eq!(scans.len(), 1);
    assert_eq!(scans[0].records, 3);
    assert_eq!(get(&store, &files, b"a"), Ok(Some(b"3".to_vec())));
    assert_eq!(get(&store, &files, b"b"), Ok(Some(b"2".to_vec())));
    assert_eq!(get(&store, &files, b"c"), Ok(None));
    assert_eq!(store.len(), 2);
}

#[test]
fn later_file_wins_on_recovery() {
    let mut files: Files = Vec::new();
    let (mut store, _) = open_files(&mut files, 10);
    put(&mut store, &mut files, b"k", b"old", 1);
    let (mut store, _) = open_files(&mut files, 20);
    put(&mut store, &mut files, b"k", b"new", 2);
    drop(store);
    let (store, scans) = open_files(&mut files, 30);
    assert_eq!(scans.len(), 2);
    assert_eq!(scans[0].file_id, 10);
    assert_eq!(scans[1].file_id, 20);
    assert_eq!(get(&store, &files, b"k"), Ok(Some(b"new".to_vec())));
}

#[test]
fn truncated_tail_is_ignored() {
    let mut bytes = encode(1, &b"a".to_vec(), &b"1".to_vec());
    let partial = encode(2, &b"b".to_vec(), &b"22".to_vec());
    bytes.extend_from_slice(&partial[..partial.len() - 1]);
    let mut files: Files = vec![(5, bytes)];
    let (store, scans) = open_files(&mut files, 6);
    assert_eq!(scans[0].records, 1);
    assert_eq!(scans[0].corrupt, 0);
    assert!(scans[0].truncated_tail);
    assert_eq!(get(&store, &files, b"a"), Ok(Some(b"1".to_vec())));
    assert_eq!(get(&store, &files, b"b"), Ok(None));
}

#[test]
fn short_header_tail_is_ignored() {
    let mut bytes = encode(1, &b"a".to_vec(), &b"1".to_vec());
    bytes.extend_from_slice(&[0u8, 1, 2]);
    let mut files: Files = vec![(5, bytes)];
    let (store, scans) = open_files(&mut files, 6);
    assert!(scans[0].truncated_tail);
    assert_eq!(get(&store, &files, b"a"), Ok(Some(b"1".to_vec())));
}

#[test]
fn corrupt_interior_record_is_isolated() {
    let first = encode(1, &b"a".to_vec(), &b"1".to_vec());
    let mut middle = encode(2, &b"b".to_vec(), &b"2".to_vec());
    let last = encode(3, &b"c".to_vec(), &b"3".to_vec());
    let n = middle.len();
    middle[n - 1] ^= 0x10;
    let mut bytes = first.clone();
    bytes.extend_from_slice(&middle);
    bytes.extend_from_slice(&last);
    let mut files: Files = vec![(5, bytes)];
    let (store, scans) = open_files(&mut files, 6);
    assert_eq!(scans[0].records, 2);
    assert_eq!(scans[0].corrupt, 1);
    assert!(!scans[0].truncated_tail);
    assert_eq!(get(&store, &files, b"a"), Ok(Some(b"1".to_vec())));
    assert_eq!(get(&store, &files, b"b"), Ok(None));
    assert_eq!(get(&store, &files, b"c"), Ok(Some(b"3".to_vec())));
}

#[test]
fn corrupt_latest_record_is_skipped_on_recovery() {
    let older = encode(1, &b"k".to_vec(), &b"old".to_vec());
    let mut newer = encode(2, &b"k".to_vec(), &b"new".to_vec());
    let n = newer.len();
    newer[n - 1] ^= 0x01;
    let mut bytes = older;
    bytes.extend_from_slice(&newer);
    let mut files: Files = vec![(5, bytes)];
    let (store, scans) = open_files(&mut files, 6);
    assert_eq!(scans[0].corrupt, 1);
    // Recovery skips the damaged record, so the key keeps its last valid write.
    assert_eq!(get(&store, &files, b"k"), Ok(Some(b"old".to_vec())));
}

#[test]
fn late_corruption_surfaces_on_get() {
    let mut files: Files = Vec::new();
    let (mut store, _) = open_files(&mut files, 100);
    put(&mut store, &mut files, b"k", b"value", 1);
    let last = files[0].1.len() - 1;
    files[0].1[last] ^= 0x01;
    assert_eq!(get(&store, &files, b"k"), Err(DatastoreError::CorruptRecord));
}

#[test]
fn value_from_record_checks_key_and_length() {
    let rec = encode(1, &b"k".to_vec(), &b"v".to_vec());
    assert_eq!(value_from_record(&b"k".to_vec(), &rec), Ok(b"v".to_vec()));
    assert_eq!(value_from_record(&b"other".to_vec(), &rec), Err(DatastoreError::CorruptRecord));
    let mut longer = rec.clone();
    longer.push(0);
    assert_eq!(value_from_record(&b"k".to_vec(), &longer), Err(DatastoreError::CorruptRecord));
}

#[test]
fn example_scenario() {
    let mut files: Files = Vec::new();
    let (mut store, _) = open_files(&mut files, 1_700_000_000);
    assert_eq!(get(&store, &files, b"x"), Ok(None));
    put(&mut store, &mut files, b"x", b"1", 1_700_000_000);
    assert_eq!(get(&store, &files, b"x"), Ok(Some(b"1".to_vec())));
    put(&mut store, &mut files, b"x", b"2", 1_700_000_000);
    assert_eq!(get(&store, &files, b"x"), Ok(Some(b"2".to_vec())));
    drop(store);
    let (store, _) = open_files(&mut files, 1_700_000_000);
    assert_eq!(get(&store, &files, b"x"), Ok(Some(b"2".to_vec())));
}

#[test]
fn insert_reports_offsets() {
    let mut files: Files = Vec::new();
    let (mut store, _) = open_files(&mut files, 100);
    let a = store.insert(b"k".to_vec(), &b"v".to_vec(), 9).ok().unwrap();
    assert_eq!(a.file_id, 100);
    assert_eq!(a.offset, 0);
    assert_eq!(a.bytes, encode(9, &b"k".to_vec(), &b"v".to_vec()));
    let b = store.insert(b"k2".to_vec(), &b"v2".to_vec(), 9).ok().unwrap();
    assert_eq!(b.offset, a.bytes.len() as u64);
    assert_eq!(store.active_len(), (a.bytes.len() + b.bytes.len()) as u64);
}

#[test]
fn open_collision_at_largest_id() {
    let segments = vec![Segment { id: u64::MAX, bytes: Vec::new() }];
    assert!(matches!(
        Datastore::open(segments, 5),
        Err(DatastoreError::ActiveFileCollision)
    ));
}

fn active_id_for(ids: &[u64], now: u64) -> u64 {
    let segments: Vec<Segment> = ids.iter().map(|id| Segment { id: *id, bytes: Vec::new() }).collect();
    match Datastore::open(segments, now) {
        Ok((store, _)) => store.active_file_id(),
        Err(e) => panic!("open failed: {:?}", e),
    }
}

#[test]
fn active_id_follows_newest_file() {
    assert_eq!(active_id_for(&[], 50), 50);
    assert_eq!(active_id_for(&[10, 20], 50), 50);
    assert_eq!(active_id_for(&[10, 50], 50), 51);
    assert_eq!(active_id_for(&[10, 70], 50), 71);
}

#[test]
fn keydir_put_and_get() {
    let mut kd = Keydir::new();
    let e1 = KeydirEntry { file_id: 1, value_size: 2, value_pos: 21, timestamp: 5 };
    let e2 = KeydirEntry { file_id: 2, value_size: 3, value_pos: 40, timestamp: 6 };
    assert_eq!(kd.get(&b"k".to_vec()), None);
    kd.put(b"k".to_vec(), e1);
    kd.put(b"j".to_vec(), e1);
    kd.put(b"k".to_vec(), e2);
    assert_eq!(kd.get(&b"k".to_vec()), Some(e2));
    assert_eq!(kd.get(&b"j".to_vec()), Some(e1));
    assert_eq!(kd.len(), 2);
}

#[test]
fn replay_file_counts_records() {
    let mut bytes = encode(1, &b"a".to_vec(), &b"1".to_vec());
    bytes.extend(encode(2, &b"b".to_vec(), &b"2".to_vec()));
    let mut kd = Keydir::new();
    let scan = replay_file(&mut kd, 3, &bytes);
    assert_eq!(scan.file_id, 3);
    assert_eq!(scan.records, 2);
    assert_eq!(scan.corrupt, 0);
    assert!(!scan.truncated_tail);
    let e = kd.get(&b"b".to_vec()).unwrap();
    assert_eq!(e.file_id, 3);
    assert_eq!(e.value_size, 1);
    assert_eq!(e.value_pos, 22 + 20 + 1);
    assert_eq!(e.timestamp, 2);
}
