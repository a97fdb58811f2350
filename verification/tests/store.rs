use rumdb::errors::{FormatError, StorageError};
use rumdb::format::{DiskEntry, Header, KeydirEntry};
use rumdb::keydir::{HashmapKeydir, Keydir, KeydirDefault};
use rumdb::names::{format_log_file_name, parse_log_file_name};
use rumdb::replay::LogSegment;
use rumdb::storage::{DiskStorage, Storage};
use rumdb::{DbOptions, RumDb};

use rand::RngExt;

fn header_test(header: Header) {
    let data: Vec<u8> = header.as_slice().to_vec();
    let deserialized_header = Header::try_from_bytes(data.as_slice()).unwrap();

    assert_eq!(header, deserialized_header);
}

fn random_header() -> Header {
    let mut rng = rand::rng();

    Header::new(rng.random(), rng.random(), rng.random())
}

#[test]
fn it_should_serialize_header() {
    let tests = [
        Header::new(10, 10, 10),
        Header::new(0, 0, 0),
        Header::new(10000, 10000, 10000),
    ];

    for test in tests {
        header_test(test);
    }
}

#[test]
fn it_should_serialize_header_random() {
    for _ in 0..100 {
        header_test(random_header())
    }
}

#[test]
fn it_should_decode_header_fields() {
    let header = Header::new(7, 3, 9);
    assert_eq!(header.timestamp(), 7);
    assert_eq!(header.key_size(), 3);
    assert_eq!(header.value_size(), 9);
    assert_eq!(header.as_slice(), &[7, 0, 0, 0, 3, 0, 0, 0, 9, 0, 0, 0]);
}

#[test]
fn it_should_reject_short_header() {
    let r = Header::try_from_bytes(&[1, 2, 3]);
    assert!(matches!(r, Err(FormatError::DeserializeError)));
    let r = Header::try_from_bytes(&[0; 13]);
    assert!(matches!(r, Err(FormatError::DeserializeError)));
}

#[test]
fn it_should_create_disk_entry() {
    let entry = DiskEntry::new(b"hello", b"world");

    assert_eq!(entry.header.key_size(), 5);
    assert_eq!(entry.header.value_size(), 5);
}

fn test_keydir(mut keydir: impl Keydir) {
    assert_eq!(keydir.get(b"hello"), None);

    let entry = KeydirEntry::new(0, 1, 2, 3);

    keydir.put(b"hello".to_vec(), entry.clone());

    assert_eq!(keydir.get(b"hello"), Some(&entry));
}

#[test]
fn hashmap_keydir_should_implement_keydir() {
    test_keydir(HashmapKeydir::default());
}

#[test]
fn hashmap_keydir_should_update_and_remove() {
    let mut keydir = HashmapKeydir::default_keydir();
    let first = KeydirEntry::new(0, 5, 12, 1);
    let second = KeydirEntry::new(1, 6, 30, 2);

    assert_eq!(keydir.put(b"k".to_vec(), first), None);
    assert_eq!(keydir.put(b"k".to_vec(), second), Some(first));
    assert_eq!(keydir.get(b"k"), Some(&second));

    keydir.remove(b"k");
    assert_eq!(keydir.get(b"k"), None);

    let listed = keydir.iter();
    assert_eq!(listed.len(), 0);
}

fn copy_segments(db: &RumDb) -> Vec<LogSegment> {
    db.segments()
        .iter()
        .map(|s| LogSegment { id: s.id, data: s.data.clone() })
        .collect()
}

#[test]
fn disk_storage_should_get_put() {
    let mut db: RumDb = DiskStorage::open_segments(Vec::new(), DbOptions::default()).unwrap();

    let res = db.get(b"hello").unwrap();
    assert_eq!(res, None);

    db.put(b"hello".to_vec(), b"world".to_vec()).unwrap();

    let res = db.get(b"hello").unwrap();
    assert_eq!(res, Some(b"world".to_vec()));

    db.put(b"hello".to_vec(), b"underworld".to_vec()).unwrap();

    let res = db.get(b"hello").unwrap();
    assert_eq!(res, Some(b"underworld".to_vec()));

    db.remove(b"hello").unwrap();

    let res = db.get(b"hello").unwrap();
    assert_eq!(res, None);
}

#[test]
fn disk_storage_should_persist() {
    let saved;
    {
        let mut db: RumDb =
            DiskStorage::open_segments(Vec::new(), DbOptions::default()).unwrap();
        db.put(b"persistence".to_vec(), b"check".to_vec()).unwrap();
        db.put(b"removed".to_vec(), b"entry".to_vec()).unwrap();
        db.remove(b"removed").unwrap();
        saved = copy_segments(&db);
    }

    {
        let db: RumDb = DiskStorage::open_segments(saved, DbOptions::default()).unwrap();

        let res = db.get(b"persistence").unwrap();
        assert_eq!(res, Some(b"check".to_vec()));

        let res = db.get(b"removed").unwrap();
        assert_eq!(res, None);
    }
}

#[test]
fn disk_storage_should_rotate_logs() {
    const VERSION: u8 = 3;
    let saved;
    {
        let mut db: RumDb = DiskStorage::open_segments(
            Vec::new(),
            DbOptions::default().max_log_file_size(50),
        )
        .unwrap();

        for i in 0..=VERSION {
            db.put(b"version".to_vec(), vec![i]).unwrap();
        }
        saved = copy_segments(&db);
    }

    assert!(
        saved.iter().any(|s| s.id == 1),
        "log file has not been rotated"
    );

    {
        let db: RumDb =
            DiskStorage::open_segments(saved, DbOptions::default().max_log_file_size(50))
                .unwrap();

        let res = db.get(b"version").unwrap();
        assert_eq!(res, Some(vec![VERSION]));

        assert_eq!(db.storage_stats().live_count(1), Some(1));
    }
}

#[test]
fn disk_storage_should_gc() {
    const VERSION: u8 = 3;
    let saved;
    {
        let mut db: RumDb = DiskStorage::open_segments(
            Vec::new(),
            DbOptions::default().max_log_file_size(50),
        )
        .unwrap();

        for i in 0..=VERSION {
            db.put(b"version".to_vec(), vec![i]).unwrap();
        }
        saved = copy_segments(&db);
    }

    assert!(
        saved.iter().any(|s| s.id == 1),
        "log file has not been rotated"
    );

    assert!(!saved.iter().any(|s| s.id == 0), "gc failed");
}

#[test]
fn disk_storage_should_treat_empty_put_as_removal() {
    let mut db: RumDb = DiskStorage::open_segments(Vec::new(), DbOptions::default()).unwrap();

    db.put(b"k".to_vec(), b"v".to_vec()).unwrap();
    db.put(b"k".to_vec(), Vec::new()).unwrap();

    assert_eq!(db.get(b"k").unwrap(), None);
}

#[test]
fn disk_storage_should_remove_absent_key_silently() {
    let mut db: RumDb = DiskStorage::open_segments(Vec::new(), DbOptions::default()).unwrap();
    db.remove(b"missing").unwrap();
    assert_eq!(db.get(b"missing").unwrap(), None);
}

#[test]
fn disk_storage_should_report_active_ids_in_ascending_order() {
    let mut db: RumDb = DiskStorage::open_segments(
        Vec::new(),
        DbOptions::default().max_log_file_size(30),
    )
    .unwrap();

    let mut last_active = db.active_segment().id;
    for i in 0..10u8 {
        db.put(vec![i], vec![i; 8]).unwrap();
        let active = db.active_segment().id;
        assert!(active >= last_active, "active segment id went backwards");
        last_active = active;
    }
    assert!(last_active > 0, "rotation never happened");
}

#[test]
fn disk_storage_should_count_live_keys_per_segment() {
    let mut db: RumDb = DiskStorage::open_segments(Vec::new(), DbOptions::default()).unwrap();

    db.put(b"a".to_vec(), b"1".to_vec()).unwrap();
    db.put(b"b".to_vec(), b"2".to_vec()).unwrap();
    db.put(b"c".to_vec(), b"3".to_vec()).unwrap();
    db.remove(b"b").unwrap();

    let entries = db.storage_stats().entries();
    let total: usize = entries.iter().map(|(_, c)| *c).sum();
    assert_eq!(total, 2);
    assert_eq!(db.storage_stats().live_count(0), Some(2));
}

#[test]
fn open_should_fail_on_torn_log() {
    let torn = vec![LogSegment { id: 0, data: vec![1, 2, 3, 4, 5] }];
    let r: Result<RumDb, StorageError> = DiskStorage::open_segments(torn, DbOptions::default());
    assert!(matches!(r, Err(StorageError::IoError(_))));
}

#[test]
fn open_should_replay_records_written_by_hand() {
    // One record: ts 1, key "k", value "v"; then a tombstone for "gone".
    let mut data = Vec::new();
    data.extend_from_slice(Header::new(1, 1, 1).as_slice());
    data.extend_from_slice(b"k");
    data.extend_from_slice(b"v");
    data.extend_from_slice(Header::new(2, 4, 0).as_slice());
    data.extend_from_slice(b"gone");

    let segs = vec![LogSegment { id: 0, data }];
    let db: RumDb = DiskStorage::open_segments(segs, DbOptions::default()).unwrap();

    assert_eq!(db.get(b"k").unwrap(), Some(b"v".to_vec()));
    assert_eq!(db.get(b"gone").unwrap(), None);
}

#[test]
fn log_file_names_should_round_trip() {
    assert_eq!(format_log_file_name(1), b"1.rumdb.log".to_vec());
    assert_eq!(format_log_file_name(0), b"0.rumdb.log".to_vec());
    for id in [0u32, 7, 10, 999, 4294967295] {
        assert_eq!(parse_log_file_name(&format_log_file_name(id)), Some(id));
    }
    assert_eq!(parse_log_file_name(b"10.rumdb.log"), Some(10));
    assert_eq!(parse_log_file_name(b"LOCK"), None);
    assert_eq!(parse_log_file_name(b"x.rumdb.log"), None);
    assert_eq!(parse_log_file_name(b"1.rumdb.txt"), None);
    assert_eq!(parse_log_file_name(b"99999999999.rumdb.log"), None);
}
