use kvs::errors::KvStoreError;
use kvs::model::{RecordLocation, StorageAction, COMPACT_AFTER_BYTE_SIZE, MAX_FILE_SIZE};
use kvs::recovery::SegmentFile;
use kvs::segment::segment_file_name;
use kvs::store::{read_value, SharedKvStore};
use std::collections::HashMap;

/// Segments kept in memory, with the time at which each was last written.
struct Disk {
    segments: HashMap<u64, (u128, Vec<u8>)>,
    clock: u128,
}

impl Disk {
    fn new() -> Self {
        Disk { segments: HashMap::new(), clock: 0 }
    }

    fn perform(&mut self, actions: Vec<StorageAction>) {
        for action in actions {
            self.clock += 1;
            match action {
                StorageAction::CreateSegment(id) => {
                    assert!(self.segments.insert(id, (self.clock, Vec::new())).is_none());
                }
                StorageAction::Append(id, bytes) => {
                    let segment = self.segments.get_mut(&id).expect("append to a missing segment");
                    segment.0 = self.clock;
                    segment.1.extend_from_slice(&bytes);
                }
                StorageAction::RemoveSegment(id) => {
                    assert!(self.segments.remove(&id).is_some());
                }
                StorageAction::Truncate(id, len) => {
                    let segment = self.segments.get_mut(&id).expect("cut of a missing segment");
                    assert!(len as usize <= segment.1.len());
                    segment.0 = self.clock;
                    segment.1.truncate(len as usize);
                }
            }
        }
    }

    fn files(&self) -> Vec<SegmentFile> {
        self.segments
            .iter()
            .map(|(id, (modified, contents))| SegmentFile {
                name: segment_file_name(*id),
                modified: *modified,
                contents: contents.clone(),
            })
            .collect()
    }

    fn read(&self, location: RecordLocation) -> Vec<u8> {
        let bytes = &self.segments[&location.segment].1;
        let start = location.offset as usize;
        bytes[start..start + location.size as usize].to_vec()
    }

    fn inactive_bytes(&self, store: &SharedKvStore) -> usize {
        let active = store.active_segment();
        self.segments.iter().filter(|(id, _)| **id != active).map(|(_, s)| s.1.len()).sum()
    }
}

fn open_on(disk: &mut Disk) -> SharedKvStore {
    let (store, actions) = SharedKvStore::open(&disk.files()).expect("open failed");
    disk.perform(actions);
    store
}

fn compact_on(store: &mut SharedKvStore, disk: &mut Disk) -> Result<(), KvStoreError> {
    if let Some(oldest) = store.compaction_target() {
        let bytes = disk.segments[&oldest].1.clone();
        let actions = store.compact(&bytes)?;
        disk.perform(actions);
    }
    Ok(())
}

fn set_on(store: &mut SharedKvStore, disk: &mut Disk, key: &str, value: &str) -> Result<(), KvStoreError> {
    let actions = store.set(key.to_owned(), value.to_owned())?;
    disk.perform(actions);
    compact_on(store, disk)
}

fn remove_on(store: &mut SharedKvStore, disk: &mut Disk, key: &str) -> Result<(), KvStoreError> {
    let actions = store.remove(key.to_owned())?;
    disk.perform(actions);
    compact_on(store, disk)
}

fn get_on(store: &SharedKvStore, disk: &Disk, key: &str) -> Result<Option<String>, KvStoreError> {
    store.get(key, |location| Ok(disk.read(location)))
}

#[test]
fn open_empty_directory_creates_segment_zero() {
    let (store, actions) = SharedKvStore::open(&Vec::new()).unwrap();
    assert_eq!(actions.len(), 1);
    assert!(matches!(actions[0], StorageAction::CreateSegment(0)));
    assert_eq!(store.segments(), vec![0]);
    assert_eq!(store.active_segment(), 0);
    assert_eq!(store.active_len(), 0);
    assert_eq!(store.log_file_counter(), 1);
    assert_eq!(store.bytes_for_compaction(), 0);
}

#[test]
fn set_two_keys_and_get_them() {
    let mut disk = Disk::new();
    let mut store = open_on(&mut disk);
    set_on(&mut store, &mut disk, "a", "1").unwrap();
    set_on(&mut store, &mut disk, "b", "2").unwrap();
    assert_eq!(get_on(&store, &disk, "a").unwrap(), Some("1".to_owned()));
    assert_eq!(get_on(&store, &disk, "b").unwrap(), Some("2".to_owned()));
    assert_eq!(get_on(&store, &disk, "c").unwrap(), None);
}

#[test]
fn remove_then_get_and_remove_again() {
    let mut disk = Disk::new();
    let mut store = open_on(&mut disk);
    set_on(&mut store, &mut disk, "a", "1").unwrap();
    set_on(&mut store, &mut disk, "b", "2").unwrap();
    remove_on(&mut store, &mut disk, "a").unwrap();
    assert_eq!(get_on(&store, &disk, "a").unwrap(), None);
    match remove_on(&mut store, &mut disk, "a") {
        Err(KvStoreError::NonExistentKey(key)) => assert_eq!(key, "a"),
        other => panic!("unexpected outcome: {:?}", other),
    }
    assert_eq!(get_on(&store, &disk, "b").unwrap(), Some("2".to_owned()));
}

#[test]
fn remove_of_a_key_never_set_fails() {
    let mut disk = Disk::new();
    let mut store = open_on(&mut disk);
    assert!(matches!(
        remove_on(&mut store, &mut disk, "ghost"),
        Err(KvStoreError::NonExistentKey(_))
    ));
    assert_eq!(get_on(&store, &disk, "ghost").unwrap(), None);
    assert_eq!(disk.segments[&0].1.len(), 0);
}

#[test]
fn second_set_wins() {
    let mut disk = Disk::new();
    let mut store = open_on(&mut disk);
    set_on(&mut store, &mut disk, "k", "first").unwrap();
    set_on(&mut store, &mut disk, "k", "second").unwrap();
    assert_eq!(get_on(&store, &disk, "k").unwrap(), Some("second".to_owned()));
}

#[test]
fn empty_value_round_trips() {
    let mut disk = Disk::new();
    let mut store = open_on(&mut disk);
    set_on(&mut store, &mut disk, "k", "").unwrap();
    assert_eq!(get_on(&store, &disk, "k").unwrap(), Some(String::new()));
    let reopened = open_on(&mut disk);
    assert_eq!(get_on(&reopened, &disk, "k").unwrap(), Some(String::new()));
}

#[test]
fn set_reports_location_and_meter() {
    let mut disk = Disk::new();
    let mut store = open_on(&mut disk);
    set_on(&mut store, &mut disk, "k", "v").unwrap();
    let first = store.locate("k").unwrap();
    assert_eq!(first, RecordLocation { segment: 0, offset: 0, size: 33 });
    assert_eq!(store.active_len(), 33);
    assert_eq!(store.bytes_for_compaction(), 0);
    set_on(&mut store, &mut disk, "k", "w").unwrap();
    let second = store.locate("k").unwrap();
    assert_eq!(second, RecordLocation { segment: 0, offset: 33, size: 33 });
    assert_eq!(store.bytes_for_compaction(), 33);
    remove_on(&mut store, &mut disk, "k").unwrap();
    assert_eq!(store.bytes_for_compaction(), 66);
    assert_eq!(store.active_len(), 33 + 33 + 19);
    assert_eq!(store.locate("k"), None);
    assert!(!store.contains_key("k"));
}

#[test]
fn rotation_is_checked_before_the_append() {
    let mut disk = Disk::new();
    let mut store = open_on(&mut disk);
    let large = "x".repeat(MAX_FILE_SIZE as usize + 100);
    set_on(&mut store, &mut disk, "big", &large).unwrap();
    assert_eq!(store.segments(), vec![0]);
    assert!(store.active_len() > MAX_FILE_SIZE);
    assert_eq!(get_on(&store, &disk, "big").unwrap(), Some(large.clone()));
    set_on(&mut store, &mut disk, "small", "1").unwrap();
    assert_eq!(store.segments(), vec![0, 1]);
    assert_eq!(store.log_file_counter(), 2);
    assert_eq!(store.locate("small").unwrap().segment, 1);
    assert_eq!(store.locate("small").unwrap().offset, 0);
    assert_eq!(get_on(&store, &disk, "big").unwrap(), Some(large));
}

#[test]
fn compaction_moves_live_records_and_drops_the_oldest_segment() {
    let mut disk = Disk::new();
    let mut store = open_on(&mut disk);
    let value = "v".repeat(1000);
    for i in 0..25 {
        set_on(&mut store, &mut disk, &format!("key{}", i), &value).unwrap();
    }
    assert_eq!(store.segments(), vec![0, 1]);
    assert_eq!(store.compaction_target(), None);
    set_on(&mut store, &mut disk, "key0", "a").unwrap();
    assert_eq!(store.bytes_for_compaction(), 1035);
    assert_eq!(store.segments(), vec![0, 1]);
    set_on(&mut store, &mut disk, "key1", "b").unwrap();
    assert!(!store.segments().contains(&0));
    assert!(!disk.segments.contains_key(&0));
    assert_eq!(store.bytes_for_compaction(), 0);
    assert_eq!(get_on(&store, &disk, "key0").unwrap(), Some("a".to_owned()));
    assert_eq!(get_on(&store, &disk, "key1").unwrap(), Some("b".to_owned()));
    for i in 2..25 {
        assert_eq!(get_on(&store, &disk, &format!("key{}", i)).unwrap(), Some(value.clone()));
        assert_ne!(store.locate(&format!("key{}", i)).unwrap().segment, 0);
    }
}

#[test]
fn compaction_does_nothing_unless_due() {
    let mut disk = Disk::new();
    let mut store = open_on(&mut disk);
    set_on(&mut store, &mut disk, "k", "v").unwrap();
    let before = store.segments();
    let actions = store.compact(&disk.segments[&0].1.clone()).unwrap();
    assert!(actions.is_empty());
    assert_eq!(store.segments(), before);
}

#[test]
fn compaction_fails_on_a_foreign_document() {
    let mut disk = Disk::new();
    let mut store = open_on(&mut disk);
    let value = "v".repeat(1000);
    for i in 0..25 {
        set_on(&mut store, &mut disk, &format!("key{}", i), &value).unwrap();
    }
    for i in 0..3 {
        let actions = store.set(format!("key{}", i), "x".to_owned()).unwrap();
        disk.perform(actions);
    }
    assert_eq!(store.compaction_target(), Some(0));
    let mut document = bson::Document::new();
    document.insert("Other", 1);
    let mut foreign = Vec::new();
    bson::encode_document(&mut foreign, &document).unwrap();
    let segments = store.segments();
    assert!(matches!(store.compact(&foreign), Err(KvStoreError::DecoderError(_))));
    assert_eq!(store.segments(), segments);
}

#[test]
fn reopened_store_holds_the_same() {
    let mut disk = Disk::new();
    let mut store = open_on(&mut disk);
    let value = "v".repeat(700);
    for round in 0..3 {
        for i in 0..60 {
            set_on(&mut store, &mut disk, &format!("key{}", i), &format!("{}{}", value, round)).unwrap();
        }
    }
    for i in 0..60 {
        if i % 7 == 0 {
            remove_on(&mut store, &mut disk, &format!("key{}", i)).unwrap();
        }
    }
    let reopened = open_on(&mut disk);
    assert_eq!(reopened.segments(), store.segments());
    for i in 0..60 {
        let key = format!("key{}", i);
        assert_eq!(reopened.locate(&key), store.locate(&key));
        let expected = if i % 7 == 0 { None } else { Some(format!("{}2", value)) };
        assert_eq!(get_on(&reopened, &disk, &key).unwrap(), expected);
    }
}

#[test]
fn torn_tail_is_cut_off() {
    let mut disk = Disk::new();
    let mut store = open_on(&mut disk);
    set_on(&mut store, &mut disk, "a", "1").unwrap();
    set_on(&mut store, &mut disk, "b", "2").unwrap();
    let clean = disk.segments[&0].1.len();
    disk.segments.get_mut(&0).unwrap().1.extend_from_slice(&[40, 0, 0, 0, 2, 83]);
    let (mut reopened, actions) = SharedKvStore::open(&disk.files()).unwrap();
    assert_eq!(actions.len(), 1);
    assert!(matches!(actions[0], StorageAction::Truncate(0, len) if len as usize == clean));
    disk.perform(actions);
    assert_eq!(disk.segments[&0].1.len(), clean);
    assert_eq!(reopened.segments(), vec![0]);
    assert_eq!(reopened.active_len() as usize, clean);
    assert_eq!(get_on(&reopened, &disk, "a").unwrap(), Some("1".to_owned()));
    assert_eq!(get_on(&reopened, &disk, "b").unwrap(), Some("2".to_owned()));
    set_on(&mut reopened, &mut disk, "c", "3").unwrap();
    assert_eq!(reopened.locate("c").unwrap().offset as usize, clean);
    let again = open_on(&mut disk);
    assert_eq!(get_on(&again, &disk, "c").unwrap(), Some("3".to_owned()));
    assert_eq!(get_on(&again, &disk, "a").unwrap(), Some("1".to_owned()));
}

#[test]
fn torn_tail_of_an_older_segment_is_left_alone() {
    let mut disk = Disk::new();
    let mut store = open_on(&mut disk);
    set_on(&mut store, &mut disk, "a", "1").unwrap();
    let older = disk.segments[&0].1.clone();
    let mut torn = older.clone();
    torn.extend_from_slice(&[9, 9, 9]);
    let files = vec![
        SegmentFile { name: "0.log".to_owned(), modified: 1, contents: torn },
        SegmentFile { name: "1.log".to_owned(), modified: 2, contents: older },
    ];
    let (opened, actions) = SharedKvStore::open(&files).unwrap();
    assert!(actions.is_empty());
    assert_eq!(opened.segments(), vec![0, 1]);
    assert_eq!(opened.locate("a").unwrap().segment, 1);
}

#[test]
fn open_fails_on_a_foreign_document() {
    let mut document = bson::Document::new();
    document.insert("Set", "not an array");
    let mut contents = Vec::new();
    bson::encode_document(&mut contents, &document).unwrap();
    let files = vec![SegmentFile { name: "0.log".to_owned(), modified: 1, contents }];
    assert!(matches!(SharedKvStore::open(&files), Err(KvStoreError::DecoderError(_))));
}

#[test]
fn open_reads_segments_by_modification_time() {
    let mut first = Disk::new();
    let mut store = open_on(&mut first);
    set_on(&mut store, &mut first, "k", "old").unwrap();
    let mut second = Disk::new();
    let mut other = open_on(&mut second);
    set_on(&mut other, &mut second, "k", "new").unwrap();
    let files = vec![
        SegmentFile { name: "3.log".to_owned(), modified: 20, contents: second.segments[&0].1.clone() },
        SegmentFile { name: "7.log".to_owned(), modified: 10, contents: first.segments[&0].1.clone() },
        SegmentFile { name: "engine".to_owned(), modified: 30, contents: b"kvs".to_vec() },
        SegmentFile { name: "07.log".to_owned(), modified: 40, contents: first.segments[&0].1.clone() },
    ];
    let (opened, actions) = SharedKvStore::open(&files).unwrap();
    assert!(actions.is_empty());
    assert_eq!(opened.segments(), vec![7, 3]);
    assert_eq!(opened.active_segment(), 3);
    assert_eq!(opened.log_file_counter(), 8);
    assert_eq!(opened.locate("k").unwrap().segment, 3);
    assert_eq!(opened.bytes_for_compaction(), opened.locate("k").unwrap().size + 0);
}

#[test]
fn read_value_fails_on_bytes_that_hold_no_frame() {
    assert!(matches!(read_value(&[1, 2, 3]), Err(KvStoreError::DecoderError(_))));
    assert!(matches!(read_value(&[]), Err(KvStoreError::DecoderError(_))));
}

#[test]
fn rewriting_ten_thousand_keys_wastes_what_the_meter_says() {
    let mut disk = Disk::new();
    let mut store = open_on(&mut disk);
    let count = 10_000;
    let first = "a".repeat(1024);
    let second = "b".repeat(1024);
    for i in 0..count {
        set_on(&mut store, &mut disk, &format!("key{}", i), &first).unwrap();
    }
    for i in 0..count {
        set_on(&mut store, &mut disk, &format!("key{}", i), &second).unwrap();
    }
    let mut live = 0;
    for i in 0..count {
        live += store.locate(&format!("key{}", i)).unwrap().size as usize;
    }
    let stored = disk.inactive_bytes(&store) + store.active_len() as usize;
    assert_eq!(stored, live + store.bytes_for_compaction() as usize);
    assert!(disk.inactive_bytes(&store) < live + store.bytes_for_compaction() as usize);
    assert!(store.segments().len() > 1);
    assert_eq!(get_on(&store, &disk, "key0").unwrap(), Some(second.clone()));
    assert_eq!(get_on(&store, &disk, "key9999").unwrap(), Some(second));
}

#[test]
fn last_write_wins_over_a_long_run_of_operations() {
    let mut disk = Disk::new();
    let mut store = open_on(&mut disk);
    let mut expected: HashMap<String, String> = HashMap::new();
    let mut seed: u64 = 12345;
    for step in 0..4000 {
        seed = seed.wrapping_mul(6364136223846793005).wrapping_add(1442695040888963407);
        let key = format!("key{}", (seed >> 33) % 40);
        if (seed >> 20) % 4 == 0 {
            let outcome = remove_on(&mut store, &mut disk, &key);
            match expected.remove(&key) {
                Some(_) => outcome.unwrap(),
                None => assert!(matches!(outcome, Err(KvStoreError::NonExistentKey(_)))),
            }
        } else {
            let value = format!("{}-{}", "v".repeat(((seed >> 40) % 300) as usize), step);
            set_on(&mut store, &mut disk, &key, &value).unwrap();
            expected.insert(key, value);
        }
        if step % 500 == 499 {
            store = open_on(&mut disk);
        }
    }
    assert!(store.log_file_counter() > 3);
    for i in 0..40 {
        let key = format!("key{}", i);
        assert_eq!(get_on(&store, &disk, &key).unwrap(), expected.get(&key).cloned());
    }
}

#[test]
fn used_up_segment_numbers_are_reported() {
    let long = "x".repeat(MAX_FILE_SIZE as usize + 1);
    let mut disk = Disk::new();
    let mut store = open_on(&mut disk);
    set_on(&mut store, &mut disk, "k", &long).unwrap();
    let full = disk.segments[&0].1.clone();
    let files = vec![SegmentFile {
        name: segment_file_name(u64::MAX - 1),
        modified: 1,
        contents: full.clone(),
    }];
    let (mut last, actions) = SharedKvStore::open(&files).unwrap();
    assert!(actions.is_empty());
    assert_eq!(last.log_file_counter(), u64::MAX);
    let before = last.active_len();
    assert!(matches!(
        last.set("a".to_owned(), "1".to_owned()),
        Err(KvStoreError::SerializationError(_))
    ));
    assert_eq!(last.active_len(), before);
    assert_eq!(last.locate("a"), None);
    let files = vec![SegmentFile { name: segment_file_name(u64::MAX), modified: 1, contents: full }];
    assert!(matches!(SharedKvStore::open(&files), Err(KvStoreError::SerializationError(_))));
}

#[test]
fn the_counter_lies_above_every_segment_found() {
    let mut disk = Disk::new();
    let mut store = open_on(&mut disk);
    set_on(&mut store, &mut disk, "k", "v").unwrap();
    let contents = disk.segments[&0].1.clone();
    let files = vec![
        SegmentFile { name: "3.log".to_owned(), modified: 1, contents: contents.clone() },
        SegmentFile { name: "5.log".to_owned(), modified: 2, contents },
    ];
    let (opened, _) = SharedKvStore::open(&files).unwrap();
    assert_eq!(opened.segments(), vec![3, 5]);
    assert_eq!(opened.log_file_counter(), 6);
    let mut fresh = Disk::new();
    let first = open_on(&mut fresh);
    assert_eq!(first.segments(), vec![0]);
    assert_eq!(first.log_file_counter(), 1);
}

#[test]
fn a_new_segment_takes_the_number_of_the_counter() {
    let mut disk = Disk::new();
    let mut store = open_on(&mut disk);
    let long = "x".repeat(MAX_FILE_SIZE as usize + 1);
    for round in 0..3u64 {
        let counter = store.log_file_counter();
        assert!(store.segments().iter().all(|id| *id < counter));
        set_on(&mut store, &mut disk, &format!("key{}", round), &long).unwrap();
        if round > 0 {
            assert_eq!(store.active_segment(), counter);
            assert_eq!(store.log_file_counter(), counter + 1);
        }
    }
    assert_eq!(store.segments(), vec![0, 1, 2]);
    assert_eq!(store.log_file_counter(), 3);
}

#[test]
fn segments_modified_at_the_same_time_keep_their_order() {
    let mut disk = Disk::new();
    let mut store = open_on(&mut disk);
    set_on(&mut store, &mut disk, "k", "v").unwrap();
    let contents = disk.segments[&0].1.clone();
    let file = |name: &str, modified: u128| SegmentFile {
        name: name.to_owned(),
        modified,
        contents: contents.clone(),
    };
    let files = vec![file("5.log", 2), file("9.log", 1), file("2.log", 2), file("5.log", 0), file("4.log", 1)];
    let (opened, _) = SharedKvStore::open(&files).unwrap();
    assert_eq!(opened.segments(), vec![9, 4, 5, 2]);
    assert_eq!(opened.log_file_counter(), 10);
    assert_eq!(opened.locate("k").unwrap().segment, 2);
}

#[test]
fn compaction_carried_on_after_the_writes_bounds_the_inactive_segments() {
    let mut disk = Disk::new();
    let mut store = open_on(&mut disk);
    let count = 10_000;
    let first = "a".repeat(1024);
    let second = "b".repeat(1024);
    for i in 0..count {
        set_on(&mut store, &mut disk, &format!("key{}", i), &first).unwrap();
    }
    for i in 0..count {
        set_on(&mut store, &mut disk, &format!("key{}", i), &second).unwrap();
    }
    let mut rounds = 0;
    while store.compaction_target().is_some() {
        compact_on(&mut store, &mut disk).unwrap();
        rounds += 1;
        assert!(rounds < 100_000);
    }
    let mut live = 0;
    for i in 0..count {
        live += store.locate(&format!("key{}", i)).unwrap().size as usize;
    }
    let average = live / count;
    assert!(store.bytes_for_compaction() <= COMPACT_AFTER_BYTE_SIZE);
    assert!(disk.inactive_bytes(&store) < count * average + COMPACT_AFTER_BYTE_SIZE as usize);
    for i in [0, 1, 4999, 9999] {
        assert_eq!(get_on(&store, &disk, &format!("key{}", i)).unwrap(), Some(second.clone()));
    }
}

#[test]
fn keys_and_values_of_any_text_round_trip() {
    let mut disk = Disk::new();
    let mut store = open_on(&mut disk);
    let pairs = [
        ("\u{43a}\u{43b}\u{44e}\u{447}", "\u{437}\u{43d}\u{430}\u{447}\u{435}\u{43d}\u{438}\u{435}"),
        ("key with spaces", "value:with:colons\nand a line feed"),
        ("\u{1f511}", "\u{0}nul inside"),
        ("", "empty key"),
    ];
    for (key, value) in pairs {
        set_on(&mut store, &mut disk, key, value).unwrap();
    }
    let reopened = open_on(&mut disk);
    for (key, value) in pairs {
        assert_eq!(get_on(&store, &disk, key).unwrap(), Some(value.to_owned()));
        assert_eq!(get_on(&reopened, &disk, key).unwrap(), Some(value.to_owned()));
    }
}

#[test]
fn get_asks_for_the_place_of_the_key_and_passes_failures_on() {
    let mut disk = Disk::new();
    let mut store = open_on(&mut disk);
    set_on(&mut store, &mut disk, "a", "1").unwrap();
    set_on(&mut store, &mut disk, "b", "2").unwrap();
    let place = store.locate("b").unwrap();
    let mut asked = Vec::new();
    let found = store.get("b", |location| {
        asked.push(location);
        Ok(disk.read(location))
    });
    assert_eq!(found.unwrap(), Some("2".to_owned()));
    assert_eq!(asked, vec![place]);
    let mut asked = 0;
    let found = store.get("absent", |location| {
        asked += 1;
        Ok(disk.read(location))
    });
    assert_eq!(found.unwrap(), None);
    assert_eq!(asked, 0);
    let failed = store.get("a", |_| Err(KvStoreError::Io("gone".to_owned())));
    assert!(matches!(failed, Err(KvStoreError::Io(text)) if text == "gone"));
    let garbled = store.get("a", |_| Ok(vec![1, 2, 3]));
    assert!(matches!(garbled, Err(KvStoreError::DecoderError(_))));
    let other = store.get("a", |_| Ok(disk.read(place)));
    assert_eq!(other.unwrap(), Some("2".to_owned()));
}
