use cask::{is_valid_hint_file, Cask, Directory, Error, Segment};

fn put(cask: &mut Cask, key: &[u8], value: &[u8]) {
    assert!(cask.has_room());
    cask.put(key.to_vec(), value);
}

fn get(cask: &Cask, key: &[u8]) -> Option<Vec<u8>> {
    cask.get(key).unwrap()
}

#[test]
fn put_then_get_returns_the_value() {
    let mut cask = Cask::open(Directory::new(), false);
    put(&mut cask, b"a", b"1");
    assert_eq!(get(&cask, b"a"), Some(b"1".to_vec()));
    put(&mut cask, b"a", b"2");
    assert_eq!(get(&cask, b"a"), Some(b"2".to_vec()));
    assert_eq!(get(&cask, b"b"), None);
}

#[test]
fn delete_hides_the_key_until_the_next_put() {
    let mut cask = Cask::open(Directory::new(), false);
    put(&mut cask, b"a", b"1");
    cask.delete(b"a");
    assert_eq!(get(&cask, b"a"), None);
    put(&mut cask, b"a", b"2");
    assert_eq!(get(&cask, b"a"), Some(b"2".to_vec()));
}

#[test]
fn delete_of_a_missing_key_writes_nothing() {
    let mut cask = Cask::open(Directory::new(), false);
    put(&mut cask, b"a", b"1");
    let written = cask.log().active_log_writer().data_file().len();
    let sequence = cask.last_sequence();
    cask.delete(b"nope");
    assert_eq!(cask.log().active_log_writer().data_file().len(), written);
    assert_eq!(cask.last_sequence(), sequence);
}

#[test]
fn reopen_after_puts_and_a_delete() {
    let mut cask = Cask::open(Directory::new(), false);
    put(&mut cask, b"a", b"1");
    put(&mut cask, b"b", b"2");
    put(&mut cask, b"a", b"3");
    cask.delete(b"b");
    let directory = cask.close();
    let cask = Cask::open(directory, false);
    assert_eq!(get(&cask, b"a"), Some(b"3".to_vec()));
    assert_eq!(get(&cask, b"b"), None);
}

#[test]
fn sequences_go_on_after_reopen() {
    let mut cask = Cask::open(Directory::new(), false);
    assert_eq!(cask.last_sequence(), 0);
    put(&mut cask, b"a", b"1");
    put(&mut cask, b"b", b"2");
    cask.delete(b"a");
    assert_eq!(cask.last_sequence(), 3);
    let mut cask = Cask::open(cask.close(), false);
    assert_eq!(cask.last_sequence(), 3);
    put(&mut cask, b"c", b"3");
    assert_eq!(cask.last_sequence(), 4);
    let entry = cask.log().read_entry(1, 0).unwrap();
    assert_eq!(entry.sequence, 4);
    assert_eq!(entry.key, b"c".to_vec());
}

#[test]
fn reopen_begins_a_new_active_segment() {
    let mut cask = Cask::open(Directory::new(), false);
    assert_eq!(cask.log().active_file_id(), 0);
    assert_eq!(cask.log().files(), Vec::<u32>::new());
    put(&mut cask, b"a", b"1");
    let cask = Cask::open(cask.close(), true);
    assert_eq!(cask.log().files(), vec![0]);
    assert_eq!(cask.log().active_file_id(), 1);
    assert!(cask.log().sync());
}

fn three_records() -> Directory {
    let mut cask = Cask::open(Directory::new(), false);
    put(&mut cask, b"one", b"1");
    put(&mut cask, b"two", b"22");
    put(&mut cask, b"three", b"333");
    cask.close()
}

#[test]
fn truncated_data_file_without_hints_loses_the_last_record() {
    let mut directory = three_records();
    let mut segment = directory.remove(0).unwrap();
    segment.data.pop();
    segment.hint = None;
    directory.insert(segment);
    let cask = Cask::open(directory, false);
    assert_eq!(get(&cask, b"one"), Some(b"1".to_vec()));
    assert_eq!(get(&cask, b"two"), Some(b"22".to_vec()));
    assert_eq!(get(&cask, b"three"), None);
    assert_eq!(cask.last_sequence(), 2);
}

#[test]
fn truncated_data_file_with_hints_cannot_read_the_last_record() {
    let mut directory = three_records();
    let mut segment = directory.remove(0).unwrap();
    segment.data.pop();
    directory.insert(segment);
    let cask = Cask::open(directory, false);
    assert_eq!(get(&cask, b"one"), Some(b"1".to_vec()));
    assert_eq!(get(&cask, b"two"), Some(b"22".to_vec()));
    assert_eq!(cask.get(b"three"), Err(Error::CorruptRecord));
}

#[test]
fn corrupt_hint_trailer_is_repaired_on_open() {
    let mut directory = three_records();
    let mut segment = directory.remove(0).unwrap();
    let good = segment.hint.clone().unwrap();
    let mut bad = good.clone();
    let len = bad.len();
    for byte in &mut bad[len - 4..] {
        *byte ^= 0xff;
    }
    assert!(is_valid_hint_file(&good));
    assert!(!is_valid_hint_file(&bad));
    segment.hint = Some(bad);
    directory.insert(segment);
    let cask = Cask::open(directory, false);
    assert_eq!(get(&cask, b"one"), Some(b"1".to_vec()));
    assert_eq!(get(&cask, b"two"), Some(b"22".to_vec()));
    assert_eq!(get(&cask, b"three"), Some(b"333".to_vec()));
    let repaired = cask.log().directory().get(0).unwrap().hint.clone().unwrap();
    assert!(is_valid_hint_file(&repaired));
    assert_eq!(repaired, good);
}

#[test]
fn missing_hint_file_is_written_on_open() {
    let mut directory = three_records();
    let mut segment = directory.remove(0).unwrap();
    let good = segment.hint.take().unwrap();
    directory.insert(segment);
    let cask = Cask::open(directory, false);
    assert_eq!(cask.log().directory().get(0).unwrap().hint, Some(good));
}

fn two_segments() -> Cask {
    let mut cask = Cask::open(Directory::new(), false);
    cask.set_size_threshold(64);
    put(&mut cask, b"a", b"first value of a");
    put(&mut cask, b"b", b"value of b");
    put(&mut cask, b"c", b"value of c");
    put(&mut cask, b"a", b"second value of a");
    cask.delete(b"b");
    put(&mut cask, b"d", b"value of d");
    cask
}

#[test]
fn small_threshold_rolls_the_active_segment() {
    let cask = two_segments();
    assert!(cask.log().files().len() >= 2);
    assert_eq!(cask.log().files()[0], 0);
    assert!(cask.log().active_file_id() > 0);
    let sealed = cask.log().directory().get(0).unwrap();
    assert!(is_valid_hint_file(sealed.hint.as_ref().unwrap()));
}

#[test]
fn compaction_replaces_the_segment_and_keeps_every_key() {
    let mut cask = two_segments();
    let before: Vec<Option<Vec<u8>>> =
        [b"a", b"b", b"c", b"d", b"e"].iter().map(|key| get(&cask, &key[..])).collect();
    let files = cask.log().files();
    let next = cask.log().current_file_id() + 1;
    assert_eq!(cask.compact(0), Ok(()));
    assert!(cask.log().directory().get(0).is_none());
    assert!(!cask.log().files().contains(&0));
    assert!(cask.log().files().contains(&next));
    assert_eq!(cask.log().files().len(), files.len());
    let after: Vec<Option<Vec<u8>>> =
        [b"a", b"b", b"c", b"d", b"e"].iter().map(|key| get(&cask, &key[..])).collect();
    assert_eq!(before, after);
    assert_eq!(get(&cask, b"a"), Some(b"second value of a".to_vec()));
    assert_eq!(get(&cask, b"c"), Some(b"value of c".to_vec()));
    let written = cask.log().directory().get(next).unwrap();
    assert!(is_valid_hint_file(written.hint.as_ref().unwrap()));
}

#[test]
fn compaction_of_every_segment_survives_reopen() {
    let mut cask = two_segments();
    for file_id in cask.log().files() {
        assert_eq!(cask.compact(file_id), Ok(()));
    }
    let cask = Cask::open(cask.close(), false);
    assert_eq!(get(&cask, b"a"), Some(b"second value of a".to_vec()));
    assert_eq!(get(&cask, b"b"), None);
    assert_eq!(get(&cask, b"c"), Some(b"value of c".to_vec()));
    assert_eq!(get(&cask, b"d"), Some(b"value of d".to_vec()));
}

#[test]
fn compaction_drops_superseded_records() {
    let mut cask = Cask::open(Directory::new(), false);
    cask.set_size_threshold(40);
    put(&mut cask, b"k", b"old old old old old");
    put(&mut cask, b"k", b"new new new new new");
    assert_eq!(cask.log().files(), vec![0]);
    let next = cask.log().current_file_id() + 1;
    assert_eq!(cask.compact(0), Ok(()));
    let written = cask.log().directory().get(next).unwrap();
    assert!(written.data.is_empty());
    assert_eq!(get(&cask, b"k"), Some(b"new new new new new".to_vec()));
}

#[test]
fn compaction_merges_tombstones_of_a_dead_key() {
    let mut cask = Cask::open(Directory::new(), false);
    put(&mut cask, b"k", b"1");
    cask.delete(b"k");
    put(&mut cask, b"k", b"2");
    cask.delete(b"k");
    let mut cask = Cask::open(cask.close(), false);
    let next = cask.log().current_file_id() + 1;
    assert_eq!(cask.compact(0), Ok(()));
    let written = cask.log().read_entry(next, 0).unwrap();
    assert!(written.deleted);
    assert_eq!(written.sequence, 4);
    assert_eq!(written.key, b"k".to_vec());
    assert_eq!(cask.log().directory().get(next).unwrap().data.len(), 20);
    assert_eq!(get(&cask, b"k"), None);
}

#[test]
fn compaction_of_a_segment_without_valid_hints_changes_nothing() {
    let mut cask = two_segments();
    let mut log = cask::Log::open(Directory::new(), false);
    log.store(Segment { file_id: 0, data: vec![1, 2, 3], hint: Some(vec![9, 9, 9, 9]) });
    log.add_file(0);
    assert!(log.hints(0).is_none());
    let active = cask.log().active_file_id();
    let current = cask.log().current_file_id();
    let files = cask.log().files();
    cask.set_size_threshold(1 << 20);
    put(&mut cask, b"z", b"z");
    assert_eq!(cask.log().active_file_id(), active);
    assert_eq!(cask.log().current_file_id(), current);
    assert_eq!(cask.log().files(), files);
}

#[test]
fn delete_after_compaction_is_seen_at_once() {
    let mut cask = two_segments();
    assert_eq!(cask.compact(0), Ok(()));
    cask.delete(b"c");
    assert_eq!(get(&cask, b"c"), None);
    assert_eq!(get(&cask, b"a"), Some(b"second value of a".to_vec()));
}

#[test]
fn put_after_compaction_wins() {
    let mut cask = two_segments();
    assert_eq!(cask.compact(0), Ok(()));
    put(&mut cask, b"c", b"newer");
    assert_eq!(get(&cask, b"c"), Some(b"newer".to_vec()));
    let cask = Cask::open(cask.close(), false);
    assert_eq!(get(&cask, b"c"), Some(b"newer".to_vec()));
}

#[test]
fn segments_are_loaded_in_ascending_order() {
    let mut cask = Cask::open(Directory::new(), false);
    cask.set_size_threshold(30);
    put(&mut cask, b"k", b"value");
    put(&mut cask, b"other", b"value");
    assert_eq!(cask.log().files(), vec![0]);
    assert_eq!(cask.log().active_file_id(), 1);
    cask.set_size_threshold(1 << 20);
    assert_eq!(cask.compact(0), Ok(()));
    assert_eq!(cask.log().files(), vec![2]);
    assert_eq!(get(&cask, b"k"), Some(b"value".to_vec()));
    cask.delete(b"k");
    assert_eq!(cask.log().active_file_id(), 1);
    assert_eq!(get(&cask, b"k"), None);
    let cask = Cask::open(cask.close(), false);
    assert_eq!(cask.log().files(), vec![1, 2]);
    assert_eq!(get(&cask, b"k"), Some(b"value".to_vec()));
    assert_eq!(get(&cask, b"other"), Some(b"value".to_vec()));
}

#[test]
fn delete_in_the_last_segment_survives_reopen() {
    let mut cask = Cask::open(Directory::new(), false);
    cask.set_size_threshold(30);
    put(&mut cask, b"k", b"value");
    put(&mut cask, b"other", b"value");
    assert_eq!(cask.compact(0), Ok(()));
    put(&mut cask, b"third", b"value");
    assert_eq!(cask.log().active_file_id(), 3);
    cask.delete(b"k");
    let cask = Cask::open(cask.close(), false);
    assert_eq!(get(&cask, b"k"), None);
    assert_eq!(get(&cask, b"other"), Some(b"value".to_vec()));
    assert_eq!(get(&cask, b"third"), Some(b"value".to_vec()));
}

fn writer_key(writer: u32, i: u32) -> Vec<u8> {
    format!("writer {} key {}", writer, i % 50).into_bytes()
}

fn writer_value(writer: u32, i: u32) -> Vec<u8> {
    format!("value {} of writer {}", i, writer).into_bytes()
}

#[test]
fn interleaved_writers_and_a_reader() {
    let mut cask = Cask::open(Directory::new(), false);
    cask.set_size_threshold(4096);
    let mut seed: u32 = 12345;
    for i in 0..1000u32 {
        for writer in 0..2u32 {
            put(&mut cask, &writer_key(writer, i), &writer_value(writer, i));
        }
        seed = seed.wrapping_mul(1103515245).wrapping_add(12345);
        if let Some(found) = get(&cask, &writer_key(seed % 2, seed / 7)) {
            assert!(found.starts_with(b"value "));
        }
    }
    for writer in 0..2u32 {
        for i in 950..1000u32 {
            assert_eq!(get(&cask, &writer_key(writer, i)), Some(writer_value(writer, i)));
        }
    }
    assert!(cask.log().files().len() > 1);
    assert_eq!(cask.last_sequence(), 2000);
}

#[test]
fn put_beside_a_compaction_wins() {
    for put_first in [false, true] {
        let mut cask = Cask::open(Directory::new(), false);
        cask.set_size_threshold(40);
        put(&mut cask, b"k", b"the first value of k");
        put(&mut cask, b"other", b"some other value");
        assert_eq!(cask.log().files(), vec![0]);
        cask.set_size_threshold(1 << 20);
        if put_first {
            put(&mut cask, b"k", b"the second value of k");
            assert_eq!(cask.compact(0), Ok(()));
        } else {
            assert_eq!(cask.compact(0), Ok(()));
            put(&mut cask, b"k", b"the second value of k");
        }
        assert_eq!(get(&cask, b"k"), Some(b"the second value of k".to_vec()));
        assert_eq!(get(&cask, b"other"), Some(b"some other value".to_vec()));
        let cask = Cask::open(cask.close(), false);
        assert_eq!(get(&cask, b"k"), Some(b"the second value of k".to_vec()));
        assert_eq!(get(&cask, b"other"), Some(b"some other value".to_vec()));
    }
}

#[test]
fn every_hint_describes_its_entry() {
    let mut cask = two_segments();
    assert_eq!(cask.compact(0), Ok(()));
    put(&mut cask, b"e", b"value of e");
    let cask = Cask::open(cask.close(), false);
    let mut seen = 0;
    for file_id in cask.log().files() {
        let segment = cask.log().directory().get(file_id).unwrap();
        assert!(is_valid_hint_file(segment.hint.as_ref().unwrap()));
        let mut hints = cask.log().hints(file_id).unwrap();
        let mut end = 0;
        while let Some(hint) = hints.next() {
            let hint = hint.unwrap();
            let entry = cask.log().read_entry(file_id, hint.entry_pos).unwrap();
            assert_eq!(entry.sequence, hint.sequence);
            assert_eq!(entry.key, hint.key);
            assert_eq!(entry.deleted, hint.deleted);
            assert_eq!(entry.size(), hint.entry_size);
            assert_eq!(hint.entry_pos, end);
            end += hint.entry_size;
            seen += 1;
        }
        assert_eq!(end, segment.data.len() as u64);
    }
    assert!(seen >= 5);
}

#[test]
fn longest_key_and_empty_value() {
    let mut cask = Cask::open(Directory::new(), false);
    let key = vec![7u8; 0xFFFF];
    put(&mut cask, &key, b"");
    put(&mut cask, b"", b"empty key");
    assert_eq!(get(&cask, &key), Some(Vec::new()));
    assert_eq!(get(&cask, b""), Some(b"empty key".to_vec()));
    let cask = Cask::open(cask.close(), false);
    assert_eq!(get(&cask, &key), Some(Vec::new()));
    assert_eq!(get(&cask, b""), Some(b"empty key".to_vec()));
    assert_eq!(cask.log().directory().get(0).unwrap().data.len(), 19 + 0xFFFF + 19 + 9);
}
