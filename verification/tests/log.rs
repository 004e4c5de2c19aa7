use cask::{Directory, Entry, Error, Log, LogWriter, Segment};

fn segment(file_id: u32, entries: &[Entry]) -> Segment {
    let mut writer = LogWriter::new(file_id, false);
    for entry in entries {
        writer.write(entry);
    }
    writer.close()
}

#[test]
fn directory_keeps_one_segment_per_number() {
    let mut directory = Directory::new();
    assert!(directory.get(1).is_none());
    assert_eq!(directory.file_ids(), Vec::<u32>::new());
    directory.insert(segment(5, &[]));
    directory.insert(segment(1, &[Entry::new(1, b"a", b"1")]));
    directory.insert(segment(3, &[]));
    assert_eq!(directory.file_ids(), vec![1, 3, 5]);
    assert_eq!(directory.get(1).unwrap().data.len(), 21);
    directory.insert(segment(1, &[]));
    assert_eq!(directory.file_ids(), vec![1, 3, 5]);
    assert!(directory.get(1).unwrap().data.is_empty());
    assert_eq!(directory.remove(3).map(|segment| segment.file_id), Some(3));
    assert!(directory.remove(3).is_none());
    assert_eq!(directory.file_ids(), vec![1, 5]);
}

#[test]
fn log_opens_behind_the_greatest_segment() {
    let log = Log::open(Directory::new(), false);
    assert_eq!(log.active_file_id(), 0);
    assert_eq!(log.current_file_id(), 0);
    assert!(!log.sync());
    let mut directory = Directory::new();
    directory.insert(segment(7, &[]));
    directory.insert(segment(2, &[]));
    let log = Log::open(directory, true);
    assert_eq!(log.files(), vec![2, 7]);
    assert_eq!(log.active_file_id(), 8);
    assert_eq!(log.current_file_id(), 8);
    assert_eq!(log.active_log_writer().file_id(), 8);
    assert!(log.active_log_writer().sync());
}

#[test]
fn append_rolls_when_the_entry_does_not_fit() {
    let mut log = Log::open(Directory::new(), false);
    log.set_size_threshold(50);
    let entry = Entry::new(1, b"key", b"value");
    assert_eq!(entry.size(), 27);
    assert_eq!(log.append_entry(&entry), (0, 0));
    assert_eq!(log.files(), Vec::<u32>::new());
    assert_eq!(log.append_entry(&entry), (1, 0));
    assert_eq!(log.files(), vec![0]);
    assert_eq!(log.active_file_id(), 1);
    assert_eq!(log.current_file_id(), 1);
    let small = Entry::new(2, b"", b"");
    assert_eq!(log.append_entry(&small), (1, 27));
    assert_eq!(log.append_entry(&small), (2, 0));
    assert_eq!(log.files(), vec![0, 1]);
    assert_eq!(log.directory().get(1).unwrap().data.len(), 46);
}

#[test]
fn an_entry_that_just_fits_does_not_roll() {
    let mut log = Log::open(Directory::new(), false);
    log.set_size_threshold(54);
    let entry = Entry::new(1, b"key", b"value");
    assert_eq!(log.append_entry(&entry), (0, 0));
    assert_eq!(log.append_entry(&entry), (0, 27));
    assert_eq!(log.append_entry(&entry), (1, 0));
}

#[test]
fn an_entry_above_the_threshold_gets_a_segment_of_its_own() {
    let mut log = Log::open(Directory::new(), false);
    log.set_size_threshold(10);
    let entry = Entry::new(1, b"key", b"value");
    assert_eq!(log.append_entry(&entry), (1, 0));
    assert_eq!(log.append_entry(&entry), (2, 0));
    assert_eq!(log.files(), vec![0, 1]);
    assert!(log.directory().get(0).unwrap().data.is_empty());
}

#[test]
fn read_entry_finds_sealed_and_active_records() {
    let mut log = Log::open(Directory::new(), false);
    log.set_size_threshold(40);
    let first = Entry::new(1, b"one", b"1");
    let second = Entry::new(2, b"two", b"2");
    assert_eq!(log.append_entry(&first), (0, 0));
    assert_eq!(log.append_entry(&second), (1, 0));
    assert_eq!(log.read_entry(0, 0), Ok(first));
    assert_eq!(log.read_entry(1, 0), Ok(second));
    assert_eq!(log.read_entry(1, 1), Err(Error::CorruptRecord));
    assert_eq!(log.read_entry(1, 23), Err(Error::CorruptRecord));
    assert_eq!(log.read_entry(1, 1000), Err(Error::CorruptRecord));
    assert_eq!(log.read_entry(9, 0), Err(Error::IoError));
}

#[test]
fn cursors_of_a_missing_segment() {
    let log = Log::open(Directory::new(), false);
    assert!(log.hints(3).is_none());
    assert!(matches!(log.entries(3), Err(Error::IoError)));
    assert!(matches!(log.recreate_hints(3), Err(Error::IoError)));
}

#[test]
fn cursors_of_a_sealed_segment() {
    let entries = [Entry::new(1, b"a", b"1"), Entry::deleted(2, b"a")];
    let mut directory = Directory::new();
    directory.insert(segment(0, &entries));
    let log = Log::open(directory, false);
    let mut cursor = log.entries(0).ok().unwrap();
    assert_eq!(cursor.next(), Some((0, Ok(entries[0].clone()))));
    assert_eq!(cursor.next(), Some((21, Ok(entries[1].clone()))));
    assert_eq!(cursor.next(), None);
    let mut hints = log.hints(0).unwrap();
    let mut recreated = log.recreate_hints(0).ok().unwrap();
    for _ in 0..3 {
        assert_eq!(hints.next(), recreated.next());
    }
}

#[test]
fn new_file_ids_count_up() {
    let mut log = Log::open(Directory::new(), false);
    assert_eq!(log.new_file_id(), 1);
    assert_eq!(log.new_file_id(), 2);
    assert_eq!(log.active_file_id(), 0);
    log.set_size_threshold(0);
    assert_eq!(log.append_entry(&Entry::new(1, b"", b"")), (3, 0));
}

#[test]
fn add_and_swap_keep_the_list_ascending() {
    let mut log = Log::open(Directory::new(), false);
    log.add_file(5);
    log.add_file(2);
    log.add_file(9);
    assert_eq!(log.files(), vec![2, 5, 9]);
    log.store(segment(0, &[]));
    log.swap_file(5, 7);
    assert_eq!(log.files(), vec![2, 7, 9]);
    log.swap_file(9, 1);
    assert_eq!(log.files(), vec![1, 2, 7]);
}

#[test]
fn swap_deletes_the_old_files() {
    let mut log = Log::open(Directory::new(), false);
    log.set_size_threshold(0);
    log.append_entry(&Entry::new(1, b"a", b"1"));
    log.append_entry(&Entry::new(2, b"b", b"2"));
    assert_eq!(log.files(), vec![0, 1]);
    let new_file_id = log.new_file_id();
    log.store(segment(new_file_id, &[Entry::new(1, b"a", b"1")]));
    log.swap_file(1, new_file_id);
    assert_eq!(log.files(), vec![0, new_file_id]);
    assert!(log.directory().get(1).is_none());
    assert!(log.directory().get(new_file_id).is_some());
}

#[test]
fn write_hint_file_replaces_the_hint_file() {
    let mut directory = Directory::new();
    let mut torn = segment(0, &[Entry::new(1, b"a", b"1")]);
    let good = torn.hint.take();
    torn.hint = Some(vec![1, 2, 3, 4, 5]);
    directory.insert(torn);
    let mut log = Log::open(directory, false);
    assert!(log.hints(0).is_none());
    let hint_file = log.recreate_hints(0).ok().unwrap().finish();
    log.write_hint_file(0, hint_file);
    assert_eq!(log.directory().get(0).unwrap().hint, good);
    assert!(log.hints(0).is_some());
    log.write_hint_file(4, vec![]);
    assert!(log.directory().get(4).is_none());
}

#[test]
fn close_seals_the_active_segment() {
    let mut log = Log::open(Directory::new(), false);
    let entry = Entry::new(1, b"a", b"1");
    log.append_entry(&entry);
    let directory = log.close();
    assert_eq!(directory.file_ids(), vec![0]);
    let sealed = directory.get(0).unwrap();
    assert_eq!(sealed.data, entry.encode());
    assert!(cask::is_valid_hint_file(sealed.hint.as_ref().unwrap()));
}
