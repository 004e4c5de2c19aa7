use cask::data::{ENTRY_HEADER_SIZE, HINT_HEADER_SIZE};
use cask::log::{parse_file_id, DEFAULT_SIZE_THRESHOLD};
use cask::{
    find_data_files, get_data_file_path, get_hint_file_path, is_valid_hint_file, xxhash32,
    xxhash64, Directory, Entries, Entry, Error, Hint, HintWriter, Hints, Index, IndexEntry, Log,
    LogWriter, RecreateHints, XxHash32,
};

#[test]
fn xxhash32_of_a_known_input() {
    assert_eq!(xxhash32(&[1, 2, 3, 4]), 4271296924);
    assert_eq!(xxhash32(&[]), 0x02cc5d05);
}

#[test]
fn xxhash64_of_a_known_input() {
    assert_eq!(xxhash64(&[1, 2, 3, 4]), 6063570110359613137);
}

#[test]
fn running_digest_equals_digest_of_the_whole() {
    let mut hasher = XxHash32::new();
    hasher.write(b"hello ");
    hasher.write(b"");
    hasher.write(b"world, this is more than sixteen bytes");
    assert_eq!(hasher.get(), xxhash32(b"hello world, this is more than sixteen bytes"));
    assert_eq!(XxHash32::new().get(), xxhash32(&[]));
    let mut hasher = XxHash32::new();
    for byte in b"hello world, this is more than sixteen bytes" {
        hasher.write(&[*byte]);
    }
    assert_eq!(hasher.get(), xxhash32(b"hello world, this is more than sixteen bytes"));
}

#[test]
fn entry_layout_is_byte_exact() {
    let entry = Entry::new(0x0102030405060708, b"ab", b"xyz");
    assert!(entry.is_valid());
    assert_eq!(entry.size(), 24);
    let bytes = entry.encode();
    let body: Vec<u8> = vec![
        0x08, 0x07, 0x06, 0x05, 0x04, 0x03, 0x02, 0x01, // sequence
        0x02, 0x00, // key length
        0x03, 0x00, 0x00, 0x00, // value length
        0x00, // flag
        b'a', b'b', b'x', b'y', b'z',
    ];
    let mut expected = xxhash32(&body).to_le_bytes().to_vec();
    expected.extend_from_slice(&body);
    assert_eq!(bytes, expected);
    assert_eq!(bytes.len(), ENTRY_HEADER_SIZE + 5);
}

#[test]
fn tombstone_layout_has_flag_and_no_value() {
    let entry = Entry::deleted(7, b"key");
    assert!(entry.deleted);
    assert!(entry.value.is_empty());
    let bytes = entry.encode();
    assert_eq!(bytes.len(), 22);
    assert_eq!(bytes[18], 1);
    assert_eq!(&bytes[14..18], &[0, 0, 0, 0]);
    assert_eq!(&bytes[19..], b"key");
}

#[test]
fn entry_decodes_to_what_was_encoded() {
    let entry = Entry::new(42, b"key", b"value");
    let mut bytes = entry.encode();
    assert_eq!(Entry::decode(&bytes), Ok(entry.clone()));
    bytes.extend_from_slice(b"whatever follows");
    assert_eq!(Entry::decode(&bytes), Ok(entry));
    let empty = Entry::new(0, b"", b"");
    assert_eq!(Entry::decode(&empty.encode()), Ok(empty));
}

#[test]
fn corrupt_entries_are_rejected() {
    let bytes = Entry::new(42, b"key", b"value").encode();
    assert_eq!(Entry::decode(&bytes[..bytes.len() - 1]), Err(Error::CorruptRecord));
    assert_eq!(Entry::decode(&bytes[..10]), Err(Error::CorruptRecord));
    assert_eq!(Entry::decode(&[]), Err(Error::CorruptRecord));
    for at in 0..bytes.len() {
        let mut flipped = bytes.clone();
        flipped[at] ^= 0x40;
        assert_eq!(Entry::decode(&flipped), Err(Error::CorruptRecord), "byte {}", at);
    }
}

#[test]
fn tombstone_with_a_value_is_rejected() {
    let body: Vec<u8> =
        vec![1, 0, 0, 0, 0, 0, 0, 0, 1, 0, 1, 0, 0, 0, 1, b'k', b'v'];
    let mut bytes = xxhash32(&body).to_le_bytes().to_vec();
    bytes.extend_from_slice(&body);
    assert_eq!(Entry::decode(&bytes), Err(Error::CorruptRecord));
    let mut put = body.clone();
    put[14] = 0;
    let mut bytes = xxhash32(&put).to_le_bytes().to_vec();
    bytes.extend_from_slice(&put);
    assert_eq!(Entry::decode(&bytes), Ok(Entry::new(1, b"k", b"v")));
    let mut odd_flag = body.clone();
    odd_flag[14] = 2;
    let mut bytes = xxhash32(&odd_flag).to_le_bytes().to_vec();
    bytes.extend_from_slice(&odd_flag);
    assert_eq!(Entry::decode(&bytes), Err(Error::CorruptRecord));
}

#[test]
fn entry_validity_follows_the_length_fields() {
    assert!(Entry::new(1, &vec![0u8; 0xFFFF], b"").is_valid());
    assert!(!Entry::new(1, &vec![0u8; 0x10000], b"").is_valid());
    let odd =
        Entry { sequence: 1, deleted: true, key: b"k".to_vec(), value: b"v".to_vec() };
    assert!(!odd.is_valid());
}

#[test]
fn hint_layout_is_byte_exact() {
    let entry = Entry::new(0x0102030405060708, b"ab", b"xyz");
    let hint = Hint::new(&entry, 0x1122334455667788);
    assert_eq!(hint.entry_size(), 24);
    assert_eq!(hint.key, b"ab".to_vec());
    assert!(!hint.deleted);
    let expected: Vec<u8> = vec![
        0x08, 0x07, 0x06, 0x05, 0x04, 0x03, 0x02, 0x01, // sequence
        0x02, 0x00, // key length
        0x88, 0x77, 0x66, 0x55, 0x44, 0x33, 0x22, 0x11, // entry position
        24, 0, 0, 0, 0, 0, 0, 0, // entry size
        0x00, // flag
        b'a', b'b',
    ];
    assert_eq!(hint.encode(), expected);
    assert_eq!(expected.len(), HINT_HEADER_SIZE + 2);
    assert_eq!(Hint::decode(&expected), Ok(hint));
}

#[test]
fn short_or_odd_hints_are_rejected() {
    let hint = Hint::new(&Entry::deleted(3, b"key"), 0);
    assert!(hint.deleted);
    let bytes = hint.encode();
    assert_eq!(bytes[26], 1);
    assert_eq!(Hint::decode(&bytes[..bytes.len() - 1]), Err(Error::CorruptHintFile));
    assert_eq!(Hint::decode(&bytes[..26]), Err(Error::CorruptHintFile));
    let mut odd = bytes.clone();
    odd[26] = 3;
    assert_eq!(Hint::decode(&odd), Err(Error::CorruptHintFile));
}

#[test]
fn file_names_are_ten_digits_and_an_extension() {
    assert_eq!(get_data_file_path(0), "0000000000.cask.data");
    assert_eq!(get_data_file_path(1), "0000000001.cask.data");
    assert_eq!(get_data_file_path(1234567890), "1234567890.cask.data");
    assert_eq!(get_data_file_path(u32::MAX), "4294967295.cask.data");
    assert_eq!(get_hint_file_path(42), "0000000042.cask.hint");
}

#[test]
fn data_files_are_found_by_name() {
    let names: Vec<String> = [
        "0000000002.cask.data",
        "cask.lock",
        "0000000000.cask.data",
        "0000000000.cask.hint",
        "0000000010.cask.data",
        "0000000003.cask.data.bak",
        "notes.txt",
        "x7.cask.data",
        "99999999999.cask.data",
        "0000000004xcaskxdata",
        ".cask.data",
    ]
    .iter()
    .map(|name| name.to_string())
    .collect();
    assert_eq!(find_data_files(&names), vec![0, 2, 7, 10]);
    assert_eq!(find_data_files(&Vec::new()), Vec::<u32>::new());
    assert_eq!(find_data_files(&vec![get_data_file_path(77)]), vec![77]);
}

#[test]
fn file_numbers_are_decimal_and_fit_32_bits() {
    assert_eq!(parse_file_id("0"), Some(0));
    assert_eq!(parse_file_id("0000000042"), Some(42));
    assert_eq!(parse_file_id("4294967295"), Some(u32::MAX));
    assert_eq!(parse_file_id("4294967296"), None);
    assert_eq!(parse_file_id("99999999999999999999999"), None);
    assert_eq!(parse_file_id(""), None);
    assert_eq!(parse_file_id("12a"), None);
    assert_eq!(parse_file_id("+5"), None);
    assert_eq!(parse_file_id("٣"), None);
}

#[test]
fn default_threshold_is_two_gibibytes() {
    assert_eq!(DEFAULT_SIZE_THRESHOLD, 2147483648);
    assert_eq!(Log::open(Directory::new(), false).size_threshold(), 2147483648);
}

fn hint(sequence: u64, deleted: bool, key: &[u8], entry_pos: u64) -> Hint {
    Hint { sequence, deleted, key: key.to_vec(), entry_pos, entry_size: 30 }
}

fn at(file_id: u32, entry_pos: u64, sequence: u64) -> Option<IndexEntry> {
    Some(IndexEntry { file_id, entry_pos, entry_size: 30, sequence })
}

#[test]
fn index_update_on_an_absent_key() {
    let mut index = Index::new();
    index.update(hint(5, true, b"k", 0), 1);
    assert_eq!(index.get(b"k"), None);
    index.update(hint(5, false, b"k", 7), 1);
    assert_eq!(index.get(b"k"), at(1, 7, 5));
}

#[test]
fn index_update_on_a_present_key() {
    let mut index = Index::new();
    index.update(hint(5, false, b"k", 7), 1);
    index.update(hint(4, false, b"k", 9), 2);
    assert_eq!(index.get(b"k"), at(1, 7, 5));
    index.update(hint(4, true, b"k", 9), 2);
    assert_eq!(index.get(b"k"), at(1, 7, 5));
    index.update(hint(5, false, b"k", 11), 3);
    assert_eq!(index.get(b"k"), at(3, 11, 5));
    index.update(hint(6, false, b"k", 13), 4);
    assert_eq!(index.get(b"k"), at(4, 13, 6));
    index.update(hint(6, true, b"k", 15), 5);
    assert_eq!(index.get(b"k"), None);
}

#[test]
fn index_holds_many_keys() {
    let mut index = Index::new();
    for i in 0..2000u32 {
        let key = format!("key {}", i).into_bytes();
        assert_eq!(index.insert(key, at(i, 0, 1).unwrap()), None);
    }
    for i in (0..2000u32).step_by(2) {
        let key = format!("key {}", i).into_bytes();
        assert_eq!(index.remove(&key), at(i, 0, 1));
    }
    for i in 0..2000u32 {
        let key = format!("key {}", i).into_bytes();
        assert_eq!(index.get(&key), if i % 2 == 0 { None } else { at(i, 0, 1) });
    }
}

#[test]
fn index_insert_and_remove() {
    let mut index = Index::new();
    let entry = at(1, 2, 3).unwrap();
    assert_eq!(index.insert(b"a".to_vec(), entry), None);
    assert_eq!(index.insert(b"b".to_vec(), entry), None);
    assert_eq!(index.insert(b"a".to_vec(), at(4, 5, 6).unwrap()), Some(entry));
    assert_eq!(index.get(b"a"), at(4, 5, 6));
    assert_eq!(index.remove(b"a"), at(4, 5, 6));
    assert_eq!(index.remove(b"a"), None);
    assert_eq!(index.get(b"b"), Some(entry));
    assert_eq!(index.get(b""), None);
}

#[test]
fn writer_lays_entries_end_to_end() {
    let mut writer = LogWriter::new(3, true);
    assert_eq!(writer.file_id(), 3);
    assert!(writer.sync());
    let first = Entry::new(1, b"a", b"1");
    let second = Entry::deleted(2, b"a");
    assert_eq!(writer.write(&first), 0);
    assert_eq!(writer.position(), 21);
    assert_eq!(writer.write(&second), 21);
    assert_eq!(writer.position(), 41);
    let mut data = first.encode();
    data.extend_from_slice(&second.encode());
    assert_eq!(writer.data_file(), &data[..]);
    let mut hints = Hint::new(&first, 0).encode();
    hints.extend_from_slice(&Hint::new(&second, 21).encode());
    assert_eq!(writer.hint_file(), &hints[..]);
    assert_eq!(writer.hint_trailer(), xxhash32(&hints).to_le_bytes().to_vec());
    let segment = writer.close();
    assert_eq!(segment.file_id, 3);
    assert_eq!(segment.data, data);
    let mut hint_file = hints.clone();
    hint_file.extend_from_slice(&xxhash32(&hints).to_le_bytes());
    assert_eq!(segment.hint, Some(hint_file));
}

#[test]
fn hint_writer_closes_with_the_digest() {
    let mut writer = HintWriter::new();
    let hint = Hint::new(&Entry::new(9, b"key", b"value"), 100);
    writer.write(&hint);
    assert_eq!(writer.hint_file(), &hint.encode()[..]);
    let hint_file = writer.finish();
    assert!(is_valid_hint_file(&hint_file));
    assert_eq!(&hint_file[..hint_file.len() - 4], &hint.encode()[..]);
    assert_eq!(&hint_file[hint_file.len() - 4..], &xxhash32(&hint.encode()).to_le_bytes());
    let empty = HintWriter::new().finish();
    assert_eq!(empty, xxhash32(&[]).to_le_bytes().to_vec());
    assert!(is_valid_hint_file(&empty));
}

#[test]
fn hint_files_need_their_trailer() {
    assert!(!is_valid_hint_file(&[]));
    assert!(!is_valid_hint_file(&[1, 2, 3]));
    assert!(!is_valid_hint_file(&[0, 0, 0, 0]));
    let mut file = b"anything".to_vec();
    file.extend_from_slice(&xxhash32(b"anything").to_le_bytes());
    assert!(is_valid_hint_file(&file));
    file[0] ^= 1;
    assert!(!is_valid_hint_file(&file));
}

#[test]
fn entries_cursor_stops_at_the_first_corrupt_record() {
    let first = Entry::new(1, b"a", b"1");
    let second = Entry::new(2, b"b", b"22");
    let mut data = first.encode();
    data.extend_from_slice(&second.encode());
    let clean = data.clone();
    data.extend_from_slice(b"garbage at the end of the file");
    let mut entries = Entries::new(&data);
    assert_eq!(entries.next(), Some((0, Ok(first.clone()))));
    assert_eq!(entries.next(), Some((21, Ok(second.clone()))));
    assert_eq!(entries.next(), Some((43, Err(Error::CorruptRecord))));
    assert_eq!(entries.next(), None);
    assert_eq!(entries.next(), None);
    let mut entries = Entries::new(&clean);
    assert_eq!(entries.next(), Some((0, Ok(first))));
    assert_eq!(entries.next(), Some((21, Ok(second))));
    assert_eq!(entries.next(), None);
    assert_eq!(Entries::new(&[]).next(), None);
}

#[test]
fn hints_cursor_yields_every_hint() {
    let first = Hint::new(&Entry::new(1, b"a", b"1"), 0);
    let second = Hint::new(&Entry::deleted(2, b"a"), 21);
    let mut records = first.encode();
    records.extend_from_slice(&second.encode());
    let mut hints = Hints::new(&records);
    assert_eq!(hints.next(), Some(Ok(first.clone())));
    assert_eq!(hints.next(), Some(Ok(second)));
    assert_eq!(hints.next(), None);
    let mut hints = Hints::new(&records[..records.len() - 1]);
    assert_eq!(hints.next(), Some(Ok(first)));
    assert_eq!(hints.next(), Some(Err(Error::CorruptHintFile)));
    assert_eq!(hints.next(), None);
}

#[test]
fn recreated_hints_are_those_of_a_writer() {
    let mut writer = LogWriter::new(0, false);
    writer.write(&Entry::new(1, b"a", b"1"));
    writer.write(&Entry::new(2, b"b", b"22"));
    writer.write(&Entry::deleted(3, b"a"));
    let segment = writer.close();
    let mut hints = RecreateHints::new(&segment.data);
    assert_eq!(hints.next(), Some(Ok(Hint::new(&Entry::new(1, b"a", b"1"), 0))));
    let hint_file = hints.finish();
    assert_eq!(Some(hint_file), segment.hint);
    let mut torn = segment.data.clone();
    torn.truncate(segment.data.len() - 3);
    let mut hints = RecreateHints::new(&torn);
    assert_eq!(hints.next(), Some(Ok(Hint::new(&Entry::new(1, b"a", b"1"), 0))));
    assert_eq!(hints.next(), Some(Ok(Hint::new(&Entry::new(2, b"b", b"22"), 21))));
    assert_eq!(hints.next(), Some(Err(Error::CorruptRecord)));
    assert_eq!(hints.next(), None);
    let hint_file = hints.finish();
    assert!(is_valid_hint_file(&hint_file));
    assert_eq!(hint_file.len(), 28 + 28 + 4);
}
