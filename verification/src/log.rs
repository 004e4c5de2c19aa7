//! The log: segment writers, the cursors that read segments back, and the
//! manager of a directory's segments.

use crate::data::{
    decode_entry, entry_at, lemma_decode_encoded_entry, lemma_decode_entry_ignores_rest,
    lemma_decoded_entry_is_prefix, lemma_encoded_entry_len, Entry, EntryView, Error, Hint, HintView,
    HINT_HEADER_SIZE,
};
use crate::directory::{
    insert_sorted, is_sorted, is_strictly_sorted, lemma_sorted_insert_sorted,
    lemma_sorted_remove_any, sorted_insert, sorted_remove, Directory, Segment,
};
use crate::endian::{append, get_u32, put_u32};
use crate::segment::{
    data_hints, encode_hints, hint_body, hint_trailer, is_clean, lemma_clean_prefix_step,
    lemma_data_hints_appended, lemma_encode_hints_push, lemma_hints_of_prefix,
    lemma_parse_appended_entry, lemma_parse_behind_clean_prefix, parse_entries, parse_hints,
    valid_hint_file, SegmentView, TRAILER_SIZE,
};
use crate::xxhash::XxHash32;
use vstd::bytes::*;
use vstd::multiset::Multiset;
use vstd::prelude::*;
use vstd::slice::*;
use vstd::string::*;

verus! {

pub const DATA_FILE_EXTENSION: &'static str = "cask.data";

pub const HINT_FILE_EXTENSION: &'static str = "cask.hint";

pub const LOCK_FILE_NAME: &'static str = "cask.lock";

/// Names of data files: a run of digits, then `.cask.data` at the end.
pub const DATA_FILE_PATTERN: &'static str = "(\\d+)\\.cask\\.data$";

/// Size at which the active segment is sealed, unless another is set.
pub const DEFAULT_SIZE_THRESHOLD: u64 = 2 * 1024 * 1024 * 1024;

/// Whether the last four bytes of a hint file are the digest of the rest.
pub fn is_valid_hint_file(hint_file: &[u8]) -> (valid: bool)
    ensures
        valid == valid_hint_file(hint_file@),
{
    assert(hint_file@.len() == hint_file.len());
    if hint_file.len() < TRAILER_SIZE {
        return false;
    }
    let body_len = hint_file.len() - TRAILER_SIZE;
    let mut hasher = XxHash32::new();
    hasher.write(slice_subrange(hint_file, 0, body_len));
    assert(hasher@ =~= hint_body(hint_file@));
    let checksum = get_u32(hint_file, body_len);
    hasher.get() == checksum
}

/// Collects the hints of a segment and the running digest of their bytes.
pub struct HintWriter {
    hint_file: Vec<u8>,
    hint_file_hasher: XxHash32,
}

impl HintWriter {
    /// The digest has been fed exactly what was written.
    pub closed spec fn wf(&self) -> bool {
        self.hint_file_hasher.wf() && self.hint_file_hasher@ == self.hint_file@
    }

    /// The hint records written so far.
    pub closed spec fn view(&self) -> Seq<u8> {
        self.hint_file@
    }

    pub fn new() -> (writer: HintWriter)
        ensures
            writer.wf(),
            writer@ == Seq::<u8>::empty(),
    {
        HintWriter { hint_file: Vec::new(), hint_file_hasher: XxHash32::new() }
    }

    /// Appends a hint to the file and feeds it to the digest.
    pub fn write(&mut self, hint: &Hint)
        requires
            old(self).wf(),
            hint@.wf(),
        ensures
            final(self).wf(),
            final(self)@ == old(self)@ + hint@.encode(),
    {
        let bytes = hint.encode();
        append(&mut self.hint_file, bytes.as_slice());
        self.hint_file_hasher.write(bytes.as_slice());
    }

    /// The hint records written so far.
    pub fn hint_file(&self) -> (bytes: &[u8])
        ensures
            bytes@ == self@,
    {
        self.hint_file.as_slice()
    }

    /// The trailer that would close the file now: the digest of the
    /// records written so far.
    pub fn trailer(&self) -> (trailer: Vec<u8>)
        requires
            self.wf(),
        ensures
            trailer@ == hint_trailer(self@),
    {
        let mut trailer: Vec<u8> = Vec::new();
        put_u32(&mut trailer, self.hint_file_hasher.get());
        assert(trailer@ =~= hint_trailer(self@));
        trailer
    }

    /// Closes the file with the digest of its records.
    pub fn finish(self) -> (hint_file: Vec<u8>)
        requires
            self.wf(),
        ensures
            hint_file@ == self@ + hint_trailer(self@),
            valid_hint_file(hint_file@),
            hint_body(hint_file@) == self@,
    {
        let digest = self.hint_file_hasher.get();
        let mut hint_file = self.hint_file;
        let ghost body = hint_file@;
        put_u32(&mut hint_file, digest);
        proof {
            lemma_auto_spec_u32_to_from_le_bytes();
            let len = hint_file@.len() as int;
            assert(hint_file@.subrange(0, len - TRAILER_SIZE) =~= body);
            assert(hint_file@.subrange(len - TRAILER_SIZE, len) =~= spec_u32_to_le_bytes(digest));
        }
        hint_file
    }
}

/// A segment writer as a mathematical value.
pub struct LogWriterView {
    pub file_id: u32,
    pub sync: bool,
    /// The data file so far.
    pub data: Seq<u8>,
    /// The records of the hint file so far.
    pub hints: Seq<u8>,
}

/// Appends entries to the data file of one segment and their hints to its
/// hint file.
pub struct LogWriter {
    sync: bool,
    file_id: u32,
    data_file: Vec<u8>,
    data_file_pos: u64,
    hint_writer: HintWriter,
}

impl View for LogWriter {
    type V = LogWriterView;

    closed spec fn view(&self) -> LogWriterView {
        LogWriterView {
            file_id: self.file_id,
            sync: self.sync,
            data: self.data_file@,
            hints: self.hint_writer@,
        }
    }
}

impl LogWriter {
    /// The data file is entries from end to end, the hint file lists
    /// exactly those, and the write position is the data file's length.
    pub closed spec fn wf(&self) -> bool {
        &&& self.hint_writer.wf()
        &&& self.data_file_pos == self.data_file@.len()
        &&& is_clean(self.data_file@)
        &&& self.hint_writer@ == encode_hints(data_hints(self.data_file@))
    }

    /// What a well-formed writer has written.
    pub proof fn lemma_wf(&self)
        requires
            self.wf(),
        ensures
            is_clean(self@.data),
            self@.hints == encode_hints(data_hints(self@.data)),
            self@.data.len() <= u64::MAX,
    {
    }

    /// A writer for the empty segment `file_id`.
    pub fn new(file_id: u32, sync: bool) -> (writer: LogWriter)
        ensures
            writer.wf(),
            writer@ == (LogWriterView {
                file_id,
                sync,
                data: Seq::empty(),
                hints: Seq::empty(),
            }),
    {
        let writer = LogWriter {
            sync,
            file_id,
            data_file: Vec::new(),
            data_file_pos: 0,
            hint_writer: HintWriter::new(),
        };
        proof {
            assert(parse_entries(Seq::<u8>::empty()) =~= Seq::<EntryView>::empty());
            assert(data_hints(Seq::<u8>::empty()) =~= Seq::<HintView>::empty());
            assert(crate::segment::encode_entries(Seq::<EntryView>::empty()) =~= Seq::<
                u8,
            >::empty());
            assert(encode_hints(Seq::<HintView>::empty()) =~= Seq::<u8>::empty());
        }
        writer
    }

    /// Appends `entry` to the data file and its hint to the hint file, and
    /// returns the offset at which the entry begins.
    pub fn write(&mut self, entry: &Entry) -> (entry_pos: u64)
        requires
            old(self).wf(),
            entry@.wf(),
        ensures
            final(self).wf(),
            entry_pos == old(self)@.data.len(),
            final(self)@ == (LogWriterView {
                data: old(self)@.data + entry@.encode(),
                hints: old(self)@.hints + HintView::of_entry(entry@, entry_pos).encode(),
                ..old(self)@
            }),
    {
        let entry_pos = self.data_file_pos;
        let hint = Hint::new(entry, entry_pos);
        let bytes = entry.encode();
        proof {
            lemma_parse_appended_entry(self.data_file@, entry@);
            lemma_data_hints_appended(self.data_file@, entry@);
            lemma_encode_hints_push(data_hints(self.data_file@), hint@);
        }
        append(&mut self.data_file, bytes.as_slice());
        self.hint_writer.write(&hint);
        self.data_file_pos = self.data_file.len() as u64;
        entry_pos
    }

    pub fn file_id(&self) -> (file_id: u32)
        ensures
            file_id == self@.file_id,
    {
        self.file_id
    }

    pub fn sync(&self) -> (sync: bool)
        ensures
            sync == self@.sync,
    {
        self.sync
    }

    /// The offset at which the next entry will begin.
    pub fn position(&self) -> (pos: u64)
        requires
            self.wf(),
        ensures
            pos == self@.data.len(),
    {
        self.data_file_pos
    }

    /// The data file so far.
    pub fn data_file(&self) -> (bytes: &[u8])
        ensures
            bytes@ == self@.data,
    {
        self.data_file.as_slice()
    }

    /// The records of the hint file so far.
    pub fn hint_file(&self) -> (bytes: &[u8])
        ensures
            bytes@ == self@.hints,
    {
        self.hint_writer.hint_file()
    }

    /// The trailer that would close the hint file now.
    pub fn hint_trailer(&self) -> (trailer: Vec<u8>)
        requires
            self.wf(),
        ensures
            trailer@ == hint_trailer(self@.hints),
    {
        self.hint_writer.trailer()
    }

    /// Seals the segment: closes the hint file with its trailer and hands
    /// out both files.
    pub fn close(self) -> (segment: Segment)
        requires
            self.wf(),
        ensures
            segment.file_id == self@.file_id,
            segment@.data == self@.data,
            segment@.hint == Some(self@.hints + hint_trailer(self@.hints)),
            valid_hint_file(segment@.hint.unwrap()),
            segment@.consistent(),
            segment@.hints() == data_hints(self@.data),
    {
        let ghost data = self.data_file@;
        let segment = Segment {
            file_id: self.file_id,
            data: self.data_file,
            hint: Some(self.hint_writer.finish()),
        };
        proof {
            assert(segment@.consistent());
            crate::segment::lemma_consistent_segment_hints(segment@);
        }
        segment
    }
}

/// A cursor over the entries of a data file, from its first byte on.
pub struct Entries<'a> {
    data_file: &'a [u8],
    data_file_pos: usize,
}

impl<'a> Entries<'a> {
    /// The data file that is read.
    pub closed spec fn data(&self) -> Seq<u8> {
        self.data_file@
    }

    /// The offset of the next entry.
    pub closed spec fn pos(&self) -> nat {
        self.data_file_pos as nat
    }

    pub open spec fn wf(&self) -> bool {
        self.pos() <= self.data().len() <= usize::MAX
    }

    /// The bytes from the cursor to the end of the file.
    pub open spec fn rest(&self) -> Seq<u8> {
        self.data().skip(self.pos() as int)
    }

    pub fn new(data_file: &'a [u8]) -> (entries: Entries<'a>)
        ensures
            entries.wf(),
            entries.data() == data_file@,
            entries.pos() == 0,
    {
        assert(data_file@.len() == data_file.len());
        Entries { data_file, data_file_pos: 0 }
    }

    /// The next entry with its offset. Bytes that are no entry are reported
    /// once, as `CorruptRecord`; nothing behind them is read.
    pub fn next(&mut self) -> (item: Option<(u64, Result<Entry, Error>)>)
        requires
            old(self).wf(),
        ensures
            final(self).wf(),
            final(self).data() == old(self).data(),
            match item {
                None => old(self).pos() == old(self).data().len() && final(self).pos() == old(
                    self,
                ).pos(),
                Some((entry_pos, Ok(entry))) => entry_pos == old(self).pos() && decode_entry(
                    old(self).rest(),
                ) == Some(entry@) && final(self).pos() == old(self).pos() + entry@.size(),
                Some((entry_pos, Err(error))) => entry_pos == old(self).pos() && error
                    == Error::CorruptRecord && old(self).pos() < old(self).data().len()
                    && decode_entry(old(self).rest()) is None && final(self).pos() == old(
                    self,
                ).data().len(),
            },
    {
        assert(self.data_file@.len() == self.data_file.len());
        let len = self.data_file.len();
        if self.data_file_pos == len {
            return None;
        }
        let entry_pos = self.data_file_pos;
        match Entry::decode(slice_subrange(self.data_file, entry_pos, len)) {
            Ok(entry) => {
                proof {
                    crate::data::lemma_decoded_entry_is_prefix(self.rest());
                }
                self.data_file_pos = entry_pos + entry.size() as usize;
                Some((entry_pos as u64, Ok(entry)))
            },
            Err(error) => {
                self.data_file_pos = len;
                Some((entry_pos as u64, Err(error)))
            },
        }
    }
}

/// A cursor over the hints of a valid hint file.
pub struct Hints<'a> {
    hint_file: &'a [u8],
    hint_file_pos: usize,
}

impl<'a> Hints<'a> {
    /// The hint records that have not been read yet, as bytes.
    pub closed spec fn rest(&self) -> Seq<u8> {
        self.hint_file@.skip(self.hint_file_pos as int)
    }

    pub closed spec fn wf(&self) -> bool {
        self.hint_file_pos <= self.hint_file@.len()
    }

    /// The hints that are still to come.
    pub open spec fn remaining(&self) -> Seq<HintView> {
        parse_hints(self.rest())
    }

    /// A cursor over hint records, the trailer taken off.
    pub fn new(hint_records: &'a [u8]) -> (hints: Hints<'a>)
        ensures
            hints.wf(),
            hints.rest() == hint_records@,
    {
        assert(hint_records@.skip(0) =~= hint_records@);
        Hints { hint_file: hint_records, hint_file_pos: 0 }
    }

    /// The next hint. Bytes that are no hint are reported once, as
    /// `CorruptHintFile`; nothing behind them is read.
    pub fn next(&mut self) -> (item: Option<Result<Hint, Error>>)
        requires
            old(self).wf(),
        ensures
            final(self).wf(),
            match item {
                None => old(self).rest().len() == 0 && final(self).rest() == old(self).rest(),
                Some(Ok(hint)) => old(self).remaining() == seq![hint@] + final(self).remaining()
                    && hint@.wf() && final(self).rest().len() < old(self).rest().len(),
                Some(Err(error)) => error == Error::CorruptHintFile && old(self).rest().len() > 0
                    && old(self).remaining().len() == 0 && final(self).rest().len() == 0,
            },
    {
        assert(self.hint_file@.len() == self.hint_file.len());
        let len = self.hint_file.len();
        if self.hint_file_pos == len {
            return None;
        }
        let pos = self.hint_file_pos;
        match Hint::decode(slice_subrange(self.hint_file, pos, len)) {
            Ok(hint) => {
                proof {
                    crate::data::lemma_decoded_hint_is_prefix(self.rest());
                    assert(self.rest().subrange(hint@.size() as int, self.rest().len() as int)
                        =~= self.hint_file@.skip(pos + hint@.size()));
                }
                self.hint_file_pos = pos + HINT_HEADER_SIZE + hint.key.len();
                Some(Ok(hint))
            },
            Err(error) => {
                self.hint_file_pos = len;
                Some(Err(error))
            },
        }
    }
}

/// A cursor over the hints of a data file that writes, as it goes, the hint
/// file that the data file should have.
pub struct RecreateHints<'a> {
    hint_writer: HintWriter,
    entries: Entries<'a>,
}

impl<'a> RecreateHints<'a> {
    /// The data file that is read.
    pub closed spec fn data(&self) -> Seq<u8> {
        self.entries.data()
    }

    /// How many hints have been handed out.
    pub closed spec fn count(&self) -> nat {
        parse_entries(self.entries.data().take(self.entries.pos() as int)).len()
    }

    /// The hints that are still to come.
    pub open spec fn remaining(&self) -> Seq<HintView> {
        data_hints(self.data()).skip(self.count() as int)
    }

    /// What has been read is clean, and the hint file lists it.
    pub closed spec fn wf(&self) -> bool {
        let data = self.entries.data();
        let pos = self.entries.pos() as int;
        &&& self.entries.wf()
        &&& self.hint_writer.wf()
        &&& pos == data.len() || is_clean(data.take(pos))
        &&& self.hint_writer@ == encode_hints(data_hints(data.take(pos)))
        &&& self.count() <= data_hints(data).len()
    }

    pub fn new(data_file: &'a [u8]) -> (hints: RecreateHints<'a>)
        ensures
            hints.wf(),
            hints.data() == data_file@,
            hints.remaining() == data_hints(data_file@),
    {
        let hints = RecreateHints { hint_writer: HintWriter::new(), entries: Entries::new(data_file) };
        proof {
            let empty = data_file@.take(0);
            assert(empty =~= Seq::<u8>::empty());
            assert(parse_entries(empty) =~= Seq::<EntryView>::empty());
            assert(data_hints(empty) =~= Seq::<HintView>::empty());
            assert(crate::segment::encode_entries(Seq::<EntryView>::empty()) =~= Seq::<
                u8,
            >::empty());
            assert(encode_hints(Seq::<HintView>::empty()) =~= Seq::<u8>::empty());
            assert(data_hints(data_file@).skip(0) =~= data_hints(data_file@));
        }
        hints
    }

    /// The hint of the next entry; it is written to the hint file as well.
    /// Bytes that are no entry are reported once, as `CorruptRecord`.
    pub fn next(&mut self) -> (item: Option<Result<Hint, Error>>)
        requires
            old(self).wf(),
        ensures
            final(self).wf(),
            final(self).data() == old(self).data(),
            match item {
                None => old(self).remaining().len() == 0 && final(self).remaining().len() == 0,
                Some(Ok(hint)) => old(self).remaining().len() > 0 && hint@ == old(
                    self,
                ).remaining()[0] && final(self).remaining() == old(self).remaining().skip(1)
                    && hint@.wf(),
                Some(Err(error)) => error == Error::CorruptRecord && old(self).remaining().len()
                    == 0 && final(self).remaining().len() == 0,
            },
    {
        let ghost data = self.entries.data();
        let ghost pos = self.entries.pos() as int;
        let ghost before = parse_entries(data.take(pos));
        proof {
            if pos == data.len() {
                assert(data.take(pos) =~= data);
            } else {
                lemma_parse_behind_clean_prefix(data, pos);
            }
        }
        match self.entries.next() {
            None => None,
            Some((entry_pos, Ok(entry))) => {
                proof {
                    lemma_clean_prefix_step(data, pos, entry@);
                    let all = parse_entries(data);
                    let rest = parse_entries(data.skip(pos));
                    assert(rest[0] == entry@);
                    assert(all[before.len() as int] == entry@);
                    lemma_encode_hints_push(
                        data_hints(data.take(pos)),
                        HintView::of_entry(entry@, pos as u64),
                    );
                    assert(all.len() == before.len() + rest.len());
                    assert(data_hints(data).skip(before.len() as int).skip(1) =~= data_hints(
                        data,
                    ).skip(before.len() as int + 1));
                }
                let hint = Hint::new(&entry, entry_pos);
                self.hint_writer.write(&hint);
                Some(Ok(hint))
            },
            Some((_, Err(error))) => {
                proof {
                    let all = parse_entries(data);
                    assert(parse_entries(data.skip(pos)) =~= Seq::<EntryView>::empty());
                    assert(all =~= before);
                    assert(data.take(data.len() as int) =~= data);
                }
                Some(Err(error))
            },
        }
    }

    /// Reads the data file to its end and hands out the hint file, closed
    /// with its trailer.
    pub fn finish(self) -> (hint_file: Vec<u8>)
        requires
            self.wf(),
        ensures
            valid_hint_file(hint_file@),
            hint_body(hint_file@) == encode_hints(data_hints(self.data())),
            hint_file@ == hint_body(hint_file@) + hint_trailer(hint_body(hint_file@)),
    {
        let mut cursor = self;
        let ghost data = cursor.data();
        loop
            invariant_except_break
                cursor.wf(),
                cursor.data() == data,
            ensures
                cursor.wf(),
                cursor.data() == data,
                cursor.remaining().len() == 0,
            decreases cursor.remaining().len(),
        {
            match cursor.next() {
                Some(Ok(_)) => {},
                _ => {
                    break ;
                },
            }
        }
        proof {
            let pos = cursor.entries.pos() as int;
            if pos == data.len() {
                assert(data.take(pos) =~= data);
            } else {
                lemma_parse_behind_clean_prefix(data, pos);
                lemma_hints_of_prefix(parse_entries(data), cursor.count() as int);
                assert(parse_entries(data).take(cursor.count() as int) =~= parse_entries(
                    data.take(pos),
                ));
                assert(data_hints(data).take(cursor.count() as int) =~= data_hints(data));
            }
        }
        cursor.hint_writer.finish()
    }
}

/// The log manager as a mathematical value.
pub struct LogView {
    pub sync: bool,
    pub size_threshold: u64,
    /// The files of the sealed segments and of those a compaction wrote.
    pub dir: Map<u32, SegmentView>,
    /// The numbers of the sealed segments, ascending.
    pub files: Seq<u32>,
    /// The greatest segment number given out.
    pub current_file_id: u32,
    pub active_file_id: u32,
    /// The writer of the active segment.
    pub active: LogWriterView,
}

impl LogView {
    pub open spec fn wf(self) -> bool {
        &&& self.active.file_id == self.active_file_id
        &&& self.active.sync == self.sync
        &&& self.active_file_id <= self.current_file_id
        &&& is_sorted(self.files)
        &&& forall|file_id: u32| #[trigger]
            self.dir.contains_key(file_id) ==> file_id <= self.current_file_id && file_id
                != self.active_file_id
        &&& is_clean(self.active.data)
        &&& self.active.hints == encode_hints(data_hints(self.active.data))
        &&& self.active.data.len() <= u64::MAX
    }

    /// The data file of segment `file_id`, the active one included.
    pub open spec fn data_of(self, file_id: u32) -> Option<Seq<u8>> {
        if file_id == self.active_file_id {
            Some(self.active.data)
        } else if self.dir.contains_key(file_id) {
            Some(self.dir[file_id].data)
        } else {
            None
        }
    }

    /// The entry at offset `entry_pos` of segment `file_id`.
    pub open spec fn read(self, file_id: u32, entry_pos: u64) -> Result<EntryView, Error> {
        match self.data_of(file_id) {
            None => Err(Error::IoError),
            Some(data) => match entry_at(data, entry_pos as int) {
                Some(entry) => Ok(entry),
                None => Err(Error::CorruptRecord),
            },
        }
    }

    /// Whether `file_id` is the active segment or a sealed one.
    pub open spec fn is_segment(self, file_id: u32) -> bool {
        file_id == self.active_file_id || self.files.contains(file_id)
    }

    /// The hints of segment `file_id`: those of the data file written so
    /// far for the active segment, those that loading yields for another.
    pub open spec fn hints_of(self, file_id: u32) -> Seq<HintView> {
        if file_id == self.active_file_id {
            data_hints(self.active.data)
        } else {
            self.dir[file_id].hints()
        }
    }

    /// Whether segment `file_id` has a hint file with a valid trailer.
    pub open spec fn has_hints(self, file_id: u32) -> bool {
        &&& self.dir.contains_key(file_id)
        &&& self.dir[file_id].hint is Some
        &&& valid_hint_file(self.dir[file_id].hint.unwrap())
    }

    /// Whether `entry` no longer fits the active segment.
    pub open spec fn must_roll(self, entry: EntryView) -> bool {
        self.active.data.len() + entry.size() > self.size_threshold
    }

    /// The files of the active segment once it is sealed.
    pub open spec fn sealed_active(self) -> SegmentView {
        SegmentView {
            data: self.active.data,
            hint: Some(self.active.hints + hint_trailer(self.active.hints)),
        }
    }

    /// The active segment sealed and a new, empty one begun under the next
    /// segment number.
    pub open spec fn roll(self) -> LogView {
        let next = (self.current_file_id + 1) as u32;
        LogView {
            dir: self.dir.insert(self.active_file_id, self.sealed_active()),
            files: sorted_insert(self.files, self.active_file_id),
            current_file_id: next,
            active_file_id: next,
            active: LogWriterView {
                file_id: next,
                sync: self.sync,
                data: Seq::empty(),
                hints: Seq::empty(),
            },
            ..self
        }
    }

    /// `entry` written to the active segment.
    pub open spec fn write(self, entry: EntryView) -> LogView {
        LogView {
            active: LogWriterView {
                data: self.active.data + entry.encode(),
                hints: self.active.hints + HintView::of_entry(
                    entry,
                    self.active.data.len() as u64,
                ).encode(),
                ..self.active
            },
            ..self
        }
    }

    /// `entry` appended: to a new segment if it no longer fits the active
    /// one, else to the active one.
    pub open spec fn append(self, entry: EntryView) -> LogView {
        if self.must_roll(entry) {
            self.roll().write(entry)
        } else {
            self.write(entry)
        }
    }

    /// The offset at which `append` puts `entry`.
    pub open spec fn append_pos(self, entry: EntryView) -> u64 {
        if self.must_roll(entry) {
            0
        } else {
            self.active.data.len() as u64
        }
    }

    /// The directory as it is once the log is closed.
    pub open spec fn closed(self) -> Map<u32, SegmentView> {
        self.dir.insert(self.active_file_id, self.sealed_active())
    }
}

/// The manager of a directory's segments: the sealed ones, the active one
/// and its writer, and the counter that segment numbers come from.
pub struct Log {
    sync: bool,
    size_threshold: u64,
    dir: Directory,
    files: Vec<u32>,
    current_file_id: u32,
    active_file_id: u32,
    active_log_writer: LogWriter,
}

impl View for Log {
    type V = LogView;

    closed spec fn view(&self) -> LogView {
        LogView {
            sync: self.sync,
            size_threshold: self.size_threshold,
            dir: self.dir@,
            files: self.files@,
            current_file_id: self.current_file_id,
            active_file_id: self.active_file_id,
            active: self.active_log_writer@,
        }
    }
}

impl Log {
    pub closed spec fn wf(&self) -> bool {
        self.active_log_writer.wf() && self@.wf()
    }

    /// What holds of a well-formed log.
    pub proof fn lemma_wf(&self)
        requires
            self.wf(),
        ensures
            self@.wf(),
    {
    }

    /// Takes over a directory: every segment in it counts as sealed, and a
    /// new active segment is begun behind the greatest number.
    pub fn open(dir: Directory, sync: bool) -> (log: Log)
        requires
            forall|file_id: u32| dir@.contains_key(file_id) ==> file_id < u32::MAX,
        ensures
            log.wf(),
            log@.dir == dir@,
            is_strictly_sorted(log@.files),
            forall|file_id: u32| log@.files.contains(file_id) <==> dir@.contains_key(file_id),
            log@.active_file_id == (if log@.files.len() == 0 {
                0
            } else {
                log@.files.last() + 1
            }),
            log@.current_file_id == log@.active_file_id,
            log@.active.data == Seq::<u8>::empty(),
            log@.active.hints == Seq::<u8>::empty(),
            log@.size_threshold == DEFAULT_SIZE_THRESHOLD,
            log@.sync == sync,
    {
        let files = dir.file_ids();
        let active_file_id: u32 = if files.len() == 0 {
            0
        } else {
            assert(files@.contains(files@[files@.len() - 1]));
            files[files.len() - 1] + 1
        };
        let active_log_writer = LogWriter::new(active_file_id, sync);
        proof {
            active_log_writer.lemma_wf();
            assert forall|file_id: u32| #[trigger] dir@.contains_key(file_id) implies file_id
                < active_file_id by {
                assert(files@.contains(file_id));
                let i = choose|i: int| 0 <= i < files@.len() && files@[i] == file_id;
                if i < files@.len() - 1 {
                    assert(files@[i] < files@[files@.len() - 1]);
                }
            }
        }
        Log {
            sync,
            size_threshold: DEFAULT_SIZE_THRESHOLD,
            dir,
            files,
            current_file_id: active_file_id,
            active_file_id,
            active_log_writer,
        }
    }

    /// The numbers of the sealed segments, ascending.
    pub fn files(&self) -> (files: Vec<u32>)
        ensures
            files@ == self@.files,
    {
        slice_to_vec(self.files.as_slice())
    }

    pub fn active_file_id(&self) -> (file_id: u32)
        ensures
            file_id == self@.active_file_id,
    {
        self.active_file_id
    }

    pub fn sync(&self) -> (sync: bool)
        ensures
            sync == self@.sync,
    {
        self.sync
    }

    pub fn size_threshold(&self) -> (size_threshold: u64)
        ensures
            size_threshold == self@.size_threshold,
    {
        self.size_threshold
    }

    /// Sets the size at which the active segment is sealed.
    pub fn set_size_threshold(&mut self, size_threshold: u64)
        requires
            old(self).wf(),
        ensures
            final(self).wf(),
            final(self)@ == (LogView { size_threshold, ..old(self)@ }),
    {
        self.size_threshold = size_threshold;
    }

    /// The greatest segment number given out.
    pub fn current_file_id(&self) -> (file_id: u32)
        ensures
            file_id == self@.current_file_id,
    {
        self.current_file_id
    }

    /// The files of the sealed segments and of those a compaction wrote.
    pub fn directory(&self) -> (dir: &Directory)
        ensures
            dir@ == self@.dir,
    {
        &self.dir
    }

    /// The writer of the active segment.
    pub fn active_log_writer(&self) -> (writer: &LogWriter)
        ensures
            writer@ == self@.active,
    {
        &self.active_log_writer
    }

    /// A cursor over the entries of segment `file_id`; `IoError` if the
    /// directory has no such segment.
    pub fn entries<'a>(&'a self, file_id: u32) -> (result: Result<Entries<'a>, Error>)
        ensures
            match result {
                Ok(entries) => self@.dir.contains_key(file_id) && entries.wf() && entries.data()
                    == self@.dir[file_id].data && entries.pos() == 0,
                Err(error) => error == Error::IoError && !self@.dir.contains_key(file_id),
            },
    {
        match self.dir.get(file_id) {
            Some(segment) => Ok(Entries::new(segment.data.as_slice())),
            None => Err(Error::IoError),
        }
    }

    /// A cursor over the hints of segment `file_id`, if it has a hint file
    /// and that file is valid.
    pub fn hints<'a>(&'a self, file_id: u32) -> (result: Option<Hints<'a>>)
        ensures
            match result {
                Some(hints) => self@.has_hints(file_id) && hints.wf() && hints.remaining()
                    == self@.dir[file_id].hints(),
                None => !self@.has_hints(file_id),
            },
    {
        match self.dir.get(file_id) {
            Some(segment) => match &segment.hint {
                Some(hint_file) => {
                    if is_valid_hint_file(hint_file.as_slice()) {
                        let records = slice_subrange(
                            hint_file.as_slice(),
                            0,
                            hint_file.len() - TRAILER_SIZE,
                        );
                        Some(Hints::new(records))
                    } else {
                        None
                    }
                },
                None => None,
            },
            None => None,
        }
    }

    /// A cursor over the hints of the data file of segment `file_id` that
    /// writes a new hint file on its way; `IoError` if the directory has no
    /// such segment.
    pub fn recreate_hints<'a>(&'a self, file_id: u32) -> (result: Result<
        RecreateHints<'a>,
        Error,
    >)
        ensures
            match result {
                Ok(hints) => self@.dir.contains_key(file_id) && hints.wf() && hints.data()
                    == self@.dir[file_id].data && hints.remaining() == data_hints(
                    self@.dir[file_id].data,
                ),
                Err(error) => error == Error::IoError && !self@.dir.contains_key(file_id),
            },
    {
        match self.dir.get(file_id) {
            Some(segment) => Ok(RecreateHints::new(segment.data.as_slice())),
            None => Err(Error::IoError),
        }
    }

    /// Puts `hint_file` in place as the hint file of segment `file_id`, if
    /// the directory has that segment.
    pub fn write_hint_file(&mut self, file_id: u32, hint_file: Vec<u8>)
        requires
            old(self).wf(),
        ensures
            final(self).wf(),
            final(self)@ == (LogView {
                dir: if old(self)@.dir.contains_key(file_id) {
                    old(self)@.dir.insert(
                        file_id,
                        SegmentView {
                            data: old(self)@.dir[file_id].data,
                            hint: Some(hint_file@),
                        },
                    )
                } else {
                    old(self)@.dir
                },
                ..old(self)@
            }),
    {
        match self.dir.remove(file_id) {
            Some(segment) => {
                let Segment { file_id, data, hint: _ } = segment;
                self.dir.insert(Segment { file_id, data, hint: Some(hint_file) });
            },
            None => {
                assert(self.dir@ =~= old(self).dir@);
            },
        }
        assert(self@.dir =~= (if old(self)@.dir.contains_key(file_id) {
            old(self)@.dir.insert(
                file_id,
                SegmentView { data: old(self)@.dir[file_id].data, hint: Some(hint_file@) },
            )
        } else {
            old(self)@.dir
        }));
    }

    /// Reads the entry at offset `entry_pos` of segment `file_id`.
    pub fn read_entry(&self, file_id: u32, entry_pos: u64) -> (result: Result<Entry, Error>)
        ensures
            match result {
                Ok(entry) => self@.read(file_id, entry_pos) == Ok::<EntryView, Error>(entry@),
                Err(error) => self@.read(file_id, entry_pos) == Err::<EntryView, Error>(error),
            },
    {
        let data: &[u8] = if file_id == self.active_file_id {
            self.active_log_writer.data_file()
        } else {
            match self.dir.get(file_id) {
                Some(segment) => segment.data.as_slice(),
                None => {
                    return Err(Error::IoError);
                },
            }
        };
        assert(data@.len() == data.len());
        if entry_pos > data.len() as u64 {
            return Err(Error::CorruptRecord);
        }
        Entry::decode(slice_subrange(data, entry_pos as usize, data.len()))
    }

    /// Appends `entry` to the active segment. If the entry would take the
    /// segment over the size threshold, the segment is sealed first and a
    /// new one begun. Returns the segment and the offset where the entry
    /// now lies.
    pub fn append_entry(&mut self, entry: &Entry) -> (location: (u32, u64))
        requires
            old(self).wf(),
            entry@.wf(),
            old(self)@.current_file_id < u32::MAX,
        ensures
            final(self).wf(),
            final(self)@ == old(self)@.append(entry@),
            location.0 == final(self)@.active_file_id,
            location.1 == old(self)@.append_pos(entry@),
    {
        let size = entry.size();
        let pos = self.active_log_writer.position();
        if size > self.size_threshold || pos > self.size_threshold - size {
            self.new_active_writer();
        }
        let ghost before = self@;
        proof {
            self.active_log_writer.lemma_wf();
        }
        let entry_pos = self.active_log_writer.write(entry);
        proof {
            self.active_log_writer.lemma_wf();
            assert(self@ == before.write(entry@));
        }
        (self.active_file_id, entry_pos)
    }

    /// Gives out the next segment number.
    pub fn new_file_id(&mut self) -> (file_id: u32)
        requires
            old(self).wf(),
            old(self)@.current_file_id < u32::MAX,
        ensures
            final(self).wf(),
            file_id == old(self)@.current_file_id + 1,
            final(self)@ == (LogView { current_file_id: file_id, ..old(self)@ }),
    {
        self.current_file_id = self.current_file_id + 1;
        self.current_file_id
    }

    /// Puts the files of a segment that a writer has closed into the
    /// directory. The segment is not listed as sealed yet.
    pub fn store(&mut self, segment: Segment)
        requires
            old(self).wf(),
            segment.file_id <= old(self)@.current_file_id,
            segment.file_id != old(self)@.active_file_id,
        ensures
            final(self).wf(),
            final(self)@ == (LogView {
                dir: old(self)@.dir.insert(segment.file_id, segment@),
                ..old(self)@
            }),
    {
        self.dir.insert(segment);
    }

    /// Replaces segment `file_id` by segment `new_file_id` in the list of
    /// sealed segments, and deletes the files of segment `file_id`.
    pub fn swap_file(&mut self, file_id: u32, new_file_id: u32)
        requires
            old(self).wf(),
            old(self)@.files.contains(file_id),
        ensures
            final(self).wf(),
            final(self)@ == (LogView {
                files: sorted_insert(sorted_remove(old(self)@.files, file_id), new_file_id),
                dir: old(self)@.dir.remove(file_id),
                ..old(self)@
            }),
    {
        let mut i: usize = 0;
        while self.files[i] != file_id
            invariant
                i < self.files.len(),
                self.files@ == old(self).files@,
                forall|j: int| 0 <= j < i ==> self.files@[j] != file_id,
                self.files@.contains(file_id),
            decreases self.files.len() - i,
        {
            proof {
                let k = choose|k: int| 0 <= k < self.files@.len() && self.files@[k] == file_id;
                assert(k > i);
            }
            i += 1;
        }
        proof {
            lemma_sorted_remove_any(self.files@, file_id, i as int);
        }
        self.files.remove(i);
        self.add_file(new_file_id);
        self.dir.remove(file_id);
    }

    /// Lists segment `file_id` as sealed.
    pub fn add_file(&mut self, file_id: u32)
        requires
            old(self).wf(),
        ensures
            final(self).wf(),
            final(self)@ == (LogView {
                files: sorted_insert(old(self)@.files, file_id),
                ..old(self)@
            }),
    {
        insert_sorted(&mut self.files, file_id);
    }

    /// Seals the active segment and begins a new one under the next segment
    /// number.
    fn new_active_writer(&mut self)
        requires
            old(self).wf(),
            old(self)@.current_file_id < u32::MAX,
        ensures
            final(self).wf(),
            final(self)@ == old(self)@.roll(),
    {
        let active_file_id = self.active_file_id;
        self.add_file(active_file_id);
        let new_file_id = self.new_file_id();
        let mut writer = LogWriter::new(new_file_id, self.sync);
        proof {
            writer.lemma_wf();
            self.active_log_writer.lemma_wf();
        }
        core::mem::swap(&mut self.active_log_writer, &mut writer);
        let segment = writer.close();
        self.dir.insert(segment);
        self.active_file_id = new_file_id;
        proof {
            assert(self@.dir =~= old(self)@.roll().dir);
        }
    }

    /// Seals the active segment and hands out the directory.
    pub fn close(self) -> (dir: Directory)
        requires
            self.wf(),
        ensures
            dir@ == self@.closed(),
    {
        let mut dir = self.dir;
        dir.insert(self.active_log_writer.close());
        dir
    }
}

/// The digit `0` to `9` as a character.
pub open spec fn digit_char(digit: nat) -> char {
    (('0' as u8) + digit) as u8 as char
}

pub open spec fn pow10(exponent: nat) -> nat
    decreases exponent,
{
    if exponent == 0 {
        1
    } else {
        10 * pow10((exponent - 1) as nat)
    }
}

/// `number` in decimal, `width` digits wide, with zeros in front.
pub open spec fn zero_padded(number: nat, width: nat) -> Seq<char> {
    Seq::new(width, |i: int| digit_char((number / pow10((width - 1 - i) as nat)) % 10))
}

/// The file name of the data file of segment `file_id`.
pub open spec fn data_file_name(file_id: u32) -> Seq<char> {
    zero_padded(file_id as nat, 10) + "."@ + DATA_FILE_EXTENSION@
}

/// The file name of the hint file of segment `file_id`.
pub open spec fn hint_file_name(file_id: u32) -> Seq<char> {
    zero_padded(file_id as nat, 10) + "."@ + HINT_FILE_EXTENSION@
}

/// The digit `0` to `9` as a string.
fn digit_str(digit: u32) -> (text: &'static str)
    requires
        digit < 10,
    ensures
        text@ == seq![digit_char(digit as nat)],
{
    proof {
        reveal_strlit("0");
        reveal_strlit("1");
        reveal_strlit("2");
        reveal_strlit("3");
        reveal_strlit("4");
        reveal_strlit("5");
        reveal_strlit("6");
        reveal_strlit("7");
        reveal_strlit("8");
        reveal_strlit("9");
    }
    let text = if digit == 0 {
        "0"
    } else if digit == 1 {
        "1"
    } else if digit == 2 {
        "2"
    } else if digit == 3 {
        "3"
    } else if digit == 4 {
        "4"
    } else if digit == 5 {
        "5"
    } else if digit == 6 {
        "6"
    } else if digit == 7 {
        "7"
    } else if digit == 8 {
        "8"
    } else {
        "9"
    };
    assert(text@ =~= seq![digit_char(digit as nat)]);
    text
}

/// The segment number in decimal, padded with zeros in front to ten digits,
/// which is as wide as a `u32` gets.
fn format_file_id(file_id: u32) -> (digits: String)
    ensures
        digits@ == zero_padded(file_id as nat, 10),
{
    let mut digits = String::new();
    let mut power: u32 = 1_000_000_000;
    let mut i: usize = 0;
    proof {
        reveal_with_fuel(pow10, 10);
    }
    while i < 10
        invariant
            i <= 10,
            power == pow10((9 - i) as nat) || (i == 10 && power == 0),
            digits@ == zero_padded(file_id as nat, 10).take(i as int),
        decreases 10 - i,
    {
        proof {
            reveal_with_fuel(pow10, 10);
        }
        let digit = (file_id / power) % 10;
        digits = digits.concat(digit_str(digit));
        proof {
            let all = zero_padded(file_id as nat, 10);
            assert(all[i as int] == digit_char(digit as nat));
            assert(all.take(i + 1) =~= all.take(i as int) + seq![all[i as int]]);
        }
        power = power / 10;
        i += 1;
    }
    assert(zero_padded(file_id as nat, 10).take(10) =~= zero_padded(file_id as nat, 10));
    digits
}

/// The file name of the data file of segment `file_id`.
pub fn get_data_file_path(file_id: u32) -> (name: String)
    ensures
        name@ == data_file_name(file_id),
{
    format_file_id(file_id).concat(".").concat(DATA_FILE_EXTENSION)
}

/// The file name of the hint file of segment `file_id`.
pub fn get_hint_file_path(file_id: u32) -> (name: String)
    ensures
        name@ == hint_file_name(file_id),
{
    format_file_id(file_id).concat(".").concat(HINT_FILE_EXTENSION)
}

pub open spec fn is_digit(c: char) -> bool {
    '0' <= c <= '9'
}

/// The number that a run of digits stands for in decimal.
pub open spec fn decimal_value(digits: Seq<char>) -> nat
    decreases digits.len(),
{
    if digits.len() == 0 {
        0
    } else {
        10 * decimal_value(digits.drop_last()) + (digits.last() as u32 - '0' as u32) as nat
    }
}

/// The `u32` that `text` is in decimal: `text` is digits only, at least one,
/// and the number fits.
pub open spec fn parse_u32(text: Seq<char>) -> Option<u32> {
    if text.len() > 0 && (forall|i: int| 0 <= i < text.len() ==> is_digit(#[trigger] text[i]))
        && decimal_value(text) <= u32::MAX {
        Some(decimal_value(text) as u32)
    } else {
        None
    }
}

proof fn lemma_decimal_value_grows(digits: Seq<char>, i: int)
    requires
        0 <= i <= digits.len(),
        forall|j: int| 0 <= j < digits.len() ==> is_digit(#[trigger] digits[j]),
    ensures
        decimal_value(digits.take(i)) <= decimal_value(digits),
    decreases digits.len() - i,
{
    if i == digits.len() {
        assert(digits.take(i) =~= digits);
    } else {
        lemma_decimal_value_grows(digits, i + 1);
        assert(digits.take(i + 1).drop_last() =~= digits.take(i));
        assert(is_digit(digits[i]));
    }
}

/// Reads a `u32` written in decimal digits.
pub fn parse_file_id(text: &str) -> (number: Option<u32>)
    ensures
        number == parse_u32(text@),
{
    let len = text.unicode_len();
    if len == 0 {
        return None;
    }
    let mut value: u64 = 0;
    let mut i: usize = 0;
    while i < len
        invariant
            i <= len == text@.len(),
            value == decimal_value(text@.take(i as int)),
            value <= u32::MAX,
            forall|j: int| 0 <= j < i ==> is_digit(#[trigger] text@[j]),
        decreases len - i,
    {
        let c = text.get_char(i);
        if !('0' <= c && c <= '9') {
            return None;
        }
        let digit = (c as u32 - '0' as u32) as u64;
        proof {
            assert(text@.take(i + 1).drop_last() =~= text@.take(i as int));
        }
        value = 10 * value + digit;
        i += 1;
        if value > u32::MAX as u64 {
            proof {
                if forall|j: int| 0 <= j < text@.len() ==> is_digit(#[trigger] text@[j]) {
                    lemma_decimal_value_grows(text@, i as int);
                }
            }
            return None;
        }
    }
    assert(text@.take(i as int) =~= text@);
    Some(value as u32)
}

/// What the first group of `pattern` captures in the leftmost match in
/// `text`, if the pattern is a regular expression and matches.
pub uninterp spec fn regex_capture(pattern: Seq<char>, text: Seq<char>) -> Option<Seq<char>>;

/// `Regex::new`, then `Regex::captures` and `Captures::get(1)`: the text of
/// the first capture group in the leftmost match. An invalid pattern, no
/// match, and a group that took no part in the match all give `None`. The
/// contract names the result and claims nothing else of it.
#[verifier::external_body]
fn capture_first_group(pattern: &str, text: &str) -> (group: Option<String>)
    ensures
        match group {
            Some(group) => regex_capture(pattern@, text@) == Some(group@),
            None => regex_capture(pattern@, text@) is None,
        },
{
    match regex::Regex::new(pattern) {
        Ok(regex) => match regex.captures(text) {
            Some(captures) => match captures.get(1) {
                Some(group) => Some(group.as_str().to_string()),
                None => None,
            },
            None => None,
        },
        Err(_) => None,
    }
}

/// The segment number in the name of a data file; `None` for any other name.
pub open spec fn data_file_id(name: Seq<char>) -> Option<u32> {
    match regex_capture(DATA_FILE_PATTERN@, name) {
        Some(digits) => parse_u32(digits),
        None => None,
    }
}

/// The segment numbers of the first `n` of `names` that name data files.
pub open spec fn data_file_ids(names: Seq<String>, n: int) -> Multiset<u32>
    decreases n,
{
    if n <= 0 {
        Multiset::empty()
    } else {
        match data_file_id(names[n - 1]@) {
            Some(file_id) => data_file_ids(names, n - 1).insert(file_id),
            None => data_file_ids(names, n - 1),
        }
    }
}

/// Whether a file name is that of a data file, and of which segment.
pub fn match_data_file(name: &str) -> (file_id: Option<u32>)
    ensures
        file_id == data_file_id(name@),
{
    match capture_first_group(DATA_FILE_PATTERN, name) {
        Some(digits) => parse_file_id(digits.as_str()),
        None => None,
    }
}

/// The segment numbers of the data files among `names`, ascending. A file
/// whose name does not end in digits and `.cask.data`, or whose number does
/// not fit in 32 bits, is passed over.
pub fn find_data_files(names: &Vec<String>) -> (files: Vec<u32>)
    ensures
        is_sorted(files@),
        files@.to_multiset() == data_file_ids(names@, names@.len() as int),
{
    let mut files: Vec<u32> = Vec::new();
    let mut i: usize = 0;
    assert(files@.to_multiset() =~= Multiset::empty()) by {
        vstd::seq_lib::to_multiset_len(files@);
        vstd::multiset::lemma_multiset_empty_len(files@.to_multiset());
    }
    while i < names.len()
        invariant
            i <= names.len(),
            is_sorted(files@),
            files@.to_multiset() == data_file_ids(names@, i as int),
        decreases names.len() - i,
    {
        match match_data_file(names[i].as_str()) {
            Some(file_id) => {
                insert_sorted(&mut files, file_id);
            },
            None => {},
        }
        i += 1;
    }
    files
}

/// Sealing the active segment leaves a well-formed log.
pub proof fn lemma_roll_wf(log: LogView)
    requires
        log.wf(),
        log.current_file_id < u32::MAX,
    ensures
        log.roll().wf(),
{
    let rolled = log.roll();
    lemma_sorted_insert_sorted(log.files, log.active_file_id);
    assert(parse_entries(Seq::<u8>::empty()) =~= Seq::<EntryView>::empty());
    assert(data_hints(Seq::<u8>::empty()) =~= Seq::<HintView>::empty());
    assert(crate::segment::encode_entries(Seq::<EntryView>::empty()) =~= Seq::<u8>::empty());
    assert(encode_hints(Seq::<HintView>::empty()) =~= Seq::<u8>::empty());
    assert forall|file_id: u32| #[trigger] rolled.dir.contains_key(file_id) implies file_id
        <= rolled.current_file_id && file_id != rolled.active_file_id by {
        if file_id != log.active_file_id {
            assert(log.dir.contains_key(file_id));
        }
    }
}

/// Appending an entry leaves a well-formed log.
pub proof fn lemma_append_wf(log: LogView, entry: EntryView)
    requires
        log.wf(),
        entry.wf(),
        log.current_file_id < u32::MAX,
    ensures
        log.append(entry).wf(),
{
    let before = if log.must_roll(entry) {
        log.roll()
    } else {
        log
    };
    if log.must_roll(entry) {
        lemma_roll_wf(log);
    }
    lemma_parse_appended_entry(before.active.data, entry);
    lemma_data_hints_appended(before.active.data, entry);
    lemma_encode_hints_push(
        data_hints(before.active.data),
        HintView::of_entry(entry, before.active.data.len() as u64),
    );
    lemma_encoded_entry_len(entry);
}

/// An appended entry is read back from where it was put.
pub proof fn lemma_append_reads_back(log: LogView, entry: EntryView)
    requires
        log.wf(),
        entry.wf(),
    ensures
        log.append(entry).read(log.append(entry).active_file_id, log.append_pos(entry)) == Ok::<
            EntryView,
            Error,
        >(entry),
{
    let before = if log.must_roll(entry) {
        log.roll()
    } else {
        log
    };
    let data = before.active.data + entry.encode();
    let pos = before.active.data.len() as int;
    lemma_decode_encoded_entry(entry, Seq::empty());
    assert(data.subrange(pos, data.len() as int) =~= entry.encode() + Seq::<u8>::empty());
}

/// Appending an entry changes no record that could be read before.
pub proof fn lemma_append_keeps_reads(log: LogView, entry: EntryView, file_id: u32, entry_pos: u64)
    requires
        log.wf(),
        entry.wf(),
        log.current_file_id < u32::MAX,
        log.read(file_id, entry_pos) is Ok,
    ensures
        log.append(entry).read(file_id, entry_pos) == log.read(file_id, entry_pos),
{
    let after = log.append(entry);
    if file_id == log.active_file_id {
        let data = log.active.data;
        let pos = entry_pos as int;
        if !log.must_roll(entry) {
            let longer = data + entry.encode();
            let found = entry_at(data, pos).unwrap();
            lemma_decoded_entry_is_prefix(data.subrange(pos, data.len() as int));
            assert(longer.subrange(pos, longer.len() as int).subrange(0, found.size() as int)
                =~= data.subrange(pos, data.len() as int).subrange(0, found.size() as int));
            lemma_decode_entry_ignores_rest(
                data.subrange(pos, data.len() as int),
                longer.subrange(pos, longer.len() as int),
            );
        }
    } else {
        assert(log.dir.contains_key(file_id));
    }
}

} // verus!
