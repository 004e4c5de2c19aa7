//! The engine: `open`, `get`, `put`, `delete` and `compact` over the log and
//! the index.

use crate::data::{Entry, EntryView, Error, HintView, SequenceNumber, MAX_KEY_LEN, MAX_VALUE_LEN};
use crate::data::{lemma_decoded_entry_is_prefix};
use crate::directory::{is_strictly_sorted, Directory};
use crate::index::{
    lemma_max_sequence_first, lemma_replay_first, max_sequence, replay, Index, IndexEntry,
};
use crate::compaction::{
    compacted_entries, copied_entries, lemma_copy_error_stays, merged_tombstones,
    write_tombstones, Tombstones,
};
use crate::directory::{sorted_insert, sorted_remove};
use crate::durability::{
    durable, is_durable_delete, lemma_compact_keeps_durable, lemma_delete_keeps_durable,
    lemma_empty_is_durable, lemma_put_keeps_durable,
};
use crate::soundness::{
    lemma_compact_keeps_sound, lemma_compaction_keeps, lemma_delete_keeps_sound,
    lemma_put_keeps_sound, sound,
};
use crate::log::{Hints, Log, LogView, LogWriter};
use crate::segment::{
    data_hints, encode_entries, encode_hints, hint_trailer, lemma_consistent_segment_hints,
    SegmentView,
};
use vstd::prelude::*;
use vstd::slice::*;

verus! {

/// The index that loading the segments `files` of `dir` builds: the hints
/// of each segment applied in turn, segment after segment.
pub open spec fn load_index(dir: Map<u32, SegmentView>, files: Seq<u32>) -> Map<
    Seq<u8>,
    IndexEntry,
>
    decreases files.len(),
{
    if files.len() == 0 {
        Map::empty()
    } else {
        replay(
            load_index(dir, files.drop_last()),
            dir[files.last()].hints(),
            files.last(),
        )
    }
}

/// The greatest sequence number among the hints of the segments `files` of
/// `dir`; 0 if there is no hint.
pub open spec fn load_sequence(dir: Map<u32, SegmentView>, files: Seq<u32>) -> u64
    decreases files.len(),
{
    if files.len() == 0 {
        0
    } else {
        max_sequence(load_sequence(dir, files.drop_last()), dir[files.last()].hints())
    }
}

/// The directory with the segments `done` repaired: each has a valid hint
/// file.
pub open spec fn repaired(dir: Map<u32, SegmentView>, done: Seq<u32>) -> Map<u32, SegmentView> {
    Map::new(
        |file_id: u32| dir.contains_key(file_id),
        |file_id: u32|
            if done.contains(file_id) {
                dir[file_id].repaired()
            } else {
                dir[file_id]
            },
    )
}

/// The files of the segment that a compaction writes `entries` to.
pub open spec fn written_segment(entries: Seq<EntryView>) -> SegmentView {
    let data = encode_entries(entries);
    let records = encode_hints(data_hints(data));
    SegmentView { data, hint: Some(records + hint_trailer(records)) }
}

/// Whether `cask` is what `open` makes of the directory `dir`.
pub open spec fn opens_to(dir: Map<u32, SegmentView>, cask: CaskView) -> bool {
    &&& cask.log.wf()
    &&& is_strictly_sorted(cask.log.files)
    &&& forall|file_id: u32| #[trigger]
        cask.log.files.contains(file_id) ==> dir.contains_key(file_id)
    &&& forall|file_id: u32| #[trigger]
        dir.contains_key(file_id) ==> cask.log.files.contains(file_id)
    &&& cask.index == load_index(dir, cask.log.files)
    &&& cask.last_sequence == load_sequence(dir, cask.log.files)
    &&& cask.log.dir == repaired(dir, cask.log.files)
    &&& cask.log.active_file_id == (if cask.log.files.len() == 0 {
        0
    } else {
        cask.log.files.last() + 1
    })
    &&& cask.log.current_file_id == cask.log.active_file_id
    &&& cask.log.active.data == Seq::<u8>::empty()
}

/// The engine as a mathematical value.
pub struct CaskView {
    /// The greatest sequence number given to a record.
    pub last_sequence: u64,
    pub index: Map<Seq<u8>, IndexEntry>,
    pub log: LogView,
}

impl CaskView {
    pub open spec fn wf(self) -> bool {
        self.log.wf()
    }

    /// Whether another record can be written: a sequence number and a
    /// segment number are left.
    pub open spec fn has_room(self) -> bool {
        self.last_sequence < u64::MAX && self.log.current_file_id < u32::MAX
    }

    /// The sequence number that the next record gets.
    pub open spec fn next_sequence(self) -> int {
        self.last_sequence + 1
    }

    /// What `get` answers for `key`: nothing if the index has no entry for
    /// it; else the record that the entry points to is read, and its value
    /// is the answer unless it is a tombstone.
    pub open spec fn lookup(self, key: Seq<u8>) -> Result<Option<Seq<u8>>, Error> {
        if self.index.contains_key(key) {
            match self.log.read(self.index[key].file_id, self.index[key].entry_pos) {
                Ok(entry) => Ok(
                    if entry.deleted {
                        None
                    } else {
                        Some(entry.value)
                    },
                ),
                Err(error) => Err(error),
            }
        } else {
            Ok(None)
        }
    }

    /// The record that `put` writes.
    pub open spec fn put_entry(self, key: Seq<u8>, value: Seq<u8>) -> EntryView {
        EntryView { sequence: (self.last_sequence + 1) as u64, deleted: false, key, value }
    }

    /// The tombstone that `delete` writes.
    pub open spec fn tombstone(self, key: Seq<u8>) -> EntryView {
        EntryView {
            sequence: (self.last_sequence + 1) as u64,
            deleted: true,
            key,
            value: Seq::empty(),
        }
    }

    /// The engine after `put`: the record is appended under the next
    /// sequence number and the index points to it.
    pub open spec fn put(self, key: Seq<u8>, value: Seq<u8>) -> CaskView {
        let entry = self.put_entry(key, value);
        let log = self.log.append(entry);
        CaskView {
            last_sequence: entry.sequence,
            index: self.index.insert(
                key,
                IndexEntry {
                    file_id: log.active_file_id,
                    entry_pos: self.log.append_pos(entry),
                    entry_size: entry.size() as u64,
                    sequence: entry.sequence,
                },
            ),
            log,
        }
    }

    /// The records that a compaction of segment `file_id` keeps, or the
    /// error that ends it.
    pub open spec fn compaction(self, file_id: u32) -> Result<Seq<EntryView>, Error> {
        compacted_entries(
            self.log.dir[file_id].data,
            self.index,
            self.log.dir[file_id].hints(),
        )
    }

    /// Whether the segment that a compaction of segment `file_id` writes is
    /// no longer than a file can be.
    pub open spec fn compaction_fits(self, file_id: u32) -> bool {
        match self.compaction(file_id) {
            Ok(entries) => encode_entries(entries).len() <= u64::MAX,
            Err(_) => true,
        }
    }

    /// The engine after `compact` and what `compact` returns. A segment
    /// without a valid hint file is left alone. Else the records that are
    /// kept are written to a new segment under the next segment number,
    /// the hints of that segment are applied to the index, and it takes
    /// the place of the old one, whose files are deleted. If a record
    /// cannot be read, only the segment number is used up.
    pub open spec fn compact(self, file_id: u32) -> (CaskView, Result<(), Error>) {
        if !self.log.has_hints(file_id) {
            (self, Ok(()))
        } else {
            let next = (self.log.current_file_id + 1) as u32;
            match self.compaction(file_id) {
                Err(error) => (
                    CaskView { log: LogView { current_file_id: next, ..self.log }, ..self },
                    Err(error),
                ),
                Ok(entries) => {
                    let segment = written_segment(entries);
                    (
                        CaskView {
                            index: replay(self.index, data_hints(segment.data), next),
                            log: LogView {
                                current_file_id: next,
                                dir: self.log.dir.insert(next, segment).remove(file_id),
                                files: sorted_insert(
                                    sorted_remove(self.log.files, file_id),
                                    next,
                                ),
                                ..self.log
                            },
                            ..self
                        },
                        Ok(()),
                    )
                },
            }
        }
    }

    /// The engine after `delete`: if the index has the key, its entry is
    /// dropped and a tombstone appended under the next sequence number; if
    /// not, nothing changes.
    pub open spec fn delete(self, key: Seq<u8>) -> CaskView {
        if self.index.contains_key(key) {
            CaskView {
                last_sequence: (self.last_sequence + 1) as u64,
                index: self.index.remove(key),
                log: self.log.append(self.tombstone(key)),
            }
        } else {
            self
        }
    }
}

/// The answer of `get` as a mathematical value.
pub open spec fn answer_view(answer: Result<Option<Vec<u8>>, Error>) -> Result<
    Option<Seq<u8>>,
    Error,
> {
    match answer {
        Ok(Some(value)) => Ok(Some(value@)),
        Ok(None) => Ok(None),
        Err(error) => Err(error),
    }
}

/// The store: the index, the log, and the sequence counter.
pub struct Cask {
    last_sequence: SequenceNumber,
    index: Index,
    log: Log,
}

impl View for Cask {
    type V = CaskView;

    closed spec fn view(&self) -> CaskView {
        CaskView { last_sequence: self.last_sequence, index: self.index@, log: self.log@ }
    }
}

impl Cask {
    pub closed spec fn wf(&self) -> bool {
        self.log.wf()
    }

    /// What holds of a well-formed engine.
    pub proof fn lemma_wf(&self)
        requires
            self.wf(),
        ensures
            self@.wf(),
    {
        self.log.lemma_wf();
    }

    /// Opens the store on the segments of a directory. The hints of every
    /// segment are applied to an empty index, segments in ascending order:
    /// those of its hint file where that is valid, else those of its data
    /// file, from which the hint file is then written anew. The sequence
    /// counter stands at the greatest sequence number met.
    pub fn open(dir: Directory, sync: bool) -> (cask: Cask)
        requires
            forall|file_id: u32| dir@.contains_key(file_id) ==> file_id < u32::MAX,
        ensures
            cask.wf(),
            opens_to(dir@, cask@),
            cask@.log.size_threshold == crate::log::DEFAULT_SIZE_THRESHOLD,
            cask@.log.sync == sync,
            dir@ == Map::<u32, SegmentView>::empty() ==> durable(cask@),
    {
        let ghost dir0 = dir@;
        let mut log = Log::open(dir, sync);
        let ghost log0 = log@;
        let mut index = Index::new();
        let mut sequence: u64 = 0;
        let files = log.files();
        let mut i: usize = 0;
        assert(log@.dir =~= repaired(dir0, files@.take(0)));
        while i < files.len()
            invariant
                i <= files.len(),
                log.wf(),
                files@ == log0.files,
                is_strictly_sorted(files@),
                forall|file_id: u32| files@.contains(file_id) <==> dir0.contains_key(file_id),
                index@ == load_index(dir0, files@.take(i as int)),
                sequence == load_sequence(dir0, files@.take(i as int)),
                log@ == (LogView { dir: repaired(dir0, files@.take(i as int)), ..log0 }),
            decreases files.len() - i,
        {
            let file_id = files[i];
            let ghost start_index = index@;
            let ghost start_sequence = sequence;
            let ghost all = dir0[file_id].hints();
            let ghost done = files@.take(i as int);
            let ghost next = files@.take(i + 1);
            proof {
                assert(files@.contains(file_id));
                assert(next.drop_last() =~= done);
                assert(next.last() == file_id);
                assert(!done.contains(file_id)) by {
                    if done.contains(file_id) {
                        let j = choose|j: int| 0 <= j < done.len() && done[j] == file_id;
                        assert(files@[j] < files@[i as int]);
                    }
                }
                assert(log@.dir[file_id] == dir0[file_id]);
                assert forall|id: u32| next.contains(id) <==> (done.contains(id) || id
                    == file_id) by {
                    if done.contains(id) {
                        let j = choose|j: int| 0 <= j < done.len() && done[j] == id;
                        assert(next[j] == id);
                    }
                    if next.contains(id) && id != file_id {
                        let j = choose|j: int| 0 <= j < next.len() && next[j] == id;
                        assert(done[j] == id);
                    }
                    assert(next[i as int] == file_id);
                }
            }
            match log.hints(file_id) {
                Some(mut hints) => {
                    loop
                        invariant_except_break
                            hints.wf(),
                        invariant
                            replay(index@, hints.remaining(), file_id) == replay(
                                start_index,
                                all,
                                file_id,
                            ),
                            max_sequence(sequence, hints.remaining()) == max_sequence(
                                start_sequence,
                                all,
                            ),
                        ensures
                            hints.remaining().len() == 0,
                        decreases hints.rest().len(),
                    {
                        let ghost remaining = hints.remaining();
                        match hints.next() {
                            Some(Ok(hint)) => {
                                proof {
                                    assert(remaining[0] == hint@);
                                    assert(remaining.skip(1) =~= hints.remaining());
                                    lemma_replay_first(index@, remaining, file_id);
                                    lemma_max_sequence_first(sequence, remaining);
                                }
                                if hint.sequence > sequence {
                                    sequence = hint.sequence;
                                }
                                index.update(hint, file_id);
                            },
                            _ => {
                                break ;
                            },
                        }
                    }
                    proof {
                        assert(dir0[file_id].repaired() == dir0[file_id]);
                        assert(log@.dir =~= repaired(dir0, next));
                    }
                },
                None => {
                    match log.recreate_hints(file_id) {
                        Ok(mut hints) => {
                            loop
                                invariant_except_break
                                    hints.wf(),
                                invariant
                                    hints.data() == dir0[file_id].data,
                                    replay(index@, hints.remaining(), file_id) == replay(
                                        start_index,
                                        all,
                                        file_id,
                                    ),
                                    max_sequence(sequence, hints.remaining()) == max_sequence(
                                        start_sequence,
                                        all,
                                    ),
                                ensures
                                    hints.wf(),
                                    hints.remaining().len() == 0,
                                decreases hints.remaining().len(),
                            {
                                let ghost remaining = hints.remaining();
                                match hints.next() {
                                    Some(Ok(hint)) => {
                                        proof {
                                            lemma_replay_first(index@, remaining, file_id);
                                            lemma_max_sequence_first(sequence, remaining);
                                        }
                                        if hint.sequence > sequence {
                                            sequence = hint.sequence;
                                        }
                                        index.update(hint, file_id);
                                    },
                                    _ => {
                                        break ;
                                    },
                                }
                            }
                            let hint_file = hints.finish();
                            log.write_hint_file(file_id, hint_file);
                            proof {
                                assert(log@.dir =~= repaired(dir0, next));
                            }
                        },
                        Err(_) => {
                            assert(false);
                        },
                    }
                },
            }
            i += 1;
        }
        let cask = Cask { last_sequence: sequence, index, log };
        proof {
            assert(files@.take(files@.len() as int) =~= files@);
            cask.log.lemma_wf();
            if dir0 == Map::<u32, SegmentView>::empty() {
                assert(files@ =~= Seq::<u32>::empty()) by {
                    if files@.len() > 0 {
                        assert(files@.contains(files@[0]));
                    }
                }
                assert(cask@.log.dir =~= Map::<u32, SegmentView>::empty());
                lemma_empty_is_durable(cask@);
            }
        }
        cask
    }

    /// The value under `key`, if there is one. A key that the index points
    /// to a tombstone for counts as absent.
    pub fn get(&self, key: &[u8]) -> (answer: Result<Option<Vec<u8>>, Error>)
        ensures
            answer_view(answer) == self@.lookup(key@),
    {
        match self.index.get(key) {
            Some(index_entry) => {
                match self.log.read_entry(index_entry.file_id, index_entry.entry_pos) {
                    Ok(entry) => {
                        if entry.deleted {
                            Ok(None)
                        } else {
                            Ok(Some(entry.value))
                        }
                    },
                    Err(error) => Err(error),
                }
            },
            None => Ok(None),
        }
    }

    /// Whether another record can be written.
    pub fn has_room(&self) -> (room: bool)
        ensures
            room == self@.has_room(),
    {
        self.last_sequence < u64::MAX && self.log.current_file_id() < u32::MAX
    }

    /// The log of the store.
    pub fn log(&self) -> (log: &Log)
        ensures
            log@ == self@.log,
    {
        &self.log
    }

    /// The greatest sequence number given to a record.
    pub fn last_sequence(&self) -> (sequence: SequenceNumber)
        ensures
            sequence == self@.last_sequence,
    {
        self.last_sequence
    }

    /// Sets the size at which the active segment is sealed.
    pub fn set_size_threshold(&mut self, size_threshold: u64)
        requires
            old(self).wf(),
        ensures
            final(self).wf(),
            final(self)@ == (CaskView {
                log: LogView { size_threshold, ..old(self)@.log },
                ..old(self)@
            }),
            sound(old(self)@) ==> sound(final(self)@),
            durable(old(self)@) ==> durable(final(self)@),
    {
        let ghost before = self@;
        self.log.set_size_threshold(size_threshold);
        proof {
            if sound(before) {
                crate::soundness::lemma_threshold_keeps_sound(before, size_threshold);
            }
            if durable(before) {
                crate::durability::lemma_threshold_keeps_durable(before, size_threshold);
            }
        }
    }

    /// Stores `value` under `key`.
    pub fn put(&mut self, key: Vec<u8>, value: &[u8])
        requires
            old(self).wf(),
            old(self)@.has_room(),
            key@.len() <= MAX_KEY_LEN,
            value@.len() <= MAX_VALUE_LEN,
        ensures
            final(self).wf(),
            final(self)@ == old(self)@.put(key@, value@),
            sound(old(self)@) ==> sound(final(self)@),
            durable(old(self)@) ==> durable(final(self)@),
    {
        proof {
            if sound(self@) {
                lemma_put_keeps_sound(self@, key@, value@);
            }
            if durable(self@) {
                lemma_put_keeps_durable(self@, key@, value@);
            }
        }
        let sequence = self.last_sequence + 1;
        let entry = Entry::new(sequence, key.as_slice(), value);
        let (file_id, entry_pos) = self.log.append_entry(&entry);
        self.last_sequence = sequence;
        let index_entry = IndexEntry {
            file_id,
            entry_pos,
            entry_size: entry.size(),
            sequence,
        };
        self.index.insert(key, index_entry);
    }

    /// Removes `key`. Nothing is written if the key is not there. The
    /// removal outlasts closing and opening the store if no put of the key
    /// lies in a segment behind the one that the tombstone is written to;
    /// a compaction leaves such a segment behind the active one until the
    /// active one is sealed.
    pub fn delete(&mut self, key: &[u8])
        requires
            old(self).wf(),
            old(self)@.has_room(),
            key@.len() <= MAX_KEY_LEN,
        ensures
            final(self).wf(),
            final(self)@ == old(self)@.delete(key@),
            sound(old(self)@) ==> sound(final(self)@),
            durable(old(self)@) && is_durable_delete(old(self)@, key@) ==> durable(final(self)@),
    {
        proof {
            if sound(self@) {
                lemma_delete_keeps_sound(self@, key@);
            }
            if durable(self@) && is_durable_delete(self@, key@) {
                lemma_delete_keeps_durable(self@, key@);
            }
        }
        if self.index.remove(key).is_some() {
            let sequence = self.last_sequence + 1;
            let entry = Entry::deleted(sequence, key);
            self.log.append_entry(&entry);
            self.last_sequence = sequence;
        } else {
            assert(self.index@ =~= old(self).index@);
        }
    }

    /// Applies every hint of the cursor to the index.
    fn load_hints(index: &mut Index, hints: Hints<'_>, file_id: u32)
        requires
            hints.wf(),
        ensures
            final(index)@ == replay(old(index)@, hints.remaining(), file_id),
    {
        let mut hints = hints;
        let ghost all = hints.remaining();
        loop
            invariant_except_break
                hints.wf(),
            invariant
                replay(index@, hints.remaining(), file_id) == replay(old(index)@, all, file_id),
            ensures
                hints.remaining().len() == 0,
            decreases hints.rest().len(),
        {
            let ghost remaining = hints.remaining();
            match hints.next() {
                Some(Ok(hint)) => {
                    proof {
                        assert(remaining[0] == hint@);
                        assert(remaining.skip(1) =~= hints.remaining());
                        lemma_replay_first(index@, remaining, file_id);
                    }
                    index.update(hint, file_id);
                },
                _ => {
                    break ;
                },
            }
        }
    }

    /// Copies the live records of segment `file_id` to `writer` and
    /// collects the tombstones to remember. `None` if the segment has no
    /// valid hint file.
    fn copy_live(&self, file_id: u32, writer: &mut LogWriter) -> (result: Option<
        Result<Tombstones, Error>,
    >)
        requires
            self.wf(),
            old(writer).wf(),
            old(writer)@.data == Seq::<u8>::empty(),
        ensures
            final(writer).wf(),
            final(writer)@.file_id == old(writer)@.file_id,
            match result {
                None => !self@.log.has_hints(file_id) && final(writer)@ == old(writer)@,
                Some(Ok(tombstones)) => {
                    let data = self@.log.dir[file_id].data;
                    let hints = self@.log.dir[file_id].hints();
                    &&& self@.log.has_hints(file_id)
                    &&& copied_entries(data, self@.index, hints) is Ok
                    &&& final(writer)@.data == encode_entries(
                        copied_entries(data, self@.index, hints).unwrap(),
                    )
                    &&& tombstones@ == merged_tombstones(self@.index, hints)
                    &&& tombstones.wf()
                },
                Some(Err(error)) => {
                    let data = self@.log.dir[file_id].data;
                    let hints = self@.log.dir[file_id].hints();
                    &&& self@.log.has_hints(file_id)
                    &&& copied_entries(data, self@.index, hints) == Err::<Seq<EntryView>, Error>(
                        error,
                    )
                },
            },
    {
        let mut hints = match self.log.hints(file_id) {
            Some(hints) => hints,
            None => {
                return None;
            },
        };
        let ghost data = self@.log.dir[file_id].data;
        let ghost all = self@.log.dir[file_id].hints();
        let ghost index = self@.index;
        let ghost mut k: int = 0;
        let mut tombstones = Tombstones::new();
        proof {
            self.log.lemma_wf();
            assert(all.skip(0) =~= all);
            assert(all.take(0) =~= Seq::<HintView>::empty());
            assert(encode_entries(Seq::<EntryView>::empty()) =~= Seq::<u8>::empty());
        }
        loop
            invariant_except_break
                hints.wf(),
            invariant
                self.wf(),
                self@.log.wf(),
                self@.log.has_hints(file_id),
                data == self@.log.dir[file_id].data,
                all == self@.log.dir[file_id].hints(),
                index == self@.index,
                0 <= k <= all.len(),
                hints.remaining() == all.skip(k),
                writer.wf(),
                writer@.file_id == old(writer)@.file_id,
                copied_entries(data, index, all.take(k)) is Ok,
                writer@.data == encode_entries(copied_entries(data, index, all.take(k)).unwrap()),
                tombstones@ == merged_tombstones(index, all.take(k)),
                tombstones.wf(),
            ensures
                k == all.len(),
            decreases hints.rest().len(),
        {
            let ghost remaining = hints.remaining();
            match hints.next() {
                Some(Ok(hint)) => {
                    proof {
                        assert(remaining == all.skip(k));
                        assert(remaining.len() == 1 + hints.remaining().len());
                        assert(remaining[0] == hint@);
                        assert(all.skip(k)[0] == all[k]);
                        assert(all[k] == hint@);
                        assert(all.take(k + 1).drop_last() =~= all.take(k));
                        assert(all.take(k + 1).last() == hint@);
                        assert(remaining.skip(1) =~= hints.remaining());
                        assert(all.skip(k).skip(1) =~= all.skip(k + 1));
                    }
                    let index_entry = self.index.get(hint.key.as_slice());
                    if hint.deleted {
                        if index_entry.is_none() {
                            tombstones.remember(hint.key.as_slice(), hint.sequence);
                        }
                    } else {
                        let live = match index_entry {
                            Some(index_entry) => index_entry.sequence == hint.sequence,
                            None => false,
                        };
                        if live {
                            match self.log.read_entry(file_id, hint.entry_pos) {
                                Ok(entry) => {
                                    proof {
                                        lemma_decoded_entry_is_prefix(
                                            data.subrange(
                                                hint.entry_pos as int,
                                                data.len() as int,
                                            ),
                                        );
                                        crate::segment::lemma_encode_entries_push(
                                            copied_entries(data, index, all.take(k)).unwrap(),
                                            entry@,
                                        );
                                    }
                                    writer.write(&entry);
                                },
                                Err(error) => {
                                    proof {
                                        lemma_copy_error_stays(data, index, all, k + 1);
                                    }
                                    return Some(Err(error));
                                },
                            }
                        }
                    }
                    proof {
                        k = k + 1;
                    }
                },
                _ => {
                    proof {
                        assert(all.skip(k).len() == 0);
                    }
                    break ;
                },
            }
        }
        proof {
            assert(all.take(k) =~= all);
        }
        Some(Ok(tombstones))
    }

    /// Writes what is kept of segment `file_id` to a new segment and puts
    /// its files into the directory. Returns the number of the new segment,
    /// or `None` if segment `file_id` has no valid hint file.
    fn compact_file(&mut self, file_id: u32) -> (result: Result<Option<u32>, Error>)
        requires
            old(self).wf(),
            old(self)@.log.current_file_id < u32::MAX,
        ensures
            final(self).wf(),
            final(self)@.index == old(self)@.index,
            final(self)@.last_sequence == old(self)@.last_sequence,
            match result {
                Ok(None) => !old(self)@.log.has_hints(file_id) && final(self)@ == old(self)@,
                Ok(Some(new_file_id)) => {
                    &&& old(self)@.log.has_hints(file_id)
                    &&& new_file_id == old(self)@.log.current_file_id + 1
                    &&& old(self)@.compaction(file_id) is Ok
                    &&& old(self)@.compaction_fits(file_id)
                    &&& final(self)@.log == (LogView {
                        current_file_id: new_file_id,
                        dir: old(self)@.log.dir.insert(
                            new_file_id,
                            written_segment(old(self)@.compaction(file_id).unwrap()),
                        ),
                        ..old(self)@.log
                    })
                },
                Err(error) => {
                    &&& old(self)@.log.has_hints(file_id)
                    &&& old(self)@.compaction(file_id) == Err::<Seq<EntryView>, Error>(error)
                    &&& final(self)@.log == (LogView {
                        current_file_id: (old(self)@.log.current_file_id + 1) as u32,
                        ..old(self)@.log
                    })
                },
            },
    {
        proof {
            self.log.lemma_wf();
        }
        let new_file_id = self.log.current_file_id() + 1;
        let mut writer = LogWriter::new(new_file_id, false);
        match self.copy_live(file_id, &mut writer) {
            None => Ok(None),
            Some(Err(error)) => {
                self.log.new_file_id();
                Err(error)
            },
            Some(Ok(tombstones)) => {
                let ghost copies = copied_entries(
                    self@.log.dir[file_id].data,
                    self@.index,
                    self@.log.dir[file_id].hints(),
                ).unwrap();
                self.log.new_file_id();
                write_tombstones(&mut writer, tombstones.list(), Ghost(copies));
                proof {
                    writer.lemma_wf();
                }
                let segment = writer.close();
                self.log.store(segment);
                Ok(Some(new_file_id))
            },
        }
    }

    /// Compacts the sealed segment `file_id`: what is live of it is written
    /// to a new segment, which takes its place. See [`CaskView::compact`].
    /// If a record cannot be read, nothing changes but the segment counter.
    pub fn compact(&mut self, file_id: u32) -> (result: Result<(), Error>)
        requires
            old(self).wf(),
            old(self)@.log.files.contains(file_id),
            old(self)@.log.current_file_id < u32::MAX,
        ensures
            final(self).wf(),
            (final(self)@, result) == old(self)@.compact(file_id),
            old(self)@.log.has_hints(file_id) ==> old(self)@.compaction_fits(file_id),
            sound(old(self)@) ==> sound(final(self)@),
            durable(old(self)@) ==> durable(final(self)@),
    {
        let ghost before = self@;
        match self.compact_file(file_id) {
            Ok(Some(new_file_id)) => {
                proof {
                    let segment = written_segment(old(self)@.compaction(file_id).unwrap());
                    crate::segment::lemma_valid_written_hint_file(
                        encode_hints(data_hints(segment.data)),
                    );
                    lemma_consistent_segment_hints(segment);
                }
                match self.log.hints(new_file_id) {
                    Some(hints) => {
                        Self::load_hints(&mut self.index, hints, new_file_id);
                    },
                    None => {
                        assert(false);
                    },
                }
                self.log.swap_file(file_id, new_file_id);
                proof {
                    assert(self@.log.dir =~= before.compact(file_id).0.log.dir);
                    if sound(before) {
                        lemma_compact_keeps_sound(before, file_id);
                    }
                    if durable(before) {
                        lemma_compact_keeps_durable(before, file_id);
                    }
                }
                Ok(())
            },
            Ok(None) => {
                proof {
                    if sound(before) {
                        lemma_compaction_keeps(before, file_id);
                    }
                }
                Ok(())
            },
            Err(error) => {
                proof {
                    if sound(before) {
                        lemma_compaction_keeps(before, file_id);
                    }
                }
                Err(error)
            },
        }
    }

    /// Closes the store: the active segment is sealed and the directory
    /// handed out.
    pub fn close(self) -> (dir: Directory)
        requires
            self.wf(),
        ensures
            dir@ == self@.log.closed(),
    {
        self.log.close()
    }
}

} // verus!
