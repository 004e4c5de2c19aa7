//! What holds of the engine over any run of operations.
//!
//! The laws speak of the engine as a mathematical value, [`CaskView`], whose
//! operations are the contracts of `open`, `get`, `put`, `delete`,
//! `compact` and `close`. Two invariants carry them over runs of
//! operations: `sound`, which `open` on an empty directory establishes and
//! `put`, `delete` and `compact` keep, and `durable`, which the same
//! operations keep as long as no `delete` writes its tombstone in front of
//! a put of its key.

use crate::cask::{opens_to, CaskView};
use crate::data::{
    decode_entry, lemma_decode_entry_ignores_rest, lemma_decoded_entry_is_prefix, EntryView,
    Error, MAX_KEY_LEN, MAX_VALUE_LEN,
};
use crate::durability::{
    durable, has_newest, is_before, is_buried, is_grave, is_newest, is_put_at,
    lemma_closed_directory, lemma_reopen_builds_index, lemma_reopen_finds_sequence,
};
use crate::index::{entry_of_hint, has_put_of, is_moved, is_put_of, lemma_replay_relocates};
use crate::log::{lemma_append_keeps_reads, lemma_append_reads_back};
use crate::segment::{
    data_hints, encode_entries, encode_hints, hint_body, lemma_consistent_segment_hints,
    lemma_data_hints_describe, lemma_entry_at_offset, lemma_valid_written_hint_file,
    parse_entries, parse_hints, valid_hint_file, SegmentView,
};
use crate::soundness::{
    backing_hint, can_compact, hint_agrees, hint_at, is_backed, is_sealed, kept, kept_hints,
    lemma_compacted, lemma_compaction_keeps, lemma_kept_entry, lemma_kept_hints_relocate,
    lemma_live_entry_is_pointed_at, lemma_pointed_at_is_copied, lemma_sound_lookup, sound,
};
use vstd::prelude::*;

verus! {

/// Read-your-writes: after `put(key, value)`, `get(key)` answers `value`.
pub proof fn law_read_your_writes(cask: CaskView, key: Seq<u8>, value: Seq<u8>)
    requires
        cask.wf(),
        key.len() <= MAX_KEY_LEN,
        value.len() <= MAX_VALUE_LEN,
    ensures
        cask.put(key, value).lookup(key) == Ok::<Option<Seq<u8>>, Error>(Some(value)),
{
    lemma_append_reads_back(cask.log, cask.put_entry(key, value));
}

/// A `put` leaves the answer for every other key as it was, if there was
/// an answer.
pub proof fn law_put_keeps_other_keys(cask: CaskView, key: Seq<u8>, value: Seq<u8>, other: Seq<u8>)
    requires
        cask.wf(),
        cask.has_room(),
        key.len() <= MAX_KEY_LEN,
        value.len() <= MAX_VALUE_LEN,
        other != key,
        cask.lookup(other) is Ok,
    ensures
        cask.put(key, value).lookup(other) == cask.lookup(other),
{
    if cask.index.contains_key(other) {
        lemma_append_keeps_reads(
            cask.log,
            cask.put_entry(key, value),
            cask.index[other].file_id,
            cask.index[other].entry_pos,
        );
    }
}

/// Delete visibility: after `delete(key)`, `get(key)` answers that the key
/// is absent.
pub proof fn law_delete_hides_key(cask: CaskView, key: Seq<u8>)
    ensures
        cask.delete(key).lookup(key) == Ok::<Option<Seq<u8>>, Error>(None),
{
}

/// A `delete` leaves the answer for every other key as it was, if there
/// was an answer.
pub proof fn law_delete_keeps_other_keys(cask: CaskView, key: Seq<u8>, other: Seq<u8>)
    requires
        cask.wf(),
        cask.has_room(),
        key.len() <= MAX_KEY_LEN,
        other != key,
        cask.lookup(other) is Ok,
    ensures
        cask.delete(key).lookup(other) == cask.lookup(other),
{
    if cask.index.contains_key(key) && cask.index.contains_key(other) {
        lemma_append_keeps_reads(
            cask.log,
            cask.tombstone(key),
            cask.index[other].file_id,
            cask.index[other].entry_pos,
        );
    }
}

/// Sequence monotonicity: each record that `put` or `delete` writes gets
/// the sequence number one above the greatest given before.
pub proof fn law_sequences_increase(cask: CaskView, key: Seq<u8>, value: Seq<u8>)
    requires
        cask.last_sequence < u64::MAX,
    ensures
        cask.put_entry(key, value).sequence == cask.last_sequence + 1,
        cask.put(key, value).last_sequence == cask.last_sequence + 1,
        cask.tombstone(key).sequence == cask.last_sequence + 1,
        cask.delete(key).last_sequence == (if cask.index.contains_key(key) {
            cask.last_sequence + 1
        } else {
            cask.last_sequence as int
        }),
{
}

/// Hint and data agree: in a segment whose hint file is valid and lists
/// the entries of its data file, every hint describes the record at its
/// offset: same sequence number, key and flag, and exactly `entry_size`
/// bytes.
pub proof fn law_hints_describe_entries(segment: SegmentView, i: int)
    requires
        segment.consistent(),
        segment.data.len() <= u64::MAX,
        0 <= i < segment.hints().len(),
    ensures
        segment.hints()[i].describes(segment.data),
        segment.hints()[i].entry_pos + segment.hints()[i].entry_size <= segment.data.len(),
{
    lemma_consistent_segment_hints(segment);
    lemma_data_hints_describe(segment.data, i);
}

/// Hint and data agree in the engine: every hint of a sealed segment of a
/// sound engine describes the record at its offset in the data file of the
/// segment.
pub proof fn law_sealed_hints_describe_entries(cask: CaskView, file_id: u32, i: int)
    requires
        sound(cask),
        cask.log.files.contains(file_id),
        0 <= i < cask.log.dir[file_id].hints().len(),
    ensures
        valid_hint_file(cask.log.dir[file_id].hint.unwrap()),
        cask.log.dir[file_id].hints() == parse_hints(
            hint_body(cask.log.dir[file_id].hint.unwrap()),
        ),
        cask.log.dir[file_id].hints()[i].describes(cask.log.dir[file_id].data),
{
    assert(cask.log.dir.contains_key(file_id));
    law_hints_describe_entries(cask.log.dir[file_id], i);
}

/// Compaction invariance: in a sound engine, compacting a sealed segment
/// succeeds and leaves the answer of `get` for every key as it was.
pub proof fn law_compaction_keeps_answers(cask: CaskView, file_id: u32, key: Seq<u8>)
    requires
        can_compact(cask, file_id),
        cask.compaction_fits(file_id),
    ensures
        cask.compact(file_id).1 == Ok::<(), Error>(()),
        cask.compact(file_id).0.lookup(key) == cask.lookup(key),
{
    let after = cask.compact(file_id).0;
    let next = (cask.log.current_file_id + 1) as u32;
    let hints = kept_hints(cask, file_id);
    let all = kept(cask, file_id);
    let data = encode_entries(all);
    lemma_compacted(cask, file_id);
    lemma_compaction_keeps(cask, file_id);
    lemma_kept_hints_relocate(cask, file_id);
    lemma_replay_relocates(cask.index, hints, next);
    lemma_sound_lookup(cask, key);
    if cask.index.contains_key(key) {
        let entry = cask.index[key];
        assert(after.index.contains_key(key));
        if has_put_of(hints, key) {
            assert(is_moved(hints, key, after.index[key], next));
            let j = choose|j: int| #[trigger]
                is_put_of(hints, key, j) && after.index[key] == entry_of_hint(hints[j], next);
            let i = lemma_kept_entry(cask, file_id, j);
            lemma_live_entry_is_pointed_at(cask, file_id, i);
            lemma_entry_at_offset(data, j);
            assert(after.log.dir.contains_key(next));
            assert(after.log.data_of(next) == Some(data));
            assert(after.log.read(next, hints[j].entry_pos) == Ok::<EntryView, Error>(all[j]));
        } else {
            if entry.file_id == file_id {
                let j = lemma_pointed_at_is_copied(cask, file_id, key);
                assert(is_put_of(hints, key, j));
            }
            assert(is_backed(cask, key));
            assert(cask.log.is_segment(entry.file_id));
            if entry.file_id != cask.log.active_file_id {
                assert(cask.log.dir.contains_key(entry.file_id));
                assert(after.log.dir.contains_key(entry.file_id));
            }
            assert(after.log.data_of(entry.file_id) == cask.log.data_of(entry.file_id));
        }
    }
}


/// Durability: a durable engine that is closed and opened again has the
/// index and the sequence counter it had, answers `get` for every key as
/// it did, and is durable again.
pub proof fn law_reopen_keeps_state(cask: CaskView, reopened: CaskView)
    requires
        durable(cask),
        opens_to(cask.log.closed(), reopened),
    ensures
        reopened.index == cask.index,
        reopened.last_sequence == cask.last_sequence,
        forall|key: Seq<u8>| #[trigger] reopened.lookup(key) == cask.lookup(key),
        durable(reopened),
{
    let log = cask.log;
    lemma_closed_directory(cask, reopened);
    lemma_reopen_finds_sequence(cask, reopened);
    assert forall|key: Seq<u8>|
        reopened.index.contains_key(key) == cask.index.contains_key(key) && (
        cask.index.contains_key(key) ==> #[trigger] reopened.index[key] == cask.index[key]) by {
        lemma_reopen_builds_index(cask, reopened, key);
    }
    assert(reopened.index =~= cask.index) by {
        assert forall|key: Seq<u8>|
            reopened.index.contains_key(key) == cask.index.contains_key(key) by {
            lemma_reopen_builds_index(cask, reopened, key);
        }
    }
    assert forall|key: Seq<u8>| #[trigger] reopened.lookup(key) == cask.lookup(key) by {
        if cask.index.contains_key(key) {
            assert(is_backed(cask, key));
            assert(log.is_segment(cask.index[key].file_id));
        }
    }
    assert forall|file_id: u32, i: int| #[trigger] hint_at(reopened.log, file_id, i) implies {
        &&& hint_at(log, file_id, i)
        &&& reopened.log.hints_of(file_id) == log.hints_of(file_id)
    } by {
        assert(hint_at(log, file_id, i));
        assert(log.is_segment(file_id));
    }
    assert(sound(reopened)) by {
        assert forall|file_id: u32| #[trigger] reopened.log.dir.contains_key(
            file_id,
        ) implies reopened.log.files.contains(file_id) && is_sealed(
            reopened.log.dir[file_id],
        ) by {
            assert(reopened.log.files.contains(file_id));
            assert(log.is_segment(file_id));
        }
        assert forall|key: Seq<u8>| #[trigger] reopened.index.contains_key(key) implies is_backed(
            reopened,
            key,
        ) by {
            let entry = cask.index[key];
            assert(is_backed(cask, key));
            let p = choose|p: int| #[trigger]
                hint_at(log, entry.file_id, p) && log.hints_of(entry.file_id)[p] == backing_hint(
                    key,
                    entry,
                );
            assert(log.is_segment(entry.file_id));
            assert(hint_at(reopened.log, reopened.index[key].file_id, p));
            assert(reopened.log.hints_of(reopened.index[key].file_id)[p] == backing_hint(
                key,
                reopened.index[key],
            ));
        }
        assert forall|file_id: u32, i: int| #[trigger]
            hint_at(reopened.log, file_id, i) implies hint_agrees(
            reopened,
            reopened.log.hints_of(file_id)[i],
            file_id,
        ) by {
            assert(hint_at(log, file_id, i));
            assert(hint_agrees(cask, log.hints_of(file_id)[i], file_id));
        }
    }
    assert(has_newest(reopened)) by {
        if exists|file_id: u32, i: int| #[trigger] is_newest(cask, file_id, i) {
            let (file_id, i) = choose|file_id: u32, i: int| #[trigger]
                is_newest(cask, file_id, i);
            assert(hint_at(log, file_id, i));
            assert(log.is_segment(file_id));
            assert(hint_at(reopened.log, file_id, i));
            assert(is_newest(reopened, file_id, i));
        } else {
            assert forall|file_id: u32, i: int| !#[trigger] hint_at(
                reopened.log,
                file_id,
                i,
            ) by {
                if hint_at(reopened.log, file_id, i) {
                    assert(hint_at(log, file_id, i));
                }
            }
        }
    }
    assert forall|key: Seq<u8>| !reopened.index.contains_key(key) implies #[trigger] is_buried(
        reopened.log,
        key,
    ) by {
        assert(is_buried(log, key));
        assert forall|file_id: u32, i: int| #[trigger]
            is_put_at(reopened.log, key, file_id, i) implies is_put_at(log, key, file_id, i) by {
            assert(hint_at(reopened.log, file_id, i));
        }
        if forall|file_id: u32, i: int| !#[trigger] is_put_at(log, key, file_id, i) {
        } else {
            let (file_id, q) = choose|file_id: u32, q: int| #[trigger]
                is_grave(log, key, file_id, q);
            assert(hint_at(log, file_id, q));
            assert(log.is_segment(file_id));
            assert(hint_at(reopened.log, file_id, q));
            assert forall|other: u32, j: int| #[trigger]
                is_put_at(reopened.log, key, other, j) implies is_before(other, j, file_id, q)
                && reopened.log.hints_of(other)[j].sequence <= reopened.log.hints_of(
                file_id,
            )[q].sequence by {
                assert(is_put_at(log, key, other, j));
            }
            assert(is_grave(reopened.log, key, file_id, q));
        }
    }
}

/// Opening repairs hint files: once the store is open, every segment of the
/// directory has a valid hint file; its data file is as it was, and its
/// hints are those that loading read from it.
pub proof fn law_open_repairs_hint_files(dir: Map<u32, SegmentView>, cask: CaskView, file_id: u32)
    requires
        opens_to(dir, cask),
        dir.contains_key(file_id),
    ensures
        cask.log.has_hints(file_id),
        cask.log.dir[file_id].data == dir[file_id].data,
        cask.log.dir[file_id].hints() == dir[file_id].hints(),
{
    let segment = dir[file_id];
    assert(cask.log.files.contains(file_id));
    assert(cask.log.dir[file_id] == segment.repaired());
    if !(segment.hint is Some && valid_hint_file(segment.hint.unwrap())) {
        lemma_valid_written_hint_file(encode_hints(data_hints(segment.data)));
        lemma_consistent_segment_hints(segment.repaired());
    }
}

/// A data file that is cut short loses entries from its end only: what is
/// read from the shorter file is the front of what was read from the whole.
pub proof fn law_cut_data_file_keeps_front(data: Seq<u8>, len: int)
    requires
        0 <= len <= data.len(),
    ensures
        parse_entries(data.take(len)).is_prefix_of(parse_entries(data)),
        data_hints(data.take(len)).is_prefix_of(data_hints(data)),
    decreases data.len(),
{
    let cut = data.take(len);
    match decode_entry(cut) {
        Some(entry) => {
            let size = entry.size() as int;
            lemma_decoded_entry_is_prefix(cut);
            assert(data.subrange(0, size) =~= cut.subrange(0, size));
            lemma_decode_entry_ignores_rest(cut, data);
            let rest = data.subrange(size, data.len() as int);
            law_cut_data_file_keeps_front(rest, len - size);
            assert(rest.take(len - size) =~= cut.subrange(size, cut.len() as int));
            let front = parse_entries(cut);
            let all = parse_entries(data);
            assert(front =~= all.subrange(0, front.len() as int));
        },
        None => {},
    }
    let front = parse_entries(cut);
    let all = parse_entries(data);
    crate::segment::lemma_hints_of_prefix(all, front.len() as int);
    assert(all.take(front.len() as int) =~= front);
}

} // verus!
