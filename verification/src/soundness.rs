//! The invariant of the engine: every sealed segment has a valid hint file
//! that lists its entries, the index points at put records that are there,
//! and no record of a key is newer than the one that the index points at.

use crate::cask::{written_segment, CaskView};
use crate::compaction::{
    has_origin, has_source, is_live_entry, is_origin, is_source, lemma_copies_are_live_entries,
    lemma_live_entries_sources, lemma_merged_tombstones, live_entries, live_rank, merged_tombstones,
    tombstone_entries, TombstoneView,
};
use crate::data::{EntryView, Error, HintView, MAX_KEY_LEN, MAX_VALUE_LEN};
use crate::directory::{
    is_strictly_sorted, lemma_sorted_insert_contains, lemma_sorted_insert_sorted,
    lemma_sorted_remove_contains, sorted_insert, sorted_remove,
};
use crate::index::{
    entry_of_hint, has_put_of, is_moved, is_put_of, is_relocating, lemma_replay_relocates,
    relocates, replay, IndexEntry,
};
use crate::log::{lemma_append_wf, lemma_roll_wf, LogView};
use crate::segment::{
    all_entries_wf, data_hints, encode_entries, encode_hints, entry_offset, hints_of_entries,
    lemma_consistent_segment_hints, lemma_data_hints_appended, lemma_data_hints_describe,
    lemma_data_hints_of_encoded, lemma_data_hints_wf, lemma_entry_at_offset,
    lemma_entry_offsets_grow, lemma_parsed_entries_are_prefix, lemma_valid_written_hint_file,
    parse_entries, valid_hint_file, SegmentView,
};
use vstd::prelude::*;

verus! {

/// Whether segment `file_id` has an `i`-th hint.
pub open spec fn hint_at(log: LogView, file_id: u32, i: int) -> bool {
    log.is_segment(file_id) && 0 <= i < log.hints_of(file_id).len()
}

/// The hint of the record that an index entry points at.
pub open spec fn backing_hint(key: Seq<u8>, entry: IndexEntry) -> HintView {
    HintView {
        sequence: entry.sequence,
        deleted: false,
        key,
        entry_pos: entry.entry_pos,
        entry_size: entry.entry_size,
    }
}

/// The segment that the index points to for `key` has the hint of the
/// record.
pub open spec fn is_backed(cask: CaskView, key: Seq<u8>) -> bool {
    exists|i: int| #[trigger]
        hint_at(cask.log, cask.index[key].file_id, i) && cask.log.hints_of(
            cask.index[key].file_id,
        )[i] == backing_hint(key, cask.index[key])
}

/// A hint of segment `file_id` is no newer than the sequence counter, and
/// no newer than what the index holds for its key; if it is as new, it is
/// the put that the index points at.
pub open spec fn hint_agrees(cask: CaskView, hint: HintView, file_id: u32) -> bool {
    &&& hint.sequence <= cask.last_sequence
    &&& cask.index.contains_key(hint.key) ==> {
        &&& hint.sequence <= cask.index[hint.key].sequence
        &&& hint.sequence == cask.index[hint.key].sequence ==> !hint.deleted
            && cask.index[hint.key] == entry_of_hint(hint, file_id)
    }
}

/// A sealed segment has a valid hint file that lists the entries of its
/// data file.
pub open spec fn is_sealed(segment: SegmentView) -> bool {
    &&& segment.hint is Some
    &&& valid_hint_file(segment.hint.unwrap())
    &&& segment.consistent()
    &&& segment.data.len() <= u64::MAX
}

/// The invariant of the engine.
pub open spec fn sound(cask: CaskView) -> bool {
    &&& cask.log.wf()
    &&& is_strictly_sorted(cask.log.files)
    &&& forall|file_id: u32| #[trigger]
        cask.log.files.contains(file_id) ==> cask.log.dir.contains_key(file_id)
    &&& forall|file_id: u32| #[trigger]
        cask.log.dir.contains_key(file_id) ==> cask.log.files.contains(file_id) && is_sealed(
            cask.log.dir[file_id],
        )
    &&& forall|key: Seq<u8>| #[trigger] cask.index.contains_key(key) ==> is_backed(cask, key)
    &&& forall|file_id: u32, i: int| #[trigger]
        hint_at(cask.log, file_id, i) ==> hint_agrees(
            cask,
            cask.log.hints_of(file_id)[i],
            file_id,
        )
}

/// The hints of the sealed segments of a sound engine are those of their
/// data files.
pub proof fn lemma_sealed_hints(cask: CaskView, file_id: u32)
    requires
        sound(cask),
        cask.log.is_segment(file_id),
    ensures
        cask.log.hints_of(file_id) == data_hints(cask.log.data_of(file_id).unwrap()),
        cask.log.data_of(file_id) is Some,
        cask.log.data_of(file_id).unwrap().len() <= u64::MAX,
{
    if file_id != cask.log.active_file_id {
        assert(cask.log.files.contains(file_id));
        assert(cask.log.dir.contains_key(file_id));
        lemma_consistent_segment_hints(cask.log.dir[file_id]);
    }
}

/// In a sound engine `get` never fails: a key of the index is answered with
/// the value of the put that the index points at.
pub proof fn lemma_sound_lookup(cask: CaskView, key: Seq<u8>)
    requires
        sound(cask),
    ensures
        cask.lookup(key) is Ok,
        cask.index.contains_key(key) ==> cask.lookup(key).unwrap() is Some,
        cask.index.contains_key(key) ==> {
            let found = cask.log.read(cask.index[key].file_id, cask.index[key].entry_pos);
            &&& found is Ok
            &&& HintView::of_entry(found.unwrap(), cask.index[key].entry_pos) == backing_hint(
                key,
                cask.index[key],
            )
        },
{
    if cask.index.contains_key(key) {
        let entry = cask.index[key];
        assert(is_backed(cask, key));
        let i = choose|i: int| #[trigger]
            hint_at(cask.log, entry.file_id, i) && cask.log.hints_of(entry.file_id)[i]
                == backing_hint(key, entry);
        lemma_sealed_hints(cask, entry.file_id);
        lemma_data_hints_describe(cask.log.data_of(entry.file_id).unwrap(), i);
    }
}

/// What appending an entry does to the hints of the segments.
pub proof fn lemma_append_hints(cask: CaskView, entry: EntryView)
    requires
        sound(cask),
        entry.wf(),
        cask.log.current_file_id < u32::MAX,
    ensures
        ({
            let log = cask.log;
            let after = cask.log.append(entry);
            let hint = HintView::of_entry(entry, log.append_pos(entry));
            &&& after.wf()
            &&& is_strictly_sorted(after.files)
            &&& forall|file_id: u32| #[trigger]
                after.files.contains(file_id) ==> after.dir.contains_key(file_id)
            &&& forall|file_id: u32| #[trigger]
                after.dir.contains_key(file_id) ==> after.files.contains(file_id) && is_sealed(
                    after.dir[file_id],
                )
            &&& forall|file_id: u32| #[trigger]
                log.is_segment(file_id) ==> after.is_segment(file_id)
            &&& forall|file_id: u32| #[trigger]
                after.is_segment(file_id) ==> log.is_segment(file_id) || file_id
                    == after.active_file_id
            &&& forall|file_id: u32|
                log.is_segment(file_id) && file_id != after.active_file_id
                    ==> #[trigger] after.hints_of(file_id) == log.hints_of(file_id)
            &&& after.hints_of(after.active_file_id) == (if log.must_roll(entry) {
                Seq::<HintView>::empty()
            } else {
                log.hints_of(log.active_file_id)
            }).push(hint)
            &&& log.must_roll(entry) ==> !log.is_segment(after.active_file_id)
            &&& !log.must_roll(entry) ==> after.active_file_id == log.active_file_id
        }),
{
    let log = cask.log;
    let after = log.append(entry);
    lemma_append_wf(log, entry);
    if log.must_roll(entry) {
        let rolled = log.roll();
        lemma_roll_wf(log);
        lemma_sorted_insert_contains(log.files, log.active_file_id);
        assert(!log.files.contains(log.active_file_id)) by {
            if log.files.contains(log.active_file_id) {
                assert(log.dir.contains_key(log.active_file_id));
            }
        }
        lemma_valid_written_hint_file(log.active.hints);
        let sealed = log.sealed_active();
        assert(is_sealed(sealed));
        lemma_consistent_segment_hints(sealed);
        assert(!log.is_segment(after.active_file_id)) by {
            if log.files.contains(after.active_file_id) {
                assert(log.dir.contains_key(after.active_file_id));
            }
        }
        assert(data_hints(Seq::<u8>::empty()) =~= Seq::<HintView>::empty()) by {
            assert(crate::segment::parse_entries(Seq::<u8>::empty()) =~= Seq::<
                EntryView,
            >::empty());
        }
        lemma_data_hints_appended(Seq::<u8>::empty(), entry);
        assert(Seq::<u8>::empty() + entry.encode() =~= entry.encode());
        assert(rolled.active.data + entry.encode() =~= entry.encode());
        assert forall|file_id: u32|
            log.is_segment(file_id) && file_id != after.active_file_id implies #[trigger] after.hints_of(
            file_id,
        ) == log.hints_of(file_id) by {
            if file_id != log.active_file_id {
                assert(log.dir.contains_key(file_id));
            }
        }
        assert forall|file_id: u32| #[trigger] after.dir.contains_key(file_id) implies after.files.contains(
            file_id,
        ) && is_sealed(after.dir[file_id]) by {
            if file_id != log.active_file_id {
                assert(log.dir.contains_key(file_id));
            }
        }
        assert forall|file_id: u32| #[trigger] after.files.contains(file_id) implies after.dir.contains_key(
            file_id,
        ) by {
            if file_id != log.active_file_id {
                assert(log.files.contains(file_id));
            }
        }
    } else {
        lemma_data_hints_appended(log.active.data, entry);
        assert forall|file_id: u32|
            log.is_segment(file_id) && file_id != after.active_file_id implies #[trigger] after.hints_of(
            file_id,
        ) == log.hints_of(file_id) by {}
    }
}

/// An engine that has no segment but an empty active one, and an empty
/// index, is sound: so is the engine that `open` makes of an empty
/// directory.
pub proof fn lemma_empty_is_sound(cask: CaskView)
    requires
        cask.log.wf(),
        cask.log.files == Seq::<u32>::empty(),
        cask.log.dir == Map::<u32, SegmentView>::empty(),
        cask.log.active.data == Seq::<u8>::empty(),
        cask.index == Map::<Seq<u8>, IndexEntry>::empty(),
    ensures
        sound(cask),
{
    assert(data_hints(Seq::<u8>::empty()) =~= Seq::<HintView>::empty()) by {
        assert(crate::segment::parse_entries(Seq::<u8>::empty()) =~= Seq::<EntryView>::empty());
    }
}

/// `put` keeps the engine sound.
pub proof fn lemma_put_keeps_sound(cask: CaskView, key: Seq<u8>, value: Seq<u8>)
    requires
        sound(cask),
        cask.has_room(),
        key.len() <= MAX_KEY_LEN,
        value.len() <= MAX_VALUE_LEN,
    ensures
        sound(cask.put(key, value)),
{
    let entry = cask.put_entry(key, value);
    let log = cask.log;
    let after = cask.put(key, value);
    let hint = HintView::of_entry(entry, log.append_pos(entry));
    lemma_append_hints(cask, entry);
    let active = after.log.hints_of(after.log.active_file_id);
    let last = active.len() - 1;
    assert(active[last] == hint);
    assert forall|other: Seq<u8>| #[trigger] after.index.contains_key(other) implies is_backed(
        after,
        other,
    ) by {
        if other == key {
            assert(after.index[key].file_id == after.log.active_file_id);
            assert(backing_hint(key, after.index[key]) == hint);
            assert(hint_at(after.log, after.index[key].file_id, last));
            assert(after.log.hints_of(after.index[key].file_id)[last] == backing_hint(
                key,
                after.index[key],
            ));
            assert(is_backed(after, key));
        } else {
            let entry = cask.index[other];
            assert(cask.index.contains_key(other));
            assert(is_backed(cask, other));
            let i = choose|i: int| #[trigger]
                hint_at(log, entry.file_id, i) && log.hints_of(entry.file_id)[i] == backing_hint(
                    other,
                    entry,
                );
            assert(log.is_segment(entry.file_id));
            assert(after.log.is_segment(entry.file_id));
            assert(after.log.hints_of(entry.file_id)[i] == log.hints_of(entry.file_id)[i]);
            assert(after.index[other] == entry);
            assert(hint_at(after.log, after.index[other].file_id, i));
            assert(after.log.hints_of(after.index[other].file_id)[i] == backing_hint(
                other,
                after.index[other],
            ));
            assert(is_backed(after, other));
        }
    }
    assert forall|file_id: u32, i: int| #[trigger] hint_at(after.log, file_id, i) implies hint_agrees(
        after,
        after.log.hints_of(file_id)[i],
        file_id,
    ) by {
        if file_id == after.log.active_file_id && i == last {
        } else {
            assert(log.is_segment(file_id));
            assert(hint_at(log, file_id, i));
            let old = log.hints_of(file_id)[i];
            assert(after.log.hints_of(file_id)[i] == old);
            assert(hint_agrees(cask, old, file_id));
        }
    }
}

/// `delete` keeps the engine sound.
pub proof fn lemma_delete_keeps_sound(cask: CaskView, key: Seq<u8>)
    requires
        sound(cask),
        cask.has_room(),
        key.len() <= MAX_KEY_LEN,
    ensures
        sound(cask.delete(key)),
{
    if cask.index.contains_key(key) {
        let entry = cask.tombstone(key);
        let log = cask.log;
        let after = cask.delete(key);
        lemma_append_hints(cask, entry);
        let active = after.log.hints_of(after.log.active_file_id);
        let last = active.len() - 1;
        assert forall|other: Seq<u8>| #[trigger] after.index.contains_key(other) implies is_backed(
            after,
            other,
        ) by {
            let entry = cask.index[other];
            assert(cask.index.contains_key(other));
            assert(is_backed(cask, other));
            let i = choose|i: int| #[trigger]
                hint_at(log, entry.file_id, i) && log.hints_of(entry.file_id)[i] == backing_hint(
                    other,
                    entry,
                );
            assert(log.is_segment(entry.file_id));
            assert(after.log.is_segment(entry.file_id));
            assert(after.log.hints_of(entry.file_id)[i] == log.hints_of(entry.file_id)[i]);
            assert(after.index[other] == entry);
            assert(hint_at(after.log, after.index[other].file_id, i));
            assert(after.log.hints_of(after.index[other].file_id)[i] == backing_hint(
                other,
                after.index[other],
            ));
            assert(is_backed(after, other));
        }
        assert forall|file_id: u32, i: int| #[trigger] hint_at(after.log, file_id, i) implies hint_agrees(
            after,
            after.log.hints_of(file_id)[i],
            file_id,
        ) by {
            if file_id == after.log.active_file_id && i == last {
            } else {
                assert(log.is_segment(file_id));
                assert(hint_at(log, file_id, i));
                let old = log.hints_of(file_id)[i];
                assert(after.log.hints_of(file_id)[i] == old);
                assert(hint_agrees(cask, old, file_id));
            }
        }
    }
}

/// The data file of the segment that is compacted.
pub open spec fn source_data(cask: CaskView, file_id: u32) -> Seq<u8> {
    cask.log.dir[file_id].data
}

/// The live entries of segment `file_id`.
pub open spec fn copies(cask: CaskView, file_id: u32) -> Seq<EntryView> {
    live_entries(cask.index, parse_entries(source_data(cask, file_id)))
}

/// The tombstones that a compaction of segment `file_id` remembers.
pub open spec fn remembered(cask: CaskView, file_id: u32) -> Seq<TombstoneView> {
    merged_tombstones(cask.index, data_hints(source_data(cask, file_id)))
}

/// The entries that a compaction of segment `file_id` keeps.
pub open spec fn kept(cask: CaskView, file_id: u32) -> Seq<EntryView> {
    copies(cask, file_id) + tombstone_entries(remembered(cask, file_id))
}

/// The hints of the segment that a compaction of segment `file_id` writes.
pub open spec fn kept_hints(cask: CaskView, file_id: u32) -> Seq<HintView> {
    hints_of_entries(kept(cask, file_id))
}

/// Whether segment `file_id` can be compacted: the engine is sound, the
/// segment is sealed, and a segment number is left.
pub open spec fn can_compact(cask: CaskView, file_id: u32) -> bool {
    &&& sound(cask)
    &&& cask.log.files.contains(file_id)
    &&& cask.log.current_file_id < u32::MAX
}

/// In a sound engine a compaction of a sealed segment reads every record
/// it copies, and keeps the live entries and the remembered tombstones.
pub proof fn lemma_compaction_keeps(cask: CaskView, file_id: u32)
    requires
        can_compact(cask, file_id),
    ensures
        cask.log.has_hints(file_id),
        file_id != cask.log.active_file_id,
        source_data(cask, file_id).len() <= u64::MAX,
        cask.log.hints_of(file_id) == data_hints(source_data(cask, file_id)),
        cask.log.dir[file_id].hints() == data_hints(source_data(cask, file_id)),
        cask.compaction(file_id) == Ok::<Seq<EntryView>, Error>(kept(cask, file_id)),
        all_entries_wf(kept(cask, file_id)),
        parse_entries(encode_entries(kept(cask, file_id))) == kept(cask, file_id),
        data_hints(encode_entries(kept(cask, file_id))) == kept_hints(cask, file_id),
{
    let data = source_data(cask, file_id);
    let entries = parse_entries(data);
    let hints = data_hints(data);
    let live = copies(cask, file_id);
    let tombstones = remembered(cask, file_id);
    let all = kept(cask, file_id);
    assert(cask.log.dir.contains_key(file_id));
    lemma_sealed_hints(cask, file_id);
    lemma_copies_are_live_entries(data, cask.index, entries.len() as int);
    assert(hints.take(entries.len() as int) =~= hints);
    assert(entries.take(entries.len() as int) =~= entries);
    lemma_parsed_entries_are_prefix(data);
    lemma_live_entries_sources(cask.index, entries);
    lemma_merged_tombstones(cask.index, hints);
    lemma_data_hints_wf(data);
    assert forall|j: int| 0 <= j < all.len() implies (#[trigger] all[j]).wf() by {
        if j < live.len() {
            assert(has_source(cask.index, entries, j));
            let i = choose|i: int| #[trigger] is_source(cask.index, entries, i, j);
            assert(live[live_rank(cask.index, entries, i)] == entries[i]);
            assert(entries[i].wf());
        } else {
            let t = tombstones[j - live.len()];
            assert(has_origin(cask.index, hints, t));
            let i = choose|i: int| #[trigger] is_origin(cask.index, hints, t, i);
            assert(hints[i].wf());
        }
    }
    lemma_data_hints_of_encoded(all);
}

/// A live entry of a sealed segment is the record that the index points at
/// for its key.
pub proof fn lemma_live_entry_is_pointed_at(cask: CaskView, file_id: u32, i: int)
    requires
        can_compact(cask, file_id),
        0 <= i < parse_entries(source_data(cask, file_id)).len(),
        is_live_entry(cask.index, parse_entries(source_data(cask, file_id))[i]),
    ensures
        ({
            let entries = parse_entries(source_data(cask, file_id));
            let entry = entries[i];
            &&& cask.index[entry.key].file_id == file_id
            &&& cask.index[entry.key].entry_pos == entry_offset(entries, i)
            &&& cask.log.read(file_id, cask.index[entry.key].entry_pos) == Ok::<EntryView, Error>(
                entry,
            )
            &&& entry.sequence <= cask.last_sequence
        }),
{
    let data = source_data(cask, file_id);
    lemma_compaction_keeps(cask, file_id);
    lemma_entry_at_offset(data, i);
    assert(hint_at(cask.log, file_id, i));
    assert(hint_agrees(cask, cask.log.hints_of(file_id)[i], file_id));
}

/// No key has two live entries in a sealed segment.
pub proof fn lemma_copies_have_distinct_keys(cask: CaskView, file_id: u32, j: int, k: int)
    requires
        can_compact(cask, file_id),
        0 <= j < copies(cask, file_id).len(),
        0 <= k < copies(cask, file_id).len(),
        copies(cask, file_id)[j].key == copies(cask, file_id)[k].key,
    ensures
        j == k,
{
    let entries = parse_entries(source_data(cask, file_id));
    lemma_live_entries_sources(cask.index, entries);
    assert(has_source(cask.index, entries, j));
    assert(has_source(cask.index, entries, k));
    let a = choose|a: int| #[trigger] is_source(cask.index, entries, a, j);
    let b = choose|b: int| #[trigger] is_source(cask.index, entries, b, k);
    assert(copies(cask, file_id)[j] == entries[a]);
    assert(copies(cask, file_id)[k] == entries[b]);
    lemma_live_entry_is_pointed_at(cask, file_id, a);
    lemma_live_entry_is_pointed_at(cask, file_id, b);
    if a < b {
        lemma_entry_offsets_grow(entries, a, b);
        crate::data::lemma_encoded_entry_len(entries[a]);
    } else if b < a {
        lemma_entry_offsets_grow(entries, b, a);
        crate::data::lemma_encoded_entry_len(entries[b]);
    }
}

/// The record that the index points at in a sealed segment is one of the
/// live entries of that segment.
pub proof fn lemma_pointed_at_is_copied(cask: CaskView, file_id: u32, key: Seq<u8>) -> (j: int)
    requires
        can_compact(cask, file_id),
        cask.index.contains_key(key),
        cask.index[key].file_id == file_id,
    ensures
        0 <= j < copies(cask, file_id).len(),
        copies(cask, file_id)[j].key == key,
        !copies(cask, file_id)[j].deleted,
{
    let entries = parse_entries(source_data(cask, file_id));
    lemma_compaction_keeps(cask, file_id);
    assert(is_backed(cask, key));
    let i = choose|i: int| #[trigger]
        hint_at(cask.log, file_id, i) && cask.log.hints_of(file_id)[i] == backing_hint(
            key,
            cask.index[key],
        );
    assert(is_live_entry(cask.index, entries[i]));
    lemma_live_entries_sources(cask.index, entries);
    live_rank(cask.index, entries, i)
}

/// What stands at each place of the segment that a compaction writes: a
/// live entry of the old segment, or a tombstone for a key that the index
/// lacks.
pub proof fn lemma_kept_entry(cask: CaskView, file_id: u32, j: int) -> (i: int)
    requires
        can_compact(cask, file_id),
        0 <= j < kept(cask, file_id).len(),
    ensures
        kept(cask, file_id)[j].sequence <= cask.last_sequence,
        j < copies(cask, file_id).len() ==> {
            &&& is_source(cask.index, parse_entries(source_data(cask, file_id)), i, j)
            &&& kept(cask, file_id)[j] == parse_entries(source_data(cask, file_id))[i]
        },
        j >= copies(cask, file_id).len() ==> {
            &&& kept(cask, file_id)[j].deleted
            &&& !cask.index.contains_key(kept(cask, file_id)[j].key)
        },
{
    let data = source_data(cask, file_id);
    let entries = parse_entries(data);
    let hints = data_hints(data);
    let live = copies(cask, file_id);
    let tombstones = remembered(cask, file_id);
    lemma_compaction_keeps(cask, file_id);
    lemma_live_entries_sources(cask.index, entries);
    lemma_merged_tombstones(cask.index, hints);
    if j < live.len() {
        assert(has_source(cask.index, entries, j));
        let i = choose|i: int| #[trigger] is_source(cask.index, entries, i, j);
        lemma_live_entry_is_pointed_at(cask, file_id, i);
        i
    } else {
        let t = tombstones[j - live.len()];
        assert(has_origin(cask.index, hints, t));
        let i = choose|i: int| #[trigger] is_origin(cask.index, hints, t, i);
        assert(hint_at(cask.log, file_id, i));
        assert(hint_agrees(cask, cask.log.hints_of(file_id)[i], file_id));
        i
    }
}

/// The hints of the segment that a compaction writes only move records of
/// the index.
pub proof fn lemma_kept_hints_relocate(cask: CaskView, file_id: u32)
    requires
        can_compact(cask, file_id),
    ensures
        relocates(cask.index, kept_hints(cask, file_id)),
        forall|key: Seq<u8>, j: int| #[trigger]
            is_put_of(kept_hints(cask, file_id), key, j) ==> j < copies(cask, file_id).len(),
{
    let hints = kept_hints(cask, file_id);
    assert forall|j: int| 0 <= j < hints.len() implies is_relocating(
        cask.index,
        #[trigger] hints[j],
    ) by {
        lemma_kept_entry(cask, file_id, j);
    }
    assert forall|key: Seq<u8>, j: int| #[trigger] is_put_of(hints, key, j) implies j < copies(
        cask,
        file_id,
    ).len() by {
        lemma_kept_entry(cask, file_id, j);
    }
}

/// What a compaction in a sound engine leads to.
pub proof fn lemma_compacted(cask: CaskView, file_id: u32)
    requires
        can_compact(cask, file_id),
    ensures
        ({
            let after = cask.compact(file_id).0;
            let next = (cask.log.current_file_id + 1) as u32;
            let segment = written_segment(kept(cask, file_id));
            &&& cask.compact(file_id).1 == Ok::<(), Error>(())
            &&& next == cask.log.current_file_id + 1
            &&& next != file_id
            &&& next != cask.log.active_file_id
            &&& !cask.log.is_segment(next)
            &&& after.last_sequence == cask.last_sequence
            &&& after.index == replay(cask.index, kept_hints(cask, file_id), next)
            &&& after.log.active_file_id == cask.log.active_file_id
            &&& after.log.active == cask.log.active
            &&& after.log.current_file_id == next
            &&& after.log.dir == cask.log.dir.insert(next, segment).remove(file_id)
            &&& after.log.files == sorted_insert(sorted_remove(cask.log.files, file_id), next)
            &&& segment.data == encode_entries(kept(cask, file_id))
            &&& segment.hints() == kept_hints(cask, file_id)
            &&& segment.hint is Some && valid_hint_file(segment.hint.unwrap())
            &&& segment.consistent()
        }),
{
    let segment = written_segment(kept(cask, file_id));
    lemma_compaction_keeps(cask, file_id);
    lemma_valid_written_hint_file(encode_hints(data_hints(segment.data)));
    lemma_consistent_segment_hints(segment);
    assert(cask.log.dir.contains_key(file_id));
    let next = (cask.log.current_file_id + 1) as u32;
    if cask.log.files.contains(next) {
        assert(cask.log.dir.contains_key(next));
    }
}

/// A compaction keeps the engine sound.
pub proof fn lemma_compact_keeps_sound(cask: CaskView, file_id: u32)
    requires
        can_compact(cask, file_id),
        cask.compaction_fits(file_id),
    ensures
        sound(cask.compact(file_id).0),
{
    let after = cask.compact(file_id).0;
    let next = (cask.log.current_file_id + 1) as u32;
    let hints = kept_hints(cask, file_id);
    let all = kept(cask, file_id);
    let segment = written_segment(all);
    let removed = sorted_remove(cask.log.files, file_id);
    lemma_compacted(cask, file_id);
    lemma_compaction_keeps(cask, file_id);
    lemma_kept_hints_relocate(cask, file_id);
    lemma_replay_relocates(cask.index, hints, next);
    lemma_sorted_remove_contains(cask.log.files, file_id);
    lemma_sorted_insert_contains(removed, next);
    lemma_sorted_insert_sorted(removed, next);
    assert(!removed.contains(next)) by {
        if removed.contains(next) {
            assert(cask.log.files.contains(next));
        }
    }
    assert forall|id: u32| #[trigger] after.log.files.contains(id) implies after.log.dir.contains_key(
        id,
    ) by {
        if id != next {
            assert(removed.contains(id));
            assert(cask.log.files.contains(id));
            assert(cask.log.dir.contains_key(id));
        }
    }
    assert forall|id: u32| #[trigger] after.log.dir.contains_key(id) implies after.log.files.contains(
        id,
    ) && is_sealed(after.log.dir[id]) && id <= after.log.current_file_id && id
        != after.log.active_file_id by {
        if id != next {
            assert(cask.log.dir.contains_key(id));
            assert(cask.log.files.contains(id));
            assert(removed.contains(id));
        }
    }
    assert(after.log.wf());
    assert forall|id: u32| after.log.is_segment(id) implies (id == next || (cask.log.is_segment(
        id,
    ) && id != file_id)) by {
        if id != next && id != after.log.active_file_id {
            assert(removed.contains(id));
        }
    }
    assert forall|id: u32| cask.log.is_segment(id) && id != file_id implies after.log.is_segment(
        id,
    ) && after.log.hints_of(id) == cask.log.hints_of(id) by {
        if id != cask.log.active_file_id {
            assert(removed.contains(id));
            assert(cask.log.dir.contains_key(id));
        }
    }
    assert(after.log.is_segment(next));
    assert(after.log.hints_of(next) == hints);
    assert forall|key: Seq<u8>| #[trigger] after.index.contains_key(key) implies is_backed(
        after,
        key,
    ) by {
        assert(cask.index.contains_key(key));
        if has_put_of(hints, key) {
            assert(is_moved(hints, key, after.index[key], next));
            let j = choose|j: int| #[trigger]
                is_put_of(hints, key, j) && after.index[key] == entry_of_hint(hints[j], next);
            assert(hint_at(after.log, after.index[key].file_id, j));
            assert(after.log.hints_of(after.index[key].file_id)[j] == backing_hint(
                key,
                after.index[key],
            ));
            assert(is_backed(after, key));
        } else {
            let entry = cask.index[key];
            if entry.file_id == file_id {
                let j = lemma_pointed_at_is_copied(cask, file_id, key);
                assert(is_put_of(hints, key, j));
            }
            assert(is_backed(cask, key));
            let i = choose|i: int| #[trigger]
                hint_at(cask.log, entry.file_id, i) && cask.log.hints_of(entry.file_id)[i]
                    == backing_hint(key, entry);
            assert(cask.log.is_segment(entry.file_id));
            assert(after.log.is_segment(entry.file_id));
            assert(after.index[key] == entry);
            assert(hint_at(after.log, after.index[key].file_id, i));
            assert(after.log.hints_of(after.index[key].file_id)[i] == backing_hint(
                key,
                after.index[key],
            ));
            assert(is_backed(after, key));
        }
    }
    assert forall|id: u32, i: int| #[trigger] hint_at(after.log, id, i) implies hint_agrees(
        after,
        after.log.hints_of(id)[i],
        id,
    ) by {
        let hint = after.log.hints_of(id)[i];
        if id == next {
            let source = lemma_kept_entry(cask, file_id, i);
            if after.index.contains_key(hint.key) {
                assert(cask.index.contains_key(hint.key));
                assert(is_put_of(hints, hint.key, i));
                assert(is_moved(hints, hint.key, after.index[hint.key], next));
                let j = choose|j: int| #[trigger]
                    is_put_of(hints, hint.key, j) && after.index[hint.key] == entry_of_hint(
                        hints[j],
                        next,
                    );
                assert(j < copies(cask, file_id).len() && i < copies(cask, file_id).len());
                assert(all[j].key == all[i].key);
                lemma_copies_have_distinct_keys(cask, file_id, i, j);
            }
        } else {
            assert(cask.log.is_segment(id) && id != file_id);
            assert(hint_at(cask.log, id, i));
            assert(hint_agrees(cask, hint, id));
            if after.index.contains_key(hint.key) && hint.sequence
                == after.index[hint.key].sequence {
                assert(cask.index.contains_key(hint.key));
                if has_put_of(hints, hint.key) {
                    let j = choose|j: int| #[trigger] is_put_of(hints, hint.key, j);
                    let source = lemma_kept_entry(cask, file_id, j);
                    lemma_live_entry_is_pointed_at(cask, file_id, source);
                }
            }
        }
    }
}

/// Where the hints stand once an entry is appended: every hint where it
/// stood, and the hint of the entry last in the active segment.
pub proof fn lemma_append_hint_positions(cask: CaskView, entry: EntryView)
    requires
        sound(cask),
        entry.wf(),
        cask.log.current_file_id < u32::MAX,
    ensures
        ({
            let log = cask.log;
            let after = cask.log.append(entry);
            let active = after.hints_of(after.active_file_id);
            &&& active.len() > 0
            &&& active.last() == HintView::of_entry(entry, log.append_pos(entry))
            &&& hint_at(after, after.active_file_id, active.len() - 1)
            &&& forall|file_id: u32, i: int| #[trigger]
                hint_at(log, file_id, i) ==> {
                    &&& hint_at(after, file_id, i)
                    &&& after.hints_of(file_id)[i] == log.hints_of(file_id)[i]
                    &&& file_id <= log.current_file_id
                    &&& file_id == after.active_file_id ==> i < active.len() - 1
                }
            &&& forall|file_id: u32, i: int| #[trigger]
                hint_at(after, file_id, i) ==> hint_at(log, file_id, i) || (file_id
                    == after.active_file_id && i == active.len() - 1)
            &&& log.current_file_id <= after.current_file_id
            &&& log.must_roll(entry) ==> after.active_file_id == log.current_file_id + 1
            &&& !log.must_roll(entry) ==> after.active_file_id == log.active_file_id
        }),
{
    let log = cask.log;
    let after = log.append(entry);
    lemma_append_hints(cask, entry);
    assert forall|file_id: u32, i: int| #[trigger] hint_at(log, file_id, i) implies {
        &&& hint_at(after, file_id, i)
        &&& after.hints_of(file_id)[i] == log.hints_of(file_id)[i]
        &&& file_id <= log.current_file_id
    } by {
        assert(log.is_segment(file_id));
        assert(after.is_segment(file_id));
        if file_id != log.active_file_id {
            assert(log.files.contains(file_id));
            assert(log.dir.contains_key(file_id));
        }
    }
    assert forall|file_id: u32, i: int| #[trigger] hint_at(after, file_id, i) implies hint_at(
        log,
        file_id,
        i,
    ) || (file_id == after.active_file_id && i == after.hints_of(after.active_file_id).len()
        - 1) by {
        assert(after.is_segment(file_id));
    }
}

/// Where the hints stand once a segment is compacted: those of the other
/// segments where they stood, and the hints of what was kept in the new
/// segment, which is the last.
pub proof fn lemma_compact_hint_positions(cask: CaskView, file_id: u32)
    requires
        can_compact(cask, file_id),
    ensures
        ({
            let log = cask.log;
            let after = cask.compact(file_id).0.log;
            let next = (log.current_file_id + 1) as u32;
            &&& after.is_segment(next)
            &&& after.hints_of(next) == kept_hints(cask, file_id)
            &&& !after.is_segment(file_id)
            &&& forall|other: u32, i: int| #[trigger]
                hint_at(log, other, i) && other != file_id ==> {
                    &&& hint_at(after, other, i)
                    &&& after.hints_of(other) == log.hints_of(other)
                    &&& other < next
                }
            &&& forall|other: u32, i: int| #[trigger]
                hint_at(after, other, i) && other != next ==> {
                    &&& hint_at(log, other, i)
                    &&& other != file_id
                    &&& after.hints_of(other) == log.hints_of(other)
                    &&& other < next
                }
        }),
{
    let log = cask.log;
    let after = cask.compact(file_id).0.log;
    let next = (log.current_file_id + 1) as u32;
    let removed = sorted_remove(log.files, file_id);
    lemma_compacted(cask, file_id);
    lemma_sorted_remove_contains(log.files, file_id);
    lemma_sorted_insert_contains(removed, next);
    assert(log.dir.contains_key(file_id));
    assert forall|other: u32| log.is_segment(other) && other != file_id implies after.is_segment(
        other,
    ) && after.hints_of(other) == log.hints_of(other) && other < next by {
        if other != log.active_file_id {
            assert(removed.contains(other));
            assert(log.dir.contains_key(other));
        }
    }
    assert forall|other: u32| after.is_segment(other) && other != next implies log.is_segment(
        other,
    ) && other != file_id by {
        if other != after.active_file_id {
            assert(removed.contains(other));
        }
    }
    assert forall|other: u32, i: int| #[trigger] hint_at(log, other, i) && other
        != file_id implies {
        &&& hint_at(after, other, i)
        &&& after.hints_of(other) == log.hints_of(other)
        &&& other < next
    } by {
        assert(log.is_segment(other));
    }
    assert forall|other: u32, i: int| #[trigger] hint_at(after, other, i) && other
        != next implies {
        &&& hint_at(log, other, i)
        &&& other != file_id
        &&& after.hints_of(other) == log.hints_of(other)
        &&& other < next
    } by {
        assert(after.is_segment(other));
        assert(log.is_segment(other) && other != file_id);
    }
}

/// The engine with another size threshold.
pub open spec fn with_threshold(cask: CaskView, size_threshold: u64) -> CaskView {
    CaskView { log: LogView { size_threshold, ..cask.log }, ..cask }
}

/// Setting the size threshold keeps the engine sound.
pub proof fn lemma_threshold_keeps_sound(cask: CaskView, size_threshold: u64)
    requires
        sound(cask),
    ensures
        sound(with_threshold(cask, size_threshold)),
{
    let after = with_threshold(cask, size_threshold);
    assert forall|file_id: u32| #[trigger] after.log.hints_of(file_id) == cask.log.hints_of(
        file_id,
    ) by {}
    assert forall|key: Seq<u8>| #[trigger] after.index.contains_key(key) implies is_backed(
        after,
        key,
    ) by {
        let entry = cask.index[key];
        assert(is_backed(cask, key));
        let i = choose|i: int| #[trigger]
            hint_at(cask.log, entry.file_id, i) && cask.log.hints_of(entry.file_id)[i]
                == backing_hint(key, entry);
        assert(hint_at(after.log, after.index[key].file_id, i));
    }
    assert forall|file_id: u32, i: int| #[trigger] hint_at(after.log, file_id, i) implies hint_agrees(
        after,
        after.log.hints_of(file_id)[i],
        file_id,
    ) by {
        assert(hint_at(cask.log, file_id, i));
    }
}

} // verus!
