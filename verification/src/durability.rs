//! What loading makes of the hints of a directory, key by key: the reason
//! why a store that is closed and opened again answers as before.

use crate::cask::{load_index, load_sequence, opens_to, repaired, CaskView};
use crate::compaction::{covers, is_covered, is_dead, lemma_merged_tombstones};
use crate::data::{EntryView, HintView, MAX_KEY_LEN, MAX_VALUE_LEN};
use crate::directory::is_strictly_sorted;
use crate::index::{
    entry_of_hint, has_put_of, is_moved, is_put_of, lemma_replay_relocates, max_sequence, replay,
    IndexEntry,
};
use crate::log::LogView;
use crate::segment::{
    data_hints, lemma_consistent_segment_hints, lemma_data_hints_positions,
    lemma_valid_written_hint_file, SegmentView,
};
use crate::soundness::{
    backing_hint, can_compact, copies, hint_agrees, hint_at, is_backed, is_sealed, kept_hints,
    lemma_append_hint_positions, lemma_compact_hint_positions, lemma_compact_keeps_sound,
    lemma_compacted, lemma_compaction_keeps, lemma_copies_have_distinct_keys,
    lemma_delete_keeps_sound, lemma_empty_is_sound, lemma_kept_entry, lemma_kept_hints_relocate,
    lemma_live_entry_is_pointed_at, lemma_put_keeps_sound, lemma_sealed_hints,
    lemma_threshold_keeps_sound, remembered, sound, source_data, with_threshold,
};
use vstd::prelude::*;

verus! {

/// Whether the `j`-th of `hints` is about `key`.
pub open spec fn is_hint_of(hints: Seq<HintView>, key: Seq<u8>, j: int) -> bool {
    0 <= j < hints.len() && hints[j].key == key
}

/// Tombstones alone do not bring a key into the index.
pub proof fn lemma_replay_absent(
    index: Map<Seq<u8>, IndexEntry>,
    hints: Seq<HintView>,
    file_id: u32,
    key: Seq<u8>,
)
    requires
        !index.contains_key(key),
        forall|j: int| !#[trigger] is_put_of(hints, key, j),
    ensures
        !replay(index, hints, file_id).contains_key(key),
    decreases hints.len(),
{
    if hints.len() > 0 {
        let front = hints.drop_last();
        assert forall|j: int| !#[trigger] is_put_of(front, key, j) by {
            if 0 <= j < front.len() {
                assert(!is_put_of(hints, key, j));
                assert(front[j] == hints[j]);
            }
        }
        lemma_replay_absent(index, front, file_id, key);
        assert(!is_put_of(hints, key, hints.len() - 1));
    }
}

/// The entry of a key is no newer than the newest put of the key that was
/// applied.
pub proof fn lemma_replay_bound(
    index: Map<Seq<u8>, IndexEntry>,
    hints: Seq<HintView>,
    file_id: u32,
    key: Seq<u8>,
    bound: u64,
)
    requires
        index.contains_key(key) ==> index[key].sequence <= bound,
        forall|j: int| #[trigger] is_put_of(hints, key, j) ==> hints[j].sequence <= bound,
    ensures
        replay(index, hints, file_id).contains_key(key) ==> replay(
            index,
            hints,
            file_id,
        )[key].sequence <= bound,
    decreases hints.len(),
{
    if hints.len() > 0 {
        let front = hints.drop_last();
        assert forall|j: int| #[trigger] is_put_of(front, key, j) implies front[j].sequence <= bound by {
            assert(front[j] == hints[j]);
            assert(is_put_of(hints, key, j));
        }
        lemma_replay_bound(index, front, file_id, key, bound);
        let last = hints.len() - 1;
        if hints[last].key == key && !hints[last].deleted {
            assert(is_put_of(hints, key, last));
        }
    }
}

/// Hints that are all older than the entry of their key leave the entry
/// alone.
pub proof fn lemma_replay_keep(
    index: Map<Seq<u8>, IndexEntry>,
    hints: Seq<HintView>,
    file_id: u32,
    key: Seq<u8>,
)
    requires
        index.contains_key(key),
        forall|j: int| #[trigger] is_hint_of(hints, key, j) ==> hints[j].sequence < index[key].sequence,
    ensures
        replay(index, hints, file_id).contains_key(key),
        replay(index, hints, file_id)[key] == index[key],
    decreases hints.len(),
{
    if hints.len() > 0 {
        let front = hints.drop_last();
        assert forall|j: int| #[trigger] is_hint_of(front, key, j) implies front[j].sequence
            < index[key].sequence by {
            assert(front[j] == hints[j]);
            assert(is_hint_of(hints, key, j));
        }
        lemma_replay_keep(index, front, file_id, key);
        let last = hints.len() - 1;
        if hints[last].key == key {
            assert(is_hint_of(hints, key, last));
        }
    }
}

/// A put that is newer than every other hint of its key, and no older than
/// the entry of the key, is what the index points at in the end.
pub proof fn lemma_replay_win(
    index: Map<Seq<u8>, IndexEntry>,
    hints: Seq<HintView>,
    file_id: u32,
    key: Seq<u8>,
    p: int,
)
    requires
        is_put_of(hints, key, p),
        forall|j: int| #[trigger] is_hint_of(hints, key, j) && j != p ==> hints[j].sequence
            < hints[p].sequence,
        index.contains_key(key) ==> index[key].sequence <= hints[p].sequence,
    ensures
        replay(index, hints, file_id).contains_key(key),
        replay(index, hints, file_id)[key] == entry_of_hint(hints[p], file_id),
    decreases hints.len(),
{
    let front = hints.drop_last();
    let last = hints.len() - 1;
    if p == last {
        assert forall|j: int| #[trigger] is_put_of(front, key, j) implies front[j].sequence
            <= hints[p].sequence by {
            assert(front[j] == hints[j]);
            assert(is_hint_of(hints, key, j));
        }
        lemma_replay_bound(index, front, file_id, key, hints[p].sequence);
    } else {
        assert(front[p] == hints[p]);
        assert forall|j: int| #[trigger] is_hint_of(front, key, j) && j != p implies front[j].sequence
            < front[p].sequence by {
            assert(front[j] == hints[j]);
            assert(is_hint_of(hints, key, j));
        }
        lemma_replay_win(index, front, file_id, key, p);
        if hints[last].key == key {
            assert(is_hint_of(hints, key, last));
        }
    }
}

/// A tombstone that stands behind every put of its key and is no older than
/// any of them, nor than the entry of the key, leaves the key out of the
/// index.
pub proof fn lemma_replay_kill(
    index: Map<Seq<u8>, IndexEntry>,
    hints: Seq<HintView>,
    file_id: u32,
    key: Seq<u8>,
    q: int,
)
    requires
        is_hint_of(hints, key, q),
        hints[q].deleted,
        forall|j: int| #[trigger] is_put_of(hints, key, j) ==> j < q && hints[j].sequence
            <= hints[q].sequence,
        index.contains_key(key) ==> index[key].sequence <= hints[q].sequence,
    ensures
        !replay(index, hints, file_id).contains_key(key),
    decreases hints.len(),
{
    let front = hints.drop_last();
    let last = hints.len() - 1;
    if q == last {
        assert forall|j: int| #[trigger] is_put_of(front, key, j) implies front[j].sequence
            <= hints[q].sequence by {
            assert(front[j] == hints[j]);
            assert(is_put_of(hints, key, j));
        }
        lemma_replay_bound(index, front, file_id, key, hints[q].sequence);
    } else {
        assert(front[q] == hints[q]);
        assert forall|j: int| #[trigger] is_put_of(front, key, j) implies j < q && front[j].sequence
            <= front[q].sequence by {
            assert(front[j] == hints[j]);
            assert(is_put_of(hints, key, j));
        }
        lemma_replay_kill(index, front, file_id, key, q);
        if hints[last].key == key && !hints[last].deleted {
            assert(is_put_of(hints, key, last));
        }
    }
}

/// Whether segment `file_id` is one of `files` and has an `i`-th hint.
pub open spec fn is_loaded(dir: Map<u32, SegmentView>, files: Seq<u32>, file_id: u32, i: int) -> bool {
    files.contains(file_id) && 0 <= i < dir[file_id].hints().len()
}

/// Whether the `i`-th hint of segment `file_id` is a put of `key`.
pub open spec fn is_loaded_put(
    dir: Map<u32, SegmentView>,
    files: Seq<u32>,
    key: Seq<u8>,
    file_id: u32,
    i: int,
) -> bool {
    is_loaded(dir, files, file_id, i) && is_put_of(dir[file_id].hints(), key, i)
}

/// Whether the `i`-th hint of segment `file_id` is about `key`.
pub open spec fn is_loaded_hint(
    dir: Map<u32, SegmentView>,
    files: Seq<u32>,
    key: Seq<u8>,
    file_id: u32,
    i: int,
) -> bool {
    is_loaded(dir, files, file_id, i) && is_hint_of(dir[file_id].hints(), key, i)
}

/// Whether a hint is applied before another when segments are loaded in
/// ascending order.
pub open spec fn is_before(file_id: u32, i: int, other: u32, j: int) -> bool {
    file_id < other || (file_id == other && i < j)
}

/// What is true of the last of a strictly ascending list and the list in
/// front of it.
pub proof fn lemma_last_of_sorted(files: Seq<u32>)
    requires
        is_strictly_sorted(files),
        files.len() > 0,
    ensures
        is_strictly_sorted(files.drop_last()),
        !files.drop_last().contains(files.last()),
        forall|file_id: u32| files.drop_last().contains(file_id) ==> file_id < files.last(),
        forall|file_id: u32|
            files.contains(file_id) <==> (files.drop_last().contains(file_id) || file_id
                == files.last()),
{
    let front = files.drop_last();
    let last = files.len() - 1;
    assert forall|file_id: u32| front.contains(file_id) implies file_id < files.last() by {
        let i = choose|i: int| 0 <= i < front.len() && front[i] == file_id;
        assert(files[i] < files[last]);
    }
    assert forall|file_id: u32| files.contains(file_id) <==> (front.contains(file_id) || file_id
        == files.last()) by {
        if files.contains(file_id) {
            let i = choose|i: int| 0 <= i < files.len() && files[i] == file_id;
            if i < last {
                assert(front[i] == file_id);
            }
        }
        if front.contains(file_id) {
            let i = choose|i: int| 0 <= i < front.len() && front[i] == file_id;
            assert(files[i] == file_id);
        }
        assert(files[last] == files.last());
    }
}

/// Loading leaves a key out of the index if no segment has a put of it.
pub proof fn lemma_load_absent(dir: Map<u32, SegmentView>, files: Seq<u32>, key: Seq<u8>)
    requires
        is_strictly_sorted(files),
        forall|file_id: u32, i: int| !#[trigger] is_loaded_put(dir, files, key, file_id, i),
    ensures
        !load_index(dir, files).contains_key(key),
    decreases files.len(),
{
    if files.len() > 0 {
        let front = files.drop_last();
        let last = files.last();
        lemma_last_of_sorted(files);
        assert forall|file_id: u32, i: int| !#[trigger] is_loaded_put(dir, front, key, file_id, i) by {
            assert(!is_loaded_put(dir, files, key, file_id, i));
        }
        lemma_load_absent(dir, front, key);
        assert forall|j: int| !#[trigger] is_put_of(dir[last].hints(), key, j) by {
            assert(!is_loaded_put(dir, files, key, last, j));
        }
        lemma_replay_absent(load_index(dir, front), dir[last].hints(), last, key);
    }
}

/// The entry that loading leaves for a key is no newer than the newest put
/// of the key.
pub proof fn lemma_load_bound(dir: Map<u32, SegmentView>, files: Seq<u32>, key: Seq<u8>, bound: u64)
    requires
        is_strictly_sorted(files),
        forall|file_id: u32, i: int|
            #[trigger] is_loaded_put(dir, files, key, file_id, i) ==> dir[file_id].hints()[i].sequence
                <= bound,
    ensures
        load_index(dir, files).contains_key(key) ==> load_index(dir, files)[key].sequence
            <= bound,
    decreases files.len(),
{
    if files.len() > 0 {
        let front = files.drop_last();
        let last = files.last();
        lemma_last_of_sorted(files);
        assert forall|file_id: u32, i: int|
            #[trigger] is_loaded_put(dir, front, key, file_id, i) implies dir[file_id].hints()[i].sequence
            <= bound by {
            assert(is_loaded_put(dir, files, key, file_id, i));
        }
        lemma_load_bound(dir, front, key, bound);
        assert forall|j: int| #[trigger] is_put_of(dir[last].hints(), key, j) implies dir[last].hints()[j].sequence
            <= bound by {
            assert(is_loaded_put(dir, files, key, last, j));
        }
        lemma_replay_bound(load_index(dir, front), dir[last].hints(), last, key, bound);
    }
}

/// Loading points the index at the put of a key that is newer than every
/// other hint of the key.
pub proof fn lemma_load_win(
    dir: Map<u32, SegmentView>,
    files: Seq<u32>,
    key: Seq<u8>,
    file_id: u32,
    p: int,
)
    requires
        is_strictly_sorted(files),
        is_loaded_put(dir, files, key, file_id, p),
        forall|other: u32, j: int|
            #[trigger] is_loaded_hint(dir, files, key, other, j) && !(other == file_id && j == p)
                ==> dir[other].hints()[j].sequence < dir[file_id].hints()[p].sequence,
    ensures
        load_index(dir, files).contains_key(key),
        load_index(dir, files)[key] == entry_of_hint(dir[file_id].hints()[p], file_id),
    decreases files.len(),
{
    let front = files.drop_last();
    let last = files.last();
    let newest = dir[file_id].hints()[p];
    lemma_last_of_sorted(files);
    if last == file_id {
        assert forall|other: u32, j: int|
            #[trigger] is_loaded_put(dir, front, key, other, j) implies dir[other].hints()[j].sequence
            <= newest.sequence by {
            assert(is_loaded_hint(dir, files, key, other, j));
        }
        lemma_load_bound(dir, front, key, newest.sequence);
        assert forall|j: int| #[trigger] is_hint_of(dir[last].hints(), key, j) && j != p implies dir[last].hints()[j].sequence
            < newest.sequence by {
            assert(is_loaded_hint(dir, files, key, last, j));
        }
        lemma_replay_win(load_index(dir, front), dir[last].hints(), last, key, p);
    } else {
        assert(is_loaded_put(dir, front, key, file_id, p));
        assert forall|other: u32, j: int|
            #[trigger] is_loaded_hint(dir, front, key, other, j) && !(other == file_id && j == p) implies dir[other].hints()[j].sequence
            < newest.sequence by {
            assert(is_loaded_hint(dir, files, key, other, j));
        }
        lemma_load_win(dir, front, key, file_id, p);
        assert forall|j: int| #[trigger] is_hint_of(dir[last].hints(), key, j) implies dir[last].hints()[j].sequence
            < load_index(dir, front)[key].sequence by {
            assert(is_loaded_hint(dir, files, key, last, j));
        }
        lemma_replay_keep(load_index(dir, front), dir[last].hints(), last, key);
    }
}

/// Loading leaves a key out of the index if a tombstone of the key stands
/// behind every put of the key and is no older than any of them.
pub proof fn lemma_load_kill(
    dir: Map<u32, SegmentView>,
    files: Seq<u32>,
    key: Seq<u8>,
    file_id: u32,
    q: int,
)
    requires
        is_strictly_sorted(files),
        is_loaded_hint(dir, files, key, file_id, q),
        dir[file_id].hints()[q].deleted,
        forall|other: u32, j: int|
            #[trigger] is_loaded_put(dir, files, key, other, j) ==> is_before(other, j, file_id, q)
                && dir[other].hints()[j].sequence <= dir[file_id].hints()[q].sequence,
    ensures
        !load_index(dir, files).contains_key(key),
    decreases files.len(),
{
    let front = files.drop_last();
    let last = files.last();
    let grave = dir[file_id].hints()[q];
    lemma_last_of_sorted(files);
    if last == file_id {
        assert forall|other: u32, j: int|
            #[trigger] is_loaded_put(dir, front, key, other, j) implies dir[other].hints()[j].sequence
            <= grave.sequence by {
            assert(is_loaded_put(dir, files, key, other, j));
        }
        lemma_load_bound(dir, front, key, grave.sequence);
        assert forall|j: int| #[trigger] is_put_of(dir[last].hints(), key, j) implies j < q && dir[last].hints()[j].sequence
            <= grave.sequence by {
            assert(is_loaded_put(dir, files, key, last, j));
        }
        lemma_replay_kill(load_index(dir, front), dir[last].hints(), last, key, q);
    } else {
        assert(is_loaded_hint(dir, front, key, file_id, q));
        assert forall|other: u32, j: int|
            #[trigger] is_loaded_put(dir, front, key, other, j) implies is_before(other, j, file_id, q)
            && dir[other].hints()[j].sequence <= grave.sequence by {
            assert(is_loaded_put(dir, files, key, other, j));
        }
        lemma_load_kill(dir, front, key, file_id, q);
        assert forall|j: int| !#[trigger] is_put_of(dir[last].hints(), key, j) by {
            if is_put_of(dir[last].hints(), key, j) {
                assert(is_loaded_put(dir, files, key, last, j));
                assert(is_before(last, j, file_id, q));
            }
        }
        lemma_replay_absent(load_index(dir, front), dir[last].hints(), last, key);
    }
}

/// The greatest sequence number is no less than where it started and than
/// any of the hints, and is one of these.
pub proof fn lemma_max_sequence(start: u64, hints: Seq<HintView>)
    ensures
        max_sequence(start, hints) >= start,
        forall|j: int| 0 <= j < hints.len() ==> (#[trigger] hints[j]).sequence <= max_sequence(
            start,
            hints,
        ),
        max_sequence(start, hints) == start || exists|j: int|
            0 <= j < hints.len() && (#[trigger] hints[j]).sequence == max_sequence(start, hints),
    decreases hints.len(),
{
    if hints.len() > 0 {
        let front = hints.drop_last();
        let last = hints.len() - 1;
        lemma_max_sequence(start, front);
        assert forall|j: int| 0 <= j < hints.len() implies (#[trigger] hints[j]).sequence
            <= max_sequence(start, hints) by {
            if j < last {
                assert(front[j] == hints[j]);
            }
        }
        if max_sequence(start, hints) != start {
            if max_sequence(start, hints) == hints[last].sequence {
            } else {
                let j = choose|j: int|
                    0 <= j < front.len() && (#[trigger] front[j]).sequence == max_sequence(
                        start,
                        front,
                    );
                assert(hints[j] == front[j]);
            }
        }
    }
}

/// The sequence number that loading ends with is no less than that of any
/// hint, and is that of a hint unless it is 0.
pub proof fn lemma_load_sequence(dir: Map<u32, SegmentView>, files: Seq<u32>)
    requires
        is_strictly_sorted(files),
    ensures
        forall|file_id: u32, i: int| #[trigger]
            is_loaded(dir, files, file_id, i) ==> dir[file_id].hints()[i].sequence
                <= load_sequence(dir, files),
        load_sequence(dir, files) == 0 || exists|file_id: u32, i: int| #[trigger]
            is_loaded(dir, files, file_id, i) && dir[file_id].hints()[i].sequence
                == load_sequence(dir, files),
    decreases files.len(),
{
    if files.len() > 0 {
        let front = files.drop_last();
        let last = files.last();
        let start = load_sequence(dir, front);
        let hints = dir[last].hints();
        lemma_last_of_sorted(files);
        lemma_load_sequence(dir, front);
        lemma_max_sequence(start, hints);
        assert forall|file_id: u32, i: int| #[trigger]
            is_loaded(dir, files, file_id, i) implies dir[file_id].hints()[i].sequence
            <= load_sequence(dir, files) by {
            if file_id != last {
                assert(is_loaded(dir, front, file_id, i));
            }
        }
        if load_sequence(dir, files) != 0 {
            if load_sequence(dir, files) == start {
                let (file_id, i) = choose|file_id: u32, i: int| #[trigger]
                    is_loaded(dir, front, file_id, i) && dir[file_id].hints()[i].sequence
                        == start;
                assert(is_loaded(dir, files, file_id, i));
            } else {
                let j = choose|j: int|
                    0 <= j < hints.len() && (#[trigger] hints[j]).sequence == max_sequence(
                        start,
                        hints,
                    );
                assert(is_loaded(dir, files, last, j));
            }
        }
    }
}

/// Whether the `i`-th hint of segment `file_id` is a put of `key`.
pub open spec fn is_put_at(log: LogView, key: Seq<u8>, file_id: u32, i: int) -> bool {
    hint_at(log, file_id, i) && is_put_of(log.hints_of(file_id), key, i)
}

/// Whether the `q`-th hint of segment `file_id` is a tombstone of `key`
/// that stands behind every put of the key and is no older than any.
pub open spec fn is_grave(log: LogView, key: Seq<u8>, file_id: u32, q: int) -> bool {
    &&& hint_at(log, file_id, q)
    &&& log.hints_of(file_id)[q].key == key
    &&& log.hints_of(file_id)[q].deleted
    &&& forall|other: u32, j: int| #[trigger]
        is_put_at(log, key, other, j) ==> is_before(other, j, file_id, q) && log.hints_of(
            other,
        )[j].sequence <= log.hints_of(file_id)[q].sequence
}

/// Whether loading would leave `key` out of the index: it has no put, or
/// it has a tombstone behind all its puts that is no older than any.
pub open spec fn is_buried(log: LogView, key: Seq<u8>) -> bool {
    (forall|file_id: u32, i: int| !#[trigger] is_put_at(log, key, file_id, i)) || exists|
        file_id: u32,
        q: int,
    | #[trigger] is_grave(log, key, file_id, q)
}

/// Whether the `i`-th hint of segment `file_id` has the greatest sequence
/// number given, and is a put that the index points at or a tombstone of a
/// key that the index lacks.
pub open spec fn is_newest(cask: CaskView, file_id: u32, i: int) -> bool {
    let hint = cask.log.hints_of(file_id)[i];
    &&& hint_at(cask.log, file_id, i)
    &&& hint.sequence == cask.last_sequence
    &&& if hint.deleted {
        !cask.index.contains_key(hint.key)
    } else {
        cask.index.contains_key(hint.key) && cask.index[hint.key] == entry_of_hint(hint, file_id)
    }
}

/// Whether the sequence counter stands at the sequence number of a record:
/// at that of the newest, or at 0 if there is no record.
pub open spec fn has_newest(cask: CaskView) -> bool {
    (cask.last_sequence == 0 && forall|file_id: u32, i: int| !#[trigger] hint_at(
        cask.log,
        file_id,
        i,
    )) || exists|file_id: u32, i: int| #[trigger] is_newest(cask, file_id, i)
}

/// The invariant under which a store answers as before once it is closed
/// and opened again: it is sound, loading would leave out every key that
/// the index lacks, and the sequence counter stands at the newest record.
pub open spec fn durable(cask: CaskView) -> bool {
    &&& sound(cask)
    &&& has_newest(cask)
    &&& forall|key: Seq<u8>| !cask.index.contains_key(key) ==> #[trigger] is_buried(cask.log, key)
}

/// What the directory of a sound engine holds once the engine is closed,
/// and what `open` makes of its segments.
pub proof fn lemma_closed_directory(cask: CaskView, reopened: CaskView)
    requires
        sound(cask),
        opens_to(cask.log.closed(), reopened),
    ensures
        reopened.log.dir == cask.log.closed(),
        forall|file_id: u32| #[trigger]
            reopened.log.files.contains(file_id) <==> cask.log.is_segment(file_id),
        forall|file_id: u32| #[trigger]
            cask.log.is_segment(file_id) ==> {
                &&& file_id < reopened.log.active_file_id
                &&& cask.log.closed().contains_key(file_id)
                &&& is_sealed(cask.log.closed()[file_id])
                &&& cask.log.closed()[file_id].hints() == cask.log.hints_of(file_id)
                &&& Some(cask.log.closed()[file_id].data) == cask.log.data_of(file_id)
                &&& reopened.log.hints_of(file_id) == cask.log.hints_of(file_id)
                &&& reopened.log.data_of(file_id) == cask.log.data_of(file_id)
            },
        data_hints(reopened.log.active.data) == Seq::<HintView>::empty(),
        forall|file_id: u32, i: int| #[trigger]
            hint_at(reopened.log, file_id, i) <==> hint_at(cask.log, file_id, i),
        forall|file_id: u32, i: int| #[trigger]
            is_loaded(cask.log.closed(), reopened.log.files, file_id, i) <==> hint_at(
                cask.log,
                file_id,
                i,
            ),
{
    let log = cask.log;
    let dir = log.closed();
    let files = reopened.log.files;
    let sealed = log.sealed_active();
    lemma_valid_written_hint_file(log.active.hints);
    assert(is_sealed(sealed));
    lemma_consistent_segment_hints(sealed);
    assert forall|file_id: u32| #[trigger] files.contains(file_id) <==> log.is_segment(
        file_id,
    ) by {
        if files.contains(file_id) {
            assert(dir.contains_key(file_id));
            if file_id != log.active_file_id {
                assert(log.dir.contains_key(file_id));
                assert(log.files.contains(file_id));
            }
        }
        if log.is_segment(file_id) {
            if file_id != log.active_file_id {
                assert(log.files.contains(file_id));
                assert(log.dir.contains_key(file_id));
            }
            assert(dir.contains_key(file_id));
            assert(files.contains(file_id));
        }
    }
    assert forall|file_id: u32| #[trigger] files.contains(file_id) implies file_id
        < reopened.log.active_file_id by {
        let i = choose|i: int| 0 <= i < files.len() && files[i] == file_id;
        if i < files.len() - 1 {
            assert(files[i] < files[files.len() - 1]);
        }
    }
    assert forall|file_id: u32| #[trigger] log.is_segment(file_id) implies {
        &&& file_id < reopened.log.active_file_id
        &&& dir.contains_key(file_id)
        &&& is_sealed(dir[file_id])
        &&& dir[file_id].hints() == log.hints_of(file_id)
        &&& Some(dir[file_id].data) == log.data_of(file_id)
    } by {
        assert(files.contains(file_id));
        if file_id != log.active_file_id {
            assert(log.files.contains(file_id));
            assert(log.dir.contains_key(file_id));
        }
    }
    assert(reopened.log.dir =~= dir) by {
        assert forall|file_id: u32| dir.contains_key(file_id) implies #[trigger] repaired(
            dir,
            files,
        )[file_id] == dir[file_id] by {
            assert(files.contains(file_id));
            assert(log.is_segment(file_id));
        }
    }
    assert(data_hints(Seq::<u8>::empty()) =~= Seq::<HintView>::empty()) by {
        assert(crate::segment::parse_entries(Seq::<u8>::empty()) =~= Seq::<
            crate::data::EntryView,
        >::empty());
    }
    assert forall|file_id: u32, i: int| #[trigger]
        hint_at(reopened.log, file_id, i) <==> hint_at(log, file_id, i) by {
        if log.is_segment(file_id) {
            assert(files.contains(file_id));
        }
        if reopened.log.is_segment(file_id) && file_id != reopened.log.active_file_id {
            assert(files.contains(file_id));
            assert(log.is_segment(file_id));
        }
    }
    assert forall|file_id: u32, i: int| #[trigger]
        is_loaded(dir, files, file_id, i) <==> hint_at(log, file_id, i) by {
        if log.is_segment(file_id) {
            assert(files.contains(file_id));
        }
        if files.contains(file_id) {
            assert(log.is_segment(file_id));
        }
    }
}

/// Loading the directory of a closed durable engine builds its index.
pub proof fn lemma_reopen_builds_index(cask: CaskView, reopened: CaskView, key: Seq<u8>)
    requires
        durable(cask),
        opens_to(cask.log.closed(), reopened),
    ensures
        reopened.index.contains_key(key) == cask.index.contains_key(key),
        cask.index.contains_key(key) ==> reopened.index[key] == cask.index[key],
{
    let log = cask.log;
    let dir = log.closed();
    let files = reopened.log.files;
    lemma_closed_directory(cask, reopened);
    if cask.index.contains_key(key) {
        let entry = cask.index[key];
        let file_id = entry.file_id;
        assert(is_backed(cask, key));
        let p = choose|p: int| #[trigger]
            hint_at(log, file_id, p) && log.hints_of(file_id)[p] == backing_hint(key, entry);
        assert(log.is_segment(file_id));
        assert(is_loaded(dir, files, file_id, p));
        assert(is_loaded_put(dir, files, key, file_id, p));
        lemma_sealed_hints(cask, file_id);
        assert forall|other: u32, j: int| #[trigger]
            is_loaded_hint(dir, files, key, other, j) && !(other == file_id && j == p) implies dir[other].hints()[j].sequence
            < dir[file_id].hints()[p].sequence by {
            assert(is_loaded(dir, files, other, j));
            assert(hint_at(log, other, j));
            assert(log.is_segment(other));
            let hint = log.hints_of(other)[j];
            assert(hint_agrees(cask, hint, other));
            if hint.sequence == entry.sequence {
                lemma_data_hints_positions(log.data_of(file_id).unwrap(), j, p);
            }
        }
        lemma_load_win(dir, files, key, file_id, p);
    } else {
        assert(is_buried(log, key));
        if forall|file_id: u32, i: int| !#[trigger] is_put_at(log, key, file_id, i) {
            assert forall|file_id: u32, i: int| !#[trigger] is_loaded_put(
                dir,
                files,
                key,
                file_id,
                i,
            ) by {
                if is_loaded_put(dir, files, key, file_id, i) {
                    assert(is_loaded(dir, files, file_id, i));
                    assert(hint_at(log, file_id, i));
                    assert(log.is_segment(file_id));
                    assert(is_put_at(log, key, file_id, i));
                }
            }
            lemma_load_absent(dir, files, key);
        } else {
            let (file_id, q) = choose|file_id: u32, q: int| #[trigger]
                is_grave(log, key, file_id, q);
            assert(log.is_segment(file_id));
            assert(is_loaded(dir, files, file_id, q));
            assert(is_loaded_hint(dir, files, key, file_id, q));
            assert forall|other: u32, j: int| #[trigger]
                is_loaded_put(dir, files, key, other, j) implies is_before(other, j, file_id, q)
                && dir[other].hints()[j].sequence <= dir[file_id].hints()[q].sequence by {
                assert(is_loaded(dir, files, other, j));
                assert(hint_at(log, other, j));
                assert(log.is_segment(other));
                assert(is_put_at(log, key, other, j));
            }
            lemma_load_kill(dir, files, key, file_id, q);
        }
    }
}

/// Loading the directory of a closed durable engine ends at its sequence
/// counter.
pub proof fn lemma_reopen_finds_sequence(cask: CaskView, reopened: CaskView)
    requires
        durable(cask),
        opens_to(cask.log.closed(), reopened),
    ensures
        reopened.last_sequence == cask.last_sequence,
{
    let log = cask.log;
    let dir = log.closed();
    let files = reopened.log.files;
    lemma_closed_directory(cask, reopened);
    lemma_load_sequence(dir, files);
    let loaded = load_sequence(dir, files);
    if loaded != 0 {
        let (file_id, i) = choose|file_id: u32, i: int| #[trigger]
            is_loaded(dir, files, file_id, i) && dir[file_id].hints()[i].sequence == loaded;
        assert(hint_at(log, file_id, i));
        assert(log.is_segment(file_id));
        assert(hint_agrees(cask, log.hints_of(file_id)[i], file_id));
    }
    if exists|file_id: u32, i: int| #[trigger] is_newest(cask, file_id, i) {
        let (file_id, i) = choose|file_id: u32, i: int| #[trigger] is_newest(cask, file_id, i);
        assert(hint_at(log, file_id, i));
        assert(log.is_segment(file_id));
        assert(is_loaded(dir, files, file_id, i));
    }
}

/// An engine that has no segment but an empty active one, an empty index
/// and the sequence counter at 0 is durable: so is the engine that `open`
/// makes of an empty directory.
pub proof fn lemma_empty_is_durable(cask: CaskView)
    requires
        cask.log.wf(),
        cask.log.files == Seq::<u32>::empty(),
        cask.log.dir == Map::<u32, SegmentView>::empty(),
        cask.log.active.data == Seq::<u8>::empty(),
        cask.index == Map::<Seq<u8>, IndexEntry>::empty(),
        cask.last_sequence == 0,
    ensures
        durable(cask),
{
    lemma_empty_is_sound(cask);
    assert(data_hints(Seq::<u8>::empty()) =~= Seq::<HintView>::empty()) by {
        assert(crate::segment::parse_entries(Seq::<u8>::empty()) =~= Seq::<EntryView>::empty());
    }
    assert forall|file_id: u32, i: int| !#[trigger] hint_at(cask.log, file_id, i) by {}
    assert forall|key: Seq<u8>| !cask.index.contains_key(key) implies #[trigger] is_buried(
        cask.log,
        key,
    ) by {
        assert forall|file_id: u32, i: int| !#[trigger] is_put_at(cask.log, key, file_id, i) by {
            assert(!hint_at(cask.log, file_id, i));
        }
    }
}

/// Appending a hint that is no put of `key` leaves `key` buried.
proof fn lemma_append_keeps_buried(cask: CaskView, entry: EntryView, key: Seq<u8>)
    requires
        sound(cask),
        entry.wf(),
        cask.log.current_file_id < u32::MAX,
        is_buried(cask.log, key),
        entry.key != key || entry.deleted,
    ensures
        is_buried(cask.log.append(entry), key),
{
    let log = cask.log;
    let after = log.append(entry);
    let active = after.hints_of(after.active_file_id);
    lemma_append_hint_positions(cask, entry);
    assert forall|file_id: u32, i: int| #[trigger]
        is_put_at(after, key, file_id, i) implies is_put_at(log, key, file_id, i) by {
        assert(hint_at(after, file_id, i));
        if !hint_at(log, file_id, i) {
            assert(after.hints_of(file_id)[i] == active.last());
        }
    }
    if forall|file_id: u32, i: int| !#[trigger] is_put_at(log, key, file_id, i) {
    } else {
        let (file_id, q) = choose|file_id: u32, q: int| #[trigger] is_grave(log, key, file_id, q);
        assert(hint_at(log, file_id, q));
        assert forall|other: u32, j: int| #[trigger]
            is_put_at(after, key, other, j) implies is_before(other, j, file_id, q)
            && after.hints_of(other)[j].sequence <= after.hints_of(file_id)[q].sequence by {
            assert(is_put_at(log, key, other, j));
            assert(hint_at(log, other, j));
        }
        assert(is_grave(after, key, file_id, q));
    }
}

/// `put` keeps the engine durable.
pub proof fn lemma_put_keeps_durable(cask: CaskView, key: Seq<u8>, value: Seq<u8>)
    requires
        durable(cask),
        cask.has_room(),
        key.len() <= MAX_KEY_LEN,
        value.len() <= MAX_VALUE_LEN,
    ensures
        durable(cask.put(key, value)),
{
    let entry = cask.put_entry(key, value);
    let after = cask.put(key, value);
    let active = after.log.hints_of(after.log.active_file_id);
    lemma_put_keeps_sound(cask, key, value);
    lemma_append_hint_positions(cask, entry);
    assert(is_newest(after, after.log.active_file_id, active.len() - 1));
    assert forall|other: Seq<u8>| !after.index.contains_key(other) implies #[trigger] is_buried(
        after.log,
        other,
    ) by {
        assert(!cask.index.contains_key(other));
        assert(is_buried(cask.log, other));
        lemma_append_keeps_buried(cask, entry, other);
    }
}

/// Whether a `delete` of `key` would be undone by loading: not if every
/// put of the key lies in a segment that is no later than the one that the
/// tombstone is written to.
pub open spec fn is_durable_delete(cask: CaskView, key: Seq<u8>) -> bool {
    forall|file_id: u32, i: int| #[trigger]
        is_put_at(cask.log, key, file_id, i) ==> file_id <= cask.log.append(
            cask.tombstone(key),
        ).active_file_id
}

/// `delete` keeps the engine durable, if no put of the key lies in a
/// segment behind the one that the tombstone is written to.
pub proof fn lemma_delete_keeps_durable(cask: CaskView, key: Seq<u8>)
    requires
        durable(cask),
        cask.has_room(),
        key.len() <= MAX_KEY_LEN,
        is_durable_delete(cask, key),
    ensures
        durable(cask.delete(key)),
{
    if cask.index.contains_key(key) {
        let entry = cask.tombstone(key);
        let log = cask.log;
        let after = cask.delete(key);
        let active = after.log.hints_of(after.log.active_file_id);
        let last = active.len() - 1;
        lemma_delete_keeps_sound(cask, key);
        lemma_append_hint_positions(cask, entry);
        assert(is_newest(after, after.log.active_file_id, last));
        assert forall|other: Seq<u8>| !after.index.contains_key(other) implies #[trigger] is_buried(
            after.log,
            other,
        ) by {
            if other == key {
                assert forall|file_id: u32, j: int| #[trigger]
                    is_put_at(after.log, key, file_id, j) implies is_before(
                    file_id,
                    j,
                    after.log.active_file_id,
                    last,
                ) && after.log.hints_of(file_id)[j].sequence <= active[last].sequence by {
                    assert(hint_at(after.log, file_id, j));
                    assert(hint_at(log, file_id, j));
                    assert(is_put_at(log, key, file_id, j));
                    assert(hint_agrees(cask, log.hints_of(file_id)[j], file_id));
                }
                assert(is_grave(after.log, key, after.log.active_file_id, last));
            } else {
                assert(!cask.index.contains_key(other));
                assert(is_buried(log, other));
                lemma_append_keeps_buried(cask, entry, other);
            }
        }
    }
}

/// After a compaction the sequence counter still stands at the newest
/// record.
proof fn lemma_compact_keeps_newest(cask: CaskView, file_id: u32)
    requires
        durable(cask),
        can_compact(cask, file_id),
    ensures
        has_newest(cask.compact(file_id).0),
{
    let log = cask.log;
    let after = cask.compact(file_id).0;
    let next = (log.current_file_id + 1) as u32;
    let hints = kept_hints(cask, file_id);
    let source = data_hints(source_data(cask, file_id));
    let live = copies(cask, file_id);
    let tombstones = remembered(cask, file_id);
    lemma_compacted(cask, file_id);
    lemma_compaction_keeps(cask, file_id);
    lemma_compact_hint_positions(cask, file_id);
    lemma_kept_hints_relocate(cask, file_id);
    lemma_replay_relocates(cask.index, hints, next);
    lemma_merged_tombstones(cask.index, source);

    if exists|other: u32, i: int| #[trigger] is_newest(cask, other, i) {
        let (other, i) = choose|other: u32, i: int| #[trigger] is_newest(cask, other, i);
        let hint = log.hints_of(other)[i];
        assert(hint_at(log, other, i));
        if other != file_id {
            if !hint.deleted && has_put_of(hints, hint.key) {
                let j = choose|j: int| #[trigger] is_put_of(hints, hint.key, j);
                let from = lemma_kept_entry(cask, file_id, j);
                lemma_live_entry_is_pointed_at(cask, file_id, from);
            }
            assert(is_newest(after, other, i));
        } else if hint.deleted {
            assert(is_dead(cask.index, source[i]));
            assert(is_covered(tombstones, hint.key, hint.sequence));
            let m = choose|m: int| #[trigger] covers(tombstones, hint.key, hint.sequence, m);
            let at = live.len() + m;
            lemma_kept_entry(cask, file_id, at);
            assert(hints[at].key == hint.key);
            assert(hint_at(after.log, next, at));
            assert(is_newest(after, next, at));
        } else {
            let from = crate::soundness::lemma_pointed_at_is_copied(cask, file_id, hint.key);
            assert(is_put_of(hints, hint.key, from));
            assert(is_moved(hints, hint.key, after.index[hint.key], next));
            let j = choose|j: int| #[trigger]
                is_put_of(hints, hint.key, j) && after.index[hint.key] == entry_of_hint(
                    hints[j],
                    next,
                );
            lemma_copies_have_distinct_keys(cask, file_id, from, j);
            lemma_kept_entry(cask, file_id, j);
            assert(hints[j].sequence == cask.index[hint.key].sequence);
            assert(hint_at(after.log, next, j));
            assert(is_newest(after, next, j));
        }
    } else {
        assert forall|other: u32, i: int| !#[trigger] hint_at(after.log, other, i) by {
            if hint_at(after.log, other, i) {
                if other == next {
                    let from = lemma_kept_entry(cask, file_id, i);
                    if i < live.len() {
                        assert(hint_at(log, file_id, from));
                    } else {
                        let t = tombstones[i - live.len()];
                        assert(crate::compaction::has_origin(cask.index, source, t));
                        let o = choose|o: int| #[trigger]
                            crate::compaction::is_origin(cask.index, source, t, o);
                        assert(hint_at(log, file_id, o));
                    }
                } else {
                    assert(hint_at(log, other, i));
                }
            }
        }
    }
}

/// After a compaction a key that the index lacks is still buried.
proof fn lemma_compact_keeps_buried(cask: CaskView, file_id: u32, key: Seq<u8>)
    requires
        durable(cask),
        can_compact(cask, file_id),
        !cask.index.contains_key(key),
    ensures
        is_buried(cask.compact(file_id).0.log, key),
{
    let log = cask.log;
    let after = cask.compact(file_id).0;
    let next = (log.current_file_id + 1) as u32;
    let hints = kept_hints(cask, file_id);
    let source = data_hints(source_data(cask, file_id));
    let live = copies(cask, file_id);
    let tombstones = remembered(cask, file_id);
    lemma_compacted(cask, file_id);
    lemma_compaction_keeps(cask, file_id);
    lemma_compact_hint_positions(cask, file_id);
    lemma_kept_hints_relocate(cask, file_id);
    lemma_replay_relocates(cask.index, hints, next);
    lemma_merged_tombstones(cask.index, source);

    assert(!cask.index.contains_key(key));
    assert(is_buried(log, key));
    assert forall|other: u32, j: int| #[trigger]
        is_put_at(after.log, key, other, j) implies is_put_at(log, key, other, j) && other
        != file_id && other < next && after.log.hints_of(other) == log.hints_of(other) by {
        assert(hint_at(after.log, other, j));
        if other == next {
            assert(is_put_of(hints, key, j));
            lemma_kept_entry(cask, file_id, j);
        }
    }
    if forall|other: u32, i: int| !#[trigger] is_put_at(log, key, other, i) {
    } else {
        let (grave, q) = choose|grave: u32, q: int| #[trigger] is_grave(log, key, grave, q);
        assert(hint_at(log, grave, q));
        if grave != file_id {
            assert(hint_at(after.log, grave, q));
            assert forall|other: u32, j: int| #[trigger]
                is_put_at(after.log, key, other, j) implies is_before(other, j, grave, q)
                && after.log.hints_of(other)[j].sequence <= after.log.hints_of(
                grave,
            )[q].sequence by {
                assert(is_put_at(log, key, other, j));
            }
            assert(is_grave(after.log, key, grave, q));
        } else {
            let buried = source[q];
            assert(is_dead(cask.index, buried));
            assert(is_covered(tombstones, key, buried.sequence));
            let m = choose|m: int| #[trigger] covers(tombstones, key, buried.sequence, m);
            let at = live.len() + m;
            lemma_kept_entry(cask, file_id, at);
            assert(hints[at].key == key && hints[at].deleted);
            assert(hints[at].sequence >= buried.sequence);
            assert(hint_at(after.log, next, at));
            assert forall|other: u32, j: int| #[trigger]
                is_put_at(after.log, key, other, j) implies is_before(other, j, next, at)
                && after.log.hints_of(other)[j].sequence <= after.log.hints_of(
                next,
            )[at].sequence by {
                assert(is_put_at(log, key, other, j));
            }
            assert(is_grave(after.log, key, next, at));
        }
    }
}

/// A compaction keeps the engine durable.
pub proof fn lemma_compact_keeps_durable(cask: CaskView, file_id: u32)
    requires
        durable(cask),
        can_compact(cask, file_id),
        cask.compaction_fits(file_id),
    ensures
        durable(cask.compact(file_id).0),
{
    let after = cask.compact(file_id).0;
    let next = (cask.log.current_file_id + 1) as u32;
    lemma_compact_keeps_sound(cask, file_id);
    lemma_compact_keeps_newest(cask, file_id);
    lemma_compacted(cask, file_id);
    lemma_kept_hints_relocate(cask, file_id);
    lemma_replay_relocates(cask.index, kept_hints(cask, file_id), next);
    assert forall|key: Seq<u8>| !after.index.contains_key(key) implies #[trigger] is_buried(
        after.log,
        key,
    ) by {
        lemma_compact_keeps_buried(cask, file_id, key);
    }
}

/// Setting the size threshold keeps the engine durable.
pub proof fn lemma_threshold_keeps_durable(cask: CaskView, size_threshold: u64)
    requires
        durable(cask),
    ensures
        durable(with_threshold(cask, size_threshold)),
{
    let after = with_threshold(cask, size_threshold);
    lemma_threshold_keeps_sound(cask, size_threshold);
    assert forall|file_id: u32, i: int| #[trigger]
        hint_at(after.log, file_id, i) == hint_at(cask.log, file_id, i) by {}
    assert forall|key: Seq<u8>, file_id: u32, i: int| #[trigger]
        is_put_at(after.log, key, file_id, i) == is_put_at(cask.log, key, file_id, i) by {}
    if exists|file_id: u32, i: int| #[trigger] is_newest(cask, file_id, i) {
        let (file_id, i) = choose|file_id: u32, i: int| #[trigger] is_newest(cask, file_id, i);
        assert(is_newest(after, file_id, i));
    }
    assert forall|key: Seq<u8>| !after.index.contains_key(key) implies #[trigger] is_buried(
        after.log,
        key,
    ) by {
        assert(is_buried(cask.log, key));
        if forall|file_id: u32, i: int| !#[trigger] is_put_at(cask.log, key, file_id, i) {
        } else {
            let (file_id, q) = choose|file_id: u32, q: int| #[trigger]
                is_grave(cask.log, key, file_id, q);
            assert(is_grave(after.log, key, file_id, q));
        }
    }
}

} // verus!
