//! The in-memory index: for every live key, where its newest record lies.

use crate::data::{Hint, HintView, SequenceNumber};
use crate::keymap::KeyMap;
use vstd::prelude::*;

verus! {

/// Where the live record of a key lies and how new it is.
#[derive(Clone, Copy, Debug, PartialEq, Eq, Structural)]
pub struct IndexEntry {
    pub file_id: u32,
    pub entry_pos: u64,
    pub entry_size: u64,
    pub sequence: SequenceNumber,
}

/// The index entry that a hint of segment `file_id` stands for.
pub open spec fn entry_of_hint(hint: HintView, file_id: u32) -> IndexEntry {
    IndexEntry {
        file_id,
        entry_pos: hint.entry_pos,
        entry_size: hint.entry_size,
        sequence: hint.sequence,
    }
}

/// The index after a hint of segment `file_id` has been applied. A hint that
/// is older than what the index holds for its key changes nothing; one that
/// is as new or newer replaces the entry, or removes it if it is a tombstone.
pub open spec fn index_update(
    index: Map<Seq<u8>, IndexEntry>,
    hint: HintView,
    file_id: u32,
) -> Map<Seq<u8>, IndexEntry> {
    if index.contains_key(hint.key) && index[hint.key].sequence > hint.sequence {
        index
    } else if hint.deleted {
        index.remove(hint.key)
    } else {
        index.insert(hint.key, entry_of_hint(hint, file_id))
    }
}

/// The index after the hints of one segment have been applied, first to
/// last.
pub open spec fn replay(
    index: Map<Seq<u8>, IndexEntry>,
    hints: Seq<HintView>,
    file_id: u32,
) -> Map<Seq<u8>, IndexEntry>
    decreases hints.len(),
{
    if hints.len() == 0 {
        index
    } else {
        index_update(replay(index, hints.drop_last(), file_id), hints.last(), file_id)
    }
}

/// The greatest of `start` and the sequence numbers of `hints`.
pub open spec fn max_sequence(start: u64, hints: Seq<HintView>) -> u64
    decreases hints.len(),
{
    if hints.len() == 0 {
        start
    } else {
        let front = max_sequence(start, hints.drop_last());
        if hints.last().sequence > front {
            hints.last().sequence
        } else {
            front
        }
    }
}

/// Applying hints first to last is applying the first and then the others.
pub proof fn lemma_replay_first(index: Map<Seq<u8>, IndexEntry>, hints: Seq<HintView>, file_id: u32)
    requires
        hints.len() > 0,
    ensures
        replay(index, hints, file_id) == replay(
            index_update(index, hints[0], file_id),
            hints.skip(1),
            file_id,
        ),
    decreases hints.len(),
{
    let first = index_update(index, hints[0], file_id);
    if hints.len() == 1 {
        assert(hints.drop_last() =~= Seq::<HintView>::empty());
        assert(hints.skip(1) =~= Seq::<HintView>::empty());
        assert(replay(index, hints.drop_last(), file_id) == index);
        assert(replay(first, hints.skip(1), file_id) == first);
    } else {
        let front = hints.drop_last();
        let tail = hints.skip(1);
        lemma_replay_first(index, front, file_id);
        assert(front.skip(1) =~= tail.drop_last());
        assert(front[0] == hints[0]);
        assert(tail.last() == hints.last());
        assert(replay(first, tail, file_id) == index_update(
            replay(first, tail.drop_last(), file_id),
            tail.last(),
            file_id,
        ));
    }
}

/// The greatest sequence number, taken first to last.
pub proof fn lemma_max_sequence_first(start: u64, hints: Seq<HintView>)
    requires
        hints.len() > 0,
    ensures
        max_sequence(start, hints) == max_sequence(
            if hints[0].sequence > start {
                hints[0].sequence
            } else {
                start
            },
            hints.skip(1),
        ),
    decreases hints.len(),
{
    let first = if hints[0].sequence > start {
        hints[0].sequence
    } else {
        start
    };
    if hints.len() == 1 {
        assert(hints.drop_last() =~= Seq::<HintView>::empty());
        assert(hints.skip(1) =~= Seq::<HintView>::empty());
        assert(max_sequence(start, hints.drop_last()) == start);
        assert(max_sequence(first, hints.skip(1)) == first);
    } else {
        let front = hints.drop_last();
        let tail = hints.skip(1);
        lemma_max_sequence_first(start, front);
        assert(front.skip(1) =~= tail.drop_last());
        assert(front[0] == hints[0]);
        assert(tail.last() == hints.last());
        assert(max_sequence(first, tail) == {
            let m = max_sequence(first, tail.drop_last());
            if tail.last().sequence > m {
                tail.last().sequence
            } else {
                m
            }
        });
    }
}

/// A map from keys to index entries.
pub struct Index {
    entries: KeyMap<IndexEntry>,
}

impl Index {
    /// The index as a map from keys to entries.
    pub closed spec fn view(&self) -> Map<Seq<u8>, IndexEntry> {
        self.entries@
    }

    /// The empty index.
    pub fn new() -> (index: Index)
        ensures
            index@ == Map::<Seq<u8>, IndexEntry>::empty(),
    {
        Index { entries: KeyMap::new() }
    }

    /// The entry of `key`, if the index has one.
    pub fn get(&self, key: &[u8]) -> (found: Option<IndexEntry>)
        ensures
            found == (if self@.contains_key(key@) {
                Some(self@[key@])
            } else {
                None
            }),
    {
        self.entries.get(key)
    }

    /// Sets the entry of `key`, and returns the one it had.
    pub fn insert(&mut self, key: Vec<u8>, entry: IndexEntry) -> (previous: Option<IndexEntry>)
        ensures
            final(self)@ == old(self)@.insert(key@, entry),
            previous == (if old(self)@.contains_key(key@) {
                Some(old(self)@[key@])
            } else {
                None
            }),
    {
        self.entries.insert(key, entry)
    }

    /// Drops the entry of `key`, and returns the one it had.
    pub fn remove(&mut self, key: &[u8]) -> (previous: Option<IndexEntry>)
        ensures
            final(self)@ == old(self)@.remove(key@),
            previous == (if old(self)@.contains_key(key@) {
                Some(old(self)@[key@])
            } else {
                None
            }),
    {
        self.entries.remove(key)
    }

    /// Applies a hint of segment `file_id`: see [`index_update`].
    pub fn update(&mut self, hint: Hint, file_id: u32)
        ensures
            final(self)@ == index_update(old(self)@, hint@, file_id),
    {
        let entry = IndexEntry {
            file_id,
            entry_pos: hint.entry_pos,
            entry_size: hint.entry_size(),
            sequence: hint.sequence,
        };
        match self.get(hint.key.as_slice()) {
            Some(existing) => {
                if existing.sequence <= hint.sequence {
                    if hint.deleted {
                        self.remove(hint.key.as_slice());
                    } else {
                        self.insert(hint.key, entry);
                    }
                }
            },
            None => {
                if !hint.deleted {
                    self.insert(hint.key, entry);
                } else {
                    assert(self@.remove(hint@.key) =~= self@);
                }
            },
        }
    }
}

/// A hint that can only move a record of the index: a put has the key and
/// the sequence number of an index entry, a tombstone a key that the index
/// lacks.
pub open spec fn is_relocating(index: Map<Seq<u8>, IndexEntry>, hint: HintView) -> bool {
    if hint.deleted {
        !index.contains_key(hint.key)
    } else {
        index.contains_key(hint.key) && index[hint.key].sequence == hint.sequence
    }
}

pub open spec fn relocates(index: Map<Seq<u8>, IndexEntry>, hints: Seq<HintView>) -> bool {
    forall|j: int| 0 <= j < hints.len() ==> is_relocating(index, #[trigger] hints[j])
}

/// Whether the `j`-th of `hints` is a put of `key`.
pub open spec fn is_put_of(hints: Seq<HintView>, key: Seq<u8>, j: int) -> bool {
    0 <= j < hints.len() && hints[j].key == key && !hints[j].deleted
}

pub open spec fn has_put_of(hints: Seq<HintView>, key: Seq<u8>) -> bool {
    exists|j: int| #[trigger] is_put_of(hints, key, j)
}

/// Whether `entry` is what a put of `key` among `hints` stands for.
pub open spec fn is_moved(hints: Seq<HintView>, key: Seq<u8>, entry: IndexEntry, file_id: u32) -> bool {
    exists|j: int| #[trigger] is_put_of(hints, key, j) && entry == entry_of_hint(hints[j], file_id)
}

/// Applying hints that only move records leaves the keys and the sequence
/// numbers of the index as they are; a key with a put among the hints then
/// points to one of those, any other key where it pointed before.
pub proof fn lemma_replay_relocates(index: Map<Seq<u8>, IndexEntry>, hints: Seq<HintView>, file_id: u32)
    requires
        relocates(index, hints),
    ensures
        forall|key: Seq<u8>| #[trigger]
            replay(index, hints, file_id).contains_key(key) <==> index.contains_key(key),
        forall|key: Seq<u8>| #[trigger]
            index.contains_key(key) ==> {
                &&& replay(index, hints, file_id)[key].sequence == index[key].sequence
                &&& has_put_of(hints, key) ==> is_moved(
                    hints,
                    key,
                    replay(index, hints, file_id)[key],
                    file_id,
                )
                &&& !has_put_of(hints, key) ==> replay(index, hints, file_id)[key] == index[key]
            },
    decreases hints.len(),
{
    if hints.len() > 0 {
        let front_hints = hints.drop_last();
        let last = hints.last();
        let at = hints.len() - 1;
        let front = replay(index, front_hints, file_id);
        let after = replay(index, hints, file_id);
        assert(relocates(index, front_hints)) by {
            assert forall|j: int| 0 <= j < front_hints.len() implies is_relocating(
                index,
                #[trigger] front_hints[j],
            ) by {
                assert(front_hints[j] == hints[j]);
            }
        }
        lemma_replay_relocates(index, front_hints, file_id);
        assert(is_relocating(index, hints[at]));
        assert forall|key: Seq<u8>, j: int| is_put_of(front_hints, key, j) implies is_put_of(
            hints,
            key,
            j,
        ) by {
            assert(front_hints[j] == hints[j]);
        }
        assert forall|key: Seq<u8>, j: int| is_put_of(hints, key, j) && j != at implies is_put_of(
            front_hints,
            key,
            j,
        ) by {
            assert(front_hints[j] == hints[j]);
        }
        if last.deleted {
            assert(!front.contains_key(last.key));
            assert(after =~= front);
            assert forall|key: Seq<u8>| #[trigger] index.contains_key(key) implies {
                &&& after[key].sequence == index[key].sequence
                &&& has_put_of(hints, key) ==> is_moved(hints, key, after[key], file_id)
                &&& !has_put_of(hints, key) ==> after[key] == index[key]
            } by {
                if has_put_of(hints, key) {
                    let j = choose|j: int| #[trigger] is_put_of(hints, key, j);
                    assert(is_put_of(front_hints, key, j));
                    assert(has_put_of(front_hints, key));
                    let k = choose|k: int| #[trigger]
                        is_put_of(front_hints, key, k) && front[key] == entry_of_hint(
                            front_hints[k],
                            file_id,
                        );
                    assert(is_put_of(hints, key, k) && after[key] == entry_of_hint(
                        hints[k],
                        file_id,
                    ));
                } else {
                    if has_put_of(front_hints, key) {
                        let j = choose|j: int| #[trigger] is_put_of(front_hints, key, j);
                        assert(is_put_of(hints, key, j));
                    }
                }
            }
        } else {
            assert(front.contains_key(last.key));
            assert(index.contains_key(last.key));
            assert(after =~= front.insert(last.key, entry_of_hint(last, file_id)));
            assert forall|key: Seq<u8>| #[trigger] index.contains_key(key) implies {
                &&& after[key].sequence == index[key].sequence
                &&& has_put_of(hints, key) ==> is_moved(hints, key, after[key], file_id)
                &&& !has_put_of(hints, key) ==> after[key] == index[key]
            } by {
                if key == last.key {
                    assert(is_put_of(hints, key, at) && after[key] == entry_of_hint(
                        hints[at],
                        file_id,
                    ));
                } else if has_put_of(hints, key) {
                    let j = choose|j: int| #[trigger] is_put_of(hints, key, j);
                    assert(is_put_of(front_hints, key, j));
                    assert(has_put_of(front_hints, key));
                    let k = choose|k: int| #[trigger]
                        is_put_of(front_hints, key, k) && front[key] == entry_of_hint(
                            front_hints[k],
                            file_id,
                        );
                    assert(is_put_of(hints, key, k) && after[key] == entry_of_hint(
                        hints[k],
                        file_id,
                    ));
                } else {
                    if has_put_of(front_hints, key) {
                        let j = choose|j: int| #[trigger] is_put_of(front_hints, key, j);
                        assert(is_put_of(hints, key, j));
                    }
                }
            }
        }
    }
}

} // verus!
