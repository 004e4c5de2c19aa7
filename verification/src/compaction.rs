//! What a compaction keeps of a segment: the records that are still live,
//! and one tombstone for each key that has tombstones in the segment and no
//! live record anywhere.

use crate::data::{entry_at, Entry, EntryView, Error, HintView, MAX_KEY_LEN};
use crate::index::IndexEntry;
use crate::keymap::KeyMap;
use crate::log::LogWriter;
use crate::segment::{
    data_hints, encode_entries, lemma_encode_entries_push, lemma_entry_at_offset, parse_entries,
};
use vstd::prelude::*;
use vstd::slice::*;

verus! {

/// A hint of a put that the index still points to: its record is live.
pub open spec fn is_live(index: Map<Seq<u8>, IndexEntry>, hint: HintView) -> bool {
    !hint.deleted && index.contains_key(hint.key) && index[hint.key].sequence == hint.sequence
}

/// A hint of a tombstone whose key has no live record.
pub open spec fn is_dead(index: Map<Seq<u8>, IndexEntry>, hint: HintView) -> bool {
    hint.deleted && !index.contains_key(hint.key)
}

/// A tombstone that a compaction remembers.
pub struct TombstoneView {
    pub key: Seq<u8>,
    pub sequence: u64,
}

impl TombstoneView {
    /// The record that the tombstone is written as.
    pub open spec fn entry(self) -> EntryView {
        EntryView { sequence: self.sequence, deleted: true, key: self.key, value: Seq::empty() }
    }
}

pub open spec fn has_tombstone(tombstones: Seq<TombstoneView>, key: Seq<u8>) -> bool {
    exists|i: int| 0 <= i < tombstones.len() && #[trigger] tombstones[i].key == key
}

pub open spec fn tombstone_of(tombstones: Seq<TombstoneView>, key: Seq<u8>) -> int {
    choose|i: int| 0 <= i < tombstones.len() && #[trigger] tombstones[i].key == key
}

pub open spec fn distinct_tombstones(tombstones: Seq<TombstoneView>) -> bool {
    forall|i: int, j: int|
        0 <= i < j < tombstones.len() ==> tombstones[i].key != tombstones[j].key
}

/// The remembered tombstones after one more has been met: it raises the
/// sequence number remembered for its key, or is remembered as the first
/// for its key.
pub open spec fn note_tombstone(
    tombstones: Seq<TombstoneView>,
    key: Seq<u8>,
    sequence: u64,
) -> Seq<TombstoneView> {
    if has_tombstone(tombstones, key) {
        let i = tombstone_of(tombstones, key);
        if tombstones[i].sequence < sequence {
            tombstones.update(i, TombstoneView { key, sequence })
        } else {
            tombstones
        }
    } else {
        tombstones.push(TombstoneView { key, sequence })
    }
}

/// The tombstones that a compaction remembers from `hints`: for each key
/// with a dead tombstone among them, the greatest sequence number of those,
/// keys in the order in which they are first met.
pub open spec fn merged_tombstones(
    index: Map<Seq<u8>, IndexEntry>,
    hints: Seq<HintView>,
) -> Seq<TombstoneView>
    decreases hints.len(),
{
    if hints.len() == 0 {
        Seq::empty()
    } else {
        let front = merged_tombstones(index, hints.drop_last());
        if is_dead(index, hints.last()) {
            note_tombstone(front, hints.last().key, hints.last().sequence)
        } else {
            front
        }
    }
}

/// The records that a compaction copies from the data file `data`: for each
/// live hint in turn, the record at its offset. The first record that cannot
/// be read ends the compaction with its error.
pub open spec fn copied_entries(
    data: Seq<u8>,
    index: Map<Seq<u8>, IndexEntry>,
    hints: Seq<HintView>,
) -> Result<Seq<EntryView>, Error>
    decreases hints.len(),
{
    if hints.len() == 0 {
        Ok(Seq::empty())
    } else {
        match copied_entries(data, index, hints.drop_last()) {
            Err(error) => Err(error),
            Ok(front) => if is_live(index, hints.last()) {
                match entry_at(data, hints.last().entry_pos as int) {
                    Some(entry) => Ok(front.push(entry)),
                    None => Err(Error::CorruptRecord),
                }
            } else {
                Ok(front)
            },
        }
    }
}

/// The tombstones as the records they are written as.
pub open spec fn tombstone_entries(tombstones: Seq<TombstoneView>) -> Seq<EntryView> {
    Seq::new(tombstones.len(), |i: int| tombstones[i].entry())
}

/// The records of the segment that a compaction writes: the copies, then
/// the tombstones.
pub open spec fn compacted_entries(
    data: Seq<u8>,
    index: Map<Seq<u8>, IndexEntry>,
    hints: Seq<HintView>,
) -> Result<Seq<EntryView>, Error> {
    match copied_entries(data, index, hints) {
        Ok(copies) => Ok(copies + tombstone_entries(merged_tombstones(index, hints))),
        Err(error) => Err(error),
    }
}

/// A record that cannot be read ends the compaction, whatever hints follow.
pub proof fn lemma_copy_error_stays(
    data: Seq<u8>,
    index: Map<Seq<u8>, IndexEntry>,
    hints: Seq<HintView>,
    n: int,
)
    requires
        0 <= n <= hints.len(),
        copied_entries(data, index, hints.take(n)) is Err,
    ensures
        copied_entries(data, index, hints) == copied_entries(data, index, hints.take(n)),
    decreases hints.len() - n,
{
    if n == hints.len() {
        assert(hints.take(n) =~= hints);
    } else {
        assert(hints.take(n + 1).drop_last() =~= hints.take(n));
        lemma_copy_error_stays(data, index, hints, n + 1);
    }
}

/// Remembering a tombstone keeps the keys distinct.
pub proof fn lemma_note_tombstone(tombstones: Seq<TombstoneView>, key: Seq<u8>, sequence: u64)
    requires
        distinct_tombstones(tombstones),
    ensures
        distinct_tombstones(note_tombstone(tombstones, key, sequence)),
        forall|i: int|
            0 <= i < note_tombstone(tombstones, key, sequence).len() ==> (#[trigger] note_tombstone(
                tombstones,
                key,
                sequence,
            )[i]).key == key || (i < tombstones.len() && note_tombstone(
                tombstones,
                key,
                sequence,
            )[i].key == tombstones[i].key),
{
    let after = note_tombstone(tombstones, key, sequence);
    if has_tombstone(tombstones, key) {
        let at = tombstone_of(tombstones, key);
        assert forall|i: int, j: int| 0 <= i < j < after.len() implies after[i].key
            != after[j].key by {
            assert(after[i].key == tombstones[i].key);
            assert(after[j].key == tombstones[j].key);
        }
    } else {
        assert forall|i: int, j: int| 0 <= i < j < after.len() implies after[i].key
            != after[j].key by {
            if j == tombstones.len() {
                assert(tombstones[i].key != key);
            }
        }
    }
}

/// A tombstone that a compaction remembers.
pub struct Tombstone {
    pub key: Vec<u8>,
    pub sequence: u64,
}

impl View for Tombstone {
    type V = TombstoneView;

    open spec fn view(&self) -> TombstoneView {
        TombstoneView { key: self.key@, sequence: self.sequence }
    }
}

/// The remembered tombstones as mathematical values.
pub open spec fn tombstones_view(tombstones: Seq<Tombstone>) -> Seq<TombstoneView> {
    Seq::new(tombstones.len(), |i: int| tombstones[i]@)
}

/// Whether every remembered key fits the key length field.
pub open spec fn short_keys(tombstones: Seq<Tombstone>) -> bool {
    forall|i: int| 0 <= i < tombstones.len() ==> (#[trigger] tombstones[i]).key@.len() <= MAX_KEY_LEN
}

/// The tombstones that a compaction remembers, in the order in which their
/// keys were first met, and where each key stands among them.
pub struct Tombstones {
    list: Vec<Tombstone>,
    places: KeyMap<usize>,
}

impl Tombstones {
    /// The remembered tombstones as mathematical values.
    pub closed spec fn view(&self) -> Seq<TombstoneView> {
        tombstones_view(self.list@)
    }

    /// No key is remembered twice, every key fits the key length field,
    /// and every key is found at its place.
    pub closed spec fn wf(&self) -> bool {
        &&& distinct_tombstones(self@)
        &&& short_keys(self.list@)
        &&& forall|i: int|
            0 <= i < self.list@.len() ==> self.places@.contains_key(
                (#[trigger] self.list@[i]).key@,
            )
        &&& forall|key: Seq<u8>| #[trigger]
            self.places@.contains_key(key) ==> self.places@[key] < self.list@.len()
                && self.list@[self.places@[key] as int].key@ == key
    }

    pub fn new() -> (tombstones: Tombstones)
        ensures
            tombstones.wf(),
            tombstones@ == Seq::<TombstoneView>::empty(),
    {
        let tombstones = Tombstones { list: Vec::new(), places: KeyMap::new() };
        assert(tombstones@ =~= Seq::<TombstoneView>::empty());
        tombstones
    }

    /// The remembered tombstones.
    pub fn list(&self) -> (list: &Vec<Tombstone>)
        requires
            self.wf(),
        ensures
            tombstones_view(list@) == self@,
            short_keys(list@),
    {
        &self.list
    }

    /// Remembers one more tombstone: see [`note_tombstone`].
    pub fn remember(&mut self, key: &[u8], sequence: u64)
        requires
            old(self).wf(),
            key@.len() <= MAX_KEY_LEN,
        ensures
            final(self).wf(),
            final(self)@ == note_tombstone(old(self)@, key@, sequence),
    {
        let ghost before = self@;
        match self.places.get(key) {
            Some(i) => {
                assert(before[i as int].key == key@);
                assert(has_tombstone(before, key@));
                assert(tombstone_of(before, key@) == i) by {
                    let other = tombstone_of(before, key@);
                    if other < i {
                        assert(before[other].key != before[i as int].key);
                    } else if other > i {
                        assert(before[i as int].key != before[other].key);
                    }
                }
                if self.list[i].sequence < sequence {
                    let ghost old_list = self.list@;
                    self.list.set(i, Tombstone { key: slice_to_vec(key), sequence });
                    assert(self@ =~= note_tombstone(before, key@, sequence));
                    assert forall|j: int| 0 <= j < self.list@.len() implies (#[trigger] self.list@[j]).key@
                        == old_list[j].key@ by {}
                    assert(distinct_tombstones(self@)) by {
                        assert forall|a: int, b: int| 0 <= a < b < self@.len() implies self@[a].key
                            != self@[b].key by {
                            assert(before[a].key != before[b].key);
                        }
                    }
                }
            },
            None => {
                assert(!has_tombstone(before, key@)) by {
                    if has_tombstone(before, key@) {
                        let j = tombstone_of(before, key@);
                        assert(self.places@.contains_key(self.list@[j].key@));
                    }
                }
                let ghost old_list = self.list@;
                let ghost old_places = self.places@;
                self.places.insert(slice_to_vec(key), self.list.len());
                self.list.push(Tombstone { key: slice_to_vec(key), sequence });
                assert(self@ =~= note_tombstone(before, key@, sequence));
                assert(distinct_tombstones(self@)) by {
                    assert forall|a: int, b: int| 0 <= a < b < self@.len() implies self@[a].key
                        != self@[b].key by {
                        if b < before.len() {
                            assert(before[a].key != before[b].key);
                        } else {
                            assert(old_places.contains_key(old_list[a].key@));
                        }
                    }
                }
                assert forall|j: int| 0 <= j < self.list@.len() implies self.places@.contains_key(
                    (#[trigger] self.list@[j]).key@,
                ) by {
                    if j < old_list.len() {
                        assert(old_places.contains_key(old_list[j].key@));
                    }
                }
            },
        }
    }
}

/// Writes the remembered tombstones behind the copies that the writer
/// holds.
pub(crate) fn write_tombstones(
    writer: &mut LogWriter,
    tombstones: &Vec<Tombstone>,
    Ghost(copies): Ghost<Seq<EntryView>>,
)
    requires
        old(writer).wf(),
        old(writer)@.data == encode_entries(copies),
        short_keys(tombstones@),
    ensures
        final(writer).wf(),
        final(writer)@.file_id == old(writer)@.file_id,
        final(writer)@.data == encode_entries(
            copies + tombstone_entries(tombstones_view(tombstones@)),
        ),
{
    let ghost all = tombstone_entries(tombstones_view(tombstones@));
    let mut i: usize = 0;
    assert(copies + all.take(0) =~= copies);
    while i < tombstones.len()
        invariant
            i <= tombstones.len(),
            writer.wf(),
            writer@.file_id == old(writer)@.file_id,
            all == tombstone_entries(tombstones_view(tombstones@)),
            writer@.data == encode_entries(copies + all.take(i as int)),
            short_keys(tombstones@),
        decreases tombstones.len() - i,
    {
        let tombstone = &tombstones[i];
        let entry = Entry::deleted(tombstone.sequence, tombstone.key.as_slice());
        proof {
            assert(entry@ == all[i as int]);
            lemma_encode_entries_push(copies + all.take(i as int), entry@);
            assert((copies + all.take(i as int)).push(entry@) =~= copies + all.take(i + 1));
        }
        writer.write(&entry);
        i += 1;
    }
    assert(all.take(tombstones@.len() as int) =~= all);
}

/// An entry of a put that the index still points to.
pub open spec fn is_live_entry(index: Map<Seq<u8>, IndexEntry>, entry: EntryView) -> bool {
    !entry.deleted && index.contains_key(entry.key) && index[entry.key].sequence
        == entry.sequence
}

/// The live ones among `entries`, in their order.
pub open spec fn live_entries(index: Map<Seq<u8>, IndexEntry>, entries: Seq<EntryView>) -> Seq<
    EntryView,
>
    decreases entries.len(),
{
    if entries.len() == 0 {
        Seq::empty()
    } else {
        let front = live_entries(index, entries.drop_last());
        if is_live_entry(index, entries.last()) {
            front.push(entries.last())
        } else {
            front
        }
    }
}

/// Where the `i`-th of `entries` stands among the live ones.
pub open spec fn live_rank(index: Map<Seq<u8>, IndexEntry>, entries: Seq<EntryView>, i: int) -> int {
    live_entries(index, entries.take(i)).len() as int
}

/// Whether the `i`-th of `entries` is live and the `j`-th of the live ones.
pub open spec fn is_source(
    index: Map<Seq<u8>, IndexEntry>,
    entries: Seq<EntryView>,
    i: int,
    j: int,
) -> bool {
    0 <= i < entries.len() && is_live_entry(index, entries[i]) && live_rank(index, entries, i) == j
}

/// Whether the `j`-th of the live ones is one of `entries`.
pub open spec fn has_source(index: Map<Seq<u8>, IndexEntry>, entries: Seq<EntryView>, j: int) -> bool {
    exists|i: int| #[trigger] is_source(index, entries, i, j)
}

/// From the hints of a data file a compaction copies the live entries of
/// the file, and every one of them can be read.
pub proof fn lemma_copies_are_live_entries(data: Seq<u8>, index: Map<Seq<u8>, IndexEntry>, n: int)
    requires
        data.len() <= u64::MAX,
        0 <= n <= parse_entries(data).len(),
    ensures
        copied_entries(data, index, data_hints(data).take(n)) == Ok::<Seq<EntryView>, Error>(
            live_entries(index, parse_entries(data).take(n)),
        ),
    decreases n,
{
    let hints = data_hints(data);
    let entries = parse_entries(data);
    if n == 0 {
        assert(hints.take(0) =~= Seq::<HintView>::empty());
        assert(entries.take(0) =~= Seq::<EntryView>::empty());
    } else {
        lemma_copies_are_live_entries(data, index, n - 1);
        assert(hints.take(n).drop_last() =~= hints.take(n - 1));
        assert(entries.take(n).drop_last() =~= entries.take(n - 1));
        assert(hints.take(n).last() == hints[n - 1]);
        assert(entries.take(n).last() == entries[n - 1]);
        lemma_entry_at_offset(data, n - 1);
    }
}

/// Each live entry stands among the live ones at its rank, and each of the
/// live ones is a live entry.
pub proof fn lemma_live_entries_sources(index: Map<Seq<u8>, IndexEntry>, entries: Seq<EntryView>)
    ensures
        live_entries(index, entries).len() <= entries.len(),
        forall|i: int|
            0 <= i < entries.len() && is_live_entry(index, #[trigger] entries[i]) ==> {
                &&& 0 <= live_rank(index, entries, i) < live_entries(index, entries).len()
                &&& live_entries(index, entries)[live_rank(index, entries, i)] == entries[i]
            },
        forall|j: int|
            0 <= j < live_entries(index, entries).len() ==> #[trigger] has_source(
                index,
                entries,
                j,
            ),
    decreases entries.len(),
{
    let live = live_entries(index, entries);
    if entries.len() > 0 {
        let front = entries.drop_last();
        let last = entries.len() - 1;
        lemma_live_entries_sources(index, front);
        assert(entries.take(last) =~= front);
        assert forall|i: int| 0 <= i <= front.len() implies #[trigger] entries.take(i)
            == front.take(i) by {
            assert(entries.take(i) =~= front.take(i));
        }
        assert forall|i: int|
            0 <= i < entries.len() && is_live_entry(index, #[trigger] entries[i]) implies {
            &&& 0 <= live_rank(index, entries, i) < live.len()
            &&& live[live_rank(index, entries, i)] == entries[i]
        } by {
            if i < last {
                assert(front[i] == entries[i]);
                assert(live_rank(index, front, i) == live_rank(index, entries, i));
            }
        }
        assert forall|j: int| 0 <= j < live.len() implies #[trigger] has_source(
            index,
            entries,
            j,
        ) by {
            if j < live_entries(index, front).len() {
                assert(has_source(index, front, j));
                let i = choose|i: int| #[trigger] is_source(index, front, i, j);
                assert(front[i] == entries[i]);
                assert(is_source(index, entries, i, j));
            } else {
                assert(is_source(index, entries, last, j));
            }
        }
    }
}

/// Whether the `i`-th of `hints` is a dead tombstone with the key and the
/// sequence number of `tombstone`.
pub open spec fn is_origin(
    index: Map<Seq<u8>, IndexEntry>,
    hints: Seq<HintView>,
    tombstone: TombstoneView,
    i: int,
) -> bool {
    0 <= i < hints.len() && is_dead(index, hints[i]) && hints[i].key == tombstone.key
        && hints[i].sequence == tombstone.sequence
}

/// Whether `tombstone` is a dead tombstone of `hints`.
pub open spec fn has_origin(
    index: Map<Seq<u8>, IndexEntry>,
    hints: Seq<HintView>,
    tombstone: TombstoneView,
) -> bool {
    exists|i: int| #[trigger] is_origin(index, hints, tombstone, i)
}

/// Whether the `j`-th of `tombstones` is for `key` and no older than
/// `sequence`.
pub open spec fn covers(tombstones: Seq<TombstoneView>, key: Seq<u8>, sequence: u64, j: int) -> bool {
    0 <= j < tombstones.len() && tombstones[j].key == key && tombstones[j].sequence >= sequence
}

/// Whether a tombstone for `key` that is no older than `sequence` is
/// remembered.
pub open spec fn is_covered(tombstones: Seq<TombstoneView>, key: Seq<u8>, sequence: u64) -> bool {
    exists|j: int| #[trigger] covers(tombstones, key, sequence, j)
}

/// What remembering one more tombstone does to those remembered.
pub proof fn lemma_note_tombstone_covers(
    tombstones: Seq<TombstoneView>,
    key: Seq<u8>,
    sequence: u64,
)
    requires
        distinct_tombstones(tombstones),
    ensures
        is_covered(note_tombstone(tombstones, key, sequence), key, sequence),
        note_tombstone(tombstones, key, sequence).len() >= tombstones.len(),
        forall|j: int|
            0 <= j < tombstones.len() ==> (#[trigger] note_tombstone(
                tombstones,
                key,
                sequence,
            )[j]).key == tombstones[j].key && note_tombstone(tombstones, key, sequence)[j].sequence
                >= tombstones[j].sequence,
        forall|j: int|
            0 <= j < note_tombstone(tombstones, key, sequence).len() ==> (j < tombstones.len()
                && (#[trigger] note_tombstone(tombstones, key, sequence)[j]) == tombstones[j])
                || note_tombstone(tombstones, key, sequence)[j] == (TombstoneView {
                key,
                sequence,
            }),
{
    let after = note_tombstone(tombstones, key, sequence);
    if has_tombstone(tombstones, key) {
        let at = tombstone_of(tombstones, key);
        assert(covers(after, key, sequence, at));
    } else {
        assert(covers(after, key, sequence, tombstones.len() as int));
    }
}

/// What a compaction remembers of tombstones: only dead ones of the hints,
/// each key once, and for every dead tombstone of the hints one that is no
/// older.
pub proof fn lemma_merged_tombstones(index: Map<Seq<u8>, IndexEntry>, hints: Seq<HintView>)
    ensures
        distinct_tombstones(merged_tombstones(index, hints)),
        forall|j: int|
            0 <= j < merged_tombstones(index, hints).len() ==> has_origin(
                index,
                hints,
                #[trigger] merged_tombstones(index, hints)[j],
            ),
        forall|i: int|
            0 <= i < hints.len() && is_dead(index, #[trigger] hints[i]) ==> is_covered(
                merged_tombstones(index, hints),
                hints[i].key,
                hints[i].sequence,
            ),
    decreases hints.len(),
{
    let merged = merged_tombstones(index, hints);
    if hints.len() > 0 {
        let front_hints = hints.drop_last();
        let last = hints.last();
        let front = merged_tombstones(index, front_hints);
        lemma_merged_tombstones(index, front_hints);
        if is_dead(index, last) {
            lemma_note_tombstone(front, last.key, last.sequence);
            lemma_note_tombstone_covers(front, last.key, last.sequence);
        }
        assert forall|j: int| 0 <= j < merged.len() implies has_origin(
            index,
            hints,
            #[trigger] merged[j],
        ) by {
            if j < front.len() && merged[j] == front[j] {
                assert(has_origin(index, front_hints, front[j]));
                let i = choose|i: int| #[trigger] is_origin(index, front_hints, front[j], i);
                assert(hints[i] == front_hints[i]);
                assert(is_origin(index, hints, merged[j], i));
            } else {
                assert(is_origin(index, hints, merged[j], hints.len() - 1));
            }
        }
        assert forall|i: int|
            0 <= i < hints.len() && is_dead(index, #[trigger] hints[i]) implies is_covered(
            merged,
            hints[i].key,
            hints[i].sequence,
        ) by {
            if i < front_hints.len() {
                assert(front_hints[i] == hints[i]);
                assert(is_covered(front, hints[i].key, hints[i].sequence));
                let j = choose|j: int| #[trigger]
                    covers(front, hints[i].key, hints[i].sequence, j);
                if is_dead(index, last) {
                    assert(merged[j].key == front[j].key);
                }
                assert(covers(merged, hints[i].key, hints[i].sequence, j));
            }
        }
    }
}

} // verus!
