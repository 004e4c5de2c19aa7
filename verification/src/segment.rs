//! What the two files of a segment hold: a data file is a run of entries, a
//! hint file a run of hints closed by a four-byte digest of all of them.

use crate::data::{
    decode_entry, decode_hint, entry_at, lemma_decode_encoded_entry, lemma_decode_encoded_hint,
    lemma_decoded_entry_is_prefix, lemma_encoded_entry_len, lemma_encoded_hint_len, EntryView,
    HintView,
};
use crate::xxhash::{xxh32_running_digest, SEED};
use vstd::bytes::*;
use vstd::prelude::*;

verus! {

/// Bytes of the digest that closes a hint file.
pub const TRAILER_SIZE: usize = 4;

/// The entries one after another, as they stand in a data file.
pub open spec fn encode_entries(entries: Seq<EntryView>) -> Seq<u8>
    decreases entries.len(),
{
    if entries.len() == 0 {
        Seq::empty()
    } else {
        encode_entries(entries.drop_last()) + entries.last().encode()
    }
}

/// The entries that can be read from the front of `bytes`, one after
/// another, up to the end or to the first bytes that are no entry.
pub open spec fn parse_entries(bytes: Seq<u8>) -> Seq<EntryView>
    decreases bytes.len(),
{
    match decode_entry(bytes) {
        Some(entry) => seq![entry] + parse_entries(
            bytes.subrange(entry.size() as int, bytes.len() as int),
        ),
        None => Seq::empty(),
    }
}

/// The offset at which the `i`-th of `entries` begins.
pub open spec fn entry_offset(entries: Seq<EntryView>, i: int) -> nat {
    encode_entries(entries.take(i)).len()
}

/// The hints of `entries` laid out from offset 0.
pub open spec fn hints_of_entries(entries: Seq<EntryView>) -> Seq<HintView> {
    Seq::new(
        entries.len(),
        |i: int| HintView::of_entry(entries[i], entry_offset(entries, i) as u64),
    )
}

/// The hints of a data file: one for each entry that can be read from it.
pub open spec fn data_hints(data: Seq<u8>) -> Seq<HintView> {
    hints_of_entries(parse_entries(data))
}

/// A data file that is entries from end to end.
pub open spec fn is_clean(data: Seq<u8>) -> bool {
    encode_entries(parse_entries(data)) == data
}

/// The hints one after another, as they stand in a hint file.
pub open spec fn encode_hints(hints: Seq<HintView>) -> Seq<u8>
    decreases hints.len(),
{
    if hints.len() == 0 {
        Seq::empty()
    } else {
        encode_hints(hints.drop_last()) + hints.last().encode()
    }
}

/// The hints that can be read from the front of `bytes`, one after another,
/// up to the end or to the first bytes that are no hint.
pub open spec fn parse_hints(bytes: Seq<u8>) -> Seq<HintView>
    decreases bytes.len(),
{
    match decode_hint(bytes) {
        Some(hint) => seq![hint] + parse_hints(
            bytes.subrange(hint.size() as int, bytes.len() as int),
        ),
        None => Seq::empty(),
    }
}

/// The hint records of a hint file: all but its trailer.
pub open spec fn hint_body(hint_file: Seq<u8>) -> Seq<u8> {
    hint_file.subrange(0, hint_file.len() - TRAILER_SIZE)
}

/// The trailer that closes a hint file with the given records: the digest
/// of a hasher that was fed all of them.
pub open spec fn hint_trailer(body: Seq<u8>) -> Seq<u8> {
    spec_u32_to_le_bytes(xxh32_running_digest(body, SEED))
}

/// A hint file is valid if its last four bytes are the digest of all bytes
/// in front of them.
pub open spec fn valid_hint_file(hint_file: Seq<u8>) -> bool {
    &&& hint_file.len() >= TRAILER_SIZE
    &&& spec_u32_from_le_bytes(
        hint_file.subrange(hint_file.len() - TRAILER_SIZE, hint_file.len() as int),
    ) == xxh32_running_digest(hint_body(hint_file), SEED)
}

pub open spec fn all_entries_wf(entries: Seq<EntryView>) -> bool {
    forall|i: int| 0 <= i < entries.len() ==> (#[trigger] entries[i]).wf()
}

pub open spec fn all_hints_wf(hints: Seq<HintView>) -> bool {
    forall|i: int| 0 <= i < hints.len() ==> (#[trigger] hints[i]).wf()
}

/// The files of one segment as mathematical values.
pub struct SegmentView {
    pub data: Seq<u8>,
    pub hint: Option<Seq<u8>>,
}

impl SegmentView {
    /// The hints that loading the segment yields: those of its hint file
    /// where that file is there and valid, else those of its data file.
    pub open spec fn hints(self) -> Seq<HintView> {
        match self.hint {
            Some(hint_file) => if valid_hint_file(hint_file) {
                parse_hints(hint_body(hint_file))
            } else {
                data_hints(self.data)
            },
            None => data_hints(self.data),
        }
    }

    /// The segment with the hint file that loading leaves it with: its own
    /// where that is valid, else one written anew from the data file.
    pub open spec fn repaired(self) -> SegmentView {
        if self.hint is Some && valid_hint_file(self.hint.unwrap()) {
            self
        } else {
            let records = encode_hints(data_hints(self.data));
            SegmentView { data: self.data, hint: Some(records + hint_trailer(records)) }
        }
    }

    /// The hint file, where it is valid, lists exactly the entries of the
    /// data file.
    pub open spec fn consistent(self) -> bool {
        match self.hint {
            Some(hint_file) => valid_hint_file(hint_file) ==> hint_body(hint_file)
                == encode_hints(data_hints(self.data)),
            None => true,
        }
    }
}

pub proof fn lemma_encode_entries_push(entries: Seq<EntryView>, entry: EntryView)
    ensures
        encode_entries(entries.push(entry)) == encode_entries(entries) + entry.encode(),
{
    assert(entries.push(entry).drop_last() =~= entries);
}

pub proof fn lemma_encode_entries_concat(front: Seq<EntryView>, back: Seq<EntryView>)
    ensures
        encode_entries(front + back) == encode_entries(front) + encode_entries(back),
    decreases back.len(),
{
    if back.len() == 0 {
        assert(front + back =~= front);
        assert(encode_entries(front) + encode_entries(back) =~= encode_entries(front));
    } else {
        lemma_encode_entries_concat(front, back.drop_last());
        assert((front + back).drop_last() =~= front + back.drop_last());
        assert(encode_entries(front + back) =~= encode_entries(front) + encode_entries(back));
    }
}

/// Parsing the encoding of well-formed entries gives them back, and goes on
/// with what follows.
pub proof fn lemma_parse_encoded_entries(entries: Seq<EntryView>, rest: Seq<u8>)
    requires
        all_entries_wf(entries),
    ensures
        parse_entries(encode_entries(entries) + rest) == entries + parse_entries(rest),
    decreases entries.len(),
{
    if entries.len() == 0 {
        assert(encode_entries(entries) + rest =~= rest);
        assert(entries + parse_entries(rest) =~= parse_entries(rest));
    } else {
        let front = entries.drop_last();
        let last = entries.last();
        let tail = last.encode() + rest;
        assert(last.wf());
        lemma_parse_encoded_entries(front, tail);
        assert(encode_entries(entries) + rest =~= encode_entries(front) + tail);
        lemma_decode_encoded_entry(last, rest);
        lemma_encoded_entry_len(last);
        assert(tail.subrange(last.size() as int, tail.len() as int) =~= rest);
        assert(parse_entries(tail) == seq![last] + parse_entries(rest));
        assert(entries + parse_entries(rest) =~= front + (seq![last] + parse_entries(rest)));
    }
}

/// Whatever is parsed is well formed, and its encoding is what the bytes
/// begin with.
pub proof fn lemma_parsed_entries_are_prefix(bytes: Seq<u8>)
    ensures
        all_entries_wf(parse_entries(bytes)),
        encode_entries(parse_entries(bytes)).len() <= bytes.len(),
        bytes.subrange(0, encode_entries(parse_entries(bytes)).len() as int) == encode_entries(
            parse_entries(bytes),
        ),
    decreases bytes.len(),
{
    match decode_entry(bytes) {
        Some(entry) => {
            let rest = bytes.subrange(entry.size() as int, bytes.len() as int);
            lemma_decoded_entry_is_prefix(bytes);
            lemma_parsed_entries_are_prefix(rest);
            let tail = parse_entries(rest);
            assert(encode_entries(seq![entry]) =~= entry.encode()) by {
                assert(seq![entry].drop_last() =~= Seq::<EntryView>::empty());
                assert(encode_entries(Seq::<EntryView>::empty()) =~= Seq::<u8>::empty());
            }
            lemma_encode_entries_concat(seq![entry], tail);
            let encoded = encode_entries(seq![entry] + tail);
            assert(encoded =~= bytes.subrange(0, encoded.len() as int));
        },
        None => {
            assert(encode_entries(parse_entries(bytes)) =~= bytes.subrange(0, 0));
        },
    }
}

/// Appending an entry to a clean data file appends it to what is parsed.
pub proof fn lemma_parse_appended_entry(data: Seq<u8>, entry: EntryView)
    requires
        is_clean(data),
        entry.wf(),
    ensures
        parse_entries(data + entry.encode()) == parse_entries(data).push(entry),
        is_clean(data + entry.encode()),
{
    let entries = parse_entries(data);
    let longer = entries.push(entry);
    lemma_parsed_entries_are_prefix(data);
    assert(all_entries_wf(longer)) by {
        assert forall|i: int| 0 <= i < longer.len() implies (#[trigger] longer[i]).wf() by {
            if i < entries.len() {
                assert(entries[i].wf());
            }
        }
    }
    lemma_encode_entries_push(entries, entry);
    lemma_parse_encoded_entries(longer, Seq::empty());
    assert(encode_entries(longer) + Seq::<u8>::empty() =~= data + entry.encode());
    assert(parse_entries(Seq::<u8>::empty()) =~= Seq::<EntryView>::empty());
    assert(longer + Seq::<EntryView>::empty() =~= longer);
}

/// Each entry that is parsed from a data file is read back at its offset.
pub proof fn lemma_entry_at_offset(data: Seq<u8>, i: int)
    requires
        0 <= i < parse_entries(data).len(),
    ensures
        entry_offset(parse_entries(data), i) + parse_entries(data)[i].size() <= data.len(),
        entry_at(data, entry_offset(parse_entries(data), i) as int) == Some(
            parse_entries(data)[i],
        ),
{
    let entries = parse_entries(data);
    let front = entries.take(i);
    let back = entries.skip(i);
    let offset = entry_offset(entries, i) as int;
    lemma_parsed_entries_are_prefix(data);
    assert(entries =~= front + back);
    lemma_encode_entries_concat(front, back);
    assert(back =~= seq![entries[i]] + back.skip(1));
    lemma_encode_entries_concat(seq![entries[i]], back.skip(1));
    assert(encode_entries(seq![entries[i]]) =~= entries[i].encode()) by {
        assert(seq![entries[i]].drop_last() =~= Seq::<EntryView>::empty());
        assert(encode_entries(Seq::<EntryView>::empty()) =~= Seq::<u8>::empty());
    }
    let encoded = encode_entries(entries);
    let garbage = data.subrange(encoded.len() as int, data.len() as int);
    let tail = encode_entries(back.skip(1)) + garbage;
    lemma_encoded_entry_len(entries[i]);
    assert(data =~= data.subrange(0, encoded.len() as int) + garbage);
    assert(encoded == encode_entries(front) + (entries[i].encode() + encode_entries(
        back.skip(1),
    )));
    assert(data =~= encode_entries(front) + (entries[i].encode() + tail));
    assert(data.subrange(offset, data.len() as int) =~= entries[i].encode() + tail);
    assert(entries[i].wf());
    lemma_decode_encoded_entry(entries[i], tail);
}

/// Every hint of a data file describes the record at its offset.
pub proof fn lemma_data_hints_describe(data: Seq<u8>, i: int)
    requires
        data.len() <= u64::MAX,
        0 <= i < data_hints(data).len(),
    ensures
        data_hints(data)[i].describes(data),
        data_hints(data)[i].wf(),
        data_hints(data)[i].entry_pos + data_hints(data)[i].entry_size <= data.len(),
{
    lemma_entry_at_offset(data, i);
    lemma_parsed_entries_are_prefix(data);
    assert(parse_entries(data)[i].wf());
}

/// The hints of a data file with one more entry at its end.
pub proof fn lemma_data_hints_appended(data: Seq<u8>, entry: EntryView)
    requires
        is_clean(data),
        entry.wf(),
    ensures
        data_hints(data + entry.encode()) == data_hints(data).push(
            HintView::of_entry(entry, data.len() as u64),
        ),
{
    let entries = parse_entries(data);
    lemma_parse_appended_entry(data, entry);
    let longer = entries.push(entry);
    assert forall|i: int| 0 <= i <= entries.len() implies #[trigger] longer.take(i)
        == entries.take(i) by {
        assert(longer.take(i) =~= entries.take(i));
    }
    assert(entries.take(entries.len() as int) =~= entries);
    assert(data_hints(data + entry.encode()) =~= data_hints(data).push(
        HintView::of_entry(entry, data.len() as u64),
    ));
}

pub proof fn lemma_encode_hints_push(hints: Seq<HintView>, hint: HintView)
    ensures
        encode_hints(hints.push(hint)) == encode_hints(hints) + hint.encode(),
{
    assert(hints.push(hint).drop_last() =~= hints);
}

/// Parsing the encoding of well-formed hints gives them back, and goes on
/// with what follows.
pub proof fn lemma_parse_encoded_hints(hints: Seq<HintView>, rest: Seq<u8>)
    requires
        all_hints_wf(hints),
    ensures
        parse_hints(encode_hints(hints) + rest) == hints + parse_hints(rest),
    decreases hints.len(),
{
    if hints.len() == 0 {
        assert(encode_hints(hints) + rest =~= rest);
        assert(hints + parse_hints(rest) =~= parse_hints(rest));
    } else {
        let front = hints.drop_last();
        let last = hints.last();
        let tail = last.encode() + rest;
        assert(last.wf());
        lemma_parse_encoded_hints(front, tail);
        assert(encode_hints(hints) + rest =~= encode_hints(front) + tail);
        lemma_decode_encoded_hint(last, rest);
        lemma_encoded_hint_len(last);
        assert(tail.subrange(last.size() as int, tail.len() as int) =~= rest);
        assert(parse_hints(tail) == seq![last] + parse_hints(rest));
        assert(hints + parse_hints(rest) =~= front + (seq![last] + parse_hints(rest)));
    }
}

/// The hints of a data file are well formed.
pub proof fn lemma_data_hints_wf(data: Seq<u8>)
    ensures
        all_hints_wf(data_hints(data)),
{
    lemma_parsed_entries_are_prefix(data);
    assert forall|i: int| 0 <= i < data_hints(data).len() implies (#[trigger] data_hints(
        data,
    )[i]).wf() by {
        assert(parse_entries(data)[i].wf());
    }
}

/// Hint records closed with their trailer are a valid hint file.
pub proof fn lemma_valid_written_hint_file(records: Seq<u8>)
    ensures
        valid_hint_file(records + hint_trailer(records)),
        hint_body(records + hint_trailer(records)) == records,
{
    lemma_auto_spec_u32_to_from_le_bytes();
    let hint_file = records + hint_trailer(records);
    let len = hint_file.len() as int;
    assert(hint_file.subrange(0, len - TRAILER_SIZE) =~= records);
    assert(hint_file.subrange(len - TRAILER_SIZE, len) =~= hint_trailer(records));
}

/// A hint file that lists the entries of its data file yields, when it is
/// loaded, the hints of the data file.
pub proof fn lemma_consistent_segment_hints(segment: SegmentView)
    requires
        segment.consistent(),
    ensures
        segment.hints() == data_hints(segment.data),
{
    if segment.hint is Some && valid_hint_file(segment.hint.unwrap()) {
        let hints = data_hints(segment.data);
        lemma_data_hints_wf(segment.data);
        lemma_parse_encoded_hints(hints, Seq::empty());
        assert(encode_hints(hints) + Seq::<u8>::empty() =~= encode_hints(hints));
        assert(parse_hints(Seq::<u8>::empty()) =~= Seq::<HintView>::empty());
        assert(hints + Seq::<HintView>::empty() =~= hints);
    }
}

/// Parsing a data file whose first `pos` bytes are clean is parsing those
/// bytes and then the rest.
pub proof fn lemma_parse_behind_clean_prefix(data: Seq<u8>, pos: int)
    requires
        0 <= pos <= data.len(),
        is_clean(data.take(pos)),
    ensures
        parse_entries(data) == parse_entries(data.take(pos)) + parse_entries(data.skip(pos)),
        entry_offset(parse_entries(data), parse_entries(data.take(pos)).len() as int) == pos,
{
    let prefix = data.take(pos);
    let parsed = parse_entries(prefix);
    lemma_parsed_entries_are_prefix(prefix);
    lemma_parse_encoded_entries(parsed, data.skip(pos));
    assert(data =~= encode_entries(parsed) + data.skip(pos));
    assert(parse_entries(data).take(parsed.len() as int) =~= parsed);
}

/// One more entry read behind a clean prefix makes a longer clean prefix.
pub proof fn lemma_clean_prefix_step(data: Seq<u8>, pos: int, entry: EntryView)
    requires
        0 <= pos <= data.len(),
        is_clean(data.take(pos)),
        decode_entry(data.skip(pos)) == Some(entry),
    ensures
        entry.wf(),
        pos + entry.size() <= data.len(),
        is_clean(data.take(pos + entry.size())),
        parse_entries(data.take(pos + entry.size())) == parse_entries(data.take(pos)).push(entry),
        data_hints(data.take(pos + entry.size())) == data_hints(data.take(pos)).push(
            HintView::of_entry(entry, pos as u64),
        ),
{
    lemma_decoded_entry_is_prefix(data.skip(pos));
    assert(data.take(pos + entry.size()) =~= data.take(pos) + entry.encode()) by {
        assert(data.skip(pos).subrange(0, entry.size() as int) =~= data.subrange(
            pos,
            pos + entry.size(),
        ));
    }
    lemma_parse_appended_entry(data.take(pos), entry);
    lemma_data_hints_appended(data.take(pos), entry);
}

/// The hints of a prefix of the parsed entries are a prefix of the hints.
pub proof fn lemma_hints_of_prefix(entries: Seq<EntryView>, n: int)
    requires
        0 <= n <= entries.len(),
    ensures
        hints_of_entries(entries.take(n)) == hints_of_entries(entries).take(n),
{
    assert forall|i: int| 0 <= i < n implies #[trigger] entries.take(n).take(i) == entries.take(
        i,
    ) by {
        assert(entries.take(n).take(i) =~= entries.take(i));
    }
    assert(hints_of_entries(entries.take(n)) =~= hints_of_entries(entries).take(n));
}

/// Entries lie one behind the other: a later one begins behind the end of
/// an earlier one.
pub proof fn lemma_entry_offsets_grow(entries: Seq<EntryView>, i: int, j: int)
    requires
        0 <= i < j <= entries.len(),
    ensures
        entry_offset(entries, i) + entries[i].size() <= entry_offset(entries, j),
    decreases j - i,
{
    lemma_encoded_entry_len(entries[j - 1]);
    assert(entries.take(j).drop_last() =~= entries.take(j - 1));
    assert(entries.take(j).last() == entries[j - 1]);
    if i < j - 1 {
        lemma_entry_offsets_grow(entries, i, j - 1);
    }
}

/// The hints of what was encoded from well-formed entries are the hints of
/// those entries.
pub proof fn lemma_data_hints_of_encoded(entries: Seq<EntryView>)
    requires
        all_entries_wf(entries),
    ensures
        parse_entries(encode_entries(entries)) == entries,
        data_hints(encode_entries(entries)) == hints_of_entries(entries),
        is_clean(encode_entries(entries)),
{
    lemma_parse_encoded_entries(entries, Seq::empty());
    assert(encode_entries(entries) + Seq::<u8>::empty() =~= encode_entries(entries));
    assert(parse_entries(Seq::<u8>::empty()) =~= Seq::<EntryView>::empty());
    assert(entries + Seq::<EntryView>::empty() =~= entries);
}

/// No two hints of a data file point to the same offset.
pub proof fn lemma_data_hints_positions(data: Seq<u8>, i: int, j: int)
    requires
        data.len() <= u64::MAX,
        0 <= i < data_hints(data).len(),
        0 <= j < data_hints(data).len(),
        data_hints(data)[i].entry_pos == data_hints(data)[j].entry_pos,
    ensures
        i == j,
{
    let entries = parse_entries(data);
    lemma_entry_at_offset(data, i);
    lemma_entry_at_offset(data, j);
    if i < j {
        lemma_entry_offsets_grow(entries, i, j);
    } else if j < i {
        lemma_entry_offsets_grow(entries, j, i);
    }
}

} // verus!
