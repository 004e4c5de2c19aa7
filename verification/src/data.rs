//! The records of the two on-disk files: entries of a data file and hints of
//! a hint file, with their byte-exact layout.
//!
//! A data record is `checksum: u32 | sequence: u64 | key_len: u16 |
//! value_len: u32 | flag: u8 | key | value`, little-endian, the checksum
//! covering everything behind it. A hint record is `sequence: u64 |
//! key_len: u16 | entry_pos: u64 | entry_size: u64 | flag: u8 | key`.

use crate::endian::{append, get_u16, get_u32, get_u64, put_u16, put_u32, put_u64};
use crate::xxhash::{xxh32_digest, xxhash32, SEED};
use vstd::bytes::*;
use vstd::prelude::*;
use vstd::slice::*;

verus! {

pub type SequenceNumber = u64;

/// Bytes of a data record in front of the key.
pub const ENTRY_HEADER_SIZE: usize = 19;

/// Bytes of a hint record in front of the key.
pub const HINT_HEADER_SIZE: usize = 27;

/// The longest key the `u16` length field can describe.
pub const MAX_KEY_LEN: usize = 0xFFFF;

/// The longest value the `u32` length field can describe.
pub const MAX_VALUE_LEN: usize = 0xFFFF_FFFF;

#[derive(Clone, Copy, Debug, PartialEq, Eq, Structural)]
pub enum Error {
    /// A segment file that was asked for does not exist.
    IoError,
    /// A data record is cut short, breaks the layout, or fails its checksum.
    CorruptRecord,
    /// A hint record is cut short or breaks the layout.
    CorruptHintFile,
}

/// The flag byte of a record: bit 0 marks a tombstone.
pub open spec fn flag_byte(deleted: bool) -> u8 {
    if deleted {
        1
    } else {
        0
    }
}

/// A data record as a mathematical value.
pub struct EntryView {
    pub sequence: u64,
    pub deleted: bool,
    pub key: Seq<u8>,
    pub value: Seq<u8>,
}

impl EntryView {
    /// The lengths fit their fields and a tombstone carries no value.
    pub open spec fn wf(self) -> bool {
        &&& self.key.len() <= MAX_KEY_LEN
        &&& self.value.len() <= MAX_VALUE_LEN
        &&& self.deleted ==> self.value.len() == 0
    }

    /// Bytes the record occupies in a data file.
    pub open spec fn size(self) -> nat {
        ENTRY_HEADER_SIZE as nat + self.key.len() + self.value.len()
    }

    /// Everything the checksum covers.
    pub open spec fn body(self) -> Seq<u8> {
        spec_u64_to_le_bytes(self.sequence) + spec_u16_to_le_bytes(self.key.len() as u16)
            + spec_u32_to_le_bytes(self.value.len() as u32) + seq![flag_byte(self.deleted)]
            + self.key + self.value
    }

    /// The record as it stands in a data file.
    pub open spec fn encode(self) -> Seq<u8> {
        spec_u32_to_le_bytes(xxh32_digest(self.body(), SEED)) + self.body()
    }
}

/// The record that `bytes` begins with, if it begins with one: the header is
/// complete, key and value are there in full, the flag is 0 or 1, a tombstone
/// has no value, and the checksum matches.
pub open spec fn decode_entry(bytes: Seq<u8>) -> Option<EntryView> {
    if bytes.len() < ENTRY_HEADER_SIZE {
        None
    } else {
        let checksum = spec_u32_from_le_bytes(bytes.subrange(0, 4));
        let sequence = spec_u64_from_le_bytes(bytes.subrange(4, 12));
        let key_len = spec_u16_from_le_bytes(bytes.subrange(12, 14)) as int;
        let value_len = spec_u32_from_le_bytes(bytes.subrange(14, 18)) as int;
        let flag = bytes[18];
        let end = ENTRY_HEADER_SIZE + key_len + value_len;
        if bytes.len() < end || flag > 1 || (flag == 1 && value_len != 0) || xxh32_digest(
            bytes.subrange(4, end),
            SEED,
        ) != checksum {
            None
        } else {
            Some(
                EntryView {
                    sequence,
                    deleted: flag == 1,
                    key: bytes.subrange(ENTRY_HEADER_SIZE as int, ENTRY_HEADER_SIZE + key_len),
                    value: bytes.subrange(ENTRY_HEADER_SIZE + key_len, end),
                },
            )
        }
    }
}

/// The record that starts at offset `pos` of a data file.
pub open spec fn entry_at(data: Seq<u8>, pos: int) -> Option<EntryView> {
    if 0 <= pos <= data.len() {
        decode_entry(data.subrange(pos, data.len() as int))
    } else {
        None
    }
}

/// A record of a data file: a put of `value` under `key`, or a tombstone
/// for `key`.
#[derive(Clone, Debug, PartialEq, Eq)]
pub struct Entry {
    pub sequence: SequenceNumber,
    pub deleted: bool,
    pub key: Vec<u8>,
    pub value: Vec<u8>,
}

impl View for Entry {
    type V = EntryView;

    open spec fn view(&self) -> EntryView {
        EntryView {
            sequence: self.sequence,
            deleted: self.deleted,
            key: self.key@,
            value: self.value@,
        }
    }
}

impl Entry {
    /// A put of `value` under `key`.
    pub fn new(sequence: SequenceNumber, key: &[u8], value: &[u8]) -> (entry: Entry)
        ensures
            entry@ == (EntryView { sequence, deleted: false, key: key@, value: value@ }),
    {
        Entry { sequence, deleted: false, key: slice_to_vec(key), value: slice_to_vec(value) }
    }

    /// A tombstone for `key`.
    pub fn deleted(sequence: SequenceNumber, key: &[u8]) -> (entry: Entry)
        ensures
            entry@ == (EntryView { sequence, deleted: true, key: key@, value: Seq::empty() }),
    {
        Entry { sequence, deleted: true, key: slice_to_vec(key), value: Vec::new() }
    }

    /// Whether the record can be laid out: see [`EntryView::wf`].
    pub fn is_valid(&self) -> (valid: bool)
        ensures
            valid == self@.wf(),
    {
        self.key.len() <= MAX_KEY_LEN && self.value.len() <= MAX_VALUE_LEN && (!self.deleted
            || self.value.len() == 0)
    }

    /// Bytes the record occupies in a data file.
    pub fn size(&self) -> (size: u64)
        requires
            self@.wf(),
        ensures
            size == self@.size(),
    {
        ENTRY_HEADER_SIZE as u64 + self.key.len() as u64 + self.value.len() as u64
    }

    /// The record as it is written to a data file.
    pub fn encode(&self) -> (bytes: Vec<u8>)
        requires
            self@.wf(),
        ensures
            bytes@ == self@.encode(),
    {
        let mut body: Vec<u8> = Vec::new();
        put_u64(&mut body, self.sequence);
        put_u16(&mut body, self.key.len() as u16);
        put_u32(&mut body, self.value.len() as u32);
        body.push(if self.deleted { 1u8 } else { 0u8 });
        append(&mut body, self.key.as_slice());
        append(&mut body, self.value.as_slice());
        assert(body@ =~= self@.body());
        let mut bytes: Vec<u8> = Vec::new();
        put_u32(&mut bytes, xxhash32(body.as_slice()));
        append(&mut bytes, body.as_slice());
        bytes
    }

    /// Reads the record that `bytes` begins with. Whatever follows the record
    /// is ignored.
    pub fn decode(bytes: &[u8]) -> (result: Result<Entry, Error>)
        ensures
            match result {
                Ok(entry) => decode_entry(bytes@) == Some(entry@),
                Err(error) => error == Error::CorruptRecord && decode_entry(bytes@) is None,
            },
    {
        assert(bytes@.len() == bytes.len());
        if bytes.len() < ENTRY_HEADER_SIZE {
            return Err(Error::CorruptRecord);
        }
        let checksum = get_u32(bytes, 0);
        let sequence = get_u64(bytes, 4);
        let key_len = get_u16(bytes, 12);
        let value_len = get_u32(bytes, 14);
        let flag = bytes[18];
        let end: u64 = ENTRY_HEADER_SIZE as u64 + key_len as u64 + value_len as u64;
        if (bytes.len() as u64) < end || flag > 1 || (flag == 1 && value_len != 0) {
            return Err(Error::CorruptRecord);
        }
        let key_end: usize = ENTRY_HEADER_SIZE + key_len as usize;
        if xxhash32(slice_subrange(bytes, 4, end as usize)) != checksum {
            return Err(Error::CorruptRecord);
        }
        Ok(
            Entry {
                sequence,
                deleted: flag == 1,
                key: slice_to_vec(slice_subrange(bytes, ENTRY_HEADER_SIZE, key_end)),
                value: slice_to_vec(slice_subrange(bytes, key_end, end as usize)),
            },
        )
    }
}

/// A hint as a mathematical value.
pub struct HintView {
    pub sequence: u64,
    pub deleted: bool,
    pub key: Seq<u8>,
    pub entry_pos: u64,
    pub entry_size: u64,
}

impl HintView {
    pub open spec fn wf(self) -> bool {
        self.key.len() <= MAX_KEY_LEN
    }

    /// Bytes the hint occupies in a hint file.
    pub open spec fn size(self) -> nat {
        HINT_HEADER_SIZE as nat + self.key.len()
    }

    /// The hint as it stands in a hint file.
    pub open spec fn encode(self) -> Seq<u8> {
        spec_u64_to_le_bytes(self.sequence) + spec_u16_to_le_bytes(self.key.len() as u16)
            + spec_u64_to_le_bytes(self.entry_pos) + spec_u64_to_le_bytes(self.entry_size) + seq![
            flag_byte(self.deleted),
        ] + self.key
    }

    /// The hint that describes `entry` lying at offset `entry_pos`.
    pub open spec fn of_entry(entry: EntryView, entry_pos: u64) -> HintView {
        HintView {
            sequence: entry.sequence,
            deleted: entry.deleted,
            key: entry.key,
            entry_pos,
            entry_size: entry.size() as u64,
        }
    }

    /// Whether the hint describes the record at its offset in `data`: same
    /// sequence, key and flag, and exactly `entry_size` bytes.
    pub open spec fn describes(self, data: Seq<u8>) -> bool {
        match entry_at(data, self.entry_pos as int) {
            Some(entry) => self == HintView::of_entry(entry, self.entry_pos),
            None => false,
        }
    }
}

/// The hint that `bytes` begins with, if it begins with one: the header and
/// the key are there in full and the flag is 0 or 1.
pub open spec fn decode_hint(bytes: Seq<u8>) -> Option<HintView> {
    if bytes.len() < HINT_HEADER_SIZE {
        None
    } else {
        let key_len = spec_u16_from_le_bytes(bytes.subrange(8, 10)) as int;
        let flag = bytes[26];
        if bytes.len() < HINT_HEADER_SIZE + key_len || flag > 1 {
            None
        } else {
            Some(
                HintView {
                    sequence: spec_u64_from_le_bytes(bytes.subrange(0, 8)),
                    deleted: flag == 1,
                    key: bytes.subrange(HINT_HEADER_SIZE as int, HINT_HEADER_SIZE + key_len),
                    entry_pos: spec_u64_from_le_bytes(bytes.subrange(10, 18)),
                    entry_size: spec_u64_from_le_bytes(bytes.subrange(18, 26)),
                },
            )
        }
    }
}

/// A record of a hint file: where an entry lies and what it is about, without
/// its value.
#[derive(Clone, Debug, PartialEq, Eq)]
pub struct Hint {
    pub sequence: SequenceNumber,
    pub deleted: bool,
    pub key: Vec<u8>,
    pub entry_pos: u64,
    pub entry_size: u64,
}

impl View for Hint {
    type V = HintView;

    open spec fn view(&self) -> HintView {
        HintView {
            sequence: self.sequence,
            deleted: self.deleted,
            key: self.key@,
            entry_pos: self.entry_pos,
            entry_size: self.entry_size,
        }
    }
}

impl Hint {
    /// The hint for `entry` lying at offset `entry_pos` of its data file.
    pub fn new(entry: &Entry, entry_pos: u64) -> (hint: Hint)
        requires
            entry@.wf(),
        ensures
            hint@ == HintView::of_entry(entry@, entry_pos),
    {
        Hint {
            sequence: entry.sequence,
            deleted: entry.deleted,
            key: slice_to_vec(entry.key.as_slice()),
            entry_pos,
            entry_size: entry.size(),
        }
    }

    /// Bytes of the entry that the hint points to.
    pub fn entry_size(&self) -> (size: u64)
        ensures
            size == self@.entry_size,
    {
        self.entry_size
    }

    /// The hint as it is written to a hint file.
    pub fn encode(&self) -> (bytes: Vec<u8>)
        requires
            self@.wf(),
        ensures
            bytes@ == self@.encode(),
    {
        let mut bytes: Vec<u8> = Vec::new();
        put_u64(&mut bytes, self.sequence);
        put_u16(&mut bytes, self.key.len() as u16);
        put_u64(&mut bytes, self.entry_pos);
        put_u64(&mut bytes, self.entry_size);
        bytes.push(if self.deleted { 1u8 } else { 0u8 });
        append(&mut bytes, self.key.as_slice());
        assert(bytes@ =~= self@.encode());
        bytes
    }

    /// Reads the hint that `bytes` begins with. Whatever follows the hint is
    /// ignored.
    pub fn decode(bytes: &[u8]) -> (result: Result<Hint, Error>)
        ensures
            match result {
                Ok(hint) => decode_hint(bytes@) == Some(hint@),
                Err(error) => error == Error::CorruptHintFile && decode_hint(bytes@) is None,
            },
    {
        assert(bytes@.len() == bytes.len());
        if bytes.len() < HINT_HEADER_SIZE {
            return Err(Error::CorruptHintFile);
        }
        let sequence = get_u64(bytes, 0);
        let key_len = get_u16(bytes, 8);
        let entry_pos = get_u64(bytes, 10);
        let entry_size = get_u64(bytes, 18);
        let flag = bytes[26];
        if bytes.len() - HINT_HEADER_SIZE < key_len as usize || flag > 1 {
            return Err(Error::CorruptHintFile);
        }
        let end: usize = HINT_HEADER_SIZE + key_len as usize;
        Ok(
            Hint {
                sequence,
                deleted: flag == 1,
                key: slice_to_vec(slice_subrange(bytes, HINT_HEADER_SIZE, end)),
                entry_pos,
                entry_size,
            },
        )
    }
}

/// An encoded record is as long as its size says.
pub proof fn lemma_encoded_entry_len(entry: EntryView)
    ensures
        entry.encode().len() == entry.size(),
{
    lemma_auto_spec_u16_to_from_le_bytes();
    lemma_auto_spec_u32_to_from_le_bytes();
    lemma_auto_spec_u64_to_from_le_bytes();
}

/// An encoded hint is as long as its size says.
pub proof fn lemma_encoded_hint_len(hint: HintView)
    ensures
        hint.encode().len() == hint.size(),
{
    lemma_auto_spec_u16_to_from_le_bytes();
    lemma_auto_spec_u64_to_from_le_bytes();
}

/// Decoding what was encoded gives the record back, whatever follows it.
pub proof fn lemma_decode_encoded_entry(entry: EntryView, rest: Seq<u8>)
    requires
        entry.wf(),
    ensures
        decode_entry(entry.encode() + rest) == Some(entry),
{
    lemma_auto_spec_u16_to_from_le_bytes();
    lemma_auto_spec_u32_to_from_le_bytes();
    lemma_auto_spec_u64_to_from_le_bytes();
    let body = entry.body();
    let bytes = entry.encode() + rest;
    let end = ENTRY_HEADER_SIZE + entry.key.len() + entry.value.len();
    assert(bytes.subrange(0, 4) =~= spec_u32_to_le_bytes(xxh32_digest(body, SEED)));
    assert(bytes.subrange(4, 12) =~= spec_u64_to_le_bytes(entry.sequence));
    assert(bytes.subrange(12, 14) =~= spec_u16_to_le_bytes(entry.key.len() as u16));
    assert(bytes.subrange(14, 18) =~= spec_u32_to_le_bytes(entry.value.len() as u32));
    assert(bytes[18] == flag_byte(entry.deleted));
    assert(bytes.subrange(4, end) =~= body);
    assert(bytes.subrange(ENTRY_HEADER_SIZE as int, ENTRY_HEADER_SIZE + entry.key.len())
        =~= entry.key);
    assert(bytes.subrange(ENTRY_HEADER_SIZE + entry.key.len(), end) =~= entry.value);
}

/// A decoded record is well formed, and the bytes begin with its encoding.
pub proof fn lemma_decoded_entry_is_prefix(bytes: Seq<u8>)
    requires
        decode_entry(bytes) is Some,
    ensures
        decode_entry(bytes).unwrap().wf(),
        decode_entry(bytes).unwrap().size() <= bytes.len(),
        bytes.subrange(0, decode_entry(bytes).unwrap().size() as int) == decode_entry(
            bytes,
        ).unwrap().encode(),
{
    lemma_auto_spec_u16_to_from_le_bytes();
    lemma_auto_spec_u32_to_from_le_bytes();
    lemma_auto_spec_u64_to_from_le_bytes();
    let entry = decode_entry(bytes).unwrap();
    let end = entry.size() as int;
    assert(spec_u32_to_le_bytes(spec_u32_from_le_bytes(bytes.subrange(0, 4))) == bytes.subrange(
        0,
        4,
    ));
    assert(spec_u64_to_le_bytes(spec_u64_from_le_bytes(bytes.subrange(4, 12))) == bytes.subrange(
        4,
        12,
    ));
    assert(spec_u16_to_le_bytes(spec_u16_from_le_bytes(bytes.subrange(12, 14))) == bytes.subrange(
        12,
        14,
    ));
    assert(spec_u32_to_le_bytes(spec_u32_from_le_bytes(bytes.subrange(14, 18))) == bytes.subrange(
        14,
        18,
    ));
    assert(entry.body() =~= bytes.subrange(4, end));
    assert(entry.encode() =~= bytes.subrange(0, end));
}

/// Decoding looks at the record's own bytes only: what follows them can be
/// replaced.
pub proof fn lemma_decode_entry_ignores_rest(bytes: Seq<u8>, other: Seq<u8>)
    requires
        decode_entry(bytes) is Some,
        decode_entry(bytes).unwrap().size() <= other.len(),
        other.subrange(0, decode_entry(bytes).unwrap().size() as int) == bytes.subrange(
            0,
            decode_entry(bytes).unwrap().size() as int,
        ),
    ensures
        decode_entry(other) == decode_entry(bytes),
{
    let entry = decode_entry(bytes).unwrap();
    let size = entry.size() as int;
    lemma_decoded_entry_is_prefix(bytes);
    lemma_decode_encoded_entry(entry, other.subrange(size, other.len() as int));
    assert(other =~= entry.encode() + other.subrange(size, other.len() as int));
}

/// Decoding what was encoded gives the hint back, whatever follows it.
pub proof fn lemma_decode_encoded_hint(hint: HintView, rest: Seq<u8>)
    requires
        hint.wf(),
    ensures
        decode_hint(hint.encode() + rest) == Some(hint),
{
    lemma_auto_spec_u16_to_from_le_bytes();
    lemma_auto_spec_u64_to_from_le_bytes();
    let bytes = hint.encode() + rest;
    assert(bytes.subrange(0, 8) =~= spec_u64_to_le_bytes(hint.sequence));
    assert(bytes.subrange(8, 10) =~= spec_u16_to_le_bytes(hint.key.len() as u16));
    assert(bytes.subrange(10, 18) =~= spec_u64_to_le_bytes(hint.entry_pos));
    assert(bytes.subrange(18, 26) =~= spec_u64_to_le_bytes(hint.entry_size));
    assert(bytes[26] == flag_byte(hint.deleted));
    assert(bytes.subrange(HINT_HEADER_SIZE as int, HINT_HEADER_SIZE + hint.key.len())
        =~= hint.key);
}

/// A decoded hint is well formed, and the bytes begin with its encoding.
pub proof fn lemma_decoded_hint_is_prefix(bytes: Seq<u8>)
    requires
        decode_hint(bytes) is Some,
    ensures
        decode_hint(bytes).unwrap().wf(),
        decode_hint(bytes).unwrap().size() <= bytes.len(),
        bytes.subrange(0, decode_hint(bytes).unwrap().size() as int) == decode_hint(
            bytes,
        ).unwrap().encode(),
{
    lemma_auto_spec_u16_to_from_le_bytes();
    lemma_auto_spec_u64_to_from_le_bytes();
    let hint = decode_hint(bytes).unwrap();
    assert(spec_u64_to_le_bytes(spec_u64_from_le_bytes(bytes.subrange(0, 8))) == bytes.subrange(
        0,
        8,
    ));
    assert(spec_u16_to_le_bytes(spec_u16_from_le_bytes(bytes.subrange(8, 10))) == bytes.subrange(
        8,
        10,
    ));
    assert(spec_u64_to_le_bytes(spec_u64_from_le_bytes(bytes.subrange(10, 18)))
        == bytes.subrange(10, 18));
    assert(spec_u64_to_le_bytes(spec_u64_from_le_bytes(bytes.subrange(18, 26)))
        == bytes.subrange(18, 26));
    assert(hint.encode() =~= bytes.subrange(0, hint.size() as int));
}

} // verus!
