//! A hash map keyed by byte strings.

use crate::xxhash::{xxh64_digest, xxhash64, SEED};
use std::collections::HashMap;
use vstd::prelude::*;
use vstd::slice::*;

verus! {

struct Slot<V> {
    key: Vec<u8>,
    value: V,
}

spec fn slot_of<V>(slots: Seq<Slot<V>>, key: Seq<u8>, i: int) -> bool {
    0 <= i < slots.len() && slots[i].key@ == key
}

spec fn has_key<V>(slots: Seq<Slot<V>>, key: Seq<u8>) -> bool {
    exists|i: int| slot_of(slots, key, i)
}

spec fn index_of<V>(slots: Seq<Slot<V>>, key: Seq<u8>) -> int {
    choose|i: int| slot_of(slots, key, i)
}

spec fn distinct_keys<V>(slots: Seq<Slot<V>>) -> bool {
    forall|i: int, j: int| 0 <= i < j < slots.len() ==> slots[i].key@ != slots[j].key@
}

/// The 64-bit digest by which keys are spread over buckets.
pub open spec fn key_hash(key: Seq<u8>) -> u64 {
    xxh64_digest(key, SEED as u64)
}

/// A bucket as a map from keys to values.
spec fn bucket_view<V>(slots: Seq<Slot<V>>) -> Map<Seq<u8>, V> {
    Map::new(
        |key: Seq<u8>| has_key(slots, key),
        |key: Seq<u8>| slots[index_of(slots, key)].value,
    )
}

/// A bucket holds no key twice, and only keys with the digest it stands
/// under.
spec fn is_bucket<V>(slots: Seq<Slot<V>>, hash: u64) -> bool {
    &&& distinct_keys(slots)
    &&& forall|i: int| 0 <= i < slots.len() ==> key_hash((#[trigger] slots[i]).key@) == hash
}

/// The bucket in which `key` would lie.
spec fn bucket_for<V>(buckets: Map<u64, Vec<Slot<V>>>, key: Seq<u8>) -> Seq<Slot<V>> {
    if buckets.contains_key(key_hash(key)) {
        buckets[key_hash(key)]@
    } else {
        Seq::empty()
    }
}

/// Whether two byte strings are the same.
pub fn bytes_eq(a: &[u8], b: &[u8]) -> (same: bool)
    ensures
        same == (a@ == b@),
{
    assert(a@.len() == a.len() && b@.len() == b.len());
    if a.len() != b.len() {
        return false;
    }
    let mut i: usize = 0;
    while i < a.len()
        invariant
            i <= a.len(),
            a@.len() == a.len() == b.len() == b@.len(),
            forall|j: int| 0 <= j < i ==> a@[j] == b@[j],
        decreases a.len() - i,
    {
        if a[i] != b[i] {
            return false;
        }
        i += 1;
    }
    assert(a@ =~= b@);
    true
}

fn find_slot<V>(slots: &Vec<Slot<V>>, key: &[u8]) -> (found: Option<usize>)
    ensures
        match found {
            Some(i) => slot_of(slots@, key@, i as int),
            None => !has_key(slots@, key@),
        },
{
    let mut i: usize = 0;
    while i < slots.len()
        invariant
            i <= slots.len(),
            forall|j: int| 0 <= j < i ==> slots@[j].key@ != key@,
        decreases slots.len() - i,
    {
        if bytes_eq(slots[i].key.as_slice(), key) {
            return Some(i);
        }
        i += 1;
    }
    assert forall|j: int| !slot_of(slots@, key@, j) by {}
    None
}

/// Sets the value of `key` in a bucket, and returns the one it had.
fn bucket_insert<V: Copy>(slots: &mut Vec<Slot<V>>, key: Vec<u8>, value: V) -> (previous: Option<V>)
    requires
        is_bucket(old(slots)@, key_hash(key@)),
    ensures
        is_bucket(final(slots)@, key_hash(key@)),
        bucket_view(final(slots)@) == bucket_view(old(slots)@).insert(key@, value),
        previous == (if bucket_view(old(slots)@).contains_key(key@) {
            Some(bucket_view(old(slots)@)[key@])
        } else {
            None
        }),
{
    let ghost before = slots@;
    let ghost name = key@;
    match find_slot(slots, key.as_slice()) {
        Some(i) => {
            assert(slot_of(before, name, i as int));
            let previous = slots[i].value;
            slots.set(i, Slot { key, value });
            proof {
                let after = slots@;
                assert forall|k: Seq<u8>, j: int| slot_of(after, k, j) == slot_of(before, k, j) by {}
                assert(slot_of(after, name, i as int));
                assert(distinct_keys(after)) by {
                    assert forall|a: int, b: int| 0 <= a < b < after.len() implies after[a].key@
                        != after[b].key@ by {
                        assert(after[a].key@ == before[a].key@);
                        assert(after[b].key@ == before[b].key@);
                    }
                }
                assert forall|j: int| 0 <= j < after.len() implies key_hash(
                    (#[trigger] after[j]).key@,
                ) == key_hash(name) by {
                    assert(after[j].key@ == before[j].key@);
                }
                assert(bucket_view(after) =~= bucket_view(before).insert(name, value));
            }
            Some(previous)
        },
        None => {
            slots.push(Slot { key, value });
            proof {
                let after = slots@;
                let last = before.len() as int;
                assert(slot_of(after, name, last));
                assert forall|k: Seq<u8>, j: int| slot_of(after, k, j) == (slot_of(before, k, j)
                    || (j == last && k == name)) by {}
                assert(distinct_keys(after)) by {
                    assert forall|a: int, b: int| 0 <= a < b < after.len() implies after[a].key@
                        != after[b].key@ by {
                        assert(after[a].key@ == before[a].key@);
                        if b < before.len() {
                            assert(after[b].key@ == before[b].key@);
                        } else {
                            assert(!slot_of(before, name, a));
                        }
                    }
                }
                assert forall|j: int| 0 <= j < after.len() implies key_hash(
                    (#[trigger] after[j]).key@,
                ) == key_hash(name) by {
                    if j < last {
                        assert(after[j].key@ == before[j].key@);
                    }
                }
                assert(bucket_view(after) =~= bucket_view(before).insert(name, value));
            }
            None
        },
    }
}

/// Drops the value of `key` from a bucket, and returns the one it had.
fn bucket_remove<V: Copy>(slots: &mut Vec<Slot<V>>, key: &[u8]) -> (previous: Option<V>)
    requires
        is_bucket(old(slots)@, key_hash(key@)),
    ensures
        is_bucket(final(slots)@, key_hash(key@)),
        bucket_view(final(slots)@) == bucket_view(old(slots)@).remove(key@),
        previous == (if bucket_view(old(slots)@).contains_key(key@) {
            Some(bucket_view(old(slots)@)[key@])
        } else {
            None
        }),
{
    let ghost before = slots@;
    match find_slot(slots, key) {
        Some(i) => {
            assert(slot_of(before, key@, i as int));
            let slot = slots.remove(i);
            proof {
                let after = slots@;
                assert forall|k: Seq<u8>, j: int| slot_of(after, k, j) == (if j < i {
                    slot_of(before, k, j)
                } else {
                    slot_of(before, k, j + 1)
                }) by {}
                assert(distinct_keys(after)) by {
                    assert forall|a: int, b: int| 0 <= a < b < after.len() implies after[a].key@
                        != after[b].key@ by {
                        assert(after[a].key@ == before[if a < i { a } else { a + 1 }].key@);
                        assert(after[b].key@ == before[if b < i { b } else { b + 1 }].key@);
                    }
                }
                assert forall|j: int| 0 <= j < after.len() implies key_hash(
                    (#[trigger] after[j]).key@,
                ) == key_hash(key@) by {
                    assert(after[j].key@ == before[if j < i { j } else { j + 1 }].key@);
                }
                assert forall|k: Seq<u8>| k != key@ implies (has_key(after, k) == has_key(
                    before,
                    k,
                ) && (has_key(before, k) ==> after[index_of(after, k)].value
                    == before[index_of(before, k)].value)) by {
                    if has_key(before, k) {
                        let j = index_of(before, k);
                        assert(slot_of(after, k, if j < i { j } else { j - 1 }));
                    }
                    if has_key(after, k) {
                        let j = index_of(after, k);
                        assert(slot_of(before, k, if j < i { j } else { j + 1 }));
                    }
                }
                assert(!has_key(after, key@)) by {
                    if has_key(after, key@) {
                        let j = index_of(after, key@);
                        assert(slot_of(before, key@, if j < i { j } else { j + 1 }));
                    }
                }
                assert(bucket_view(after) =~= bucket_view(before).remove(key@));
            }
            Some(slot.value)
        },
        None => {
            assert(bucket_view(before).remove(key@) =~= bucket_view(before));
            None
        },
    }
}

/// A map from byte strings to values: a hash map from the 64-bit digests
/// of the keys to buckets of the keys that share a digest.
pub struct KeyMap<V> {
    buckets: HashMap<u64, Vec<Slot<V>>>,
}

impl<V> KeyMap<V> {
    #[verifier::type_invariant]
    spec fn inv(self) -> bool {
        forall|hash: u64| #[trigger]
            self.buckets@.contains_key(hash) ==> is_bucket(self.buckets@[hash]@, hash)
    }

    /// The map as a mathematical value.
    pub closed spec fn view(&self) -> Map<Seq<u8>, V> {
        Map::new(
            |key: Seq<u8>| bucket_view(bucket_for(self.buckets@, key)).contains_key(key),
            |key: Seq<u8>| bucket_view(bucket_for(self.buckets@, key))[key],
        )
    }

}

impl<V: Copy> KeyMap<V> {
    /// The empty map.
    pub fn new() -> (map: KeyMap<V>)
        ensures
            map@ == Map::<Seq<u8>, V>::empty(),
    {
        let map = KeyMap { buckets: HashMap::new() };
        assert(map@ =~= Map::<Seq<u8>, V>::empty());
        map
    }

    /// The value of `key`, if the map has one.
    pub fn get(&self, key: &[u8]) -> (found: Option<V>)
        ensures
            found == (if self@.contains_key(key@) {
                Some(self@[key@])
            } else {
                None
            }),
    {
        broadcast use vstd::std_specs::hash::group_hash_axioms;

        proof {
            use_type_invariant(self);
        }
        let hash = xxhash64(key);
        match self.buckets.get(&hash) {
            Some(bucket) => match find_slot(bucket, key) {
                Some(i) => {
                    assert(slot_of(bucket@, key@, i as int));
                    Some(bucket[i].value)
                },
                None => None,
            },
            None => None,
        }
    }

    /// Sets the value of `key`, and returns the one it had.
    pub fn insert(&mut self, key: Vec<u8>, value: V) -> (previous: Option<V>)
        ensures
            final(self)@ == old(self)@.insert(key@, value),
            previous == (if old(self)@.contains_key(key@) {
                Some(old(self)@[key@])
            } else {
                None
            }),
    {
        broadcast use vstd::std_specs::hash::group_hash_axioms;

        proof {
            use_type_invariant(&*self);
        }
        let ghost name = key@;
        let ghost before = self.buckets@;
        let hash = xxhash64(key.as_slice());
        let mut buckets: HashMap<u64, Vec<Slot<V>>> = HashMap::new();
        core::mem::swap(&mut self.buckets, &mut buckets);
        let mut bucket = match buckets.remove(&hash) {
            Some(bucket) => bucket,
            None => Vec::new(),
        };
        assert(bucket@ == bucket_for(before, name));
        let previous = bucket_insert(&mut bucket, key, value);
        let ghost filled = bucket@;
        buckets.insert(hash, bucket);
        proof {
            let after = buckets@;
            assert forall|other: u64| #[trigger] after.contains_key(other) implies is_bucket(
                after[other]@,
                other,
            ) by {
                if other != hash {
                    assert(before.contains_key(other));
                }
            }
        }
        self.buckets = buckets;
        proof {
            let after = self.buckets@;
            assert forall|k: Seq<u8>| #[trigger] bucket_for(after, k) == (if key_hash(k) == hash {
                filled
            } else {
                bucket_for(before, k)
            }) by {}
            assert(self@ =~= old(self)@.insert(name, value));
        }
        previous
    }

    /// Drops the value of `key`, and returns the one it had.
    pub fn remove(&mut self, key: &[u8]) -> (previous: Option<V>)
        ensures
            final(self)@ == old(self)@.remove(key@),
            previous == (if old(self)@.contains_key(key@) {
                Some(old(self)@[key@])
            } else {
                None
            }),
    {
        broadcast use vstd::std_specs::hash::group_hash_axioms;

        proof {
            use_type_invariant(&*self);
        }
        let ghost before = self.buckets@;
        let hash = xxhash64(key);
        let mut buckets: HashMap<u64, Vec<Slot<V>>> = HashMap::new();
        core::mem::swap(&mut self.buckets, &mut buckets);
        let mut bucket = match buckets.remove(&hash) {
            Some(bucket) => bucket,
            None => Vec::new(),
        };
        assert(bucket@ == bucket_for(before, key@));
        let previous = bucket_remove(&mut bucket, key);
        let ghost left = bucket@;
        if bucket.len() > 0 {
            buckets.insert(hash, bucket);
        } else {
            assert(left =~= Seq::<Slot<V>>::empty());
        }
        proof {
            let after = buckets@;
            assert forall|other: u64| #[trigger] after.contains_key(other) implies is_bucket(
                after[other]@,
                other,
            ) by {
                if other != hash {
                    assert(before.contains_key(other));
                }
            }
        }
        self.buckets = buckets;
        proof {
            let after = self.buckets@;
            assert forall|k: Seq<u8>| #[trigger] bucket_for(after, k) == (if key_hash(k) == hash {
                left
            } else {
                bucket_for(before, k)
            }) by {}
            assert(self@ =~= old(self)@.remove(key@));
        }
        previous
    }
}

} // verus!
