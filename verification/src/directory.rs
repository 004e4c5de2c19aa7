//! The image of a database directory: the files of its segments, by
//! segment number.

use crate::segment::SegmentView;
use vstd::prelude::*;
use vstd::seq_lib::to_multiset_insert;

verus! {

/// The two files of one segment. A segment whose hint file is missing has
/// `hint: None`.
#[derive(Clone, Debug, PartialEq, Eq)]
pub struct Segment {
    pub file_id: u32,
    pub data: Vec<u8>,
    pub hint: Option<Vec<u8>>,
}

impl View for Segment {
    type V = SegmentView;

    open spec fn view(&self) -> SegmentView {
        SegmentView {
            data: self.data@,
            hint: match self.hint {
                Some(hint) => Some(hint@),
                None => None,
            },
        }
    }
}

/// Ascending, equal numbers allowed.
pub open spec fn is_sorted(ids: Seq<u32>) -> bool {
    forall|i: int, j: int| 0 <= i <= j < ids.len() ==> ids[i] <= ids[j]
}

/// Ascending, no number twice.
pub open spec fn is_strictly_sorted(ids: Seq<u32>) -> bool {
    forall|i: int, j: int| 0 <= i < j < ids.len() ==> ids[i] < ids[j]
}

/// How many of `ids` are not greater than `file_id`.
pub open spec fn rank(ids: Seq<u32>, file_id: u32) -> int
    decreases ids.len(),
{
    if ids.len() == 0 {
        0
    } else {
        rank(ids.drop_last(), file_id) + if ids.last() <= file_id {
            1int
        } else {
            0int
        }
    }
}

/// An ascending list with `file_id` put in, behind the numbers that are not
/// greater.
pub open spec fn sorted_insert(ids: Seq<u32>, file_id: u32) -> Seq<u32> {
    ids.insert(rank(ids, file_id), file_id)
}

/// An ascending list with one occurrence of `file_id` taken out.
pub open spec fn sorted_remove(ids: Seq<u32>, file_id: u32) -> Seq<u32> {
    ids.remove(ids.index_of(file_id))
}

/// In an ascending list the rank of a number is the place where the numbers
/// greater than it begin.
pub proof fn lemma_rank_of_sorted(ids: Seq<u32>, file_id: u32, at: int)
    requires
        is_sorted(ids),
        0 <= at <= ids.len(),
        forall|i: int| 0 <= i < at ==> ids[i] <= file_id,
        forall|i: int| at <= i < ids.len() ==> ids[i] > file_id,
    ensures
        rank(ids, file_id) == at,
    decreases ids.len(),
{
    if ids.len() > 0 {
        let front = ids.drop_last();
        if at == ids.len() {
            lemma_rank_of_sorted(front, file_id, at - 1);
        } else {
            lemma_rank_of_sorted(front, file_id, at);
        }
    }
}

/// The rank of a number in an ascending list parts the numbers that are
/// not greater from those that are, and putting the number in at its rank
/// leaves the list ascending.
pub proof fn lemma_sorted_insert_sorted(ids: Seq<u32>, file_id: u32)
    requires
        is_sorted(ids),
    ensures
        is_sorted(sorted_insert(ids, file_id)),
        0 <= rank(ids, file_id) <= ids.len(),
        forall|i: int| 0 <= i < rank(ids, file_id) ==> ids[i] <= file_id,
        forall|i: int| rank(ids, file_id) <= i < ids.len() ==> ids[i] > file_id,
    decreases ids.len(),
{
    let at = rank(ids, file_id);
    if ids.len() > 0 {
        let front = ids.drop_last();
        let below = rank(front, file_id);
        lemma_sorted_insert_sorted(front, file_id);
        if ids.last() <= file_id {
            if below < front.len() {
                assert(front[below] > file_id);
                assert(ids[below] <= ids[ids.len() - 1]);
            }
            assert(at == ids.len());
            assert forall|i: int| 0 <= i < at implies ids[i] <= file_id by {
                assert(ids[i] <= ids[ids.len() - 1]);
            }
        } else {
            assert(at == below);
            assert forall|i: int| 0 <= i < at implies ids[i] <= file_id by {
                assert(front[i] <= file_id);
            }
            assert forall|i: int| at <= i < ids.len() implies ids[i] > file_id by {
                if i < front.len() {
                    assert(front[i] > file_id);
                }
            }
        }
    }
    let after = sorted_insert(ids, file_id);
    assert forall|i: int, j: int| 0 <= i <= j < after.len() implies after[i] <= after[j] by {
        if i < at && j > at {
            assert(ids[i] <= ids[j - 1]);
        } else if i > at {
            assert(ids[i - 1] <= ids[j - 1]);
        } else if j < at {
            assert(ids[i] <= ids[j]);
        }
    }
}

/// What an ascending list holds once a number is put in.
pub proof fn lemma_sorted_insert_contains(ids: Seq<u32>, file_id: u32)
    requires
        is_sorted(ids),
    ensures
        forall|other: u32|
            sorted_insert(ids, file_id).contains(other) <==> (ids.contains(other) || other
                == file_id),
        is_strictly_sorted(ids) && !ids.contains(file_id) ==> is_strictly_sorted(
            sorted_insert(ids, file_id),
        ),
{
    lemma_sorted_insert_sorted(ids, file_id);
    let at = rank(ids, file_id);
    let after = sorted_insert(ids, file_id);
    assert forall|other: u32| after.contains(other) <==> (ids.contains(other) || other
        == file_id) by {
        if after.contains(other) {
            let i = choose|i: int| 0 <= i < after.len() && after[i] == other;
            if i < at {
                assert(ids[i] == other);
            } else if i > at {
                assert(ids[i - 1] == other);
            }
        }
        if ids.contains(other) {
            let i = choose|i: int| 0 <= i < ids.len() && ids[i] == other;
            assert(after[if i < at { i } else { i + 1 }] == other);
        }
        assert(after[at] == file_id);
    }
    if is_strictly_sorted(ids) && !ids.contains(file_id) {
        assert forall|i: int, j: int| 0 <= i < j < after.len() implies after[i] < after[j] by {
            if i < at && j == at {
                assert(ids.contains(ids[i]));
            } else if i < at && j > at {
                assert(ids[i] <= file_id < ids[j - 1]);
            } else if i == at {
                assert(ids[j - 1] > file_id);
            } else if i > at {
                assert(ids[i - 1] < ids[j - 1]);
            } else {
                assert(ids[i] < ids[j]);
            }
        }
    }
}

/// What a strictly ascending list holds once a number is taken out.
pub proof fn lemma_sorted_remove_contains(ids: Seq<u32>, file_id: u32)
    requires
        is_strictly_sorted(ids),
        ids.contains(file_id),
    ensures
        is_strictly_sorted(sorted_remove(ids, file_id)),
        !sorted_remove(ids, file_id).contains(file_id),
        forall|other: u32|
            sorted_remove(ids, file_id).contains(other) <==> (ids.contains(other) && other
                != file_id),
{
    let at = ids.index_of(file_id);
    let after = sorted_remove(ids, file_id);
    assert(0 <= at < ids.len() && ids[at] == file_id);
    assert forall|i: int, j: int| 0 <= i < j < after.len() implies after[i] < after[j] by {
        assert(after[i] == ids[if i < at { i } else { i + 1 }]);
        assert(after[j] == ids[if j < at { j } else { j + 1 }]);
    }
    assert forall|other: u32| after.contains(other) <==> (ids.contains(other) && other
        != file_id) by {
        if after.contains(other) {
            let i = choose|i: int| 0 <= i < after.len() && after[i] == other;
            let k = if i < at { i } else { i + 1 };
            assert(ids[k] == other);
            if k < at {
                assert(ids[k] < ids[at]);
            } else {
                assert(ids[at] < ids[k]);
            }
        }
        if ids.contains(other) && other != file_id {
            let i = choose|i: int| 0 <= i < ids.len() && ids[i] == other;
            assert(after[if i < at { i } else { i - 1 }] == other);
        }
    }
}

/// In an ascending list it does not matter which occurrence of a number is
/// taken out.
pub proof fn lemma_sorted_remove_any(ids: Seq<u32>, file_id: u32, at: int)
    requires
        is_sorted(ids),
        0 <= at < ids.len(),
        ids[at] == file_id,
    ensures
        ids.remove(at) == sorted_remove(ids, file_id),
        is_sorted(ids.remove(at)),
{
    let other = ids.index_of(file_id);
    assert(0 <= other < ids.len() && ids[other] == file_id);
    assert forall|k: int| (at <= k <= other || other <= k <= at) implies ids[k] == file_id by {
        if at <= k <= other {
            assert(ids[at] <= ids[k] <= ids[other]);
        } else {
            assert(ids[other] <= ids[k] <= ids[at]);
        }
    }
    assert(ids.remove(at) =~= ids.remove(other));
}

/// Puts `file_id` into an ascending list, behind the numbers that are not
/// greater, and returns where it stands.
pub fn insert_sorted(ids: &mut Vec<u32>, file_id: u32) -> (at: usize)
    requires
        is_sorted(old(ids)@),
    ensures
        is_sorted(final(ids)@),
        at <= old(ids)@.len(),
        final(ids)@ == old(ids)@.insert(at as int, file_id),
        final(ids)@ == sorted_insert(old(ids)@, file_id),
        final(ids)@.to_multiset() == old(ids)@.to_multiset().insert(file_id),
        forall|i: int| 0 <= i < at ==> old(ids)@[i] <= file_id,
        forall|i: int| at <= i < old(ids)@.len() ==> old(ids)@[i] > file_id,
{
    let mut at: usize = 0;
    while at < ids.len() && ids[at] <= file_id
        invariant
            at <= ids.len(),
            ids@ == old(ids)@,
            forall|i: int| 0 <= i < at ==> ids@[i] <= file_id,
        decreases ids.len() - at,
    {
        at += 1;
    }
    ids.insert(at, file_id);
    proof {
        lemma_rank_of_sorted(old(ids)@, file_id, at as int);
        to_multiset_insert(old(ids)@, at as int, file_id);
        assert forall|i: int, j: int| 0 <= i <= j < ids@.len() implies ids@[i] <= ids@[j] by {
            if i < at && j > at {
                assert(old(ids)@[i] <= old(ids)@[j - 1]);
            } else if i > at {
                assert(old(ids)@[i - 1] <= old(ids)@[j - 1]);
            } else if j < at {
                assert(old(ids)@[i] <= old(ids)@[j]);
            }
        }
    }
    at
}

spec fn segment_at(segments: Seq<Segment>, file_id: u32, i: int) -> bool {
    0 <= i < segments.len() && segments[i].file_id == file_id
}

spec fn has_segment(segments: Seq<Segment>, file_id: u32) -> bool {
    exists|i: int| segment_at(segments, file_id, i)
}

spec fn index_of_segment(segments: Seq<Segment>, file_id: u32) -> int {
    choose|i: int| segment_at(segments, file_id, i)
}

spec fn distinct_ids(segments: Seq<Segment>) -> bool {
    forall|i: int, j: int|
        0 <= i < j < segments.len() ==> segments[i].file_id != segments[j].file_id
}

/// The segment files of a directory. No segment number occurs twice.
pub struct Directory {
    segments: Vec<Segment>,
}

impl Directory {
    #[verifier::type_invariant]
    spec fn inv(self) -> bool {
        distinct_ids(self.segments@)
    }

    /// The files of each segment, by segment number.
    pub closed spec fn view(&self) -> Map<u32, SegmentView> {
        Map::new(
            |file_id: u32| has_segment(self.segments@, file_id),
            |file_id: u32| self.segments@[index_of_segment(self.segments@, file_id)]@,
        )
    }

    /// The empty directory.
    pub fn new() -> (directory: Directory)
        ensures
            directory@ == Map::<u32, SegmentView>::empty(),
    {
        let directory = Directory { segments: Vec::new() };
        assert(directory@ =~= Map::<u32, SegmentView>::empty());
        directory
    }

    fn find(&self, file_id: u32) -> (found: Option<usize>)
        ensures
            match found {
                Some(i) => segment_at(self.segments@, file_id, i as int),
                None => !has_segment(self.segments@, file_id),
            },
    {
        let mut i: usize = 0;
        while i < self.segments.len()
            invariant
                i <= self.segments.len(),
                forall|j: int| 0 <= j < i ==> self.segments@[j].file_id != file_id,
            decreases self.segments.len() - i,
        {
            if self.segments[i].file_id == file_id {
                return Some(i);
            }
            i += 1;
        }
        assert forall|j: int| !segment_at(self.segments@, file_id, j) by {}
        None
    }

    /// The files of segment `file_id`, if the directory has them.
    pub fn get(&self, file_id: u32) -> (found: Option<&Segment>)
        ensures
            match found {
                Some(segment) => self@.contains_key(file_id) && segment@ == self@[file_id]
                    && segment.file_id == file_id,
                None => !self@.contains_key(file_id),
            },
    {
        proof {
            use_type_invariant(self);
        }
        match self.find(file_id) {
            Some(i) => {
                assert(segment_at(self.segments@, file_id, i as int));
                Some(&self.segments[i])
            },
            None => None,
        }
    }

    /// Puts the files of a segment into the directory, in place of those it
    /// had under the same number.
    pub fn insert(&mut self, segment: Segment)
        ensures
            final(self)@ == old(self)@.insert(segment.file_id, segment@),
    {
        proof {
            use_type_invariant(&*self);
        }
        let ghost before = self.segments@;
        let ghost file_id = segment.file_id;
        let ghost files = segment@;
        let found = self.find(segment.file_id);
        let mut segments: Vec<Segment> = Vec::new();
        core::mem::swap(&mut self.segments, &mut segments);
        match found {
            Some(i) => {
                assert(segment_at(before, file_id, i as int));
                segments.set(i, segment);
                assert(distinct_ids(segments@)) by {
                    assert forall|a: int, b: int| 0 <= a < b < segments@.len() implies segments@[a].file_id
                        != segments@[b].file_id by {
                        assert(segments@[a].file_id == before[a].file_id);
                        assert(segments@[b].file_id == before[b].file_id);
                    }
                }
                self.segments = segments;
                proof {
                    let after = self.segments@;
                    assert forall|id: u32, j: int| segment_at(after, id, j) == segment_at(
                        before,
                        id,
                        j,
                    ) by {}
                    assert(segment_at(after, file_id, i as int));
                    assert(self@ =~= old(self)@.insert(file_id, files));
                }
            },
            None => {
                segments.push(segment);
                assert(distinct_ids(segments@)) by {
                    assert forall|a: int, b: int| 0 <= a < b < segments@.len() implies segments@[a].file_id
                        != segments@[b].file_id by {
                        assert(segments@[a].file_id == before[a].file_id);
                        if b < before.len() {
                            assert(segments@[b].file_id == before[b].file_id);
                        } else {
                            assert(!segment_at(before, file_id, a));
                        }
                    }
                }
                self.segments = segments;
                proof {
                    let after = self.segments@;
                    let last = before.len() as int;
                    assert(segment_at(after, file_id, last));
                    assert forall|id: u32, j: int| segment_at(after, id, j) == (segment_at(
                        before,
                        id,
                        j,
                    ) || (j == last && id == file_id)) by {}
                    assert(self@ =~= old(self)@.insert(file_id, files));
                }
            },
        }
    }

    /// Takes the files of segment `file_id` out of the directory.
    pub fn remove(&mut self, file_id: u32) -> (removed: Option<Segment>)
        ensures
            final(self)@ == old(self)@.remove(file_id),
            match removed {
                Some(segment) => old(self)@.contains_key(file_id) && segment@ == old(
                    self,
                )@[file_id] && segment.file_id == file_id,
                None => !old(self)@.contains_key(file_id),
            },
    {
        proof {
            use_type_invariant(&*self);
        }
        let ghost before = self.segments@;
        match self.find(file_id) {
            Some(i) => {
                assert(segment_at(before, file_id, i as int));
                let mut segments: Vec<Segment> = Vec::new();
                core::mem::swap(&mut self.segments, &mut segments);
                let segment = segments.remove(i);
                assert(distinct_ids(segments@)) by {
                    assert forall|a: int, b: int| 0 <= a < b < segments@.len() implies segments@[a].file_id
                        != segments@[b].file_id by {
                        assert(segments@[a].file_id == before[if a < i { a } else { a + 1 }].file_id);
                        assert(segments@[b].file_id == before[if b < i { b } else { b + 1 }].file_id);
                    }
                }
                self.segments = segments;
                proof {
                    let after = self.segments@;
                    assert forall|id: u32, j: int| segment_at(after, id, j) == (if j < i {
                        segment_at(before, id, j)
                    } else {
                        segment_at(before, id, j + 1)
                    }) by {}
                    assert forall|id: u32| id != file_id implies (has_segment(after, id)
                        == has_segment(before, id) && (has_segment(before, id) ==> after[index_of_segment(
                        after,
                        id,
                    )] == before[index_of_segment(before, id)])) by {
                        if has_segment(before, id) {
                            let j = index_of_segment(before, id);
                            assert(segment_at(after, id, if j < i { j } else { j - 1 }));
                        }
                        if has_segment(after, id) {
                            let j = index_of_segment(after, id);
                            assert(segment_at(before, id, if j < i { j } else { j + 1 }));
                        }
                    }
                    assert(!has_segment(after, file_id)) by {
                        if has_segment(after, file_id) {
                            let j = index_of_segment(after, file_id);
                            assert(segment_at(before, file_id, if j < i { j } else { j + 1 }));
                        }
                    }
                    assert(self@ =~= old(self)@.remove(file_id));
                }
                Some(segment)
            },
            None => {
                assert(self@ =~= old(self)@.remove(file_id));
                None
            },
        }
    }

    /// The numbers of the segments, ascending.
    pub fn file_ids(&self) -> (ids: Vec<u32>)
        ensures
            is_strictly_sorted(ids@),
            forall|file_id: u32| ids@.contains(file_id) <==> self@.contains_key(file_id),
    {
        proof {
            use_type_invariant(self);
        }
        let mut ids: Vec<u32> = Vec::new();
        let mut i: usize = 0;
        while i < self.segments.len()
            invariant
                i <= self.segments.len(),
                distinct_ids(self.segments@),
                is_strictly_sorted(ids@),
                forall|file_id: u32|
                    ids@.contains(file_id) <==> exists|j: int|
                        0 <= j < i && segment_at(self.segments@, file_id, j),
            decreases self.segments.len() - i,
        {
            let file_id = self.segments[i].file_id;
            let ghost before = ids@;
            assert(!before.contains(file_id)) by {
                if before.contains(file_id) {
                    let j = choose|j: int| 0 <= j < i && segment_at(self.segments@, file_id, j);
                    assert(self.segments@[j].file_id != self.segments@[i as int].file_id);
                }
            }
            assert(is_sorted(before));
            let at = insert_sorted(&mut ids, file_id);
            proof {
                assert forall|a: int, b: int| 0 <= a < b < ids@.len() implies ids@[a] < ids@[b] by {
                    let x = if a < at { before[a] } else if a == at { file_id } else { before[a - 1] };
                    let y = if b < at { before[b] } else if b == at { file_id } else { before[b - 1] };
                    assert(ids@[a] == x && ids@[b] == y);
                    if a < at && b == at {
                        assert(before.contains(before[a]));
                    }
                }
                assert forall|id: u32| ids@.contains(id) <==> exists|j: int|
                    0 <= j < i + 1 && segment_at(self.segments@, id, j) by {
                    if ids@.contains(id) {
                        let k = choose|k: int| 0 <= k < ids@.len() && ids@[k] == id;
                        if k != at {
                            assert(before[if k < at { k } else { k - 1 }] == id);
                            assert(before.contains(id));
                            let j = choose|j: int| 0 <= j < i && segment_at(self.segments@, id, j);
                            assert(0 <= j < i + 1 && segment_at(self.segments@, id, j));
                        } else {
                            assert(segment_at(self.segments@, id, i as int));
                        }
                    }
                    if exists|j: int| 0 <= j < i + 1 && segment_at(self.segments@, id, j) {
                        let j = choose|j: int| 0 <= j < i + 1 && segment_at(self.segments@, id, j);
                        if j < i {
                            assert(before.contains(id));
                            let k = choose|k: int| 0 <= k < before.len() && before[k] == id;
                            assert(ids@[if k < at { k } else { k + 1 }] == id);
                        } else {
                            assert(ids@[at as int] == id);
                        }
                    }
                }
            }
            i += 1;
        }
        proof {
            assert forall|file_id: u32| ids@.contains(file_id) <==> self@.contains_key(
                file_id,
            ) by {
                if self@.contains_key(file_id) {
                    let j = index_of_segment(self.segments@, file_id);
                    assert(0 <= j < i && segment_at(self.segments@, file_id, j));
                }
            }
        }
        ids
    }
}

} // verus!
