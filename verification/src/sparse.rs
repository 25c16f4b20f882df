//! The sparse store: segments of a potentially huge file that are in memory.

use crate::demem::Demem;
use crate::runs::{
    bytes, clip, covers, filled, held, joined, lemma_clip, lemma_clip_is, lemma_holder,
    lemma_joined, lemma_joined_empty, lemma_loaded, lemma_overwrite, lemma_resplit, lemma_split,
    loaded, ordered, overwrite, prefix_at, resplit, spans, split, suffix_at, tidy, touching, Run,
};
use crate::storing::{Cleaning, Storing};
use crate::surroundings::{around, first_past, inside, Surroundings};
use std::ops::Range;
use vstd::arithmetic::power2::{lemma2_to64, lemma_pow2_unfold, pow2};
use vstd::prelude::*;
use vstd::slice::slice_subrange;

verus! {

/// A contiguous range of a file, with its bytes.
pub struct SparseSegment {
    pub offset: i64,
    pub data: Demem,
}

impl View for SparseSegment {
    type V = Run;

    open spec fn view(&self) -> Run {
        Run { at: self.offset as int, data: self.data@ }
    }
}

/// Holds sparse segments of data loaded from a potentially huge file.
pub struct SparseData {
    pub segments: Vec<SparseSegment>,
    /// If set to another value, it should only increase!
    pub file_size: i64,
    /// Start dropping far away data to keep memory usage under this amount.
    pub max_loaded: usize,
    /// How many bytes to move from one segment to another in a single batch.
    pub merge_batch_size: usize,
    /// After a segment is this bytes long, start considering that growing a vector
    /// of this length could take way too long, and instead allocate a new copy
    /// ahead of time.
    pub realloc_threshold: usize,
}

impl View for SparseData {
    type V = Seq<Run>;

    open spec fn view(&self) -> Seq<Run> {
        Seq::new(self.segments@.len(), |i: int| self.segments@[i]@)
    }
}

impl SparseData {
    /// The segments are in order, and each of them is sound.
    pub open spec fn wf(self) -> bool {
        &&& forall|i: int| 0 <= i < self.segments@.len() ==> (#[trigger] self.segments@[i]).data.wf()
        &&& ordered(self@)
        &&& self.file_size >= 0
    }

    /// Whether everything but the segments is as in `other`.
    pub open spec fn same_limits(self, other: SparseData) -> bool {
        &&& self.file_size == other.file_size
        &&& self.max_loaded == other.max_loaded
        &&& self.merge_batch_size == other.merge_batch_size
        &&& self.realloc_threshold == other.realloc_threshold
    }

    /// A store with nothing loaded, for a file of unknown size.
    pub fn new(max_loaded: usize, merge_batch_size: usize, realloc_threshold: usize) -> (r:
        SparseData)
        ensures
            r.wf(),
            r@ == Seq::<Run>::empty(),
            r.file_size == 0,
            r.max_loaded == max_loaded,
            r.merge_batch_size == merge_batch_size,
            r.realloc_threshold == realloc_threshold,
    {
        let r = SparseData {
            segments: Vec::new(),
            file_size: 0,
            max_loaded,
            merge_batch_size,
            realloc_threshold,
        };
        proof {
            assert(r@ =~= Seq::<Run>::empty());
        }
        r
    }

    /// The offset right after the segment at `i`.
    pub fn end_of(&self, i: usize) -> (r: i64)
        requires
            self.wf(),
            i < self.segments@.len(),
        ensures
            r == self@[i as int].end(),
    {
        assert(self@[i as int].end() <= i64::MAX);
        assert(self.segments@[i as int].data.wf());
        self.segments[i].offset + self.segments[i].data.len() as i64
    }

    /// Find the first segment that ends at or after the given offset.
    /// Returns the amount of segments if there is no segment after the given offset.
    pub fn find_after(&self, offset: i64) -> (r: usize)
        requires
            self.wf(),
        ensures
            r <= self@.len(),
            forall|k: int| 0 <= k < r ==> (#[trigger] self@[k]).end() < offset,
            r < self@.len() ==> self@[r as int].end() >= offset,
    {
        let mut i: usize = 0;
        while i < self.segments.len()
            invariant
                self.wf(),
                i <= self@.len(),
                forall|k: int| 0 <= k < i ==> (#[trigger] self@[k]).end() < offset,
            decreases self@.len() - i,
        {
            if self.end_of(i) >= offset {
                return i;
            }
            i = i + 1;
        }
        i
    }

    /// Find the last segment that starts at or before the given offset.
    /// Returns the amount of segments if there is no segment before the given offset.
    pub fn find_before(&self, offset: i64) -> (r: usize)
        requires
            self.wf(),
        ensures
            r <= self@.len(),
            r < self@.len() ==> self@[r as int].at <= offset && (forall|k: int|
                r < k < self@.len() ==> (#[trigger] self@[k]).at > offset),
            r == self@.len() ==> forall|k: int|
                0 <= k < self@.len() ==> (#[trigger] self@[k]).at > offset,
    {
        let mut i: usize = self.segments.len();
        while i > 0
            invariant
                self.wf(),
                i <= self@.len(),
                forall|k: int| i <= k < self@.len() ==> (#[trigger] self@[k]).at > offset,
            decreases i,
        {
            i = i - 1;
            assert(self@[i as int] == self.segments@[i as int]@);
            if self.segments[i].offset <= offset {
                return i;
            }
        }
        self.segments.len()
    }

    /// If the given offset is contained in a segment, yield its left and right edges.
    /// If it's not, yield the inner edges of the surrounding segments.
    /// If there is no segment to a given side, yield the start/end of the file.
    pub fn find_surroundings(&self, offset: i64) -> (r: Surroundings)
        requires
            self.wf(),
        ensures
            around(spans(self@), self.file_size as int, offset as int, r),
    {
        let last: i64 = self.file_size - 1;
        let p: i64 = if offset <= last {
            offset
        } else {
            last
        };
        let mut i: usize = 0;
        let mut prev: i64 = 0;
        while i < self.segments.len()
            invariant
                self.wf(),
                p == inside(self.file_size as int, offset as int),
                i <= self@.len(),
                forall|k: int| 0 <= k < i ==> (#[trigger] self@[k]).end() <= p,
                prev == if i == 0 {
                    0
                } else {
                    self@[i - 1].end()
                },
            decreases self@.len() - i,
        {
            let end: i64 = self.end_of(i);
            assert(self@[i as int] == self.segments@[i as int]@);
            if end > p {
                let start: i64 = self.segments[i].offset;
                proof {
                    assert(first_past(
                        spans(self@),
                        i as int,
                        inside(self.file_size as int, offset as int),
                    ));
                }
                if start <= p {
                    // Offset is contained in this segment
                    return Surroundings::In(start, end);
                } else {
                    // This segment is the first segment after the given offset
                    return Surroundings::Out(prev, start);
                }
            }
            prev = end;
            i = i + 1;
        }
        proof {
            assert(first_past(
                        spans(self@),
                        i as int,
                        inside(self.file_size as int, offset as int),
                    ));
        }
        Surroundings::Out(prev, self.file_size)
    }

    /// Find the longest contiguous segment of data starting at `at`.
    pub fn longest_prefix(&self, starting_at: i64) -> (r: &[u8])
        requires
            self.wf(),
        ensures
            r@ == prefix_at(self@, starting_at as int),
    {
        let i: usize = self.find_before(starting_at);
        if i < self.segments.len() {
            assert(self.segments@[i as int].data.wf());
            assert(self@[i as int] == self.segments@[i as int]@);
            let s: &[u8] = self.segments[i].data.as_slice();
            if starting_at < self.end_of(i) {
                proof {
                    lemma_holder(self@, i as int, starting_at as int);
                }
                let skip: usize = (starting_at - self.segments[i].offset) as usize;
                proof {
                    assert(s@.subrange(skip as int, s@.len() as int) =~= s@.skip(skip as int));
                }
                return slice_subrange(s, skip, s.len());
            }
            proof {
                assert forall|j: int| !covers(self@, j, starting_at as int) by {
                    if covers(self@, j, starting_at as int) {
                        if j < i {
                            assert(self@[j].end() <= self@[i as int].at);
                        }
                    }
                }
            }
            let n: usize = s.len();
            let r: &[u8] = slice_subrange(s, n, n);
            proof {
                assert(r@ =~= Seq::<u8>::empty());
            }
            return r;
        }
        let r: &[u8] = &[];
        proof {
            assert(r@ =~= Seq::<u8>::empty());
            assert forall|j: int| !covers(self@, j, starting_at as int) by {}
        }
        r
    }

    /// Find the longest contiguous segment of data ending at `at`.
    pub fn longest_suffix(&self, ending_at: i64) -> (r: &[u8])
        requires
            self.wf(),
        ensures
            r@ == suffix_at(self@, ending_at as int),
    {
        let i: usize = self.find_after(ending_at);
        let ghost last = ending_at - 1;
        if i < self.segments.len() && self.segments[i].offset < ending_at {
            assert(self.segments@[i as int].data.wf());
            assert(self@[i as int] == self.segments@[i as int]@);
            proof {
                lemma_holder(self@, i as int, last);
            }
            let s: &[u8] = self.segments[i].data.as_slice();
            assert(ending_at - self@[i as int].at <= s.len());
            let n: usize = (ending_at - self.segments[i].offset) as usize;
            proof {
                assert(s@.subrange(0, n as int) =~= s@.take(n as int));
            }
            return slice_subrange(s, 0, n);
        }
        let r: &[u8] = &[];
        proof {
            assert(r@ =~= Seq::<u8>::empty());
            assert forall|j: int| !covers(self@, j, last) by {
                if covers(self@, j, last) && i < self@.len() && i < j {
                    assert(self@[i as int] == self.segments@[i as int]@);
                    assert(self@[i as int].end() <= self@[j].at);
                }
            }
        }
        r
    }

    /// Cuts off what the segment at `i` holds from `offset` on, where no later
    /// segment starts at or before `offset`. Returns how many segments are left
    /// of `offset`.
    fn trim_end(&mut self, i: usize, offset: i64) -> (r: usize)
        requires
            old(self).wf(),
            filled(old(self)@),
            i < old(self)@.len(),
            old(self)@[i as int].at <= offset,
            forall|k: int| i < k < old(self)@.len() ==> (#[trigger] old(self)@[k]).at > offset,
        ensures
            final(self).same_limits(*old(self)),
            final(self)@.len() == old(self)@.len(),
            forall|k: int|
                0 <= k < final(self)@.len() ==> (#[trigger] final(self).segments@[k]).data.wf(),
            forall|k: int|
                0 <= k < final(self)@.len() && k != i ==> #[trigger] final(self)@[k] == old(
                    self,
                )@[k],
            i <= r <= i + 1,
            forall|k: int|
                0 <= k < r ==> #[trigger] final(self)@[k] == old(self)@[k].cut(0, offset as int)
                    && final(self)@[k].data.len() > 0,
            forall|k: int|
                r <= k < old(self)@.len() ==> (#[trigger] old(self)@[k]).cut(
                    0,
                    offset as int,
                ).data.len() == 0,
    {
        let ghost runs = self@;
        let seg_end: i64 = self.end_of(i);
        let ghost was = self.segments@[i as int];
        assert(runs[i as int] == was@);
        assert(was.data.wf());
        if seg_end > offset {
            // Remove duplicate data
            let seg_len: usize = self.segments[i].data.len();
            assert(seg_end - offset <= seg_len);
            self.segments[i].data.consume_right((seg_end - offset) as usize);
        }
        assert(self.segments@[i as int].data.wf());
        proof {
            assert(self@[i as int] == self.segments@[i as int]@);
            assert(self@[i as int].data =~= runs[i as int].cut(0, offset as int).data);
            assert forall|k: int| 0 <= k < i implies #[trigger] self@[k] == runs[k].cut(
                0,
                offset as int,
            ) && self@[k].data.len() > 0 by {
                assert(runs[k].end() <= runs[i as int].at);
                assert(self@[k] == runs[k]);
                assert(self@[k].data =~= runs[k].cut(0, offset as int).data);
            }
        }
        assert(i < self.segments.len());
        // Only remove segment if all data was overwritten
        if self.segments[i].data.is_empty() {
            i
        } else {
            i + 1
        }
    }

    /// Cuts off what the segment at `j` holds before `end`, where `j` is the first
    /// segment that ends at or after `end`. Returns the index of the first segment
    /// that is right of `end`.
    fn trim_start(&mut self, j: usize, end: i64) -> (r: usize)
        requires
            forall|k: int|
                0 <= k < old(self)@.len() ==> (#[trigger] old(self).segments@[k]).data.wf(),
            j < old(self)@.len(),
            0 <= old(self)@[j as int].at,
            end <= old(self)@[j as int].end() <= i64::MAX,
            forall|k: int|
                j < k < old(self)@.len() ==> old(self)@[j as int].end() <= (#[trigger] old(
                    self,
                )@[k]).at && old(self)@[k].end() <= i64::MAX,
            forall|k: int| j <= k < old(self)@.len() ==> (#[trigger] old(self)@[k]).data.len() > 0,
        ensures
            final(self).same_limits(*old(self)),
            final(self)@.len() == old(self)@.len(),
            forall|k: int|
                0 <= k < final(self)@.len() ==> (#[trigger] final(self).segments@[k]).data.wf(),
            forall|k: int|
                0 <= k < final(self)@.len() && k != j ==> #[trigger] final(self)@[k] == old(
                    self,
                )@[k],
            j <= r <= j + 1,
            r > j ==> old(self)@[j as int].cut(end as int, i64::MAX as int).data.len() == 0,
            forall|k: int|
                r <= k < final(self)@.len() ==> #[trigger] final(self)@[k] == old(self)@[k].cut(
                    end as int,
                    i64::MAX as int,
                ) && final(self)@[k].data.len() > 0,
    {
        let ghost runs = self@;
        let ghost was = self.segments@[j as int];
        assert(runs[j as int] == was@);
        assert(was.data.wf());
        if self.segments[j].offset < end {
            // Remove duplicate data
            let overlap: i64 = end - self.segments[j].offset;
            let seg_len: usize = self.segments[j].data.len();
            assert(overlap <= seg_len);
            self.segments[j].data.consume_left(overlap as usize);
            self.segments[j].offset = end;
        }
        assert(self.segments@[j as int].data.wf());
        proof {
            assert(self@[j as int] == self.segments@[j as int]@);
            assert(self@[j as int].data =~= runs[j as int].cut(end as int, i64::MAX as int).data);
            assert forall|k: int| j < k < runs.len() implies #[trigger] self@[k] == runs[k].cut(
                end as int,
                i64::MAX as int,
            ) && self@[k].data.len() > 0 by {
                assert(self@[k] == runs[k]);
                assert(self@[k].data =~= runs[k].cut(end as int, i64::MAX as int).data);
            }
        }
        assert(j < self.segments.len());
        // Only remove segment if all data was overwritten
        if self.segments[j].data.is_empty() {
            j + 1
        } else {
            j
        }
    }

    /// Puts a segment in the place of those from `i` up to `j`.
    fn splice(&mut self, i: usize, j: usize, new: SparseSegment)
        requires
            i <= j <= old(self)@.len(),
            forall|k: int|
                0 <= k < old(self)@.len() ==> (#[trigger] old(self).segments@[k]).data.wf(),
            new.data.wf(),
        ensures
            final(self).same_limits(*old(self)),
            final(self)@ == old(self)@.take(i as int) + seq![new@] + old(self)@.skip(j as int),
            forall|k: int|
                0 <= k < final(self)@.len() ==> (#[trigger] final(self).segments@[k]).data.wf(),
    {
        let ghost whole = self@;
        let mut left: usize = j - i;
        while left > 0
            invariant
                self.same_limits(*old(self)),
                i + left <= j,
                j <= whole.len(),
                self.segments@.len() + (j - i - left) == whole.len(),
                forall|k: int| 0 <= k < i ==> (#[trigger] self.segments@[k])@ == whole[k],
                forall|k: int|
                    i + left <= k < self.segments@.len() ==> (#[trigger] self.segments@[k])@
                        == whole[k + (j - i - left)],
                forall|k: int|
                    0 <= k < self.segments@.len() ==> (#[trigger] self.segments@[k]).data.wf(),
            decreases left,
        {
            let _ = self.segments.remove(i);
            left = left - 1;
        }
        self.segments.insert(i, new);
        proof {
            assert(self@ =~= whole.take(i as int) + seq![new@] + whole.skip(j as int));
        }
    }

    /// Copy the next batch of the bytes that the segment at `i` holds from `m` on to the end
    /// of `tail`, which starts like them. Returns whether all of them are there.
    pub fn copy_tail(&self, i: usize, m: i64, tail: &mut Demem) -> (done: bool)
        requires
            self.wf(),
            i < self@.len(),
            self@[i as int].at <= m <= self@[i as int].end(),
            old(tail).wf(),
            old(tail)@.len() <= self@[i as int].end() - m,
            old(tail)@ == self@[i as int].data.skip(m - self@[i as int].at).take(
                old(tail)@.len() as int,
            ),
        ensures
            final(tail).wf(),
            final(tail)@ == self@[i as int].data.skip(m - self@[i as int].at).take(
                final(tail)@.len() as int,
            ),
            final(tail)@.len() == if old(tail)@.len() + self.merge_batch_size
                <= self@[i as int].end() - m {
                old(tail)@.len() + self.merge_batch_size
            } else {
                self@[i as int].end() - m
            },
            done == (final(tail)@.len() == self@[i as int].end() - m),
    {
        assert(self.segments@[i as int].data.wf());
        assert(self@[i as int] == self.segments@[i as int]@);
        let s: &[u8] = self.segments[i].data.as_slice();
        let len: usize = s.len();
        assert(m - self@[i as int].at + tail@.len() <= len);
        let from: usize = (m - self.segments[i].offset) as usize + tail.len();
        let to: usize = if self.merge_batch_size <= len - from {
            from + self.merge_batch_size
        } else {
            len
        };
        tail.extend_right(slice_subrange(s, from, to));
        proof {
            let rest = s@.skip(m - self@[i as int].at);
            assert(tail@ =~= rest.take(tail@.len() as int));
        }
        to == len
    }

    /// Splits the segment at `i` in two at `m`, where `tail` holds what comes after that.
    pub fn put_tail(&mut self, i: usize, m: i64, tail: Demem)
        requires
            old(self).wf(),
            filled(old(self)@),
            i < old(self)@.len(),
            old(self)@[i as int].at < m < old(self)@[i as int].end(),
            tail.wf(),
            tail@ == old(self)@[i as int].data.skip(m - old(self)@[i as int].at),
        ensures
            final(self).wf(),
            filled(final(self)@),
            final(self).same_limits(*old(self)),
            final(self)@ == split(old(self)@, i as int, m as int),
    {
        let ghost runs = self@;
        proof {
            lemma_split(runs, i as int, m as int);
        }
        assert(runs[i as int] == self.segments@[i as int]@);
        assert(self.segments@[i as int].data.wf());
        let mut left: SparseSegment = self.segments.remove(i);
        left.data.consume_right(tail.len());
        let right = SparseSegment { offset: m, data: tail };
        proof {
            assert(left@.data =~= runs[i as int].data.take(m - runs[i as int].at));
        }
        self.segments.insert(i, right);
        self.segments.insert(i, left);
        proof {
            assert(self@ =~= split(runs, i as int, m as int));
        }
    }

    /// Splits the segment at `i` in two at `m`.
    fn split_segment(&mut self, i: usize, m: i64)
        requires
            old(self).wf(),
            filled(old(self)@),
            i < old(self)@.len(),
            old(self)@[i as int].at < m < old(self)@[i as int].end(),
        ensures
            final(self).wf(),
            filled(final(self)@),
            final(self).same_limits(*old(self)),
            final(self)@ == split(old(self)@, i as int, m as int),
    {
        assert(self@[i as int] == self.segments@[i as int]@);
        assert(self.segments@[i as int].data.wf());
        let len: usize = self.segments[i].data.len();
        let k: usize = (m - self.segments[i].offset) as usize;
        let mut tail: Demem = Demem::new();
        tail.extend_right(slice_subrange(self.segments[i].data.as_slice(), k, len));
        proof {
            assert(tail@ =~= self@[i as int].data.skip(k as int));
        }
        self.put_tail(i, m, tail);
    }

    /// Finds the last segment that starts at or before `offset`, and splits off what it
    /// holds after `end`.
    fn isolate(&mut self, offset: i64, end: i64) -> (i: usize)
        requires
            old(self).wf(),
            filled(old(self)@),
            0 <= offset < end,
        ensures
            final(self).wf(),
            filled(final(self)@),
            final(self).same_limits(*old(self)),
            clip(final(self)@, 0, offset as int) == clip(old(self)@, 0, offset as int),
            clip(final(self)@, end as int, i64::MAX as int) == clip(
                old(self)@,
                end as int,
                i64::MAX as int,
            ),
            i <= final(self)@.len(),
            i < final(self)@.len() ==> final(self)@[i as int].at <= offset,
            i < final(self)@.len() ==> final(self)@[i as int].end() <= end,
            i < final(self)@.len() ==> forall|k: int|
                i < k < final(self)@.len() ==> (#[trigger] final(self)@[k]).at > offset,
            i == final(self)@.len() ==> forall|k: int|
                0 <= k < final(self)@.len() ==> (#[trigger] final(self)@[k]).at > offset,
    {
        let i: usize = self.find_before(offset);
        if i < self.segments.len() {
            let ghost runs = self@;
            assert(runs[i as int] == self.segments@[i as int]@);
            if self.end_of(i) > end {
                self.split_segment(i, end);
                proof {
                    lemma_split(runs, i as int, end as int);
                    assert(self@[i as int].end() == end);
                    assert forall|k: int| i < k < self@.len() implies (#[trigger] self@[k]).at
                        > offset by {
                        if k > i + 1 {
                            assert(self@[k] == runs[k - 1]);
                        }
                    }
                }
            }
        }
        i
    }

    /// Cuts `[offset, end)` out of the segments. Returns which segments lie in between
    /// what is left before it and what is left after it.
    fn make_way(&mut self, offset: i64, end: i64) -> (r: (usize, usize))
        requires
            old(self).wf(),
            filled(old(self)@),
            0 <= offset < end,
        ensures
            final(self).same_limits(*old(self)),
            forall|k: int|
                0 <= k < final(self)@.len() ==> (#[trigger] final(self).segments@[k]).data.wf(),
            r.0 <= r.1 <= final(self)@.len(),
            final(self)@.take(r.0 as int) == clip(old(self)@, 0, offset as int),
            final(self)@.skip(r.1 as int) == clip(old(self)@, end as int, i64::MAX as int),
    {
        let mut i: usize = self.isolate(offset, end);
        let ghost runs = self@;
        let mut j: usize = self.find_after(end);
        if i < self.segments.len() {
            if j == i {
                // Nothing of this segment is left after the range
                j = i + 1;
            }
            i = self.trim_end(i, offset);
        } else {
            i = 0;
        }
        let ghost half = self@;
        proof {
            lemma_clip_is(runs, half.take(i as int), 0, i as int, 0, offset as int);
        }
        if j < self.segments.len() {
            assert(half[j as int] == runs[j as int]);
            j = self.trim_start(j, end);
        }
        let ghost whole = self@;
        proof {
            assert forall|k: int| j <= k < runs.len() implies (#[trigger] runs[k]).cut(
                end as int,
                i64::MAX as int,
            ) == whole.skip(j as int)[k - j] by {
                assert(half[k] == runs[k]);
            }
            assert forall|k: int| 0 <= k < j implies (#[trigger] runs[k]).cut(
                end as int,
                i64::MAX as int,
            ).data.len() == 0 by {
                assert(half[k] == half[k]);
            }
            lemma_clip_is(
                runs,
                whole.skip(j as int),
                j as int,
                runs.len() as int,
                end as int,
                i64::MAX as int,
            );
            assert(whole.take(i as int) =~= half.take(i as int));
        }
        (i, j)
    }

    /// Inserts the given data into the given offset.
    /// If the given data overlaps with previous segments, the previous segments
    /// will be partially (or completely) discarded to make space for the new
    /// data.
    /// The data will be inserted as a fresh segment, without merging with
    /// adjacent segments.
    /// `merge_segments` should be called afterwards to maintain the soft
    /// invariant that no segments are touching without being merged.
    pub fn insert_segment(&mut self, offset: i64, data: Vec<u8>) -> (r: usize)
        requires
            old(self).wf(),
            filled(old(self)@),
            data@.len() > 0,
            0 <= offset,
            offset + data@.len() <= i64::MAX,
        ensures
            final(self).wf(),
            filled(final(self)@),
            final(self).same_limits(*old(self)),
            final(self)@ == overwrite(old(self)@, Run { at: offset as int, data: data@ }),
            r == clip(old(self)@, 0, offset as int).len(),
            r < final(self)@.len(),
            final(self)@[r as int] == (Run { at: offset as int, data: data@ }),
    {
        let ghost runs = self@;
        let ghost new = Run { at: offset as int, data: data@ };
        let end: i64 = offset + data.len() as i64;
        let (i, j): (usize, usize) = self.make_way(offset, end);
        // Remove covered segments, and replace with the new segment
        self.splice(i, j, SparseSegment { offset, data: Demem::from(data) });
        proof {
            assert(self@ =~= overwrite(runs, new));
            lemma_overwrite(runs, new);
        }
        i
    }

    /// The segment that a merge of those at `l_idx` and `l_idx + 1` moves into.
    pub open spec fn target(self, l_idx: int, into_left: bool) -> Demem {
        if into_left {
            self.segments@[l_idx].data
        } else {
            self.segments@[l_idx + 1].data
        }
    }

    /// Whether the segments at `l_idx` and `l_idx + 1` are to be merged in this way, where
    /// the one that is moved into has `capacity` bytes of memory.
    pub open spec fn planned(
        self,
        l_idx: int,
        force_into_left: Option<bool>,
        capacity: usize,
        plan: MergePlan,
    ) -> bool {
        let l = self@[l_idx].data.len();
        let r = self@[l_idx + 1].data.len();
        let target = self.target(l_idx, plan.into_left);
        let incoming = l + r - target@.len();
        let spare = if plan.into_left {
            capacity - target.left_room() - target@.len()
        } else {
            target.left_room() as int
        };
        &&& plan.into_left == match force_into_left {
            Some(into_left) => into_left,
            None => r <= l,
        }
        &&& plan.room is Some <==> capacity + incoming >= self.realloc_threshold && spare < incoming
            && l + r <= isize::MAX
        &&& plan.room matches Some(room) ==> roomy(room as int, (l + r) as int)
    }

    /// Decide how to merge the segments at `l_idx` and `l_idx + 1`, given how much memory
    /// the left and the right one have.
    pub fn plan_merge_from(
        &self,
        l_idx: usize,
        force_into_left: Option<bool>,
        l_cap: usize,
        r_cap: usize,
    ) -> (plan: MergePlan)
        requires
            self.wf(),
            touching(self@, l_idx as int),
            l_cap >= self.segments@[l_idx as int].data.left_room() + self@[l_idx as int].data.len(),
        ensures
            self.planned(
                l_idx as int,
                force_into_left,
                if plan.into_left {
                    l_cap
                } else {
                    r_cap
                },
                plan,
            ),
    {
        assert(l_idx + 1 < self.segments.len());
        assert(self.segments@[l_idx as int].data.wf() && self.segments@[l_idx + 1].data.wf());
        assert(self@[l_idx as int] == self.segments@[l_idx as int]@);
        assert(self@[l_idx + 1] == self.segments@[l_idx + 1]@);
        let l: &Demem = &self.segments[l_idx].data;
        let r: &Demem = &self.segments[l_idx + 1].data;
        // Determine whether it's cheaper to move into the left or right segments
        let into_left: bool = match force_into_left {
            Some(into_left) => into_left,
            None => r.len() <= l.len(),
        };
        let realloc: bool = if into_left {
            let spare: usize = l_cap - l.spare_left() - l.len();
            worth_moving(l_cap, spare, r.len(), self.realloc_threshold)
        } else {
            worth_moving(r_cap, r.spare_left(), l.len(), self.realloc_threshold)
        };
        let room: Option<usize> = if realloc {
            room_for(l.len(), r.len())
        } else {
            None
        };
        MergePlan { into_left, room }
    }

    /// Decide how to merge the segments at `l_idx` and `l_idx + 1`. How much memory they
    /// have depends on the allocator.
    pub fn plan_merge(&self, l_idx: usize, force_into_left: Option<bool>) -> (r: MergePlan)
        requires
            self.wf(),
            touching(self@, l_idx as int),
        ensures
            exists|capacity: usize|
                {
                    &&& #[trigger] self.planned(l_idx as int, force_into_left, capacity, r)
                    &&& capacity >= self.target(l_idx as int, r.into_left).left_room()
                        + self.target(l_idx as int, r.into_left)@.len()
                },
    {
        assert(l_idx + 1 < self.segments.len());
        assert(self.segments@[l_idx as int].data.wf() && self.segments@[l_idx + 1].data.wf());
        assert(self@[l_idx as int] == self.segments@[l_idx as int]@);
        let l_cap: usize = self.segments[l_idx].data.capacity();
        let r_cap: usize = self.segments[l_idx + 1].data.capacity();
        self.plan_merge_from(l_idx, force_into_left, l_cap, r_cap)
    }

    /// Put an empty segment beside the one that a merge moves into, so that it
    /// moves into the new one first.
    pub fn begin_move(&mut self, l_idx: usize, into_left: bool, data: Demem)
        requires
            old(self).wf(),
            touching(old(self)@, l_idx as int),
            data.wf(),
            data@.len() == 0,
        ensures
            final(self).wf(),
            final(self).same_limits(*old(self)),
            final(self).segments@ == old(self).segments@.insert(
                if into_left {
                    l_idx as int
                } else {
                    l_idx + 2
                },
                SparseSegment {
                    offset: (if into_left {
                        old(self)@[l_idx as int].at
                    } else {
                        old(self)@[l_idx + 1].end()
                    }) as i64,
                    data,
                },
            ),
            into_left ==> final(self)@ == old(self)@.insert(
                l_idx as int,
                Run { at: old(self)@[l_idx as int].at, data: Seq::empty() },
            ),
            !into_left ==> final(self)@ == old(self)@.insert(
                l_idx + 2,
                Run { at: old(self)@[l_idx + 1].end(), data: Seq::empty() },
            ),
    {
        let ghost runs = self@;
        assert(l_idx + 1 < self.segments.len());
        assert(runs[l_idx as int] == self.segments@[l_idx as int]@);
        assert(data@ =~= Seq::<u8>::empty());
        if into_left {
            let offset: i64 = self.segments[l_idx].offset;
            self.segments.insert(l_idx, SparseSegment { offset, data });
            proof {
                lemma_insert_empty(runs, l_idx as int, offset as int);
                assert(self@ =~= runs.insert(
                    l_idx as int,
                    Run { at: offset as int, data: Seq::empty() },
                ));
            }
        } else {
            let offset: i64 = self.end_of(l_idx + 1);
            self.segments.insert(l_idx + 2, SparseSegment { offset, data });
            proof {
                lemma_insert_empty(runs, l_idx + 2, offset as int);
                assert(self@ =~= runs.insert(
                    l_idx + 2,
                    Run { at: offset as int, data: Seq::empty() },
                ));
            }
        }
    }

    /// Move one batch of bytes between the segments at `l_idx` and `l_idx + 1`.
    /// Returns whether nothing is left to move.
    pub fn merge_batch(&mut self, l_idx: usize, into_left: bool) -> (done: bool)
        requires
            old(self).wf(),
            touching(old(self)@, l_idx as int),
        ensures
            final(self).wf(),
            final(self).same_limits(*old(self)),
            final(self)@ == resplit(
                old(self)@,
                l_idx as int,
                old(self)@[l_idx as int].data.len() + moved(
                    old(self)@,
                    l_idx as int,
                    into_left,
                    old(self).merge_batch_size as int,
                ),
            ),
            into_left ==> done == (final(self)@[l_idx + 1].data.len() == 0),
            !into_left ==> done == (final(self)@[l_idx as int].data.len() == 0),
    {
        let ghost runs = self@;
        let batch: usize = self.merge_batch_size;
        assert(l_idx + 1 < self.segments.len());
        assert(runs[l_idx as int] == self.segments@[l_idx as int]@);
        assert(runs[l_idx + 1] == self.segments@[l_idx + 1]@);
        assert(self.segments@[l_idx as int].data.wf() && self.segments@[l_idx + 1].data.wf());
        assert(runs[l_idx as int].end() <= i64::MAX && runs[l_idx + 1].end() <= i64::MAX);
        let ghost ldata = runs[l_idx as int].data;
        let ghost rdata = runs[l_idx + 1].data;
        let ghost segs = self.segments@;
        let done: bool;
        let (left, right) = self.segments.as_mut_slice().split_at_mut(l_idx + 1);
        let l: &mut SparseSegment = &mut left[l_idx];
        let r: &mut SparseSegment = &mut right[0];
        if into_left {
            // Merge from right to left
            let n: usize = if batch <= r.data.len() {
                batch
            } else {
                r.data.len()
            };
            l.data.extend_right(slice_subrange(r.data.as_slice(), 0, n));
            r.data.consume_left(n);
            r.offset = r.offset + n as i64;
            done = r.data.is_empty();
            proof {
                assert(l.data@ =~= (ldata + rdata).take(ldata.len() + n));
                assert(r.data@ =~= (ldata + rdata).skip(ldata.len() + n));
            }
        } else {
            // Merge from left to right
            let len: usize = l.data.len();
            let n: usize = if batch <= len {
                batch
            } else {
                len
            };
            r.data.extend_left(slice_subrange(l.data.as_slice(), len - n, len));
            r.offset = r.offset - n as i64;
            l.data.consume_right(n);
            done = l.data.is_empty();
            proof {
                assert(l.data@ =~= (ldata + rdata).take(ldata.len() - n));
                assert(r.data@ =~= (ldata + rdata).skip(ldata.len() - n));
            }
        }
        proof {
            let count = ldata.len() + moved(runs, l_idx as int, into_left, batch as int);
            lemma_resplit(runs, l_idx as int, count);
            assert(forall|k: int|
                0 <= k < segs.len() && k != l_idx && k != l_idx + 1 ==> #[trigger] self.segments@[k]
                    == segs[k]);
            assert(self@ =~= resplit(runs, l_idx as int, count));
        }
        done
    }

    /// Remove the segment that a merge has emptied. It is handed out because
    /// dropping a large buffer can take long.
    pub fn finish_merge(&mut self, l_idx: usize, into_left: bool) -> (empty: SparseSegment)
        requires
            old(self).wf(),
            touching(old(self)@, l_idx as int),
            into_left ==> old(self)@[l_idx + 1].data.len() == 0,
            !into_left ==> old(self)@[l_idx as int].data.len() == 0,
        ensures
            final(self).wf(),
            final(self).same_limits(*old(self)),
            final(self)@ == joined(old(self)@, l_idx as int),
            empty@.data.len() == 0,
            empty == old(self).segments@[if into_left {
                l_idx + 1
            } else {
                l_idx as int
            }],
    {
        let ghost runs = self@;
        assert(l_idx + 1 < self.segments.len());
        assert(runs[l_idx as int] == self.segments@[l_idx as int]@);
        assert(runs[l_idx + 1] == self.segments@[l_idx + 1]@);
        proof {
            lemma_joined(runs, l_idx as int);
            lemma_joined_empty(runs, l_idx as int);
        }
        let at: usize = if into_left {
            l_idx + 1
        } else {
            l_idx
        };
        let empty: SparseSegment = self.segments.remove(at);
        proof {
            assert(self@ =~= runs.remove(at as int));
        }
        empty
    }

    /// Merge two adjacent segments, assuming they touch right on the edges.
    pub fn merge_segments(&mut self, l_idx: usize, force_into_left: Option<bool>)
        requires
            old(self).wf(),
            touching(old(self)@, l_idx as int),
            old(self).merge_batch_size > 0,
        ensures
            final(self).wf(),
            final(self).same_limits(*old(self)),
            final(self)@ == joined(old(self)@, l_idx as int),
    {
        let task: Storing = Storing::merging(self, l_idx, force_into_left, false);
        task.run(self);
    }

    /// Inserts and merges the given data range.
    pub fn insert_data(&mut self, offset: i64, data: Vec<u8>)
        requires
            old(self).wf(),
            tidy(old(self)@),
            old(self).merge_batch_size > 0,
            0 <= offset,
            offset + data@.len() <= i64::MAX,
        ensures
            final(self).wf(),
            tidy(final(self)@),
            final(self).same_limits(*old(self)),
            final(self)@ == loaded(old(self)@, offset as int, data@),
    {
        proof {
            lemma_loaded(self@, offset as int, data@);
        }
        let task: Storing = Storing::Insert { offset, data };
        task.run(self);
    }

    /// Whether the segments can have this much memory each: room for what they hold and
    /// for what they keep free on their left.
    pub open spec fn may_hold(self, caps: Seq<usize>) -> bool {
        &&& caps.len() == self@.len()
        &&& forall|k: int|
            0 <= k < caps.len() ==> (#[trigger] caps[k]) >= self.segments@[k].data.left_room()
                + self@[k].data.len()
    }

    /// How many bytes of memory each segment has, live or spare. How many spare bytes
    /// there are depends on the allocator.
    pub fn capacities(&self) -> (r: Vec<usize>)
        requires
            self.wf(),
        ensures
            self.may_hold(r@),
    {
        let mut caps: Vec<usize> = Vec::new();
        let mut i: usize = 0;
        while i < self.segments.len()
            invariant
                self.wf(),
                i <= self@.len(),
                caps@.len() == i,
                forall|k: int|
                    0 <= k < i ==> (#[trigger] caps@[k]) >= self.segments@[k].data.left_room()
                        + self@[k].data.len(),
            decreases self@.len() - i,
        {
            assert(self.segments@[i as int].data.wf());
            assert(self@[i as int] == self.segments@[i as int]@);
            caps.push(self.segments[i].data.capacity());
            i = i + 1;
        }
        caps
    }

    /// How many bytes of memory are held, live or spare, as far as they can be
    /// counted. How many spare bytes there are depends on the allocator.
    pub fn total_capacity(&self) -> (r: usize)
        requires
            self.wf(),
        ensures
            exists|caps: Seq<usize>| #[trigger] self.may_hold(caps) && r == capped(caps),
            self@.len() == 0 ==> r == 0,
            r < usize::MAX ==> r >= live(self@),
    {
        let caps: Vec<usize> = self.capacities();
        proof {
            lemma_added(self@, caps@);
        }
        add_up(caps.as_slice())
    }

    /// Drop everything outside `keep`. The buffers of the segments that are gone
    /// are handed out, because freeing a large buffer can take long.
    pub fn clip_to(&mut self, keep: Range<i64>) -> (freed: Vec<Demem>)
        requires
            old(self).wf(),
        ensures
            final(self).wf(),
            final(self).same_limits(*old(self)),
            final(self)@ == clip(old(self)@, keep.start as int, keep.end as int),
            freed@.len() == old(self)@.len() - final(self)@.len(),
            forall|k: int| 0 <= k < freed@.len() ==> (#[trigger] freed@[k])@.len() == 0,
    {
        let ghost runs = self@;
        let ghost lo = keep.start as int;
        let ghost hi = keep.end as int;
        let mut freed: Vec<Demem> = Vec::new();
        let mut i: usize = 0;
        let ghost mut n: int = 0;
        proof {
            assert(self@ =~= clip(runs.take(0), lo, hi) + runs.skip(0));
        }
        while i < self.segments.len()
            invariant
                self.same_limits(*old(self)),
                lo == keep.start,
                hi == keep.end,
                ordered(runs),
                0 <= n <= runs.len(),
                i == clip(runs.take(n), lo, hi).len(),
                self@ == clip(runs.take(n), lo, hi) + runs.skip(n),
                freed@.len() + i == n,
                forall|k: int|
                    0 <= k < self.segments@.len() ==> (#[trigger] self.segments@[k]).data.wf(),
                forall|k: int| 0 <= k < freed@.len() ==> (#[trigger] freed@[k])@.len() == 0,
            decreases runs.len() - n,
        {
            let ghost done = clip(runs.take(n), lo, hi);
            let ghost before = self@;
            proof {
                assert(before.len() == done.len() + runs.len() - n);
                assert(before[i as int] == runs.skip(n)[0]);
                assert(before[i as int] == self.segments@[i as int]@);
                assert(runs.take(n + 1).drop_last() =~= runs.take(n));
                assert(runs.take(n + 1).last() == runs[n]);
                assert(runs[n].at >= 0 && runs[n].end() <= i64::MAX);
            }
            let mut seg: SparseSegment = self.segments.remove(i);
            let ghost cut = seg@.cut(lo, hi);
            proof {
                assert(self@ =~= before.remove(i as int));
                assert(before.remove(i as int) =~= done + runs.skip(n + 1));
            }
            assert(seg.data.wf());
            assert(seg@ == runs[n]);
            // Remove the prefix that is outside `keep`
            let len: usize = seg.data.len();
            assert(seg.offset + len <= i64::MAX);
            let lconsume: i64 = if keep.start <= seg.offset {
                0
            } else if keep.start - seg.offset >= len as i64 {
                len as i64
            } else {
                keep.start - seg.offset
            };
            seg.data.consume_left(lconsume as usize);
            seg.offset = seg.offset + lconsume;
            // Remove the suffix that is outside `keep`
            let len: usize = seg.data.len();
            let rconsume: i64 = if keep.end <= seg.offset {
                len as i64
            } else if seg.offset + len as i64 <= keep.end {
                0
            } else {
                seg.offset + len as i64 - keep.end
            };
            seg.data.consume_right(rconsume as usize);
            proof {
                assert(seg@.data =~= cut.data);
            }
            // Drop the segment if it is empty
            if seg.data.is_empty() {
                freed.push(seg.data);
            } else {
                proof {
                    assert(seg@ == cut);
                }
                self.segments.insert(i, seg);
                proof {
                    assert(self@ =~= (done + runs.skip(n + 1)).insert(i as int, cut));
                    assert(self@ =~= done.push(cut) + runs.skip(n + 1));
                }
                i = i + 1;
            }
            proof {
                n = n + 1;
            }
        }
        proof {
            assert(n == runs.len());
            assert(runs.take(n) =~= runs);
            assert(self@ =~= clip(runs, lo, hi));
            lemma_clip(runs, lo, hi);
        }
        freed
    }

    /// Copy the next batch of bytes of a segment to the end of `new`, which starts
    /// like the segment. Returns whether all of them are there.
    pub fn copy_batch(&self, i: usize, new: &mut Demem) -> (done: bool)
        requires
            self.wf(),
            i < self@.len(),
            old(new).wf(),
            old(new)@.len() <= self@[i as int].data.len(),
            old(new)@ == self@[i as int].data.take(old(new)@.len() as int),
        ensures
            final(new).wf(),
            final(new)@ == self@[i as int].data.take(final(new)@.len() as int),
            final(new)@.len() == if old(new)@.len() + self.merge_batch_size
                <= self@[i as int].data.len() {
                old(new)@.len() + self.merge_batch_size
            } else {
                self@[i as int].data.len() as int
            },
            done == (final(new)@.len() == self@[i as int].data.len()),
            final(new).left_room() == old(new).left_room(),
    {
        assert(self.segments@[i as int].data.wf());
        assert(self@[i as int] == self.segments@[i as int]@);
        let s: &[u8] = self.segments[i].data.as_slice();
        let from: usize = new.len();
        let to: usize = if self.merge_batch_size <= s.len() - from {
            from + self.merge_batch_size
        } else {
            s.len()
        };
        new.extend_right(slice_subrange(s, from, to));
        proof {
            assert(new@ =~= s@.take(to as int));
        }
        to == s.len()
    }

    /// Swap the buffer of a segment for another one with the same bytes. The old
    /// buffer is handed out.
    pub fn swap_data(&mut self, i: usize, new: Demem) -> (r: Demem)
        requires
            old(self).wf(),
            i < old(self)@.len(),
            new.wf(),
            new@ == old(self)@[i as int].data,
        ensures
            final(self).wf(),
            final(self).same_limits(*old(self)),
            final(self)@ == old(self)@,
            final(self).segments@ == old(self).segments@.update(
                i as int,
                SparseSegment { offset: old(self).segments@[i as int].offset, data: new },
            ),
            r == old(self).segments@[i as int].data,
            r@ == new@,
    {
        let ghost runs = self@;
        let ghost segs = self.segments@;
        assert(self@[i as int] == self.segments@[i as int]@);
        let offset: i64 = self.segments[i].offset;
        self.segments.push(SparseSegment { offset, data: new });
        let r: SparseSegment = self.segments.swap_remove(i);
        proof {
            assert(self.segments@ =~= segs.update(i as int, SparseSegment { offset, data: new }));
            assert(self@ =~= runs);
        }
        r.data
    }

    /// Free the spare memory of a segment.
    pub fn shrink_segment(&mut self, i: usize)
        requires
            old(self).wf(),
            i < old(self)@.len(),
        ensures
            final(self).wf(),
            final(self).same_limits(*old(self)),
            final(self)@ == old(self)@,
            final(self).segments@[i as int].data.left_room() == 0,
            forall|k: int|
                0 <= k < old(self)@.len() && k != i ==> #[trigger] final(self).segments@[k]
                    == old(self).segments@[k],
    {
        let ghost runs = self@;
        assert(self@[i as int] == self.segments@[i as int]@);
        assert(self.segments@[i as int].data.wf());
        self.segments[i].data.shrink_to_fit();
        proof {
            assert(self@ =~= runs);
        }
    }

    /// Whether the segments before `n` keep no memory free on their left.
    pub open spec fn tight_upto(self, n: int) -> bool {
        forall|k: int| 0 <= k < n ==> (#[trigger] self.segments@[k]).data.left_room() == 0
    }

    /// Whether this is what is left of `was` after memory was cleaned up, where `total_cap`
    /// bytes of it were in use: all of it, up to the target memory usage, or else what lies
    /// in the range to keep, with no memory kept free on the left.
    pub open spec fn cleaned(self, was: SparseData, total_cap: usize, keep: Range<i64>) -> bool {
        if total_cap <= was.max_loaded {
            self@ == was@ && self.segments == was.segments
        } else {
            &&& self@ == clip(was@, keep.start as int, keep.end as int)
            &&& self.tight_upto(self@.len() as int)
        }
    }

    /// Clean up memory if we are over the target memory usage, given how much is
    /// in use.
    /// Only guarantees keeping the given offset range in memory.
    pub fn cleanup_from(&mut self, total_cap: usize, keep: Range<i64>)
        requires
            old(self).wf(),
            old(self).merge_batch_size > 0,
        ensures
            final(self).wf(),
            final(self).same_limits(*old(self)),
            final(self).cleaned(*old(self), total_cap, keep),
            // Nothing goes up to the target memory usage, and nothing in the range to keep does
            total_cap <= old(self).max_loaded ==> final(self)@ == old(self)@,
            total_cap > old(self).max_loaded ==> forall|p: int| #[trigger]
                held(final(self)@, p) <==> held(old(self)@, p) && keep.start <= p < keep.end,
    {
        let task: Cleaning = Cleaning::Clip { total_cap, keep };
        let ghost lo = keep.start as int;
        let ghost hi = keep.end as int;
        let ghost runs = self@;
        task.run(self);
        proof {
            lemma_clip(runs, lo, hi);
            assert forall|p: int| #[trigger]
                held(clip(runs, lo, hi), p) <==> held(runs, p) && lo <= p < hi by {
                assert(bytes(clip(runs, lo, hi)).contains_key(p) <==> lo <= p < hi && bytes(
                    runs,
                ).contains_key(p));
            }
        }
    }

    /// Clean up memory if we are over the target memory usage.
    /// Only guarantees keeping the given offset range in memory. Whether the rest
    /// goes depends on how much memory the allocator gave, and so does not follow
    /// from the loaded bytes alone.
    pub fn cleanup(&mut self, keep: Range<i64>)
        requires
            old(self).wf(),
            old(self).merge_batch_size > 0,
        ensures
            final(self).wf(),
            final(self).same_limits(*old(self)),
            exists|caps: Seq<usize>| #[trigger]
                old(self).may_hold(caps) && final(self).cleaned(*old(self), capped(caps), keep),
            final(self)@ == old(self)@ || final(self)@ == clip(
                old(self)@,
                keep.start as int,
                keep.end as int,
            ),
            old(self).max_loaded == usize::MAX ==> final(self)@ == old(self)@,
            live(old(self)@) > old(self).max_loaded && old(self).max_loaded < usize::MAX
                ==> final(self)@ == clip(old(self)@, keep.start as int, keep.end as int)
                && final(self).tight_upto(final(self)@.len() as int),
    {
        let total_cap: usize = self.total_capacity();
        self.cleanup_from(total_cap, keep);
    }

    /// Whether the segment at `i` ends where the next one starts.
    pub fn touches(&self, i: usize) -> (r: bool)
        requires
            self.wf(),
        ensures
            r == touching(self@, i as int),
    {
        if i < self.segments.len() && i + 1 < self.segments.len() {
            assert(self@[i + 1] == self.segments@[i + 1]@);
            self.end_of(i) == self.segments[i + 1].offset
        } else {
            false
        }
    }
}

/// The sum of some sizes.
pub open spec fn added(sizes: Seq<usize>) -> nat
    decreases sizes.len(),
{
    if sizes.len() == 0 {
        0
    } else {
        added(sizes.drop_last()) + sizes.last() as nat
    }
}

/// The sum of some sizes, as far as it can be counted.
pub open spec fn capped(sizes: Seq<usize>) -> usize {
    if added(sizes) <= usize::MAX {
        added(sizes) as usize
    } else {
        usize::MAX
    }
}

/// Adds up some sizes, as far as the sum can be counted.
pub fn add_up(sizes: &[usize]) -> (r: usize)
    ensures
        r == capped(sizes@),
{
    let mut total: usize = 0;
    let mut i: usize = 0;
    while i < sizes.len()
        invariant
            i <= sizes@.len(),
            total == capped(sizes@.take(i as int)),
        decreases sizes@.len() - i,
    {
        proof {
            assert(sizes@.take(i + 1).drop_last() =~= sizes@.take(i as int));
        }
        total = total.saturating_add(sizes[i]);
        i = i + 1;
    }
    proof {
        assert(sizes@.take(i as int) =~= sizes@);
    }
    total
}

/// Memory for each run is memory for all of them.
pub proof fn lemma_added(runs: Seq<Run>, caps: Seq<usize>)
    requires
        caps.len() == runs.len(),
        forall|k: int| 0 <= k < caps.len() ==> (#[trigger] caps[k]) >= runs[k].data.len(),
    ensures
        added(caps) >= live(runs),
    decreases runs.len(),
{
    if runs.len() > 0 {
        lemma_added(runs.drop_last(), caps.drop_last());
        assert(caps[caps.len() - 1] >= runs[runs.len() - 1].data.len());
    }
}

/// How many bytes the runs hold.
pub open spec fn live(runs: Seq<Run>) -> nat
    decreases runs.len(),
{
    if runs.len() == 0 {
        0
    } else {
        live(runs.drop_last()) + runs.last().data.len()
    }
}

/// How a merge of two segments goes.
pub struct MergePlan {
    /// Whether the right segment moves into the left one.
    pub into_left: bool,
    /// The size of a new segment to move into, where growing the old one in place
    /// could take too long.
    pub room: Option<usize>,
}

/// Whether memory that holds `capacity` bytes, `spare` of them free on the side
/// where `incoming` bytes are to be added, is so large that it should not grow in
/// place.
pub fn worth_moving(capacity: usize, spare: usize, incoming: usize, threshold: usize) -> (r: bool)
    ensures
        r == (capacity + incoming >= threshold && spare < incoming),
{
    let large: bool = match capacity.checked_add(incoming) {
        Some(sum) => sum >= threshold,
        None => true,
    };
    large && spare < incoming
}

/// Whether this is the smallest power of two that fits `total` bytes, or `total` itself where
/// every such power of two is larger than any allocation can be.
pub open spec fn roomy(room: int, total: int) -> bool {
    &&& total <= room <= isize::MAX
    &&& if exists|e: nat| total <= #[trigger] pow2(e) <= isize::MAX {
        exists|e: nat| #[trigger] pow2(e) == room && (e == 0 || room < 2 * total)
    } else {
        room == total
    }
}

/// The smallest power of two that fits `a + b` bytes, or `a + b` itself where that
/// would be larger than any allocation can be. There is none where not even `a + b`
/// bytes can be allocated.
pub fn room_for(a: usize, b: usize) -> (r: Option<usize>)
    ensures
        r is Some <==> a + b <= isize::MAX,
        r matches Some(room) ==> roomy(room as int, a + b),
{
    let total: usize = match a.checked_add(b) {
        Some(total) => total,
        None => {
            return None;
        },
    };
    if total > isize::MAX as usize {
        return None;
    }
    let mut room: usize = 1;
    let ghost mut e: nat = 0;
    proof {
        lemma2_to64();
    }
    while room < total
        invariant
            a + b == total,
            total <= isize::MAX,
            1 <= room <= isize::MAX,
            room == pow2(e),
            e > 0 ==> room < 2 * total,
        decreases 2 * total - room,
    {
        if room > isize::MAX as usize / 2 {
            proof {
                assert forall|f: nat| total <= #[trigger] pow2(f) implies pow2(f) > isize::MAX by {
                    if f <= e {
                        lemma_pow2_grows(f, e);
                    } else {
                        lemma_pow2_unfold(e + 1);
                        lemma_pow2_grows(e + 1, f);
                    }
                }
            }
            return Some(total);
        }
        proof {
            lemma_pow2_unfold(e + 1);
            e = e + 1;
        }
        room = room * 2;
    }
    Some(room)
}

/// A power of two is no smaller than an earlier one.
proof fn lemma_pow2_grows(e: nat, f: nat)
    requires
        e <= f,
    ensures
        pow2(e) <= pow2(f),
    decreases f,
{
    if e < f {
        lemma_pow2_unfold(f);
        lemma_pow2_grows(e, (f - 1) as nat);
    }
}

/// By how many bytes the left of the two runs at `i` and `i + 1` grows in one
/// batch: as many as the other run has, up to the batch size.
pub open spec fn moved(runs: Seq<Run>, i: int, into_left: bool, batch: int) -> int {
    let n = if into_left {
        runs[i + 1].data.len() as int
    } else {
        runs[i].data.len() as int
    };
    let n = if batch <= n {
        batch
    } else {
        n
    };
    if into_left {
        n
    } else {
        -n
    }
}

/// An empty run at the edge of another one keeps the runs in order.
proof fn lemma_insert_empty(runs: Seq<Run>, i: int, at: int)
    requires
        ordered(runs),
        0 <= i <= runs.len(),
        0 <= at <= i64::MAX,
        i > 0 ==> runs[i - 1].end() <= at,
        i < runs.len() ==> at <= runs[i].at,
    ensures
        ordered(runs.insert(i, Run { at, data: Seq::empty() })),
{
    let out = runs.insert(i, Run { at, data: Seq::empty() });
    assert(forall|k: int| 0 <= k < i ==> #[trigger] out[k] == runs[k]);
    assert(forall|k: int| i < k < out.len() ==> #[trigger] out[k] == runs[k - 1]);
    assert forall|a: int, b: int| 0 <= a < b < out.len() implies (#[trigger] out[a]).end() <= (
    #[trigger] out[b]).at by {
        if a < i - 1 {
            assert(runs[a].end() <= runs[i - 1].at);
        }
        if b > i + 1 {
            assert(runs[i].end() <= runs[b - 1].at);
        }
    }
}

} // verus!
