//! The line map: known positions of byte offsets in a potentially huge file.

use crate::layout::UNITS;
use crate::marks::{lawful, precedes, regular, sound, width, Mark, LIMIT};
use crate::position::{FilePos, FileRect, FileVec};
use crate::surroundings::{around, first_past, inside, Surroundings};
use std::collections::VecDeque;
use vstd::prelude::*;

verus! {

/// The largest line base that a new segment gets.
pub const MAX_BASE_Y: i64 = 0xFFFF;

/// The largest column base that a new segment gets.
pub const MAX_BASE_X: i128 = 0xFF_FF00_0000;

/// A known position.
#[derive(Clone, Copy, Debug)]
pub struct Anchor {
    /// The absolute byte offset that this anchor marks.
    pub offset: i64,
    /// The line number relative to the `base_y` value of the containing segment.
    pub y_offset: i64,
    /// The X position of this anchor, may be relative or absolute.
    pub x_offset: i128,
}

/// A range of the file for which positions are known.
#[derive(Debug)]
pub struct MappedSegment {
    /// Inclusive start of this segment in absolute bytes.
    /// This information is redundant with the offset of the first anchor.
    /// If the start is `0`, Y coordinates are relative to the start of the
    /// file, so they can be considered absolute.
    pub start: i64,
    /// Exclusive end of this segment in absolute bytes.
    /// This information is redundant with the offset of the last anchor.
    pub end: i64,
    /// The index of the first anchor that has an absolute X coordinate.
    /// If there are no absolute anchors, it is the amount of anchors.
    pub first_absolute: usize,
    /// Base line number.
    /// The coordinates in anchors must be added with this value to have any meaning.
    /// This allows to shift the Y coordinate of the entire segment quickly.
    pub base_y: i64,
    /// Base X coordinate, only for **relative** X coordinates.
    /// The X coordinate is special in that absolute X coordinates do not use a base.
    /// The coordinates in relative-X anchors must be added with this value to have any meaning.
    /// This allows to shift the X coordinate of the entire relative prefix of a segment quickly.
    pub base_x_relative: i128,
    /// The widest *absolute* line that this segment contains.
    /// Does not include the first relative line, if any.
    /// Includes the last line, which may not end in a newline!
    /// If there are no absolute lines, is zero.
    /// This value may overestimate if segments are currently being merged!
    pub widest_line: i128,
    /// The X width of the single relative line.
    /// If there is no relative line, this is zero.
    /// This value may be completely wrong if segments are currently being merged!
    pub rel_width: i128,
    /// A set of anchor points, representing known reference points with X and Y coordinates.
    /// There is always an anchor at the start of the segment and at the end of the segment.
    pub anchors: VecDeque<Anchor>,
}

/// What a segment says: the positions that it knows, and the widths of its lines.
pub struct Mapped {
    pub marks: Seq<Mark>,
    pub widest: int,
    pub rel_width: int,
}

impl Mapped {
    /// The first offset.
    pub open spec fn start(self) -> int {
        self.marks[0].offset
    }

    /// The offset after the last byte.
    pub open spec fn end(self) -> int {
        self.marks.last().offset
    }
}

impl View for MappedSegment {
    type V = Mapped;

    open spec fn view(&self) -> Mapped {
        Mapped {
            marks: self.marks(),
            widest: self.widest_line as int,
            rel_width: self.rel_width as int,
        }
    }
}

/// Whether `k` is the index of the first absolute mark, or the number of marks when
/// there is none.
pub open spec fn is_first_abs(marks: Seq<Mark>, k: int) -> bool {
    &&& 0 <= k <= marks.len()
    &&& forall|i: int| 0 <= i < k ==> !(#[trigger] marks[i]).abs
    &&& forall|i: int| k <= i < marks.len() ==> (#[trigger] marks[i]).abs
}

/// Whether `k` is the index of the last mark at or before `offset`.
pub open spec fn is_lower(marks: Seq<Mark>, offset: int, k: int) -> bool {
    &&& 0 <= k < marks.len()
    &&& marks[k].offset <= offset
    &&& forall|j: int| k < j < marks.len() ==> (#[trigger] marks[j]).offset > offset
}

/// Whether a mark is at or before a position.
pub open spec fn at_or_before(m: Mark, y: int, x: int) -> bool {
    m.y < y || m.y == y && m.x <= x
}

/// Whether a mark is before a position.
pub open spec fn before(m: Mark, y: int, x: int) -> bool {
    m.y < y || m.y == y && m.x < x
}

/// Whether `k` is the index of the last mark at or before a position, or zero when
/// there is none.
pub open spec fn is_located_lower(marks: Seq<Mark>, y: int, x: int, k: int) -> bool {
    &&& 0 <= k < marks.len()
    &&& k > 0 ==> at_or_before(marks[k], y, x)
    &&& forall|j: int| k < j < marks.len() ==> !at_or_before(#[trigger] marks[j], y, x)
}

/// Whether `k` is the index of the first mark that is not before a position, or the
/// last index when there is none.
pub open spec fn is_located_upper(marks: Seq<Mark>, y: int, x: int, k: int) -> bool {
    &&& 0 <= k < marks.len()
    &&& k < marks.len() - 1 ==> !before(marks[k], y, x)
    &&& forall|j: int| 0 <= j < k ==> before(#[trigger] marks[j], y, x)
}

impl Anchor {
    /// Only correct for relative-X anchors.
    pub fn _x_rel(&self, base_x: i128) -> (r: i128)
        requires
            i128::MIN <= self.x_offset + base_x <= i128::MAX,
        ensures
            r == self.x_offset + base_x,
    {
        self.x_offset + base_x
    }

    /// Only correct for absolute-X anchors.
    pub fn x_abs(&self) -> (r: i128)
        ensures
            r == self.x_offset,
    {
        self.x_offset
    }

    /// The X position of an anchor of the given segment.
    pub fn x(&self, s: &MappedSegment) -> (r: i128)
        requires
            s.readable(),
            s.anchors@.contains(*self),
        ensures
            forall|k: int|
                0 <= k < s.anchors@.len() && #[trigger] s.anchors@[k] == *self ==> r
                    == s@.marks[k].x,
    {
        let ghost k = choose|k: int| 0 <= k < s.anchors@.len() && s.anchors@[k] == *self;
        proof {
            assert(sound(s@.marks[k]));
            s.lemma_abs_by_offset(k);
            s.lemma_small(k);
            assert forall|j: int| 0 <= j < s.anchors@.len() && #[trigger] s.anchors@[j]
                == *self implies j == k by {
                s.lemma_same(j, k);
            }
        }
        self.x_with(s.base_x_relative, s.is_x_absolute(*self))
    }

    /// The X position, given the base of the segment and whether the anchor is
    /// absolute.
    pub fn x_with(&self, base_x: i128, is_abs: bool) -> (r: i128)
        requires
            !is_abs ==> i128::MIN <= self.x_offset + base_x <= i128::MAX,
        ensures
            r == if is_abs {
                self.x_offset as int
            } else {
                self.x_offset + base_x
            },
    {
        if is_abs {
            self.x_offset
        } else {
            self.x_offset + base_x
        }
    }

    /// The line of an anchor of the given segment.
    pub fn y(&self, s: &MappedSegment) -> (r: i64)
        requires
            s.readable(),
            s.anchors@.contains(*self),
        ensures
            forall|k: int|
                0 <= k < s.anchors@.len() && #[trigger] s.anchors@[k] == *self ==> r
                    == s@.marks[k].y,
    {
        let ghost k = choose|k: int| 0 <= k < s.anchors@.len() && s.anchors@[k] == *self;
        proof {
            s.lemma_small(k);
        }
        self.y_with(s.base_y)
    }

    /// The line, given the base of the segment.
    pub fn y_with(&self, base_y: i64) -> (r: i64)
        requires
            i64::MIN <= self.y_offset + base_y <= i64::MAX,
        ensures
            r == self.y_offset + base_y,
    {
        self.y_offset + base_y
    }
}

impl MappedSegment {
    /// The position that the anchor at `k` stands for.
    pub open spec fn mark(self, k: int) -> Mark {
        Mark {
            offset: self.anchors@[k].offset as int,
            y: self.anchors@[k].y_offset + self.base_y,
            x: if k >= self.first_absolute {
                self.anchors@[k].x_offset as int
            } else {
                self.anchors@[k].x_offset + self.base_x_relative
            },
            abs: k >= self.first_absolute,
        }
    }

    /// The positions that the anchors stand for.
    pub open spec fn marks(self) -> Seq<Mark> {
        Seq::new(self.anchors@.len(), |k: int| self.mark(k))
    }

    /// What holds of a segment at any time, also while it is being merged.
    pub open spec fn readable(self) -> bool {
        &&& self.first_absolute <= self.anchors@.len()
        &&& lawful(self.marks())
        &&& self.start == self@.start()
        &&& self.end == self@.end()
        &&& -self.start <= self.base_y <= MAX_BASE_Y + LIMIT
        &&& -width(self.start as int) <= self.base_x_relative <= MAX_BASE_X + width(LIMIT as int)
        &&& 0 <= self.widest_line <= width(LIMIT as int)
        &&& 0 <= self.rel_width <= width(LIMIT as int)
    }

    /// What holds of a segment that is not being merged.
    pub open spec fn wf(self) -> bool {
        &&& self.readable()
        &&& self.start < self.end
        &&& regular(self.marks())
        &&& 0 <= self.base_y <= MAX_BASE_Y + (self.end - self.start)
        &&& 0 <= self.base_x_relative <= MAX_BASE_X + width(self.end - self.start)
        &&& self.widest_line <= width(self.end as int)
        &&& self.rel_width <= width(self.end - self.start)
    }

    /// The positions of a segment fit in machine numbers.
    pub proof fn lemma_small(self, k: int)
        requires
            self.readable(),
            0 <= k < self.anchors@.len(),
        ensures
            self.mark(k) == self.marks()[k],
            0 <= self.mark(k).y <= self.mark(k).offset - self.start,
            0 <= self.mark(k).x <= width(self.mark(k).offset),
            !self.mark(k).abs ==> self.mark(k).x <= width(self.mark(k).offset - self.start),
            self.start <= self.mark(k).offset <= self.end <= LIMIT,
    {
        let marks = self.marks();
        assert(sound(marks[k]));
        assert(sound(marks[0]));
        let last = marks.len() - 1;
        assert(sound(marks[last]));
        if k > 0 {
            assert(precedes(marks[0], marks[k]));
        }
        if k < last {
            assert(precedes(marks[k], marks[last]));
        }
    }

    /// Whether an anchor is absolute can be told by its offset.
    pub proof fn lemma_abs_by_offset(self, k: int)
        requires
            self.readable(),
            0 <= k < self.anchors@.len(),
        ensures
            self.mark(k).abs <==> self.first_absolute < self.anchors@.len()
                && self.anchors@[k].offset >= self.anchors@[self.first_absolute as int].offset,
    {
        let marks = self.marks();
        let f = self.first_absolute as int;
        if f < marks.len() {
            assert(marks[k] == self.mark(k) && marks[f] == self.mark(f));
            if k < f {
                assert(precedes(marks[k], marks[f]));
            } else if k > f {
                assert(precedes(marks[f], marks[k]));
            }
        }
    }

    /// No two anchors have one offset.
    pub proof fn lemma_same(self, j: int, k: int)
        requires
            self.readable(),
            0 <= j < self.anchors@.len(),
            0 <= k < self.anchors@.len(),
            self.anchors@[j].offset == self.anchors@[k].offset,
        ensures
            j == k,
    {
        let marks = self.marks();
        assert(marks[k] == self.mark(k) && marks[j] == self.mark(j));
        if k < j {
            assert(precedes(marks[k], marks[j]));
        } else if k > j {
            assert(precedes(marks[j], marks[k]));
        }
    }

    /// Check if the given anchor has an absolute X coordinate.
    pub fn is_x_absolute(&self, anchor: Anchor) -> (r: bool)
        ensures
            r == (self.first_absolute < self.anchors@.len() && anchor.offset
                >= self.anchors@[self.first_absolute as int].offset),
    {
        if self.first_absolute < self.anchors.len() {
            anchor.offset >= self.anchors[self.first_absolute].offset
        } else {
            false
        }
    }

    /// How many anchors are at or before the given offset.
    fn count_upto(&self, offset: i64) -> (r: usize)
        requires
            self.readable(),
        ensures
            r <= self.anchors@.len(),
            forall|k: int| 0 <= k < r ==> (#[trigger] self.marks()[k]).offset <= offset,
            forall|k: int|
                r <= k < self.anchors@.len() ==> (#[trigger] self.marks()[k]).offset > offset,
    {
        let mut lo: usize = 0;
        let mut hi: usize = self.anchors.len();
        while lo < hi
            invariant
                self.readable(),
                lo <= hi <= self.anchors@.len(),
                forall|k: int| 0 <= k < lo ==> (#[trigger] self.marks()[k]).offset <= offset,
                forall|k: int|
                    hi <= k < self.anchors@.len() ==> (#[trigger] self.marks()[k]).offset > offset,
            decreases hi - lo,
        {
            let mid: usize = lo + (hi - lo) / 2;
            assert(self.marks()[mid as int] == self.mark(mid as int));
            if self.anchors[mid].offset <= offset {
                proof {
                    assert forall|k: int| 0 <= k <= mid implies (#[trigger] self.marks()[k]).offset
                        <= offset by {
                        if k < mid {
                            assert(precedes(self.marks()[k], self.marks()[mid as int]));
                        }
                    }
                }
                lo = mid + 1;
            } else {
                proof {
                    assert forall|k: int| mid <= k < self.anchors@.len() implies (
                    #[trigger] self.marks()[k]).offset > offset by {
                        if k > mid {
                            assert(precedes(self.marks()[mid as int], self.marks()[k]));
                        }
                    }
                }
                hi = mid;
            }
        }
        lo
    }

    /// Find the index of the last anchor before or at the given offset.
    pub fn find_lower(&self, offset: i64) -> (r: Option<usize>)
        requires
            self.readable(),
        ensures
            r is None <==> offset < self.start,
            r matches Some(k) ==> is_lower(self@.marks, offset as int, k as int),
    {
        let n: usize = self.count_upto(offset);
        if n == 0 {
            None
        } else {
            proof {
                self.lemma_small(n - 1);
            }
            Some(n - 1)
        }
    }

    /// Find the index of the first anchor at or after the given offset.
    pub fn _find_upper(&self, offset: i64) -> (r: Option<usize>)
        requires
            self.readable(),
        ensures
            r is None <==> offset > self.end,
            r matches Some(k) ==> {
                &&& k < self@.marks.len()
                &&& self@.marks[k as int].offset >= offset
                &&& forall|j: int| 0 <= j < k ==> (#[trigger] self@.marks[j]).offset < offset
            },
    {
        let n: usize = self.count_upto(offset);
        proof {
            if n > 0 {
                self.lemma_small(n - 1);
                assert forall|j: int| 0 <= j < n - 1 implies (#[trigger] self@.marks[j]).offset
                    < offset by {
                    assert(precedes(self@.marks[j], self@.marks[n - 1]));
                }
            }
            self.lemma_small(self.anchors@.len() - 1);
        }
        if n > 0 && self.anchors[n - 1].offset == offset {
            Some(n - 1)
        } else if n < self.anchors.len() {
            Some(n)
        } else {
            None
        }
    }

    /// The position of the anchor at `k`.
    pub fn position(&self, k: usize) -> (r: (i64, i128))
        requires
            self.readable(),
            k < self.anchors@.len(),
        ensures
            r.0 == self@.marks[k as int].y,
            r.1 == self@.marks[k as int].x,
    {
        proof {
            self.lemma_small(k as int);
        }
        let a: Anchor = self.anchors[k];
        (a.y_with(self.base_y), a.x_with(self.base_x_relative, k >= self.first_absolute))
    }

    /// Find the index of the last anchor before or at the given relative Y, breaking
    /// ties by choosing the largest relative/absolute X before the given
    /// relative/absolute X.
    /// If there is no such anchor, returns the first anchor.
    pub fn locate_lower(&self, y: i64, x: i128) -> (r: usize)
        requires
            self.readable(),
        ensures
            is_located_lower(self@.marks, y as int, x as int, r as int),
    {
        let mut lo: usize = 0;
        let mut hi: usize = self.anchors.len();
        while lo < hi
            invariant
                self.readable(),
                lo <= hi <= self.anchors@.len(),
                forall|k: int|
                    0 <= k < lo ==> at_or_before(#[trigger] self.marks()[k], y as int, x as int),
                forall|k: int|
                    hi <= k < self.anchors@.len() ==> !at_or_before(
                        #[trigger] self.marks()[k],
                        y as int,
                        x as int,
                    ),
            decreases hi - lo,
        {
            let mid: usize = lo + (hi - lo) / 2;
            let (ay, ax): (i64, i128) = self.position(mid);
            if ay < y || ay == y && ax <= x {
                proof {
                    assert forall|k: int| 0 <= k <= mid implies at_or_before(
                        #[trigger] self.marks()[k],
                        y as int,
                        x as int,
                    ) by {
                        if k < mid {
                            assert(precedes(self.marks()[k], self.marks()[mid as int]));
                        }
                    }
                }
                lo = mid + 1;
            } else {
                proof {
                    assert forall|k: int| mid <= k < self.anchors@.len() implies !at_or_before(
                        #[trigger] self.marks()[k],
                        y as int,
                        x as int,
                    ) by {
                        if k > mid {
                            assert(precedes(self.marks()[mid as int], self.marks()[k]));
                        }
                    }
                }
                hi = mid;
            }
        }
        if lo == 0 {
            0
        } else {
            lo - 1
        }
    }

    /// Find the index of the first anchor at or after the given relative Y, breaking
    /// ties by choosing the smallest relative/absolute X after the given
    /// relative/absolute X.
    /// If there is no such anchor, returns the last anchor.
    pub fn locate_upper(&self, y: i64, x: i128) -> (r: usize)
        requires
            self.readable(),
        ensures
            is_located_upper(self@.marks, y as int, x as int, r as int),
    {
        let mut lo: usize = 0;
        let mut hi: usize = self.anchors.len();
        while lo < hi
            invariant
                self.readable(),
                lo <= hi <= self.anchors@.len(),
                forall|k: int|
                    0 <= k < lo ==> before(#[trigger] self.marks()[k], y as int, x as int),
                forall|k: int|
                    hi <= k < self.anchors@.len() ==> !before(
                        #[trigger] self.marks()[k],
                        y as int,
                        x as int,
                    ),
            decreases hi - lo,
        {
            let mid: usize = lo + (hi - lo) / 2;
            let (ay, ax): (i64, i128) = self.position(mid);
            if ay < y || ay == y && ax < x {
                proof {
                    assert forall|k: int| 0 <= k <= mid implies before(
                        #[trigger] self.marks()[k],
                        y as int,
                        x as int,
                    ) by {
                        if k < mid {
                            assert(precedes(self.marks()[k], self.marks()[mid as int]));
                        }
                    }
                }
                lo = mid + 1;
            } else {
                proof {
                    assert forall|k: int| mid <= k < self.anchors@.len() implies !before(
                        #[trigger] self.marks()[k],
                        y as int,
                        x as int,
                    ) by {
                        if k > mid {
                            assert(precedes(self.marks()[mid as int], self.marks()[k]));
                        }
                    }
                }
                hi = mid;
            }
        }
        if lo < self.anchors.len() {
            lo
        } else {
            self.anchors.len() - 1
        }
    }
}

/// There are two different "coordinate systems" in a text file:
/// - Raw byte offset
/// - Normalized screen position (screen coordinates divided by font height)
///
/// Because the editor supports scrolling to the end of huge files, it must support a
/// mixed coordinate system. Instead of specifying an absolute line number and X
/// position, we specify a reference byte offset, and use line numbers relative to
/// that offset.
///
/// In order to support this mixed system, we need a system that keeps track of
/// positional reference data in a certain byte offset range.
///
/// Note that this type implements a merged-segment-list just like `SparseData`, but
/// the line map of a file and the sparse data of a file can cover completely different,
/// partially overlapping ranges.
#[derive(Debug)]
pub struct LineMap {
    /// A linear list of segments.
    /// This list should be kept short!
    /// In particular, it must be defragmented on insert, and
    /// should be cleaned up if it becomes too long.
    pub segments: Vec<MappedSegment>,
    /// If set to another value, it should only increase!
    pub file_size: i64,
}

impl View for LineMap {
    type V = Seq<Mapped>;

    open spec fn view(&self) -> Seq<Mapped> {
        Seq::new(self.segments@.len(), |i: int| self.segments@[i]@)
    }
}

/// The ranges that the segments take up.
pub open spec fn mapped_spans(map: Seq<Mapped>) -> Seq<(int, int)> {
    Seq::new(map.len(), |i: int| (map[i].start(), map[i].end()))
}

/// Whether the segment at `i` is the first one that ends at or after `offset`, and
/// contains it.
pub open spec fn is_segment_of(map: Seq<Mapped>, offset: int, i: int) -> bool {
    &&& 0 <= i < map.len()
    &&& map[i].start() <= offset <= map[i].end()
    &&& forall|k: int| 0 <= k < i ==> (#[trigger] map[k]).end() < offset
}

/// Whether some segment contains `offset`.
pub open spec fn is_mapped(map: Seq<Mapped>, offset: int) -> bool {
    exists|i: int| is_segment_of(map, offset, i)
}

/// Whether the mark at `k` of the segment at `i` is the nearest one before or at
/// `offset`.
pub open spec fn is_base(map: Seq<Mapped>, offset: int, i: int, k: int) -> bool {
    is_segment_of(map, offset, i) && is_lower(map[i].marks, offset, k)
}

/// Whether a position `dy` lines away from the mark at `k` can be looked up: the
/// columns of other lines do not compare to those of a line whose start is unknown.
pub open spec fn comparable(marks: Seq<Mark>, k: int, dy: int) -> bool {
    marks[k].abs || dy == 0
}

/// The rectangle of the text that is known around the mark at `k` of a segment.
pub open spec fn known_rect(seg: Mapped, k: int, f: int) -> (int, int, int, int) {
    let marks = seg.marks;
    if marks[k].abs {
        (
            -marks[k].x,
            (marks[f].y - marks[k].y) * 0x100_0000,
            seg.widest,
            (marks.last().y - marks[f].y) * 0x100_0000,
        )
    } else {
        let hi = if f < marks.len() {
            marks[f]
        } else {
            marks.last()
        };
        (-marks[k].x, 0, seg.rel_width, hi.y * 0x100_0000)
    }
}

impl LineMap {
    /// What holds of a map at any time, also while segments are being merged.
    pub open spec fn readable(self) -> bool {
        &&& forall|i: int| 0 <= i < self.segments@.len() ==> (#[trigger] self.segments@[i]).readable()
        &&& forall|i: int, j: int|
            0 <= i < j < self.segments@.len() ==> (#[trigger] self.segments@[i]).end <= (
            #[trigger] self.segments@[j]).start
        &&& self.file_size >= 0
    }

    /// What holds of a map when no segments are being merged: none of them touch.
    pub open spec fn wf(self) -> bool {
        &&& forall|i: int| 0 <= i < self.segments@.len() ==> (#[trigger] self.segments@[i]).wf()
        &&& forall|i: int, j: int|
            0 <= i < j < self.segments@.len() ==> (#[trigger] self.segments@[i]).end < (
            #[trigger] self.segments@[j]).start
        &&& self.file_size >= 0
    }

    /// A map that knows nothing, of a file of unknown size.
    pub fn new() -> (r: LineMap)
        ensures
            r.wf(),
            r@ == Seq::<Mapped>::empty(),
            r.file_size == 0,
    {
        let r = LineMap { segments: Vec::new(), file_size: 0 };
        proof {
            assert(r@ =~= Seq::<Mapped>::empty());
        }
        r
    }

    /// Find the first segment that ends at or after the given offset.
    /// Returns the amount of segments if there is no segment after the given offset.
    pub fn find_after(&self, offset: i64) -> (r: usize)
        requires
            self.readable(),
        ensures
            r <= self@.len(),
            forall|k: int| 0 <= k < r ==> (#[trigger] self@[k]).end() < offset,
            r < self@.len() ==> self@[r as int].end() >= offset,
    {
        let mut i: usize = 0;
        while i < self.segments.len()
            invariant
                self.readable(),
                i <= self@.len(),
                forall|k: int| 0 <= k < i ==> (#[trigger] self@[k]).end() < offset,
            decreases self@.len() - i,
        {
            assert(self@[i as int] == self.segments@[i as int]@);
            if self.segments[i].end >= offset {
                return i;
            }
            i = i + 1;
        }
        i
    }

    /// Find the last segment that starts at or before the given offset.
    /// Returns the amount of segments if there is no segment before the given offset.
    pub fn find_before(&self, offset: i64) -> (r: usize)
        requires
            self.readable(),
        ensures
            r <= self@.len(),
            r < self@.len() ==> self@[r as int].start() <= offset && (forall|k: int|
                r < k < self@.len() ==> (#[trigger] self@[k]).start() > offset),
            r == self@.len() ==> forall|k: int|
                0 <= k < self@.len() ==> (#[trigger] self@[k]).start() > offset,
    {
        let mut i: usize = self.segments.len();
        while i > 0
            invariant
                self.readable(),
                i <= self@.len(),
                forall|k: int| i <= k < self@.len() ==> (#[trigger] self@[k]).start() > offset,
            decreases i,
        {
            i = i - 1;
            assert(self@[i as int] == self.segments@[i as int]@);
            if self.segments[i].start <= offset {
                return i;
            }
        }
        self.segments.len()
    }

    /// Find the index of the segment that contains the given offset, if any.
    pub fn find_segment(&self, offset: i64) -> (r: Option<usize>)
        requires
            self.readable(),
        ensures
            r is Some <==> is_mapped(self@, offset as int),
            r matches Some(i) ==> is_segment_of(self@, offset as int, i as int),
    {
        let i: usize = self.find_after(offset);
        if i < self.segments.len() {
            assert(self@[i as int] == self.segments@[i as int]@);
            if self.segments[i].start <= offset {
                assert(is_segment_of(self@, offset as int, i as int));
                return Some(i);
            }
        }
        proof {
            assert forall|k: int| !is_segment_of(self@, offset as int, k) by {
                if is_segment_of(self@, offset as int, k) {
                    assert(self@[k] == self.segments@[k]@);
                    if k > i {
                        assert(self@[i as int].end() < offset);
                    }
                }
            }
        }
        None
    }

    /// If the given offset is contained in a segment, yield its left and right edges.
    /// If it's not, yield the inner edges of the surrounding segments.
    /// If there is no segment to a given side, yield the start/end of the file.
    pub fn find_surroundings(&self, offset: i64) -> (r: Surroundings)
        requires
            self.readable(),
        ensures
            around(mapped_spans(self@), self.file_size as int, offset as int, r),
    {
        let last: i64 = self.file_size - 1;
        let p: i64 = if offset <= last {
            offset
        } else {
            last
        };
        let mut i: usize = 0;
        let mut prev: i64 = 0;
        while i < self.segments.len()
            invariant
                self.readable(),
                p == inside(self.file_size as int, offset as int),
                i <= self@.len(),
                forall|k: int| 0 <= k < i ==> (#[trigger] self@[k]).end() <= p,
                prev == if i == 0 {
                    0
                } else {
                    self@[i - 1].end()
                },
            decreases self@.len() - i,
        {
            assert(self@[i as int] == self.segments@[i as int]@);
            let end: i64 = self.segments[i].end;
            if end > p {
                let start: i64 = self.segments[i].start;
                proof {
                    assert(first_past(
                        mapped_spans(self@),
                        i as int,
                        inside(self.file_size as int, offset as int),
                    ));
                }
                if start <= p {
                    // Offset is contained in this segment
                    return Surroundings::In(start, end);
                } else {
                    // This segment is the first segment after the given offset
                    return Surroundings::Out(prev, start);
                }
            }
            prev = end;
            i = i + 1;
        }
        proof {
            assert(first_past(
                mapped_spans(self@),
                i as int,
                inside(self.file_size as int, offset as int),
            ));
        }
        Surroundings::Out(prev, self.file_size)
    }

    /// Find the segment that contains the given offset, and its nearest anchor
    /// before or at the offset.
    pub fn offset_to_base(&self, base_offset: i64) -> (r: Option<(usize, usize)>)
        requires
            self.readable(),
        ensures
            r is Some <==> is_mapped(self@, base_offset as int),
            r matches Some((i, k)) ==> is_base(self@, base_offset as int, i as int, k as int),
    {
        match self.find_segment(base_offset) {
            Some(i) => {
                assert(self@[i as int] == self.segments@[i as int]@);
                assert(self.segments@[i as int].readable());
                match self.segments[i].find_lower(base_offset) {
                    Some(k) => Some((i, k)),
                    None => None,
                }
            },
            None => None,
        }
    }

    /// Maps the given screen file position to an absolute offset that is at or before
    /// the given position.
    /// Returns the index of a segment, of a base anchor in it, and of the nearest
    /// anchor before the position.
    /// Returns `None` if the base offset is not loaded, or if the position is on
    /// another line than a base whose line start is not loaded.
    pub fn pos_to_anchor(&self, base_offset: i64, dy: i64, dx: i128) -> (r: Option<
        (usize, usize, usize),
    >)
        requires
            self.readable(),
        ensures
            r is Some <==> (exists|i: int, k: int| #[trigger]
                is_base(self@, base_offset as int, i, k) && comparable(
                    self@[i].marks,
                    k,
                    dy as int,
                )),
            r matches Some((i, k, l)) ==> {
                let marks = self@[i as int].marks;
                &&& is_base(self@, base_offset as int, i as int, k as int)
                &&& comparable(marks, k as int, dy as int)
                &&& is_located_lower(
                    marks,
                    marks[k as int].y + dy,
                    marks[k as int].x + dx,
                    l as int,
                )
            },
    {
        let (i, k) = match self.offset_to_base(base_offset) {
            Some((i, k)) => (i, k),
            None => {
                return None;
            },
        };
        let s: &MappedSegment = &self.segments[i];
        assert(s.readable());
        assert(self@[i as int] == s@);
        let ghost marks = s@.marks;
        if k < s.first_absolute && dy != 0 {
            // When we use a non-absolute base, it means we haven't loaded before
            // the start of the current line.
            // Additionally, we don't know the relationship between the X coordinates
            // of following lines and the base line, therefore if we draw the following
            // lines it would involve a large amount of dizzy moving text
            proof {
                self.lemma_base_unique(base_offset as int, i as int, k as int);
            }
            return None;
        }
        let (y, x): (i64, i128) = s.target(k, dy, dx);
        let l: usize = s.locate_lower(y, x);
        proof {
            assert forall|j: int| 0 <= j < marks.len() implies at_or_before(
                #[trigger] marks[j],
                marks[k as int].y + dy,
                marks[k as int].x + dx,
            ) == at_or_before(marks[j], y as int, x as int) by {
                s.lemma_small(j);
            }
        }
        Some((i, k, l))
    }

    /// Maps the given screen file position to an absolute offset that is at or after
    /// the given position.
    /// Returns the index of a segment, of a base anchor in it, and of the nearest
    /// anchor after the position.
    /// Returns `None` if the base offset is not loaded, or if the position is on
    /// another line than a base whose line start is not loaded.
    pub fn pos_to_anchor_upper(&self, base_offset: i64, dy: i64, dx: i128) -> (r: Option<
        (usize, usize, usize),
    >)
        requires
            self.readable(),
        ensures
            r is Some <==> (exists|i: int, k: int| #[trigger]
                is_base(self@, base_offset as int, i, k) && comparable(
                    self@[i].marks,
                    k,
                    dy as int,
                )),
            r matches Some((i, k, l)) ==> {
                let marks = self@[i as int].marks;
                &&& is_base(self@, base_offset as int, i as int, k as int)
                &&& comparable(marks, k as int, dy as int)
                &&& is_located_upper(
                    marks,
                    marks[k as int].y + dy,
                    marks[k as int].x + dx,
                    l as int,
                )
            },
    {
        let (i, k) = match self.offset_to_base(base_offset) {
            Some((i, k)) => (i, k),
            None => {
                return None;
            },
        };
        let s: &MappedSegment = &self.segments[i];
        assert(s.readable());
        assert(self@[i as int] == s@);
        let ghost marks = s@.marks;
        if k < s.first_absolute && dy != 0 {
            proof {
                self.lemma_base_unique(base_offset as int, i as int, k as int);
            }
            return None;
        }
        let (y, x): (i64, i128) = s.target(k, dy, dx);
        let l: usize = s.locate_upper(y, x);
        proof {
            assert forall|j: int| 0 <= j < marks.len() implies before(
                #[trigger] marks[j],
                marks[k as int].y + dy,
                marks[k as int].x + dx,
            ) == before(marks[j], y as int, x as int) by {
                s.lemma_small(j);
            }
        }
        Some((i, k, l))
    }

    /// If the two offsets are comparable (that is, they reside in the same segment
    /// and are both x-absolute or x-relative), return the index of the segment and of
    /// the anchors for both offsets.
    pub fn offset_to_anchor(&self, base_offset: i64, offset: i64) -> (r: Option<
        (usize, usize, usize),
    >)
        requires
            self.readable(),
        ensures
            r is Some <==> (exists|i: int, k: int, l: int|
                #![trigger is_base(self@, base_offset as int, i, k), is_base(self@, offset as int, i, l)]
                is_base(self@, base_offset as int, i, k) && is_base(self@, offset as int, i, l)
                    && self@[i].marks[k].abs == self@[i].marks[l].abs),
            r matches Some((i, k, l)) ==> {
                &&& is_base(self@, base_offset as int, i as int, k as int)
                &&& is_base(self@, offset as int, i as int, l as int)
                &&& self@[i as int].marks[k as int].abs == self@[i as int].marks[l as int].abs
            },
    {
        let (i, k) = match self.offset_to_base(base_offset) {
            Some((i, k)) => (i, k),
            None => {
                return None;
            },
        };
        let (j, l) = match self.offset_to_base(offset) {
            Some((j, l)) => (j, l),
            None => {
                return None;
            },
        };
        proof {
            self.lemma_base_unique(base_offset as int, i as int, k as int);
            self.lemma_base_unique(offset as int, j as int, l as int);
            assert(self@[i as int] == self.segments@[i as int]@);
        }
        if i != j {
            // The offsets do not reside in the same segment
            return None;
        }
        let s: &MappedSegment = &self.segments[i];
        if (k >= s.first_absolute) != (l >= s.first_absolute) {
            // The offsets are in different absoluteness contexts
            return None;
        }
        Some((i, k, l))
    }

    /// There is only one base for an offset.
    pub proof fn lemma_base_unique(self, offset: int, i: int, k: int)
        requires
            self.readable(),
            is_base(self@, offset, i, k),
        ensures
            forall|i2: int, k2: int| #[trigger]
                is_base(self@, offset, i2, k2) ==> i2 == i && k2 == k,
    {
        assert forall|i2: int, k2: int| #[trigger] is_base(self@, offset, i2, k2) implies i2 == i && k2
            == k by {
            if i2 < i {
                assert(self@[i2].end() < offset);
            } else if i2 > i {
                assert(self@[i].end() < offset);
            } else {
                let marks = self@[i].marks;
                if k2 < k {
                    assert(marks[k].offset > offset);
                } else if k2 > k {
                    assert(marks[k2].offset > offset);
                }
            }
        }
    }

    /// Get the bounding rectangle of the loaded area around a given offset.
    pub fn bounding_rect(&self, around_offset: i64) -> (r: FileRect)
        requires
            self.readable(),
        ensures
            r.corner.base_offset == around_offset,
            0 <= r.size.x <= width(LIMIT as int),
            0 <= r.size.y <= LIMIT * UNITS,
            !is_mapped(self@, around_offset as int) ==> r.corner.delta_x == 0 && r.corner.delta_y
                == 0 && r.size.x == 0 && r.size.y == 0,
            is_mapped(self@, around_offset as int) ==> exists|i: int, k: int, f: int|
                #![trigger is_base(self@, around_offset as int, i, k), is_first_abs(self@[i].marks, f)]
                is_base(self@, around_offset as int, i, k) && is_first_abs(self@[i].marks, f) && (
                r.corner.delta_x as int, r.corner.delta_y as int, r.size.x as int, r.size.y as int)
                    == known_rect(self@[i], k, f),
    {
        match self.offset_to_base(around_offset) {
            Some((i, k)) => {
                let s: &MappedSegment = &self.segments[i];
                assert(s.readable());
                assert(self@[i as int] == s@);
                let f: usize = s.first_absolute;
                let last: usize = s.anchors.len() - 1;
                proof {
                    assert(is_first_abs(self@[i as int].marks, f as int));
                    s.lemma_small(k as int);
                    s.lemma_small(last as int);
                    s.lemma_small(0);
                    if f <= last {
                        s.lemma_small(f as int);
                    }
                }
                let (y, x): (i64, i128) = s.position(k);
                // Confine to the limits of loaded data
                if k >= f {
                    let lo_y: i64 = s.position(f).0;
                    let hi_y: i64 = s.position(last).0;
                    proof {
                        if f < last {
                            assert(precedes(s@.marks[f as int], s@.marks[last as int]));
                        }
                    }
                    FileRect {
                        corner: FilePos {
                            base_offset: around_offset,
                            delta_x: -x,
                            delta_y: (lo_y as i128 - y as i128) * UNITS,
                        },
                        size: FileVec {
                            x: s.widest_line,
                            y: (hi_y as i128 - lo_y as i128) * UNITS,
                        },
                    }
                } else {
                    // NOTE: This clamps rendering to the Y of the relative-x line
                    // Rendering mixed relative and absolute lines in the same screen
                    // is kind of hard and messy
                    let hi: usize = if f <= last {
                        f
                    } else {
                        last
                    };
                    let hi_y: i64 = s.position(hi).0;
                    FileRect {
                        corner: FilePos { base_offset: around_offset, delta_x: -x, delta_y: 0 },
                        size: FileVec { x: s.rel_width, y: hi_y as i128 * UNITS },
                    }
                }
            },
            None => {
                // Cannot scroll if the data is not yet loaded
                FileRect {
                    corner: FilePos { base_offset: around_offset, delta_x: 0, delta_y: 0 },
                    size: FileVec { x: 0, y: 0 },
                }
            },
        }
    }
}

impl MappedSegment {
    /// The position `dy` lines and `dx` columns away from the anchor at `k`, or as
    /// far in that direction as no anchor can be.
    fn target(&self, k: usize, dy: i64, dx: i128) -> (r: (i64, i128))
        requires
            self.readable(),
            k < self.anchors@.len(),
        ensures
            r.0 == self@.marks[k as int].y + dy || (r.0 == i64::MAX && self@.marks[k as int].y + dy
                > i64::MAX),
            r.1 == self@.marks[k as int].x + dx || (r.1 == i128::MAX && self@.marks[k as int].x + dx
                > i128::MAX),
    {
        proof {
            self.lemma_small(k as int);
        }
        let (y, x): (i64, i128) = self.position(k);
        let ty: i64 = if dy > i64::MAX - y {
            i64::MAX
        } else {
            y + dy
        };
        let tx: i128 = if dx > i128::MAX - x {
            i128::MAX
        } else {
            x + dx
        };
        (ty, tx)
    }
}

} // verus!
