//! Mapping a piece of the file, cut into steps. Each step holds the lock on the line map for
//! a short time only, and says what is to be done with the lock before the next one.

use crate::filling::{
    compatible, covered, ends_before, filled_gaps, first_gap, gap_end, inserted, lemma_ends_before,
    lemma_gap, lemma_inserted, lemma_merged, lemma_next_gap, lemma_placed, lemma_starts_upto,
    placed, processed, settled_map, starts_upto,
};
use crate::linemap::{LineMap, Mapped, MappedSegment};
use crate::linemapper::{created, lemma_created, LineMapper};
use crate::marks::LIMIT;
use crate::merging::{adjacent, joined, merged, same_anchors_but, with_pair};
use crate::storing::Next;
use vstd::prelude::*;
use vstd::slice::slice_subrange;

verus! {

/// What is left to do to merge the segments at `i` and `i + 1`.
pub enum Merging {
    /// Decide which way to go.
    Begin { i: usize },
    /// Bring the first absolute anchor of the right segment to the left.
    Pin { i: usize },
    /// Move anchors over.
    Move { i: usize, into_left: bool },
}

/// What a step of a merge leads to.
pub enum Merged {
    /// There is more to do.
    More(Merging),
    /// The segments are merged. The emptied one is handed out, because dropping it can take
    /// long.
    Finished(MappedSegment),
}

impl Merging {
    /// The first of the two segments.
    pub open spec fn at(self) -> int {
        match self {
            Merging::Begin { i } => i as int,
            Merging::Pin { i } => i as int,
            Merging::Move { i, .. } => i as int,
        }
    }

    /// Whether this can be done to a map.
    pub open spec fn fits(self, lmap: LineMap) -> bool {
        match self {
            Merging::Begin { i } => lmap.loose() && adjacent(lmap@, i as int),
            Merging::Pin { i } => lmap.pinning(i as int),
            Merging::Move { i, into_left } => lmap.migrating(i as int, into_left),
        }
    }

    /// What the map is going to know in the end.
    pub open spec fn outcome(self, lmap: LineMap) -> Seq<Mapped> {
        match self {
            Merging::Begin { i } => merged(lmap@, i as int),
            Merging::Pin { i } => with_pair(lmap@, i as int, lmap.outcome(i as int, false)),
            Merging::Move { i, into_left } => with_pair(
                lmap@,
                i as int,
                lmap.outcome(i as int, into_left),
            ),
        }
    }

    /// How many kinds of steps are still to come, at most.
    pub open spec fn rank(self) -> nat {
        match self {
            Merging::Begin { .. } => 2,
            Merging::Pin { .. } => 1,
            Merging::Move { .. } => 0,
        }
    }

    /// How many anchors are still to be seen to in steps of this kind.
    pub open spec fn anchors_left(self, lmap: LineMap) -> nat {
        match self {
            Merging::Begin { .. } => 0,
            Merging::Pin { i } => lmap.segments@[i + 1].first_absolute as nat,
            Merging::Move { i, into_left } => if into_left {
                lmap@[i + 1].marks.len()
            } else {
                lmap@[i as int].marks.len()
            },
        }
    }

    /// Whether a step that moves at most `batch` anchors leads from `was` to `now`, with `r`
    /// to do after it. First no anchor moves, and it is decided to move those of the segment
    /// that has fewer. Then up to `batch` anchors of the right segment change in place, or up
    /// to `batch` anchors move over.
    pub open spec fn leads_to(self, was: LineMap, r: Merged, now: LineMap, batch: int) -> bool {
        match self {
            Merging::Begin { i } => {
                let into_left = was@[i as int].marks.len() >= was@[i + 1].marks.len();
                &&& r == Merged::More(
                    if into_left {
                        Merging::Move { i, into_left }
                    } else {
                        Merging::Pin { i }
                    },
                )
                &&& now.segments@[i as int].anchors == was.segments@[i as int].anchors
                &&& now.segments@[i + 1].anchors == was.segments@[i + 1].anchors
            },
            Merging::Pin { i } => {
                let from = now.segments@[i + 1].first_absolute as int;
                let to = was.segments@[i + 1].first_absolute as int;
                &&& r == Merged::More(Merging::Pin { i }) || r == Merged::More(
                    Merging::Move { i, into_left: false },
                )
                &&& from <= to <= from + batch
                &&& r == Merged::More(Merging::Pin { i }) ==> to == from + batch
                &&& now.segments@[i as int] == was.segments@[i as int]
                &&& same_anchors_but(now.segments@[i + 1], was.segments@[i + 1], from, to)
            },
            Merging::Move { i, into_left } => if self.anchors_left(was) <= batch + 1 {
                r is Finished
            } else {
                &&& r == Merged::More(self)
                &&& self.anchors_left(now) == self.anchors_left(was) - batch
            },
        }
    }

    /// The first of the two segments.
    fn index(&self) -> (r: usize)
        ensures
            r == self.at(),
    {
        match self {
            Merging::Begin { i } => *i,
            Merging::Pin { i } => *i,
            Merging::Move { i, .. } => *i,
        }
    }

    /// Do the next step, in which at most `batch` anchors are moved.
    pub fn step(self, lmap: &mut LineMap, batch: usize) -> (r: Merged)
        requires
            self.fits(*old(lmap)),
            batch > 0,
        ensures
            final(lmap).file_size == old(lmap).file_size,
            self.leads_to(*old(lmap), r, *final(lmap), batch as int),
            match r {
                Merged::More(then) => {
                    &&& then.rank() == self.rank() ==> self.anchors_left(*old(lmap))
                        <= then.anchors_left(*final(lmap)) + batch
                    &&& then.fits(*final(lmap))
                    &&& then.at() == self.at()
                    &&& then.outcome(*final(lmap)) == self.outcome(*old(lmap))
                    &&& then.rank() < self.rank() || (then.rank() == self.rank()
                        && then.anchors_left(*final(lmap)) < self.anchors_left(*old(lmap)))
                },
                Merged::Finished(empty) => {
                    &&& self is Move
                    &&& self.anchors_left(*old(lmap)) <= batch + 1
                    &&& final(lmap).loose()
                    &&& final(lmap)@ == self.outcome(*old(lmap))
                    &&& empty@.marks.len() == 1
                },
            },
    {
        let ghost map = lmap@;
        let ghost goal = self.outcome(*lmap);
        match self {
            Merging::Begin { i } => {
                let into_left: bool = lmap.begin_merge(i);
                let then: Merging = if into_left {
                    Merging::Move { i, into_left }
                } else {
                    Merging::Pin { i }
                };
                proof {
                    let pair = joined(map[i as int], map[i + 1]);
                    assert(with_pair(lmap@, i as int, pair) =~= with_pair(map, i as int, pair));
                }
                Merged::More(then)
            },
            Merging::Pin { i } => {
                let done: bool = lmap.pin_batch(i, batch);
                let then: Merging = if done {
                    Merging::Move { i, into_left: false }
                } else {
                    Merging::Pin { i }
                };
                proof {
                    let pair = lmap.outcome(i as int, false);
                    assert(with_pair(lmap@, i as int, pair) =~= with_pair(map, i as int, pair));
                }
                Merged::More(then)
            },
            Merging::Move { i, into_left } => {
                let done: bool = lmap.merge_batch(i, into_left, batch);
                proof {
                    let pair = lmap.outcome(i as int, into_left);
                    assert(with_pair(lmap@, i as int, pair) =~= with_pair(map, i as int, pair));
                }
                if done {
                    Merged::Finished(lmap.finish_merge(i, into_left))
                } else {
                    Merged::More(Merging::Move { i, into_left })
                }
            },
        }
    }
}

/// A piece of the file that is to be mapped.
pub struct Piece<'a> {
    pub mapper: &'a LineMapper,
    /// Where it stands in the file.
    pub offset: i64,
    pub data: &'a [u8],
}

/// A piece of the file, and how it is to be mapped.
pub struct Excerpt {
    pub mapper: LineMapper,
    pub offset: i64,
    pub data: Seq<u8>,
}

impl<'a> View for Piece<'a> {
    type V = Excerpt;

    open spec fn view(&self) -> Excerpt {
        Excerpt { mapper: *self.mapper, offset: self.offset, data: self.data@ }
    }
}

/// What is left to do to map a piece of the file.
pub enum Mapping {
    /// Look for the first hole.
    Look,
    /// See where the hole at `l` ends.
    Hole { l: i64, rigid_left: bool },
    /// Map the hole from `l` to `r`. The next hole starts at `next`.
    Survey { l: i64, r: i64, rigid_left: bool, rigid_right: bool, next: Option<i64> },
    /// Add a segment to the map.
    Insert { seg: MappedSegment, next: Option<i64> },
    /// Merge two segments, and if `right` is set, the one that comes of it with the next one.
    Merge { merging: Merging, right: bool, next: Option<i64> },
    /// Nothing.
    Done,
}

/// What is left to do after a step.
pub struct MappedOn {
    pub task: Mapping,
    pub next: Next,
    /// A segment to drop when the lock is released, because that can take long.
    pub freed: Option<MappedSegment>,
}

/// What the map knows after the segment at `i` was merged with the next one, if `right` is
/// set.
pub open spec fn merged_on(map: Seq<Mapped>, i: int, right: bool) -> Seq<Mapped> {
    if right {
        merged(map, i)
    } else {
        map
    }
}

/// What follows when a hole was filled.
pub open spec fn onward(next: Option<i64>) -> Mapping {
    match next {
        Some(l) => Mapping::Hole { l, rigid_left: true },
        None => Mapping::Done,
    }
}

impl Excerpt {
    /// Where the piece ends.
    pub open spec fn end(self) -> int {
        self.offset + self.data.len()
    }

    /// Whether the piece can be mapped.
    pub open spec fn wf(self) -> bool {
        &&& self.mapper.wf()
        &&& 0 <= self.offset
        &&& self.end() <= LIMIT
    }

    /// What the map knows after all holes from the one at `l` on were filled.
    pub open spec fn fill(self, map: Seq<Mapped>, size: int, l: int, rigid: bool) -> Seq<Mapped> {
        filled_gaps(
            map,
            size,
            l,
            self.data.skip(l - self.offset),
            rigid,
            self.mapper.layout@,
            self.mapper.bytes_per_anchor as int,
        )
    }

    /// What the map knows after the holes from `next` on were filled too, if there are any.
    pub open spec fn go_on(self, map: Seq<Mapped>, size: int, next: Option<i64>) -> Seq<Mapped> {
        match next {
            Some(l) => self.fill(map, size, l as int, true),
            None => map,
        }
    }

    /// Whether there is a hole at `next`, if it is given.
    pub open spec fn hole_at(self, map: Seq<Mapped>, next: Option<i64>) -> bool {
        match next {
            Some(l) => self.wf() && self.offset <= l <= self.end() && (l == self.end() || !covered(
                map,
                l as int,
            )),
            None => true,
        }
    }

    /// What is known of the hole from `l` to `r`.
    pub open spec fn found(self, l: int, r: int, rigid_left: bool, rigid_right: bool) -> Mapped {
        created(
            l,
            self.data.subrange(l - self.offset, r - self.offset),
            rigid_left,
            rigid_right,
            self.mapper.layout@,
            self.mapper.bytes_per_anchor as int,
        )
    }
}

impl<'a> Piece<'a> {
    /// Map the hole from `l` to `r`.
    fn survey(&self, l: i64, r: i64, rigid_left: bool, rigid_right: bool) -> (seg: MappedSegment)
        requires
            self@.wf(),
            self@.offset <= l <= r <= self@.end(),
        ensures
            seg.readable(),
            seg.start < seg.end ==> seg.wf(),
            seg@ == self@.found(l as int, r as int, rigid_left, rigid_right),
    {
        assert(r - self.offset <= self.data.len());
        let from: usize = (l - self.offset) as usize;
        let to: usize = (r - self.offset) as usize;
        self.mapper.create_segment(l, slice_subrange(self.data, from, to), rigid_left, rigid_right)
    }

    /// See where the hole at `l` ends.
    fn measure(&self, lmap: &LineMap, l: i64, rigid_left: bool) -> (task: Mapping)
        requires
            (Mapping::Hole { l, rigid_left }).fits(self@, *lmap),
        ensures
            task is Survey,
            task.fits(self@, *lmap),
            task.outcome(self@, *lmap) == (Mapping::Hole { l, rigid_left }).outcome(self@, *lmap),
            task.ahead(self@) <= self@.end() - l,
            (Mapping::Hole { l, rigid_left }).leads_to(self@, *lmap, task, *lmap),
    {
        let ghost map = lmap@;
        let ghost size = lmap.file_size as int;
        let end: i64 = self.offset + self.data.len() as i64;
        proof {
            lmap.lemma_settled();
            lemma_starts_upto(map, l as int);
        }
        // We have a hole from `l` to `r`
        let (r, rigid_right, next): (i64, bool, Option<i64>) = lmap.hole_end(l, end);
        proof {
            let new = self@.found(l as int, r as int, rigid_left, rigid_right);
            let piece = self.data@.subrange(l - self.offset, r - self.offset);
            let rest = self.data@.skip(l - self.offset);
            assert(piece =~= rest.take(r - l));
            lemma_created(
                l as int,
                piece,
                rigid_left,
                rigid_right,
                self.mapper.layout@,
                self.mapper.bytes_per_anchor as int,
            );
            if new.start() < new.end() {
                lemma_gap(map, size, l as int, end as int, new);
            }
            if let Some(n) = next {
                lemma_next_gap(map, l as int, new);
                assert(rest.skip(n - l) =~= self.data@.skip(n - self.offset));
            }
        }
        Mapping::Survey { l, r, rigid_left, rigid_right, next }
    }

    /// Add a segment to the map.
    fn insert(&self, lmap: &mut LineMap, seg: MappedSegment, next: Option<i64>) -> (task: Mapping)
        requires
            (Mapping::Insert { seg, next }).fits(self@, *old(lmap)),
        ensures
            final(lmap).file_size == old(lmap).file_size,
            task == onward(next) || (task matches Mapping::Merge { next: n, .. } && n == next),
            (Mapping::Insert { seg, next }).leads_to(self@, *old(lmap), task, *final(lmap)),
            task.fits(self@, *final(lmap)),
            task.outcome(self@, *final(lmap)) == (Mapping::Insert { seg, next }).outcome(
                self@,
                *old(lmap),
            ),
    {
        proof {
            lmap.lemma_settled();
            seg.lemma_small(0);
        }
        if seg.start == seg.end {
            return Mapping::onto(next);
        }
        let ghost map = lmap@;
        let ghost new = seg@;
        proof {
            lemma_inserted(map, new);
        }
        // Insert segment, possibly adjacent to the nearby segments
        let (i, merge_left, merge_right): (usize, bool, bool) = lmap.place_segment(seg);
        let ghost out = lmap@;
        proof {
            lemma_starts_upto(map, new.start());
            lemma_ends_before(map, new.end());
            assert(starts_upto(map, new.start()) <= ends_before(map, new.end())) by {
                let j = ends_before(map, new.end()) as int;
                if i > j {
                    assert(map[j].end() <= new.start());
                }
            }
            lemma_placed(map, new, i as int, ends_before(map, new.end()) as int);
        }
        // Slowly merge the segments
        if merge_left {
            proof {
                lemma_merged(out, i - 1);
                assert(adjacent(merged(out, i - 1), i - 1) == merge_right);
            }
            Mapping::Merge { merging: Merging::Begin { i: i - 1 }, right: merge_right, next }
        } else if merge_right {
            Mapping::Merge { merging: Merging::Begin { i }, right: false, next }
        } else {
            proof {
                lmap.lemma_loose_settled();
            }
            Mapping::onto(next)
        }
    }
}

impl Mapping {
    /// Whether this can be done to a map.
    pub open spec fn fits(self, piece: Excerpt, lmap: LineMap) -> bool {
        &&& piece.mapper.migrate_batch_size > 0
        &&& match self {
            Mapping::Look => piece.wf() && lmap.wf(),
            Mapping::Hole { l, .. } => lmap.wf() && piece.hole_at(lmap@, Some(l)),
            Mapping::Survey { l, r, rigid_left, rigid_right, next } => {
                let new = piece.found(l as int, r as int, rigid_left, rigid_right);
                &&& piece.wf()
                &&& lmap.wf()
                &&& piece.offset <= l <= r <= piece.end()
                &&& new.start() < new.end() ==> compatible(lmap@, new)
                &&& piece.hole_at(inserted(lmap@, new), next)
            },
            Mapping::Insert { seg, next } => {
                &&& lmap.wf()
                &&& seg.readable()
                &&& seg.start < seg.end ==> seg.wf() && compatible(lmap@, seg@)
                &&& piece.hole_at(inserted(lmap@, seg@), next)
            },
            Mapping::Merge { merging, right, next } => {
                let map = merging.outcome(lmap);
                let all = merged_on(map, merging.at(), right);
                &&& merging.fits(lmap)
                &&& right ==> adjacent(map, merging.at())
                &&& settled_map(all)
                &&& piece.hole_at(all, next)
            },
            Mapping::Done => lmap.wf(),
        }
    }

    /// What the map is going to know in the end.
    pub open spec fn outcome(self, piece: Excerpt, lmap: LineMap) -> Seq<Mapped> {
        let size = lmap.file_size as int;
        match self {
            Mapping::Look => processed(
                lmap@,
                size,
                piece.offset as int,
                piece.data,
                piece.mapper.layout@,
                piece.mapper.bytes_per_anchor as int,
            ),
            Mapping::Hole { l, rigid_left } => piece.fill(lmap@, size, l as int, rigid_left),
            Mapping::Survey { l, r, rigid_left, rigid_right, next } => piece.go_on(
                inserted(lmap@, piece.found(l as int, r as int, rigid_left, rigid_right)),
                size,
                next,
            ),
            Mapping::Insert { seg, next } => piece.go_on(inserted(lmap@, seg@), size, next),
            Mapping::Merge { merging, right, next } => piece.go_on(
                merged_on(merging.outcome(lmap), merging.at(), right),
                size,
                next,
            ),
            Mapping::Done => lmap@,
        }
    }

    /// How many bytes of the piece are still to be seen to, at most.
    pub open spec fn ahead(self, piece: Excerpt) -> int {
        let from = |next: Option<i64>|
            match next {
                Some(l) => piece.end() - l + 1,
                None => 0,
            };
        match self {
            Mapping::Look => piece.end() - piece.offset + 1,
            Mapping::Hole { l, .. } => piece.end() - l,
            Mapping::Survey { next, .. } => from(next),
            Mapping::Insert { next, .. } => from(next),
            Mapping::Merge { next, .. } => from(next),
            Mapping::Done => 0,
        }
    }

    /// How many kinds of steps are still to come for a hole, at most.
    pub open spec fn rank(self) -> nat {
        match self {
            Mapping::Look => 12,
            Mapping::Hole { .. } => 12,
            Mapping::Survey { .. } => 11,
            Mapping::Insert { .. } => 10,
            Mapping::Merge { merging, right, .. } => 1 + merging.rank() + if right {
                4nat
            } else {
                0nat
            },
            Mapping::Done => 0,
        }
    }

    /// How many anchors are still to be seen to in steps of this kind.
    pub open spec fn anchors_left(self, lmap: LineMap) -> nat {
        match self {
            Mapping::Merge { merging, .. } => merging.anchors_left(lmap),
            _ => 0,
        }
    }

    /// Whether one step leads closer to the end.
    pub open spec fn progress(
        self,
        piece: Excerpt,
        lmap: LineMap,
        then: Mapping,
        lmap_then: LineMap,
    ) -> bool {
        ||| then.ahead(piece) < self.ahead(piece)
        ||| then.ahead(piece) == self.ahead(piece) && then.rank() < self.rank()
        ||| then.ahead(piece) == self.ahead(piece) && then.rank() == self.rank()
            && then.anchors_left(lmap_then) < self.anchors_left(lmap)
    }

    /// Whether a step leads from `was` to `now`, with `then` to do after it. Only a step of a
    /// merge goes through anchors, and that goes through one batch of them.
    pub open spec fn leads_to(
        self,
        piece: Excerpt,
        was: LineMap,
        then: Mapping,
        now: LineMap,
    ) -> bool {
        let end = piece.end();
        match self {
            Mapping::Look => {
                let (l, rigid) = first_gap(was@, piece.offset as int, end);
                &&& now == was
                &&& then == Mapping::Hole { l: l as i64, rigid_left: rigid }
            },
            Mapping::Hole { l, rigid_left } => {
                let (r, rigid_right) = gap_end(was@, was.file_size as int, l as int, end);
                let n = starts_upto(was@, l as int) as int;
                let last = r >= end || n >= was@.len() || was@[n].end() >= end || was@[n].end() <= l;
                let next = if last {
                    None
                } else {
                    Some(was@[n].end() as i64)
                };
                &&& now == was
                &&& then == Mapping::Survey { l, r: r as i64, rigid_left, rigid_right, next }
            },
            Mapping::Survey { l, r, rigid_left, rigid_right, next } => {
                &&& now == was
                &&& then matches Mapping::Insert { seg, next: n } && n == next && seg@
                    == piece.found(l as int, r as int, rigid_left, rigid_right)
            },
            Mapping::Insert { seg, next } => if seg.start == seg.end {
                now == was && then == onward(next)
            } else {
                let i = starts_upto(was@, seg@.start()) as int;
                &&& now@ == placed(was@, seg@)
                &&& then == if adjacent(now@, i - 1) {
                    let merging = Merging::Begin { i: (i - 1) as usize };
                    Mapping::Merge { merging, right: adjacent(now@, i), next }
                } else if adjacent(now@, i) {
                    let merging = Merging::Begin { i: i as usize };
                    Mapping::Merge { merging, right: false, next }
                } else {
                    onward(next)
                }
            },
            Mapping::Merge { merging, right, next } => exists|r: Merged| #[trigger]
                merging.leads_to(was, r, now, piece.mapper.migrate_batch_size as int) && then
                    == match r {
                    Merged::More(merging) => Mapping::Merge { merging, right, next },
                    Merged::Finished(_) => if right {
                        let merging = Merging::Begin { i: merging.at() as usize };
                        Mapping::Merge { merging, right: false, next }
                    } else {
                        onward(next)
                    },
                },
            Mapping::Done => now == was && then is Done,
        }
    }

    /// Whether this step empties a segment when `then` comes next: it ends a merge.
    pub open spec fn empties(self, then: Mapping) -> bool {
        match (self, then) {
            (Mapping::Merge { right, .. }, Mapping::Merge { right: more, .. }) => right && !more,
            (Mapping::Merge { .. }, _) => true,
            _ => false,
        }
    }

    /// Whether there is work to do for which the lock can be released.
    pub open spec fn waits(self) -> bool {
        self is Survey
    }

    /// What to do with the lock when this step was done and `then` comes next: it is released
    /// to map a hole and after two segments were merged, and others may have it between two
    /// batches.
    pub open spec fn next_after(self, then: Mapping) -> Next {
        if then is Done {
            Next::Done
        } else if then.waits() || self.empties(then) {
            Next::Release
        } else if then is Merge {
            Next::Yield
        } else {
            Next::Go
        }
    }

    /// Whether there is nothing left to do.
    pub fn is_done(&self) -> (r: bool)
        ensures
            r == (*self is Done),
    {
        matches!(self, Mapping::Done)
    }

    /// What follows when a hole was filled.
    fn onto(next: Option<i64>) -> (task: Mapping)
        ensures
            task == onward(next),
    {
        match next {
            Some(l) => Mapping::Hole { l, rigid_left: true },
            None => Mapping::Done,
        }
    }

    /// Do what can be done while the lock is released.
    pub fn rest(self, piece: &Piece) -> (task: Mapping)
        requires
            self matches Mapping::Survey { l, r, .. } ==> piece@.wf() && piece.offset <= l <= r
                <= piece@.end(),
        ensures
            forall|lmap: LineMap| #[trigger] self.fits(piece@, lmap) ==> task.fits(piece@, lmap),
            forall|lmap: LineMap| #[trigger]
                task.outcome(piece@, lmap) == self.outcome(piece@, lmap),
            self is Survey ==> task is Insert && task.ahead(piece@) == self.ahead(piece@),
            self.waits() ==> forall|lmap: LineMap| #[trigger]
                self.leads_to(piece@, lmap, task, lmap),
            !self.waits() ==> task == self,
            !task.waits(),
    {
        match self {
            Mapping::Survey { l, r, rigid_left, rigid_right, next } => {
                let seg: MappedSegment = piece.survey(l, r, rigid_left, rigid_right);
                proof {
                    seg.lemma_small(0);
                }
                Mapping::Insert { seg, next }
            },
            task => task,
        }
    }

    /// Do the next step.
    pub fn step(self, piece: &Piece, lmap: &mut LineMap) -> (r: MappedOn)
        requires
            self.fits(piece@, *old(lmap)),
        ensures
            final(lmap).file_size == old(lmap).file_size,
            r.task.fits(piece@, *final(lmap)),
            r.task.outcome(piece@, *final(lmap)) == self.outcome(piece@, *old(lmap)),
            self.leads_to(piece@, *old(lmap), r.task, *final(lmap)),
            !(self is Done) ==> self.progress(piece@, *old(lmap), r.task, *final(lmap)),
            r.next == self.next_after(r.task),
            r.freed is Some <==> self.empties(r.task),
            r.freed matches Some(empty) ==> empty@.marks.len() == 1,
    {
        match self {
            Mapping::Look => {
                let end: i64 = piece.offset + piece.data.len() as i64;
                let (l, rigid_left): (i64, bool) = lmap.first_hole(piece.offset, end);
                MappedOn { task: Mapping::Hole { l, rigid_left }, next: Next::Go, freed: None }
            },
            Mapping::Hole { l, rigid_left } => {
                let task: Mapping = piece.measure(lmap, l, rigid_left);
                MappedOn { task, next: Next::Release, freed: None }
            },
            Mapping::Survey { .. } => {
                // Process data first without touching the linemap
                MappedOn { task: self.rest(piece), next: Next::Go, freed: None }
            },
            Mapping::Insert { seg, next } => {
                let task: Mapping = piece.insert(lmap, seg, next);
                let next: Next = match task {
                    Mapping::Done => Next::Done,
                    Mapping::Merge { .. } => Next::Yield,
                    _ => Next::Go,
                };
                MappedOn { task, next, freed: None }
            },
            Mapping::Merge { merging, right, next } => {
                let i: usize = merging.index();
                let ghost was = *lmap;
                let r: Merged = merging.step(lmap, piece.mapper.migrate_batch_size);
                assert(merging.leads_to(was, r, *lmap, piece@.mapper.migrate_batch_size as int));
                match r {
                    Merged::More(merging) => MappedOn {
                        task: Mapping::Merge { merging, right, next },
                        next: Next::Yield,
                        freed: None,
                    },
                    Merged::Finished(empty) => {
                        let freed: Option<MappedSegment> = Some(empty);
                        if right {
                            let merging: Merging = Merging::Begin { i };
                            let task = Mapping::Merge { merging, right: false, next };
                            MappedOn { task, next: Next::Release, freed }
                        } else {
                            proof {
                                lmap.lemma_loose_settled();
                            }
                            let lock: Next = if next.is_some() {
                                Next::Release
                            } else {
                                Next::Done
                            };
                            MappedOn { task: Mapping::onto(next), next: lock, freed }
                        }
                    },
                }
            },
            Mapping::Done => MappedOn { task: Mapping::Done, next: Next::Done, freed: None },
        }
    }

    /// Do all that is left to do.
    pub fn run(self, piece: &Piece, lmap: &mut LineMap)
        requires
            self.fits(piece@, *old(lmap)),
        ensures
            final(lmap).wf(),
            final(lmap).file_size == old(lmap).file_size,
            final(lmap)@ == self.outcome(piece@, *old(lmap)),
    {
        let mut task: Mapping = self;
        let ghost goal = self.outcome(piece@, *lmap);
        while !task.is_done()
            invariant
                task.fits(piece@, *lmap),
                lmap.file_size == old(lmap).file_size,
                task.outcome(piece@, *lmap) == goal,
            decreases task.ahead(piece@), task.rank(), task.anchors_left(*lmap),
        {
            task = task.step(piece, lmap).task;
        }
    }
}

} // verus!
