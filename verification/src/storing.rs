//! Storing data and freeing memory, cut into steps. Each step holds the lock on the store
//! for a short time only, and says what is to be done with the lock before the next one.

use crate::demem::Demem;
use crate::runs::{
    clip, filled, joined, lemma_joined_empty, lemma_resplit, lemma_split, loaded, ordered,
    overwrite, resplit, settled, split, touching, Run,
};
use crate::sparse::{moved, MergePlan, SparseData};
use std::ops::Range;
use vstd::prelude::*;

verus! {

/// What to do with the lock before the next step.
#[derive(Clone, Copy, Debug, PartialEq, Eq, Structural)]
pub enum Next {
    /// Keep it.
    Go,
    /// Let others have it first.
    Yield,
    /// Release it, drop what was handed out, rest, and take it again.
    Release,
    /// There is no next step.
    Done,
}

/// What is left to do to store a piece of data.
pub enum Storing {
    /// See whether the piece lies within one segment.
    Insert { offset: i64, data: Vec<u8> },
    /// Make a buffer for the `size` bytes that the segment at `i` holds after the piece.
    Tail { offset: i64, data: Vec<u8>, i: usize, size: usize },
    /// Copy these bytes to the new buffer.
    Split { offset: i64, data: Vec<u8>, i: usize, tail: Demem },
    /// Put the piece in its place.
    Put { offset: i64, data: Vec<u8> },
    /// See whether the segment at `i` touches the one before it.
    Left { i: usize },
    /// See whether the segment at `i` touches the one after it.
    Right { i: usize },
    /// Make a segment with room for the ones at `i` and `i + 1`.
    Grow { i: usize, into_left: bool, room: usize, right: bool },
    /// Put the new segment beside the one that is to be moved.
    Place { i: usize, into_left: bool, larger: Demem, right: bool },
    /// Move one of the segments that are to be merged into the new one.
    Move { i: usize, into_left: bool, right: bool },
    /// Merge the segments at `i` and `i + 1`. If `right` is set, see to the one after them
    /// then.
    Merge { i: usize, into_left: bool, right: bool },
    /// Nothing.
    Done,
}

/// What is left to do after a step.
pub struct Stored {
    pub task: Storing,
    pub next: Next,
    /// A buffer to drop when the lock is released, because that can take long.
    pub freed: Option<Demem>,
}

/// Whether a piece can be stored beside these runs.
pub open spec fn storable(runs: Seq<Run>, offset: int, data: Seq<u8>) -> bool {
    filled(runs) && 0 <= offset && offset + data.len() <= i64::MAX
}

/// The runs after the one at `i` was put together with the next one, if they touch.
pub open spec fn settled_right(runs: Seq<Run>, i: int) -> Seq<Run> {
    if touching(runs, i) {
        joined(runs, i)
    } else {
        runs
    }
}

/// The runs after those at `i` and `i + 1` were put together, and if `right` is set, with
/// the next one too, if they touch.
pub open spec fn merged_on(runs: Seq<Run>, i: int, right: bool) -> Seq<Run> {
    if right {
        settled_right(joined(runs, i), i)
    } else {
        joined(runs, i)
    }
}

/// The first of the two segments between which bytes are moved to make room for a merge of
/// those at `i` and `i + 1`.
pub open spec fn moving_at(i: int, into_left: bool) -> int {
    if into_left {
        i
    } else {
        i + 1
    }
}

/// Whether the run at `i` starts at or before `lo` and goes on after `hi`.
pub open spec fn straddles(runs: Seq<Run>, i: int, lo: int, hi: int) -> bool {
    0 <= i < runs.len() && runs[i].at <= lo && hi < runs[i].end()
}

/// Whether some run starts at or before `lo` and goes on after `hi`.
pub open spec fn straddled(runs: Seq<Run>, lo: int, hi: int) -> bool {
    exists|i: int| straddles(runs, i, lo, hi)
}

/// The runs after a batch of bytes was moved between those at `i` and `i + 1`. If the batch
/// is large enough for all bytes, the two are put together.
pub open spec fn batch_moved(runs: Seq<Run>, i: int, into_left: bool, batch: int) -> Seq<Run> {
    if to_move(runs, i, into_left) <= batch {
        joined(runs, i)
    } else {
        resplit(runs, i, runs[i].data.len() + moved(runs, i, into_left, batch))
    }
}

/// Splitting a run at the end of a piece does not change what comes of loading the piece.
proof fn lemma_split_loaded(runs: Seq<Run>, i: int, at: int, data: Seq<u8>)
    requires
        ordered(runs),
        filled(runs),
        data.len() > 0,
        straddles(runs, i, at, at + data.len()),
    ensures
        loaded(split(runs, i, at + data.len()), at, data) == loaded(runs, at, data),
        !straddled(split(runs, i, at + data.len()), at, at + data.len()),
{
    let m = at + data.len();
    let out = split(runs, i, m);
    lemma_split(runs, i, m);
    assert forall|k: int| !straddles(out, k, at, m) by {
        if k == i {
            assert(out[k].end() == m);
        } else if 0 <= k < i {
            assert(out[k] == runs[k]);
            assert(runs[k].end() <= runs[i].at);
        } else if i + 1 < k < out.len() {
            assert(out[k] == runs[k - 1]);
            assert(runs[i].end() <= runs[k - 1].at);
        }
    }
}

/// How many bytes are left to move between the runs at `i` and `i + 1`.
pub open spec fn to_move(runs: Seq<Run>, i: int, into_left: bool) -> nat {
    if into_left {
        runs[i + 1].data.len()
    } else {
        runs[i].data.len()
    }
}

impl Storing {
    /// Whether this can be done to a store.
    pub open spec fn fits(self, store: SparseData) -> bool {
        &&& store.wf()
        &&& store.merge_batch_size > 0
        &&& match self {
            Storing::Insert { offset, data } => storable(store@, offset as int, data@),
            Storing::Tail { offset, data, i, size } => {
                let end = offset + data@.len();
                &&& storable(store@, offset as int, data@)
                &&& data@.len() > 0
                &&& straddles(store@, i as int, offset as int, end)
                &&& size == store@[i as int].end() - end
            },
            Storing::Split { offset, data, i, tail } => {
                let end = offset + data@.len();
                let run = store@[i as int];
                &&& storable(store@, offset as int, data@)
                &&& data@.len() > 0
                &&& straddles(store@, i as int, offset as int, end)
                &&& tail.wf()
                &&& tail@.len() <= run.end() - end
                &&& tail@ == run.data.skip(end - run.at).take(tail@.len() as int)
            },
            Storing::Put { offset, data } => {
                &&& storable(store@, offset as int, data@)
                &&& data@.len() > 0
                &&& !straddled(store@, offset as int, offset + data@.len())
            },
            Storing::Left { i } => i < store@.len(),
            Storing::Right { i } => i < store@.len(),
            Storing::Grow { i, room, .. } => touching(store@, i as int) && room <= isize::MAX,
            Storing::Place { i, larger, .. } => touching(store@, i as int) && larger.wf()
                && larger@.len() == 0,
            Storing::Move { i, into_left, .. } => {
                let j = moving_at(i as int, into_left);
                touching(store@, j) && touching(joined(store@, j), i as int)
            },
            Storing::Merge { i, .. } => touching(store@, i as int),
            Storing::Done => true,
        }
    }

    /// The runs that the store is going to have in the end.
    pub open spec fn outcome(self, runs: Seq<Run>) -> Seq<Run> {
        match self {
            Storing::Insert { offset, data } => loaded(runs, offset as int, data@),
            Storing::Tail { offset, data, .. } => loaded(runs, offset as int, data@),
            Storing::Split { offset, data, .. } => loaded(runs, offset as int, data@),
            Storing::Put { offset, data } => loaded(runs, offset as int, data@),
            Storing::Left { i } => settled(runs, i as int),
            Storing::Right { i } => settled_right(runs, i as int),
            Storing::Grow { i, right, .. } => merged_on(runs, i as int, right),
            Storing::Place { i, right, .. } => merged_on(runs, i as int, right),
            Storing::Move { i, into_left, right } => merged_on(
                joined(runs, moving_at(i as int, into_left)),
                i as int,
                right,
            ),
            Storing::Merge { i, right, .. } => merged_on(runs, i as int, right),
            Storing::Done => runs,
        }
    }

    /// How many kinds of steps are still to come, at most.
    pub open spec fn rank(self) -> nat {
        let later = |right: bool|
            if right {
                10nat
            } else {
                0nat
            };
        match self {
            Storing::Insert { .. } => 60,
            Storing::Tail { .. } => 50,
            Storing::Split { .. } => 40,
            Storing::Put { .. } => 30,
            Storing::Left { .. } => 20,
            Storing::Right { .. } => 6,
            Storing::Grow { right, .. } => 5 + later(right),
            Storing::Place { right, .. } => 4 + later(right),
            Storing::Move { right, .. } => 3 + later(right),
            Storing::Merge { right, .. } => 2 + later(right),
            Storing::Done => 0,
        }
    }

    /// How many bytes are still to be moved in steps of this kind.
    pub open spec fn bytes_left(self, runs: Seq<Run>) -> nat {
        match self {
            Storing::Split { offset, data, i, tail } => (runs[i as int].end() - offset - data@.len()
                - tail@.len()) as nat,
            Storing::Move { i, into_left, .. } => to_move(
                runs,
                moving_at(i as int, into_left),
                into_left,
            ),
            Storing::Merge { i, into_left, .. } => to_move(runs, i as int, into_left),
            _ => 0,
        }
    }

    /// Whether one step leads closer to the end.
    pub open spec fn progress(self, runs: Seq<Run>, then: Storing, runs_then: Seq<Run>) -> bool {
        ||| then.rank() < self.rank()
        ||| then.rank() == self.rank() && then.bytes_left(runs_then) < self.bytes_left(runs)
    }

    /// Whether this is how the segments at `i` and `i + 1` are to be merged, where the one
    /// that is moved into has as much memory as it may have.
    pub open spec fn starts_merge(
        self,
        store: SparseData,
        i: usize,
        force_into_left: Option<bool>,
        right: bool,
    ) -> bool {
        exists|plan: MergePlan, capacity: usize|
            {
                let target = store.target(i as int, plan.into_left);
                &&& #[trigger] store.planned(i as int, force_into_left, capacity, plan)
                &&& capacity >= target.left_room() + target@.len()
                &&& self == match plan.room {
                    Some(room) => Storing::Grow { i, into_left: plan.into_left, room, right },
                    None => Storing::Merge { i, into_left: plan.into_left, right },
                }
            }
    }

    /// Whether a step leads from `was` to `now`, with `then` to do after it. No step moves
    /// more than one batch of bytes to another segment or a new buffer, and a segment is
    /// merged without a new buffer only where the plan finds that it has room or is small.
    pub open spec fn leads_to(self, was: SparseData, then: Storing, now: SparseData) -> bool {
        let batch = was.merge_batch_size as int;
        match self {
            Storing::Insert { offset, data } => {
                let end = offset + data@.len();
                &&& now == was
                &&& if data@.len() == 0 {
                    then is Done
                } else if straddled(was@, offset as int, end) {
                    &&& then matches Storing::Tail { offset: o, data: d, i, size }
                    &&& o == offset && d == data
                    &&& straddles(was@, i as int, offset as int, end)
                    &&& size == was@[i as int].end() - end
                } else {
                    then == Storing::Put { offset, data }
                }
            },
            Storing::Tail { offset, data, i, .. } => {
                &&& now == was
                &&& then matches Storing::Split { offset: o, data: d, i: j, tail }
                &&& o == offset && d == data && j == i
                &&& tail@.len() == 0
            },
            Storing::Split { offset, data, i, tail } => {
                let end = offset + data@.len();
                if self.bytes_left(was@) <= batch {
                    &&& then == Storing::Put { offset, data }
                    &&& now@ == split(was@, i as int, end)
                } else {
                    &&& now == was
                    &&& then matches Storing::Split { offset: o, data: d, i: j, tail: more }
                    &&& o == offset && d == data && j == i
                    &&& more@.len() == tail@.len() + batch
                }
            },
            Storing::Put { offset, data } => {
                &&& then == Storing::Left { i: clip(was@, 0, offset as int).len() as usize }
                &&& now@ == overwrite(was@, Run { at: offset as int, data: data@ })
            },
            Storing::Left { i } => {
                &&& now == was
                &&& if touching(was@, i - 1) {
                    then.starts_merge(was, (i - 1) as usize, None, true)
                } else {
                    then == Storing::Right { i }
                }
            },
            Storing::Right { i } => {
                &&& now == was
                &&& if touching(was@, i as int) {
                    then.starts_merge(was, i, None, false)
                } else {
                    then is Done
                }
            },
            Storing::Grow { i, into_left, room, right } => {
                &&& now == was
                &&& then matches Storing::Place { i: j, into_left: l, larger, right: r }
                &&& j == i && l == into_left && r == right
                &&& larger@.len() == 0
                &&& larger.left_room() == if into_left {
                    0
                } else {
                    room as int
                }
            },
            Storing::Place { i, into_left, larger, right } => {
                let at = if into_left {
                    i as int
                } else {
                    i + 2
                };
                &&& then == Storing::Move { i, into_left, right }
                &&& now.segments@.len() == was.segments@.len() + 1
                &&& now.segments@[at].data == larger
                &&& now.segments@.remove(at) == was.segments@
            },
            Storing::Move { i, into_left, right } => {
                let j = moving_at(i as int, into_left);
                &&& now@ == batch_moved(was@, j, into_left, batch)
                &&& then == if self.bytes_left(was@) <= batch {
                    Storing::Merge { i, into_left, right }
                } else {
                    self
                }
            },
            Storing::Merge { i, into_left, right } => {
                &&& now@ == batch_moved(was@, i as int, into_left, batch)
                &&& then == if self.bytes_left(was@) > batch {
                    self
                } else if right {
                    Storing::Right { i }
                } else {
                    Storing::Done
                }
            },
            Storing::Done => now == was && then is Done,
        }
    }

    /// Whether this step empties a segment when `then` comes next: it moves the last bytes of
    /// one.
    pub open spec fn empties(self, then: Storing) -> bool {
        self is Move && then is Merge || self is Merge && !(then is Merge)
    }

    /// Whether there is work to do for which the lock can be released.
    pub open spec fn waits(self) -> bool {
        self is Grow || self is Tail
    }

    /// What to do with the lock when this step was done and `then` comes next: it is
    /// released to make a buffer, before segments are merged and after one was emptied, and
    /// others may have it between two batches.
    pub open spec fn next_after(self, then: Storing) -> Next {
        if then is Done {
            Next::Done
        } else if then.waits() || self is Left && !(then is Right) || self is Right
            || self.empties(then) {
            Next::Release
        } else if then is Split && self is Split || self is Place || self is Move || self is Merge {
            Next::Yield
        } else {
            Next::Go
        }
    }

    /// Whether there is nothing left to do.
    pub fn is_done(&self) -> (r: bool)
        ensures
            r == (*self is Done),
    {
        matches!(self, Storing::Done)
    }

    /// How to merge the segments at `i` and `i + 1`.
    pub fn merging(
        store: &SparseData,
        i: usize,
        force_into_left: Option<bool>,
        right: bool,
    ) -> (task: Storing)
        requires
            store.wf(),
            store.merge_batch_size > 0,
            touching(store@, i as int),
        ensures
            task.fits(*store),
            task is Grow || task is Merge,
            task.starts_merge(*store, i, force_into_left, right),
            task.outcome(store@) == merged_on(store@, i as int, right),
            task.rank() <= if right {
                15nat
            } else {
                5nat
            },
    {
        let plan: MergePlan = store.plan_merge(i, force_into_left);
        match plan.room {
            Some(room) => Storing::Grow { i, into_left: plan.into_left, room, right },
            None => Storing::Merge { i, into_left: plan.into_left, right },
        }
    }

    /// Do what can be done while the lock is released.
    pub fn rest(self) -> (task: Storing)
        requires
            self matches Storing::Grow { room, .. } ==> room <= isize::MAX,
        ensures
            forall|store: SparseData| #[trigger] self.fits(store) ==> task.fits(store),
            forall|runs: Seq<Run>| #[trigger] task.outcome(runs) == self.outcome(runs),
            self is Grow ==> task is Place && task.rank() < self.rank(),
            self is Tail ==> task is Split && task.rank() < self.rank(),
            self.waits() ==> forall|store: SparseData| #[trigger]
                self.leads_to(store, task, store),
            !self.waits() ==> task == self,
            !task.waits(),
    {
        match self {
            Storing::Tail { offset, data, i, size } => {
                let room: usize = if size <= isize::MAX as usize {
                    size
                } else {
                    isize::MAX as usize
                };
                let tail: Demem = Demem::with_capacity(0, room);
                proof {
                    assert forall|store: SparseData| #[trigger] self.fits(store) implies tail@
                        == store@[i as int].data.skip(
                        offset + data@.len() - store@[i as int].at,
                    ).take(0) by {
                        assert(store@[i as int].data.skip(
                            offset + data@.len() - store@[i as int].at,
                        ).take(0) =~= Seq::<u8>::empty());
                    }
                }
                Storing::Split { offset, data, i, tail }
            },
            Storing::Grow { i, into_left, room, right } => {
                // Carry out big reallocations off the lock
                let larger: Demem = if into_left {
                    Demem::with_capacity(0, room)
                } else {
                    Demem::with_capacity(room, 0)
                };
                Storing::Place { i, into_left, larger, right }
            },
            task => task,
        }
    }

    /// Move one batch of bytes between the segments at `j` and `j + 1`. Returns the emptied
    /// segment when there is nothing left to move.
    fn move_batch(store: &mut SparseData, j: usize, into_left: bool) -> (empty: Option<Demem>)
        requires
            old(store).wf(),
            old(store).merge_batch_size > 0,
            touching(old(store)@, j as int),
        ensures
            final(store).wf(),
            final(store).same_limits(*old(store)),
            final(store)@ == batch_moved(
                old(store)@,
                j as int,
                into_left,
                old(store).merge_batch_size as int,
            ),
            empty is Some <==> to_move(old(store)@, j as int, into_left) <= old(
                store,
            ).merge_batch_size,
            empty matches Some(d) ==> final(store)@ == joined(old(store)@, j as int) && d@.len()
                == 0,
            empty is None ==> {
                &&& touching(final(store)@, j as int)
                &&& joined(final(store)@, j as int) == joined(old(store)@, j as int)
                &&& to_move(final(store)@, j as int, into_left) < to_move(
                    old(store)@,
                    j as int,
                    into_left,
                )
            },
    {
        let ghost runs = store@;
        let batch: usize = store.merge_batch_size;
        proof {
            lemma_resplit(
                runs,
                j as int,
                runs[j as int].data.len() + moved(runs, j as int, into_left, batch as int),
            );
        }
        if store.merge_batch(j, into_left) {
            Some(store.finish_merge(j, into_left).data)
        } else {
            None
        }
    }

    /// What holds of a step from `was` to `now`: what comes of it in the end stays the same,
    /// it leads closer to the end, and at most one batch of bytes is moved in it.
    pub open spec fn steps_to(self, was: SparseData, r: Stored, now: SparseData) -> bool {
        &&& now.same_limits(was)
        &&& r.task.fits(now)
        &&& r.task.outcome(now@) == self.outcome(was@)
        &&& self.leads_to(was, r.task, now)
        &&& self is Split || self is Move || self is Merge ==> self.bytes_left(was@)
            <= was.merge_batch_size + if r.task.rank() == self.rank() {
            r.task.bytes_left(now@)
        } else {
            0
        }
        &&& !(self is Done) ==> self.progress(was@, r.task, now@)
        &&& r.next == self.next_after(r.task)
        &&& r.freed is Some <==> self.empties(r.task)
        &&& r.freed matches Some(d) ==> d@.len() == 0
    }

    /// See whether the piece lies within one segment.
    fn insert_on(store: &SparseData, offset: i64, data: Vec<u8>) -> (r: Stored)
        requires
            (Storing::Insert { offset, data }).fits(*store),
        ensures
            (Storing::Insert { offset, data }).steps_to(*store, r, *store),
    {
        if data.len() == 0 {
            return Stored { task: Storing::Done, next: Next::Done, freed: None };
        }
        let end: i64 = offset + data.len() as i64;
        let i: usize = store.find_before(offset);
        if i < store.segments.len() {
            let last: i64 = store.end_of(i);
            if last > end {
                // Keep what this segment holds after the data
                assert(straddles(store@, i as int, offset as int, end as int));
                assert(store.segments@[i as int].data.wf());
                let len: usize = store.segments[i].data.len();
                assert(last - end <= len);
                let size: usize = (last - end) as usize;
                let task = Storing::Tail { offset, data, i, size };
                return Stored { task, next: Next::Release, freed: None };
            }
        }
        proof {
            assert forall|k: int| !straddles(store@, k, offset as int, end as int) by {
                if 0 <= k < i < store@.len() {
                    assert(store@[k].end() <= store@[i as int].at);
                }
            }
        }
        Stored { task: Storing::Put { offset, data }, next: Next::Go, freed: None }
    }

    /// Copy one batch of what the segment at `i` holds after the piece.
    fn split_on(
        store: &mut SparseData,
        offset: i64,
        data: Vec<u8>,
        i: usize,
        tail: Demem,
    ) -> (r: Stored)
        requires
            (Storing::Split { offset, data, i, tail }).fits(*old(store)),
        ensures
            (Storing::Split { offset, data, i, tail }).steps_to(*old(store), r, *final(store)),
    {
        let ghost runs = store@;
        let mut tail: Demem = tail;
        let end: i64 = offset + data.len() as i64;
        if store.copy_tail(i, end, &mut tail) {
            proof {
                let run = runs[i as int];
                assert(tail@ =~= run.data.skip(end - run.at));
                lemma_split_loaded(runs, i as int, offset as int, data@);
            }
            store.put_tail(i, end, tail);
            Stored { task: Storing::Put { offset, data }, next: Next::Go, freed: None }
        } else {
            let task = Storing::Split { offset, data, i, tail };
            Stored { task, next: Next::Yield, freed: None }
        }
    }

    /// Put the new segment beside the one that is to be moved.
    fn place_on(
        store: &mut SparseData,
        i: usize,
        into_left: bool,
        larger: Demem,
        right: bool,
    ) -> (r: Stored)
        requires
            (Storing::Place { i, into_left, larger, right }).fits(*old(store)),
        ensures
            (Storing::Place { i, into_left, larger, right }).steps_to(
                *old(store),
                r,
                *final(store),
            ),
    {
        let ghost runs = store@;
        let ghost segs = store.segments@;
        store.begin_move(i, into_left, larger);
        proof {
            let at = if into_left {
                lemma_joined_empty(store@, i as int);
                i as int
            } else {
                lemma_joined_empty(store@, i + 1);
                i + 2
            };
            assert(store@.remove(at) =~= runs);
            assert(store.segments@.remove(at) =~= segs);
        }
        Stored { task: Storing::Move { i, into_left, right }, next: Next::Yield, freed: None }
    }

    /// Move a batch to the new segment.
    fn move_on(store: &mut SparseData, i: usize, into_left: bool, right: bool) -> (r: Stored)
        requires
            (Storing::Move { i, into_left, right }).fits(*old(store)),
        ensures
            (Storing::Move { i, into_left, right }).steps_to(*old(store), r, *final(store)),
    {
        assert(touching(store@, moving_at(i as int, into_left)));
        assert(store@.len() == store.segments.len());
        let j: usize = if into_left {
            i
        } else {
            i + 1
        };
        match Storing::move_batch(store, j, into_left) {
            Some(empty) => Stored {
                task: Storing::Merge { i, into_left, right },
                next: Next::Release,
                freed: Some(empty),
            },
            None => Stored {
                task: Storing::Move { i, into_left, right },
                next: Next::Yield,
                freed: None,
            },
        }
    }

    /// Move a batch between the segments that are to be merged.
    fn merge_on(store: &mut SparseData, i: usize, into_left: bool, right: bool) -> (r: Stored)
        requires
            (Storing::Merge { i, into_left, right }).fits(*old(store)),
        ensures
            (Storing::Merge { i, into_left, right }).steps_to(*old(store), r, *final(store)),
    {
        match Storing::move_batch(store, i, into_left) {
            Some(empty) => if right {
                Stored { task: Storing::Right { i }, next: Next::Release, freed: Some(empty) }
            } else {
                Stored { task: Storing::Done, next: Next::Done, freed: Some(empty) }
            },
            None => Stored {
                task: Storing::Merge { i, into_left, right },
                next: Next::Yield,
                freed: None,
            },
        }
    }

    /// Do the next step.
    pub fn step(self, store: &mut SparseData) -> (r: Stored)
        requires
            self.fits(*old(store)),
        ensures
            self.steps_to(*old(store), r, *final(store)),
    {
        match self {
            Storing::Insert { offset, data } => Storing::insert_on(store, offset, data),
            Storing::Tail { .. } => {
                Stored { task: self.rest(), next: Next::Go, freed: None }
            },
            Storing::Split { offset, data, i, tail } => Storing::split_on(
                store,
                offset,
                data,
                i,
                tail,
            ),
            Storing::Put { offset, data } => {
                let i: usize = store.insert_segment(offset, data);
                Stored { task: Storing::Left { i }, next: Next::Go, freed: None }
            },
            Storing::Left { i } => {
                if i > 0 && store.touches(i - 1) {
                    let task: Storing = Storing::merging(store, i - 1, None, true);
                    Stored { task, next: Next::Release, freed: None }
                } else {
                    Stored { task: Storing::Right { i }, next: Next::Go, freed: None }
                }
            },
            Storing::Right { i } => {
                if store.touches(i) {
                    let task: Storing = Storing::merging(store, i, None, false);
                    Stored { task, next: Next::Release, freed: None }
                } else {
                    Stored { task: Storing::Done, next: Next::Done, freed: None }
                }
            },
            Storing::Grow { .. } => {
                Stored { task: self.rest(), next: Next::Go, freed: None }
            },
            Storing::Place { i, into_left, larger, right } => Storing::place_on(
                store,
                i,
                into_left,
                larger,
                right,
            ),
            Storing::Move { i, into_left, right } => Storing::move_on(store, i, into_left, right),
            Storing::Merge { i, into_left, right } => Storing::merge_on(
                store,
                i,
                into_left,
                right,
            ),
            Storing::Done => Stored { task: Storing::Done, next: Next::Done, freed: None },
        }
    }

    /// Do all that is left to do.
    pub fn run(self, store: &mut SparseData)
        requires
            self.fits(*old(store)),
        ensures
            final(store).wf(),
            final(store).same_limits(*old(store)),
            final(store)@ == self.outcome(old(store)@),
    {
        let mut task: Storing = self;
        let ghost goal = self.outcome(store@);
        while !task.is_done()
            invariant
                task.fits(*store),
                store.same_limits(*old(store)),
                task.outcome(store@) == goal,
            decreases task.rank(), task.bytes_left(store@),
        {
            task = task.step(store).task;
        }
    }
}

/// What is left to do to clean up memory.
pub enum Cleaning {
    /// Drop everything outside `keep`, if the `total_cap` bytes that are in use are too
    /// many.
    Clip { total_cap: usize, keep: Range<i64> },
    /// Free the spare memory of the segments from `i` on. `acc` bytes were moved since the
    /// lock was last released.
    Shrink { i: usize, acc: usize },
    /// Make a buffer of just the size that the segment at `i` has.
    Reserve { i: usize, size: usize },
    /// Copy the bytes of the segment at `i` to a new buffer.
    Copy { i: usize, new: Demem },
    /// Nothing.
    Done,
}

/// What is left to do after a step.
pub struct Cleaned {
    pub task: Cleaning,
    pub next: Next,
    /// Buffers to drop when the lock is released, because that can take long.
    pub freed: Vec<Demem>,
}

/// Whether the segment at `i` can have `cap` bytes of memory, and whether freeing what it
/// does not need would then move too much, after `acc` bytes were moved already.
pub open spec fn shrinks(store: SparseData, i: int, acc: usize, cap: usize, large: bool) -> bool {
    &&& cap >= store.segments@[i].data.left_room() + store@[i].data.len()
    &&& large == (acc + cap >= store.realloc_threshold)
}

impl Cleaning {
    /// Whether these are the buffers that a step from `was` to `now` hands out: an empty one
    /// for each segment that is gone, or the one that was copied.
    pub open spec fn hands_out(
        self,
        was: SparseData,
        then: Cleaning,
        now: SparseData,
        freed: Seq<Demem>,
    ) -> bool {
        match (self, then) {
            (Cleaning::Clip { .. }, _) => {
                &&& freed.len() == was@.len() - now@.len()
                &&& forall|k: int| 0 <= k < freed.len() ==> (#[trigger] freed[k])@.len() == 0
            },
            (Cleaning::Copy { i, .. }, Cleaning::Shrink { .. }) => freed == seq![
                was.segments@[i as int].data,
            ],
            _ => freed.len() == 0,
        }
    }

    /// Whether this can be done to a store.
    pub open spec fn fits(self, store: SparseData) -> bool {
        &&& store.wf()
        &&& store.merge_batch_size > 0
        &&& match self {
            Cleaning::Clip { .. } => true,
            Cleaning::Shrink { i, .. } => i <= store@.len() && store.tight_upto(i as int),
            Cleaning::Reserve { i, size } => {
                &&& i < store@.len()
                &&& store.tight_upto(i as int)
                &&& size == store@[i as int].data.len()
            },
            Cleaning::Copy { i, new } => {
                &&& i < store@.len()
                &&& store.tight_upto(i as int)
                &&& new.wf()
                &&& new.left_room() == 0
                &&& new@.len() <= store@[i as int].data.len()
                &&& new@ == store@[i as int].data.take(new@.len() as int)
            },
            Cleaning::Done => true,
        }
    }

    /// How many segments are still to be seen to.
    pub open spec fn segments_left(self, runs: Seq<Run>) -> int {
        match self {
            Cleaning::Shrink { i, .. } => runs.len() - i,
            Cleaning::Reserve { i, .. } => runs.len() - i,
            Cleaning::Copy { i, .. } => runs.len() - i,
            _ => 0,
        }
    }

    /// How many kinds of steps are still to come for a segment, at most.
    pub open spec fn rank(self) -> nat {
        match self {
            Cleaning::Clip { .. } => 4,
            Cleaning::Shrink { .. } => 3,
            Cleaning::Reserve { .. } => 2,
            Cleaning::Copy { .. } => 1,
            Cleaning::Done => 0,
        }
    }

    /// How many bytes are still to be copied for a segment.
    pub open spec fn bytes_left(self, runs: Seq<Run>) -> int {
        match self {
            Cleaning::Copy { i, new } => runs[i as int].data.len() - new@.len(),
            _ => 0,
        }
    }

    /// Whether one step leads closer to the end.
    pub open spec fn progress(self, runs: Seq<Run>, then: Cleaning, runs_then: Seq<Run>) -> bool {
        let segments = self.segments_left(runs);
        let segments_then = then.segments_left(runs_then);
        &&& !(then is Clip)
        &&& self is Clip || segments_then < segments || (segments_then == segments && (then.rank()
            < self.rank() || (then.rank() == self.rank() && then.bytes_left(runs_then)
            < self.bytes_left(runs))))
    }

    /// Whether a step leads from `was` to `now`, with `then` to do after it. The spare memory
    /// of a segment is freed in one go only as long as less than `realloc_threshold` bytes
    /// are moved for that with the lock held; else its bytes are copied in batches.
    pub open spec fn leads_to(self, was: SparseData, then: Cleaning, now: SparseData) -> bool {
        match self {
            Cleaning::Clip { total_cap, keep } => if total_cap <= was.max_loaded {
                then is Done && now.segments == was.segments
            } else {
                &&& then == Cleaning::Shrink { i: 0, acc: 0 }
                &&& now@ == clip(was@, keep.start as int, keep.end as int)
            },
            Cleaning::Shrink { i, acc } => if i >= was@.len() {
                then is Done && now == was
            } else {
                exists|cap: usize, large: bool|
                    {
                        &&& #[trigger] shrinks(was, i as int, acc, cap, large)
                        &&& if large {
                            &&& now == was
                            &&& then matches Cleaning::Reserve { i: j, size }
                            &&& j == i && size == was@[i as int].data.len()
                        } else {
                            &&& then == Cleaning::Shrink {
                                i: (i + 1) as usize,
                                acc: (acc + cap) as usize,
                            }
                            &&& now@ == was@
                            &&& now.segments@[i as int].data.left_room() == 0
                            &&& forall|k: int|
                                0 <= k < was@.len() && k != i ==> #[trigger] now.segments@[k]
                                    == was.segments@[k]
                        }
                    }
            },
            Cleaning::Reserve { i, .. } => {
                &&& now == was
                &&& then matches Cleaning::Copy { i: j, new }
                &&& j == i && new@.len() == 0
            },
            Cleaning::Copy { i, new } => if self.bytes_left(was@) <= was.merge_batch_size {
                &&& then == Cleaning::Shrink { i: (i + 1) as usize, acc: 0 }
                &&& now@ == was@
                &&& now.segments@[i as int].data.left_room() == 0
            } else {
                &&& now == was
                &&& then matches Cleaning::Copy { i: j, new: more }
                &&& j == i && more@.len() == new@.len() + was.merge_batch_size
            },
            Cleaning::Done => then is Done && now == was,
        }
    }

    /// Whether there is work to do for which the lock can be released.
    pub open spec fn waits(self) -> bool {
        self is Reserve
    }

    /// What to do with the lock when this step was done and `then` comes next: it is
    /// released to make a buffer, and others may have it between two batches.
    pub open spec fn next_after(self, then: Cleaning) -> Next {
        match (self, then) {
            (_, Cleaning::Done) => Next::Done,
            (_, Cleaning::Reserve { .. }) => Next::Release,
            (Cleaning::Copy { .. }, Cleaning::Copy { .. }) => Next::Yield,
            _ => Next::Go,
        }
    }

    /// Whether there is nothing left to do.
    pub fn is_done(&self) -> (r: bool)
        ensures
            r == (*self is Done),
    {
        matches!(self, Cleaning::Done)
    }

    /// Do what can be done while the lock is released.
    pub fn rest(self) -> (task: Cleaning)
        ensures
            self.waits() ==> forall|store: SparseData| #[trigger]
                self.leads_to(store, task, store),
            !task.waits(),
            forall|store: SparseData| #[trigger] self.fits(store) ==> task.fits(store),
            self matches Cleaning::Reserve { i, .. } ==> (task matches Cleaning::Copy {
                i: j,
                new,
            } && j == i && new@.len() == 0),
            !self.waits() ==> task == self,
    {
        match self {
            Cleaning::Reserve { i, size } => {
                let room: usize = if size <= isize::MAX as usize {
                    size
                } else {
                    isize::MAX as usize
                };
                let new: Demem = Demem::with_capacity(0, room);
                proof {
                    assert forall|store: SparseData| #[trigger] self.fits(store) implies new@
                        == store@[i as int].data.take(0) by {
                        assert(store@[i as int].data.take(0) =~= Seq::<u8>::empty());
                    }
                }
                Cleaning::Copy { i, new }
            },
            task => task,
        }
    }

    /// Do the next step.
    pub fn step(self, store: &mut SparseData) -> (r: Cleaned)
        requires
            self.fits(*old(store)),
        ensures
            final(store).same_limits(*old(store)),
            r.task.fits(*final(store)),
            self.leads_to(*old(store), r.task, *final(store)),
            self is Copy ==> self.bytes_left(old(store)@) <= old(store).merge_batch_size
                + r.task.bytes_left(final(store)@),
            !(self is Done) ==> self.progress(old(store)@, r.task, final(store)@),
            self matches Cleaning::Clip { total_cap, keep } ==> if total_cap <= old(
                store,
            ).max_loaded {
                r.task is Done && final(store).segments == old(store).segments
            } else {
                !(r.task is Done) && final(store)@ == clip(
                    old(store)@,
                    keep.start as int,
                    keep.end as int,
                )
            },
            !(self is Clip) ==> final(store)@ == old(store)@,
            r.task is Done && !(self is Clip) && !(self is Done) ==> final(store).tight_upto(
                final(store)@.len() as int,
            ),
            r.next == self.next_after(r.task),
            self.hands_out(*old(store), r.task, *final(store), r.freed@),
    {
        match self {
            Cleaning::Clip { total_cap, keep } => {
                if total_cap <= store.max_loaded {
                    return Cleaned { task: Cleaning::Done, next: Next::Done, freed: Vec::new() };
                }
                let freed: Vec<Demem> = store.clip_to(keep);
                Cleaned { task: Cleaning::Shrink { i: 0, acc: 0 }, next: Next::Go, freed }
            },
            Cleaning::Shrink { i, acc } => {
                if i >= store.segments.len() {
                    return Cleaned { task: Cleaning::Done, next: Next::Done, freed: Vec::new() };
                }
                assert(store.segments@[i as int].data.wf());
                assert(store@[i as int] == store.segments@[i as int]@);
                let size: usize = store.segments[i].data.len();
                let cap: usize = store.segments[i].data.capacity();
                let ghost before = acc;
                let acc: usize = acc.saturating_add(cap);
                assert(shrinks(*store, i as int, before, cap, acc >= store.realloc_threshold));
                if acc >= store.realloc_threshold {
                    // Data is too large to relocate in one go
                    Cleaned {
                        task: Cleaning::Reserve { i, size },
                        next: Next::Release,
                        freed: Vec::new(),
                    }
                } else {
                    // Data is small enough to shrink in one go
                    store.shrink_segment(i);
                    Cleaned {
                        task: Cleaning::Shrink { i: i + 1, acc },
                        next: Next::Go,
                        freed: Vec::new(),
                    }
                }
            },
            Cleaning::Reserve { .. } => {
                Cleaned { task: self.rest(), next: Next::Go, freed: Vec::new() }
            },
            Cleaning::Copy { i, new } => {
                let mut new: Demem = new;
                if store.copy_batch(i, &mut new) {
                    // Replace the old container with the new tight container
                    proof {
                        assert(new@ =~= store@[i as int].data);
                    }
                    assert(i < store.segments.len());
                    let mut freed: Vec<Demem> = Vec::new();
                    freed.push(store.swap_data(i, new));
                    Cleaned {
                        task: Cleaning::Shrink { i: i + 1, acc: 0 },
                        next: Next::Go,
                        freed,
                    }
                } else {
                    Cleaned {
                        task: Cleaning::Copy { i, new },
                        next: Next::Yield,
                        freed: Vec::new(),
                    }
                }
            },
            Cleaning::Done => {
                Cleaned { task: Cleaning::Done, next: Next::Done, freed: Vec::new() }
            },
        }
    }

    /// Do all that is left to do.
    pub fn run(self, store: &mut SparseData)
        requires
            self is Clip,
            self.fits(*old(store)),
        ensures
            final(store).wf(),
            final(store).same_limits(*old(store)),
            self matches Cleaning::Clip { total_cap, keep } ==> final(store).cleaned(
                *old(store),
                total_cap,
                keep,
            ),
    {
        let mut task: Cleaning = self.step(store).task;
        let ghost runs = store@;
        let ghost idle = task is Done;
        let ghost segments = store.segments;
        while !task.is_done()
            invariant
                task.fits(*store),
                !(task is Clip),
                store.same_limits(*old(store)),
                store@ == runs,
                idle ==> task is Done && store.segments == segments,
                !idle && task is Done ==> store.tight_upto(runs.len() as int),
            decreases task.segments_left(store@), task.rank(), task.bytes_left(store@),
        {
            task = task.step(store).task;
        }
    }
}

} // verus!
