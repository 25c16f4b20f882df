//! Taking in a piece of the file, cut into steps. Each step holds the lock on what is
//! loaded for a short time only. Between two steps, what is loaded can be read.

use crate::demem::Demem;
use crate::filling::processed;
use crate::linemap::{Mapped, MappedSegment};
use crate::linemapper::LineMapper;
use crate::loaded::LoadedData;
use crate::mapping::{Excerpt, Mapping, Piece};
use crate::runs::{clip, lemma_clip, lemma_loaded, loaded, tidy, Run};
use crate::sparse::{capped, lemma_added, live, SparseData};
use crate::storing::{Cleaning, Next, Storing};
use std::ops::Range;
use vstd::prelude::*;

verus! {

/// How a piece of the file is to be taken in.
pub struct Load<'a> {
    pub mapper: &'a LineMapper,
    /// Where it stands in the file.
    pub offset: i64,
    /// What has to stay loaded.
    pub keep: Range<i64>,
    /// Whether to store it, or only map it.
    pub store: bool,
}

/// What is left to do to take in a piece of the file.
pub enum Loading {
    /// Map the bytes.
    Mapping(Mapping, Vec<u8>),
    /// Store them.
    Storing(Storing),
    /// Clean up memory.
    Cleaning(Cleaning),
    /// Nothing.
    Done,
}

/// What is left to do after a step.
pub struct LoadedOn {
    pub task: Loading,
    pub next: Next,
    /// A segment to drop when the lock is released, because that can take long.
    pub segment: Option<MappedSegment>,
    /// Buffers to drop when the lock is released.
    pub buffers: Vec<Demem>,
    /// The bytes of the piece, when they are not needed any more.
    pub bytes: Option<Vec<u8>>,
}

impl<'a> Load<'a> {
    /// The piece of the file with these bytes.
    pub open spec fn excerpt(self, bytes: Seq<u8>) -> Excerpt {
        Excerpt { mapper: *self.mapper, offset: self.offset, data: bytes }
    }

    /// What the map is going to know.
    pub open spec fn mapped(self, was: LoadedData, bytes: Seq<u8>) -> Seq<Mapped> {
        processed(
            was.linemap@,
            was.linemap.file_size as int,
            self.offset as int,
            bytes,
            self.mapper.layout@,
            self.mapper.bytes_per_anchor as int,
        )
    }

    /// The runs that are loaded before memory is cleaned up.
    pub open spec fn stored(self, was: LoadedData, bytes: Seq<u8>) -> Seq<Run> {
        if self.store {
            loaded(was.data@, self.offset as int, bytes)
        } else {
            was.data@
        }
    }

    /// Whether that many bytes of memory can be in use then.
    pub open spec fn may_use(self, was: LoadedData, bytes: Seq<u8>, total: usize) -> bool {
        exists|full: SparseData, caps: Seq<usize>|
            {
                &&& full@ == self.stored(was, bytes)
                &&& #[trigger] full.may_hold(caps)
                &&& total == capped(caps)
            }
    }

    /// Whether the loaded bytes are those that there are in the end.
    pub open spec fn kept(self, now: SparseData, was: LoadedData, bytes: Seq<u8>) -> bool {
        let all = self.stored(was, bytes);
        if self.store {
            exists|total: usize| #[trigger]
                self.may_use(was, bytes, total) && if total <= was.data.max_loaded {
                    now@ == all
                } else {
                    &&& now@ == clip(all, self.keep.start as int, self.keep.end as int)
                    &&& now.tight_upto(now@.len() as int)
                }
        } else {
            now@ == all
        }
    }
}

impl<'a> Load<'a> {
    /// Nothing is dropped unless there is a limit on memory, and what is outside the range
    /// to keep is dropped if more is loaded than the limit allows.
    pub proof fn lemma_kept(self, now: SparseData, was: LoadedData, bytes: Seq<u8>)
        requires
            self.kept(now, was, bytes),
        ensures
            !self.store ==> now@ == was.data@,
            now@ == self.stored(was, bytes) || now@ == clip(
                self.stored(was, bytes),
                self.keep.start as int,
                self.keep.end as int,
            ),
            was.data.max_loaded == usize::MAX ==> now@ == self.stored(was, bytes),
            self.store && live(self.stored(was, bytes)) > was.data.max_loaded
                && was.data.max_loaded < usize::MAX ==> now@ == clip(
                self.stored(was, bytes),
                self.keep.start as int,
                self.keep.end as int,
            ),
    {
        let all = self.stored(was, bytes);
        if self.store {
            let total = choose|total: usize| #[trigger]
                self.may_use(was, bytes, total) && if total <= was.data.max_loaded {
                    now@ == all
                } else {
                    &&& now@ == clip(all, self.keep.start as int, self.keep.end as int)
                    &&& now.tight_upto(now@.len() as int)
                };
            let (full, caps) = choose|full: SparseData, caps: Seq<usize>|
                {
                    &&& full@ == all
                    &&& #[trigger] full.may_hold(caps)
                    &&& total == capped(caps)
                };
            lemma_added(full@, caps);
        }
    }
}

impl Loading {
    /// Whether this can be done to what is loaded.
    pub open spec fn fits(self, load: Load, loaded: LoadedData) -> bool {
        &&& loaded.data.wf()
        &&& loaded.data.merge_batch_size > 0
        &&& loaded.sel matches Some(sel) ==> sel.start <= sel.end
        &&& match self {
            Loading::Mapping(task, bytes) => {
                &&& !(task is Done)
                &&& load.excerpt(bytes@).wf()
                &&& task.fits(load.excerpt(bytes@), loaded.linemap)
                &&& tidy(loaded.data@)
            },
            Loading::Storing(task) => {
                &&& !(task is Done)
                &&& loaded.linemap.wf()
                &&& task.fits(loaded.data)
                &&& tidy(task.outcome(loaded.data@))
            },
            Loading::Cleaning(task) => {
                &&& !(task is Done)
                &&& loaded.linemap.wf()
                &&& task.fits(loaded.data)
                &&& tidy(loaded.data@)
            },
            Loading::Done => loaded.linemap.wf() && tidy(loaded.data@),
        }
    }

    /// Whether `now` is on the way from `was` to what there is when the piece with these
    /// bytes was taken in.
    pub open spec fn on_way(
        self,
        load: Load,
        now: LoadedData,
        was: LoadedData,
        piece: Seq<u8>,
    ) -> bool {
        let goal = load.mapped(was, piece);
        let all = load.stored(was, piece);
        &&& now.linemap.file_size == was.linemap.file_size
        &&& now.data.same_limits(was.data)
        &&& now.hot == was.hot
        &&& now.sel == was.sel
        &&& now.pending_sel_copy == was.pending_sel_copy
        &&& match self {
            Loading::Mapping(task, bytes) => {
                &&& bytes@ == piece
                &&& task.outcome(load.excerpt(piece), now.linemap) == goal
                &&& now.data@ == was.data@
            },
            Loading::Storing(task) => {
                &&& load.store
                &&& now.linemap@ == goal
                &&& task.outcome(now.data@) == all
            },
            Loading::Cleaning(task) => {
                &&& load.store
                &&& now.linemap@ == goal
                &&& match task {
                    Cleaning::Clip { total_cap, keep } => {
                        &&& keep == load.keep
                        &&& load.may_use(was, piece, total_cap)
                        &&& now.data@ == all
                    },
                    _ => {
                        &&& exists|total: usize| #[trigger]
                            load.may_use(was, piece, total) && total > was.data.max_loaded
                        &&& now.data@ == clip(all, load.keep.start as int, load.keep.end as int)
                    },
                }
            },
            Loading::Done => now.linemap@ == goal && load.kept(now.data, was, piece),
        }
    }

    /// How many parts of the work are still to come, at most.
    pub open spec fn stage(self) -> nat {
        match self {
            Loading::Mapping(..) => 3,
            Loading::Storing(..) => 2,
            Loading::Cleaning(..) => 1,
            Loading::Done => 0,
        }
    }

    /// Whether one step leads closer to the end.
    pub open spec fn progress(
        self,
        load: Load,
        now: LoadedData,
        then: Loading,
        next: LoadedData,
    ) -> bool {
        then.stage() < self.stage() || match (self, then) {
            (Loading::Mapping(task, bytes), Loading::Mapping(task1, bytes1)) => {
                &&& bytes1@ == bytes@
                &&& task.progress(load.excerpt(bytes@), now.linemap, task1, next.linemap)
            },
            (Loading::Storing(task), Loading::Storing(task1)) => task.progress(
                now.data@,
                task1,
                next.data@,
            ),
            (Loading::Cleaning(task), Loading::Cleaning(task1)) => task.progress(
                now.data@,
                task1,
                next.data@,
            ),
            _ => false,
        }
    }

    /// What is left to do in a part of the work, by what shrinks first.
    pub open spec fn left(self, load: Load, now: LoadedData) -> (int, int, int, int) {
        match self {
            Loading::Mapping(task, bytes) => (
                task.ahead(load.excerpt(bytes@)),
                task.rank() as int,
                task.anchors_left(now.linemap) as int,
                0,
            ),
            Loading::Storing(task) => (
                task.rank() as int,
                task.bytes_left(now.data@) as int,
                0,
                0,
            ),
            Loading::Cleaning(task) => (
                if task is Clip {
                    1
                } else {
                    0
                },
                task.segments_left(now.data@),
                task.rank() as int,
                task.bytes_left(now.data@),
            ),
            Loading::Done => (0, 0, 0, 0),
        }
    }

    /// Whether a step leads from `was` to `now`, with `then` to do after it: it is a step of
    /// one part of the work, and does no more than that.
    pub open spec fn leads_to(
        self,
        load: Load,
        was: LoadedData,
        then: Loading,
        now: LoadedData,
    ) -> bool {
        match self {
            Loading::Mapping(task, bytes) => {
                &&& now.data == was.data
                &&& exists|next: Mapping| #[trigger]
                    task.leads_to(load.excerpt(bytes@), was.linemap, next, now.linemap) && then
                        == if !(next is Done) {
                        Loading::Mapping(next, bytes)
                    } else if load.store {
                        Loading::Storing(Storing::Insert { offset: load.offset, data: bytes })
                    } else {
                        Loading::Done
                    }
            },
            Loading::Storing(task) => {
                &&& now.linemap == was.linemap
                &&& exists|next: Storing| #[trigger]
                    task.leads_to(was.data, next, now.data) && if next is Done {
                        then matches Loading::Cleaning(Cleaning::Clip { keep, .. }) && keep
                            == load.keep
                    } else {
                        then == Loading::Storing(next)
                    }
            },
            Loading::Cleaning(task) => {
                &&& now.linemap == was.linemap
                &&& exists|next: Cleaning| #[trigger]
                    task.leads_to(was.data, next, now.data) && then == if next is Done {
                        Loading::Done
                    } else {
                        Loading::Cleaning(next)
                    }
            },
            Loading::Done => then is Done && now == was,
        }
    }

    /// Whether a step hands out the right things to drop when `then` comes next: what the part
    /// of the work that it belongs to hands out, and nothing else.
    pub open spec fn hands_out(
        self,
        was: LoadedData,
        then: Loading,
        now: LoadedData,
        segment: Option<MappedSegment>,
        buffers: Seq<Demem>,
    ) -> bool {
        match self {
            Loading::Mapping(task, _) => {
                let next = match then {
                    Loading::Mapping(next, _) => next,
                    _ => Mapping::Done,
                };
                &&& segment is Some <==> task.empties(next)
                &&& segment matches Some(empty) ==> empty@.marks.len() == 1
                &&& buffers.len() == 0
            },
            Loading::Storing(task) => {
                let next = match then {
                    Loading::Storing(next) => next,
                    _ => Storing::Done,
                };
                &&& segment is None
                &&& buffers.len() == if task.empties(next) {
                    1nat
                } else {
                    0nat
                }
                &&& forall|k: int| 0 <= k < buffers.len() ==> (#[trigger] buffers[k])@.len() == 0
            },
            Loading::Cleaning(task) => {
                let next = match then {
                    Loading::Cleaning(next) => next,
                    _ => Cleaning::Done,
                };
                &&& segment is None
                &&& task.hands_out(was.data, next, now.data, buffers)
            },
            Loading::Done => segment is None && buffers.len() == 0,
        }
    }

    /// Whether there is work to do for which the lock can be released: to map a hole, or to
    /// make a buffer.
    pub open spec fn waits(self) -> bool {
        match self {
            Loading::Mapping(task, _) => task.waits(),
            Loading::Storing(task) => task.waits(),
            Loading::Cleaning(task) => task.waits(),
            Loading::Done => false,
        }
    }

    /// What to do with the lock when this step was done and `then` comes next: it is released
    /// between two parts of the work.
    pub open spec fn next_after(self, then: Loading) -> Next {
        match (self, then) {
            (_, Loading::Done) => Next::Done,
            (Loading::Mapping(task, _), Loading::Mapping(task1, _)) => task.next_after(task1),
            (Loading::Storing(task), Loading::Storing(task1)) => task.next_after(task1),
            (Loading::Cleaning(task), Loading::Cleaning(task1)) => task.next_after(task1),
            _ => Next::Release,
        }
    }

    /// While a piece is taken in, what is loaded can be read.
    pub proof fn lemma_readable(self, load: Load, loaded: LoadedData)
        requires
            self.fits(load, loaded),
        ensures
            loaded.readable(),
    {
        match self {
            Loading::Mapping(task, bytes) => {
                match task {
                    Mapping::Merge { merging, .. } => {
                        if merging is Begin {
                            assert forall|i: int| 0 <= i < loaded.linemap.segments@.len() implies (
                            #[trigger] loaded.linemap.segments@[i]).readable() by {
                                assert(loaded.linemap.segments@[i].wf());
                            }
                        }
                    },
                    _ => {
                        loaded.linemap.lemma_settled();
                    },
                }
            },
            _ => {
                loaded.linemap.lemma_settled();
            },
        }
    }

    /// Whether there is nothing left to do.
    pub fn is_done(&self) -> (r: bool)
        ensures
            r == (*self is Done),
    {
        matches!(self, Loading::Done)
    }

    /// Do what can be done while the lock is released.
    pub fn rest(self, load: &Load) -> (task: Loading)
        requires
            exists|loaded: LoadedData| self.fits(*load, loaded),
        ensures
            forall|loaded: LoadedData| #[trigger] self.fits(*load, loaded) ==> task.fits(*load, loaded),
            forall|now: LoadedData, was: LoadedData, piece: Seq<u8>| #[trigger]
                self.on_way(*load, now, was, piece) ==> task.on_way(*load, now, was, piece),
            self.waits() ==> forall|loaded: LoadedData| #[trigger]
                self.leads_to(*load, loaded, task, loaded),
            !self.waits() ==> task == self,
            !task.waits(),
            match self {
                Loading::Mapping(t, bytes) => {
                    &&& task matches Loading::Mapping(t1, bytes1)
                    &&& bytes1 == bytes
                    &&& if t is Survey {
                        t1 is Insert
                    } else {
                        t1 == t
                    }
                },
                Loading::Storing(t) => {
                    &&& task matches Loading::Storing(t1)
                    &&& if t is Grow {
                        t1 is Place
                    } else if t is Tail {
                        t1 is Split
                    } else {
                        t1 == t
                    }
                },
                Loading::Cleaning(t) => {
                    &&& task matches Loading::Cleaning(t1)
                    &&& if t is Reserve {
                        t1 is Copy
                    } else {
                        t1 == t
                    }
                },
                Loading::Done => task is Done,
            },
    {
        let ghost was = self;
        let task: Loading = match self {
            Loading::Mapping(task, bytes) => {
                let piece = Piece {
                    mapper: load.mapper,
                    offset: load.offset,
                    data: bytes.as_slice(),
                };
                assert(piece@ == load.excerpt(bytes@));
                let task: Mapping = task.rest(&piece);
                Loading::Mapping(task, bytes)
            },
            Loading::Storing(task) => Loading::Storing(task.rest()),
            Loading::Cleaning(task) => Loading::Cleaning(task.rest()),
            Loading::Done => Loading::Done,
        };
        proof {
            assert forall|loaded: LoadedData| was.waits() implies #[trigger] was.leads_to(
                *load,
                loaded,
                task,
                loaded,
            ) by {
                match (was, task) {
                    (Loading::Mapping(t, bytes), Loading::Mapping(t1, _)) => {
                        let lmap = loaded.linemap;
                        assert(t.leads_to(load.excerpt(bytes@), lmap, t1, lmap));
                    },
                    (Loading::Storing(t), Loading::Storing(t1)) => {
                        assert(t.leads_to(loaded.data, t1, loaded.data));
                    },
                    (Loading::Cleaning(t), Loading::Cleaning(t1)) => {
                        assert(t.leads_to(loaded.data, t1, loaded.data));
                    },
                    _ => {},
                }
            }
        }
        task
    }

    /// Do the next step of mapping.
    fn map_on(
        load: &Load,
        loaded: &mut LoadedData,
        task: Mapping,
        bytes: Vec<u8>,
    ) -> (r: LoadedOn)
        requires
            Loading::Mapping(task, bytes).fits(*load, *old(loaded)),
        ensures
            r.task.fits(*load, *final(loaded)),
            Loading::Mapping(task, bytes).progress(*load, *old(loaded), r.task, *final(loaded)),
            r.next == Loading::Mapping(task, bytes).next_after(r.task),
            Loading::Mapping(task, bytes).leads_to(*load, *old(loaded), r.task, *final(loaded)),
            r.bytes matches Some(b) ==> b@ == bytes@,
            r.bytes is Some <==> r.task is Done,
            Loading::Mapping(task, bytes).hands_out(
                *old(loaded),
                r.task,
                *final(loaded),
                r.segment,
                r.buffers@,
            ),
            forall|was: LoadedData, piece: Seq<u8>| #[trigger]
                Loading::Mapping(task, bytes).on_way(*load, *old(loaded), was, piece)
                    ==> r.task.on_way(*load, *final(loaded), was, piece),
    {
        proof {
            lemma_loaded(loaded.data@, load.offset as int, bytes@);
        }
        let piece = Piece { mapper: load.mapper, offset: load.offset, data: bytes.as_slice() };
        assert(piece@ == load.excerpt(bytes@));
        let ghost was = *loaded;
        let step = task.step(&piece, &mut loaded.linemap);
        assert(task.leads_to(load.excerpt(bytes@), was.linemap, step.task, loaded.linemap));
        if !step.task.is_done() {
            LoadedOn {
                task: Loading::Mapping(step.task, bytes),
                next: step.next,
                segment: step.freed,
                buffers: Vec::new(),
                bytes: None,
            }
        } else if load.store {
            LoadedOn {
                task: Loading::Storing(Storing::Insert { offset: load.offset, data: bytes }),
                next: Next::Release,
                segment: step.freed,
                buffers: Vec::new(),
                bytes: None,
            }
        } else {
            LoadedOn {
                task: Loading::Done,
                next: Next::Done,
                segment: step.freed,
                buffers: Vec::new(),
                bytes: Some(bytes),
            }
        }
    }

    /// Do the next step of storing.
    fn store_on(load: &Load, loaded: &mut LoadedData, task: Storing) -> (r: LoadedOn)
        requires
            Loading::Storing(task).fits(*load, *old(loaded)),
        ensures
            r.task.fits(*load, *final(loaded)),
            Loading::Storing(task).progress(*load, *old(loaded), r.task, *final(loaded)),
            r.next == Loading::Storing(task).next_after(r.task),
            Loading::Storing(task).leads_to(*load, *old(loaded), r.task, *final(loaded)),
            r.bytes is None,
            Loading::Storing(task).hands_out(
                *old(loaded),
                r.task,
                *final(loaded),
                r.segment,
                r.buffers@,
            ),
            forall|was: LoadedData, piece: Seq<u8>| #[trigger]
                Loading::Storing(task).on_way(*load, *old(loaded), was, piece)
                    ==> r.task.on_way(*load, *final(loaded), was, piece),
    {
        let ghost was = *loaded;
        let step = task.step(&mut loaded.data);
        assert(task.leads_to(was.data, step.task, loaded.data));
        let mut buffers: Vec<Demem> = Vec::new();
        if let Some(empty) = step.freed {
            buffers.push(empty);
        }
        if !step.task.is_done() {
            return LoadedOn {
                task: Loading::Storing(step.task),
                next: step.next,
                segment: None,
                buffers,
                bytes: None,
            };
        }
        let total_cap: usize = loaded.data.total_capacity();
        let keep: Range<i64> = load.keep.start..load.keep.end;
        LoadedOn {
            task: Loading::Cleaning(Cleaning::Clip { total_cap, keep }),
            next: Next::Release,
            segment: None,
            buffers,
            bytes: None,
        }
    }

    /// Do the next step of cleaning up.
    fn clean_on(load: &Load, loaded: &mut LoadedData, task: Cleaning) -> (r: LoadedOn)
        requires
            Loading::Cleaning(task).fits(*load, *old(loaded)),
        ensures
            r.task.fits(*load, *final(loaded)),
            Loading::Cleaning(task).progress(*load, *old(loaded), r.task, *final(loaded)),
            r.next == Loading::Cleaning(task).next_after(r.task),
            Loading::Cleaning(task).leads_to(*load, *old(loaded), r.task, *final(loaded)),
            r.bytes is None,
            Loading::Cleaning(task).hands_out(
                *old(loaded),
                r.task,
                *final(loaded),
                r.segment,
                r.buffers@,
            ),
            forall|was: LoadedData, piece: Seq<u8>| #[trigger]
                Loading::Cleaning(task).on_way(*load, *old(loaded), was, piece)
                    ==> r.task.on_way(*load, *final(loaded), was, piece),
    {
        proof {
            if task is Clip {
                lemma_clip(loaded.data@, task->keep.start as int, task->keep.end as int);
            }
        }
        let ghost was = *loaded;
        let step = task.step(&mut loaded.data);
        assert(task.leads_to(was.data, step.task, loaded.data));
        if step.task.is_done() {
            LoadedOn {
                task: Loading::Done,
                next: Next::Done,
                segment: None,
                buffers: step.freed,
                bytes: None,
            }
        } else {
            LoadedOn {
                task: Loading::Cleaning(step.task),
                next: step.next,
                segment: None,
                buffers: step.freed,
                bytes: None,
            }
        }
    }

    /// Do the next step.
    pub fn step(self, load: &Load, loaded: &mut LoadedData) -> (r: LoadedOn)
        requires
            self.fits(*load, *old(loaded)),
        ensures
            r.task.fits(*load, *final(loaded)),
            final(loaded).readable(),
            self is Done || self.progress(*load, *old(loaded), r.task, *final(loaded)),
            self.leads_to(*load, *old(loaded), r.task, *final(loaded)),
            r.next == self.next_after(r.task),
            r.bytes is Some <==> self is Mapping && r.task is Done,
            r.bytes matches Some(b) ==> (self matches Loading::Mapping(_, bytes) && b@ == bytes@),
            self.hands_out(*old(loaded), r.task, *final(loaded), r.segment, r.buffers@),
            r.task.waits() ==> r.next == Next::Release,
            forall|was: LoadedData, piece: Seq<u8>| #[trigger]
                self.on_way(*load, *old(loaded), was, piece) ==> r.task.on_way(
                    *load,
                    *final(loaded),
                    was,
                    piece,
                ),
    {
        let r: LoadedOn = match self {
            Loading::Mapping(task, bytes) => Loading::map_on(load, loaded, task, bytes),
            Loading::Storing(task) => Loading::store_on(load, loaded, task),
            Loading::Cleaning(task) => Loading::clean_on(load, loaded, task),
            Loading::Done => LoadedOn {
                task: Loading::Done,
                next: Next::Done,
                segment: None,
                buffers: Vec::new(),
                bytes: None,
            },
        };
        proof {
            r.task.lemma_readable(*load, *loaded);
        }
        r
    }

    /// Do all that is left to do.
    pub fn run(self, load: &Load, loaded: &mut LoadedData)
        requires
            self.fits(*load, *old(loaded)),
        ensures
            final(loaded).wf(),
            forall|was: LoadedData, piece: Seq<u8>| #[trigger]
                self.on_way(*load, *old(loaded), was, piece) ==> Loading::Done.on_way(
                    *load,
                    *final(loaded),
                    was,
                    piece,
                ),
    {
        let mut task: Loading = self;
        while !task.is_done()
            invariant
                task.fits(*load, *loaded),
                forall|was: LoadedData, piece: Seq<u8>| #[trigger]
                    self.on_way(*load, *old(loaded), was, piece) ==> task.on_way(
                        *load,
                        *loaded,
                        was,
                        piece,
                    ),
            decreases
                    task.stage(),
                    task.left(*load, *loaded).0,
                    task.left(*load, *loaded).1,
                    task.left(*load, *loaded).2,
                    task.left(*load, *loaded).3,
        {
            task = task.step(load, loaded).task;
        }
    }
}

} // verus!
