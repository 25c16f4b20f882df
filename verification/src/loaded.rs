//! What is loaded of a file, and what to load next.

use crate::answers::lemma_prefix_is_text;
use crate::filling::processed;
use crate::layout::Advances;
use crate::linemap::{
    comparable, is_base, is_located_lower, is_located_upper, mapped_spans, LineMap, Mapped,
};
use crate::linemapper::LineMapper;
use crate::loading::{Load, Loading};
use crate::mapping::Mapping;
use crate::marks::LIMIT;
use crate::position::{
    add_distance, ceil_lines, floor_lines, lines_above, lines_below, to_distance, to_line, FilePos,
    FileRect, FileVec,
};
use crate::runs::{
    agrees, clip, held, lemma_clip_agrees, lemma_loaded, lemma_loaded_agrees, lemma_prefix, loaded,
    ordered, prefix_at, spans, tidy, Run,
};
use crate::sparse::{live, SparseData};
use crate::surroundings::{around, Surroundings};
use crate::truth::{describes_all, lemma_processed_truth};
use std::ops::Range;
use vstd::prelude::*;
use vstd::slice::slice_subrange;

verus! {

/// What is loaded of a file, and what is asked to be loaded.
pub struct LoadedData {
    pub linemap: LineMap,
    pub data: SparseData,
    /// The part of the file that is on screen.
    pub hot: FileRect,
    /// The selected part of the file.
    pub sel: Option<Range<i64>>,
    /// Whether the selected part should go to the clipboard once it is loaded.
    pub pending_sel_copy: bool,
}

/// What the loading of the file goes on with.
#[derive(Debug, PartialEq, Eq)]
pub enum Job {
    /// Read `len` bytes at `offset`, keeping what is loaded in `keep`, and store them
    /// or only map them.
    Load { offset: i64, len: i64, keep: Range<i64>, store: bool },
    /// There is nothing to load.
    Idle,
}

/// Whether positions `dy` lines away from `base` can be looked up.
pub open spec fn can_locate(map: Seq<Mapped>, base: int, dy: int) -> bool {
    exists|i: int, k: int| #[trigger] is_base(map, base, i, k) && comparable(map[i].marks, k, dy)
}

/// Whether `offset` is that of the last known position at or before the one `dy`
/// lines and `dx` columns away from `base`.
pub open spec fn is_lower_offset(
    map: Seq<Mapped>,
    base: int,
    dy: int,
    dx: int,
    offset: int,
) -> bool {
    exists|i: int, k: int, l: int|
        #![trigger is_base(map, base, i, k), map[i].marks[l]]
        is_base(map, base, i, k) && is_located_lower(
            map[i].marks,
            map[i].marks[k].y + dy,
            map[i].marks[k].x + dx,
            l,
        ) && offset == map[i].marks[l].offset
}

/// Whether `offset` is that of the first known position at or after the one `dy`
/// lines and `dx` columns away from `base`.
pub open spec fn is_upper_offset(
    map: Seq<Mapped>,
    base: int,
    dy: int,
    dx: int,
    offset: int,
) -> bool {
    exists|i: int, k: int, l: int|
        #![trigger is_base(map, base, i, k), map[i].marks[l]]
        is_base(map, base, i, k) && is_located_upper(
            map[i].marks,
            map[i].marks[k].y + dy,
            map[i].marks[k].x + dx,
            l,
        ) && offset == map[i].marks[l].offset
}

/// Half of a distance, rounded down.
pub open spec fn half(x: int) -> int {
    x / 2
}

/// Half of a distance, rounded down.
fn halve(x: i128) -> (r: i128)
    ensures
        r == half(x as int),
{
    if x >= 0 {
        x / 2
    } else {
        let m: i128 = -(x + 1);
        -(m / 2) - 1
    }
}

/// The lines and columns around a rectangle: those of its first line, of its middle
/// and of its last line.
pub open spec fn first_line(rect: FileRect) -> int {
    to_line(lines_below(rect.corner.delta_y as int))
}

pub open spec fn middle_line(rect: FileRect) -> int {
    to_line(lines_below(to_distance(rect.corner.delta_y + half(rect.size.y as int))))
}

pub open spec fn last_line(rect: FileRect) -> int {
    to_line(lines_above(rect.bottom()))
}

pub open spec fn middle_column(rect: FileRect) -> int {
    half(to_distance(rect.corner.delta_x + rect.right()))
}

/// Whether the known positions around a rectangle can be told.
pub open spec fn can_frame(map: Seq<Mapped>, rect: FileRect) -> bool {
    let base = rect.corner.base_offset as int;
    &&& can_locate(map, base, first_line(rect))
    &&& can_locate(map, base, middle_line(rect))
    &&& can_locate(map, base, last_line(rect))
}

/// Whether the three offsets are those of the known positions around a rectangle:
/// before it, in its middle and after it.
pub open spec fn is_frame(map: Seq<Mapped>, rect: FileRect, l: int, m: int, r: int) -> bool {
    let base = rect.corner.base_offset as int;
    &&& is_lower_offset(map, base, first_line(rect), rect.corner.delta_x as int, l)
    &&& is_lower_offset(map, base, middle_line(rect), middle_column(rect), m)
    &&& is_upper_offset(map, base, last_line(rect), rect.right(), r)
}

/// Whether the three offsets frame the part of the file that is on screen, as far as
/// it is known.
pub open spec fn is_hot_range(map: Seq<Mapped>, rect: FileRect, hot: (i64, i64, i64)) -> bool {
    if can_frame(map, rect) {
        is_frame(map, rect, hot.0 as int, hot.1 as int, hot.2 as int)
    } else {
        hot == (rect.corner.base_offset, rect.corner.base_offset, rect.corner.base_offset)
    }
}

/// The range of at most `max_len` bytes to load next, given what lies around the
/// middle of the screen in a file of `size` bytes.
pub open spec fn range_to_load(
    s: Surroundings,
    hot: (i64, i64, i64),
    max_len: int,
    size: int,
) -> (int, int) {
    let (lscreen, m, rscreen) = hot;
    let (l, r) = match s {
        Surroundings::In(l, r) => if (lscreen - l < r - rscreen && l > 0) || r >= size {
            // Load left side
            (l - max_len, l as int)
        } else {
            // Load right side
            (r as int, r + max_len)
        },
        Surroundings::Out(l, r) => if r - l <= max_len {
            (l as int, r as int)
        } else if l > m - max_len / 2 {
            (l as int, l + max_len)
        } else if r < m + (max_len + 1) / 2 {
            (r - max_len, r as int)
        } else {
            (m - max_len / 2, m + (max_len + 1) / 2)
        },
    };
    (
        if l >= 0 {
            l
        } else {
            0
        },
        if r <= size {
            r
        } else {
            size
        },
    )
}

/// A range to load lies in the file and is no longer than asked for. Inside a loaded
/// range it goes on from one of its ends, and there is nothing to load only where the
/// whole file is loaded. In a gap it is a part of the gap.
pub proof fn lemma_range_to_load(s: Surroundings, hot: (i64, i64, i64), max_len: int, size: int)
    requires
        max_len > 0,
        match s {
            Surroundings::In(l, r) => 0 <= l < r <= size,
            Surroundings::Out(l, r) => 0 <= l < r <= size,
        },
    ensures
        ({
            let (a, b) = range_to_load(s, hot, max_len, size);
            &&& 0 <= a
            &&& b <= size
            &&& b - a <= max_len
            &&& s matches Surroundings::In(l, r) ==> {
                &&& a < b <==> !(l == 0 && r == size)
                &&& a < b ==> b == l || a == r
            }
            &&& s matches Surroundings::Out(l, r) ==> l <= a < b <= r
        }),
{
}

/// The part of the selection that is to be loaded next, if it is not too long.
pub open spec fn selection_to_load(
    sel: Option<Range<i64>>,
    around_start: Surroundings,
    max_len: int,
    max_sel: int,
) -> Option<(int, int)> {
    match sel {
        Some(sel) => {
            let l = match around_start {
                Surroundings::In(_, r) => r as int,
                Surroundings::Out(_, _) => sel.start as int,
            };
            if sel.end - sel.start <= max_sel && l < sel.end {
                Some(
                    (
                        l,
                        if sel.end <= l + max_len {
                            sel.end as int
                        } else {
                            l + max_len
                        },
                    ),
                )
            } else {
                None
            }
        },
        None => None,
    }
}

/// The next range to load, and whether it is to be stored.
pub open spec fn next_range(
    hot: (i64, i64, i64),
    lm: Surroundings,
    sd: Surroundings,
    sel: Option<Range<i64>>,
    around_start: Surroundings,
    max_len: int,
    load_radius: int,
    max_sel: int,
    size: int,
) -> ((int, int), bool) {
    let near = range_to_load(lm.meet(sd), hot, max_len, size);
    if hot.0 - near.1 < load_radius && near.0 - hot.2 <= load_radius {
        // Load the visible screen if not loaded yet
        (near, true)
    } else {
        match selection_to_load(sel, around_start, max_len, max_sel) {
            // Finished loading the local range, now attempt to load the selected range
            Some(range) => (range, true),
            // Nothing more to load, proceed to linemap farther out
            None => (range_to_load(lm, hot, max_len, size), false),
        }
    }
}

/// Brings a number into the range of an offset.
fn to_offset(n: i128) -> (r: i64)
    ensures
        r == to_line(n as int),
{
    if n < i64::MIN as i128 {
        i64::MIN
    } else if n > i64::MAX as i128 {
        i64::MAX
    } else {
        n as i64
    }
}

impl LoadedData {
    /// What holds at any time, also while segments are being merged.
    pub open spec fn readable(self) -> bool {
        &&& self.linemap.readable()
        &&& self.data.wf()
        &&& self.sel matches Some(sel) ==> sel.start <= sel.end
    }

    /// What holds when nothing is being merged.
    pub open spec fn wf(self) -> bool {
        &&& self.linemap.wf()
        &&& self.data.wf()
        &&& tidy(self.data@)
        &&& self.sel matches Some(sel) ==> sel.start <= sel.end
    }

    /// Whether all that is loaded is so in the file.
    pub open spec fn true_to(self, file: Seq<u8>, a: Advances) -> bool {
        &&& self.linemap.file_size == file.len()
        &&& describes_all(self.linemap@, file, a)
        &&& agrees(self.data@, file)
    }

    /// Nothing loaded, and nothing asked for.
    pub fn new(max_loaded: usize, merge_batch_size: usize, realloc_threshold: usize) -> (r:
        LoadedData)
        ensures
            r.wf(),
            r.linemap@.len() == 0,
            r.linemap.file_size == 0,
            r.data@.len() == 0,
            r.data.file_size == 0,
            r.data.max_loaded == max_loaded,
            r.data.merge_batch_size == merge_batch_size,
            r.data.realloc_threshold == realloc_threshold,
            r.hot == (FileRect {
                corner: FilePos { base_offset: 0, delta_x: 0, delta_y: 0 },
                size: FileVec { x: 0, y: 0 },
            }),
            r.sel is None,
            !r.pending_sel_copy,
    {
        LoadedData {
            linemap: LineMap::new(),
            data: SparseData::new(max_loaded, merge_batch_size, realloc_threshold),
            hot: FileRect {
                corner: FilePos { base_offset: 0, delta_x: 0, delta_y: 0 },
                size: FileVec { x: 0, y: 0 },
            },
            sel: None,
            pending_sel_copy: false,
        }
    }

    /// The offsets before, in the middle of and after the part of the file that is on
    /// screen, if they are known.
    pub fn try_get_hot_range(&self) -> (r: Option<(i64, i64, i64)>)
        requires
            self.readable(),
        ensures
            r is Some <==> can_frame(self.linemap@, self.hot),
            r matches Some((l, m, h)) ==> is_frame(
                self.linemap@,
                self.hot,
                l as int,
                m as int,
                h as int,
            ),
    {
        // Get bounds
        let base: i64 = self.hot.corner.base_offset;
        let y0: i64 = floor_lines(self.hot.corner.delta_y);
        let ym: i64 = floor_lines(add_distance(self.hot.corner.delta_y, halve(self.hot.size.y)));
        let y1: i64 = ceil_lines(add_distance(self.hot.corner.delta_y, self.hot.size.y));
        let x0: i128 = self.hot.corner.delta_x;
        let x1: i128 = add_distance(self.hot.corner.delta_x, self.hot.size.x);
        let xm: i128 = halve(add_distance(x0, x1));
        // Get offsets
        let l: i64 = match self.linemap.pos_to_anchor(base, y0, x0) {
            Some((i, _k, j)) => {
                assert(self.linemap@[i as int].marks[j as int] == self.linemap.segments@[i as int].mark(
                    j as int,
                ));
                self.linemap.segments[i].anchors[j].offset
            },
            None => {
                return None;
            },
        };
        let m: i64 = match self.linemap.pos_to_anchor(base, ym, xm) {
            Some((i, _k, j)) => {
                assert(self.linemap@[i as int].marks[j as int] == self.linemap.segments@[i as int].mark(
                    j as int,
                ));
                self.linemap.segments[i].anchors[j].offset
            },
            None => {
                return None;
            },
        };
        let r: i64 = match self.linemap.pos_to_anchor_upper(base, y1, x1) {
            Some((i, _k, j)) => {
                assert(self.linemap@[i as int].marks[j as int] == self.linemap.segments@[i as int].mark(
                    j as int,
                ));
                self.linemap.segments[i].anchors[j].offset
            },
            None => {
                return None;
            },
        };
        Some((l, m, r))
    }

    /// The offsets before, in the middle of and after the part of the file that is on
    /// screen, or the offset that it was jumped to where they are not known.
    pub fn get_hot_range(&self) -> (r: (i64, i64, i64))
        requires
            self.readable(),
        ensures
            is_hot_range(self.linemap@, self.hot, r),
    {
        let m: i64 = self.hot.corner.base_offset;
        match self.try_get_hot_range() {
            Some(r) => r,
            None => (m, m, m),
        }
    }

    /// Pick a range to load, based on what lies around the middle of the screen.
    pub fn surroundings_to_range(&self, s: Surroundings, hot: (i64, i64, i64), max_len: i64) -> (r:
        (i64, i64))
        requires
            max_len >= 0,
            self.linemap.file_size >= 0,
        ensures
            (r.0 as int, r.1 as int) == range_to_load(
                s,
                hot,
                max_len as int,
                self.linemap.file_size as int,
            ),
    {
        let (lscreen, m, rscreen) = hot;
        let lscreen: i128 = lscreen as i128;
        let m: i128 = m as i128;
        let rscreen: i128 = rscreen as i128;
        let max_len: i128 = max_len as i128;
        let size: i128 = self.linemap.file_size as i128;
        let (l, r): (i128, i128) = match s {
            Surroundings::In(l, r) => {
                let l: i128 = l as i128;
                let r: i128 = r as i128;
                if (lscreen - l < r - rscreen && l > 0) || r >= size {
                    // Load left side
                    (l - max_len, l)
                } else {
                    // Load right side
                    (r, r + max_len)
                }
            },
            Surroundings::Out(l, r) => {
                let l: i128 = l as i128;
                let r: i128 = r as i128;
                // If [l, r) is too long, shorten it to max_len attempting to keep it centered
                if r - l <= max_len {
                    (l, r)
                } else if l > m - max_len / 2 {
                    (l, l + max_len)
                } else if r < m + (max_len + 1) / 2 {
                    (r - max_len, r)
                } else {
                    (m - max_len / 2, m + (max_len + 1) / 2)
                }
            },
        };
        (
            to_offset(
                if l >= 0 {
                    l
                } else {
                    0
                },
            ),
            to_offset(
                if r <= size {
                    r
                } else {
                    size
                },
            ),
        )
    }

    /// Get the next logical range to load, based on the hot scrollpos and the
    /// currently loaded data.
    /// May return invalid (negative) ranges if there is no more data to load.
    /// Also returns a boolean indicating if the range is "close" and its data
    /// should be stored (as opposed to "far away" ranges that should only be
    /// linemapped but not loaded).
    pub fn get_range_to_load(&self, max_len: i64, load_radius: i64, max_sel: i64) -> (r: (
        (i64, i64),
        bool,
    ))
        requires
            self.readable(),
            max_len >= 0,
        ensures
            exists|hot: (i64, i64, i64), lm: Surroundings, sd: Surroundings, sel: Surroundings|
                #[trigger]
                self.informs(hot, lm, sd, sel) && ((r.0.0 as int, r.0.1 as int), r.1) == next_range(
                    hot,
                    lm,
                    sd,
                    self.sel,
                    sel,
                    max_len as int,
                    load_radius as int,
                    max_sel as int,
                    self.linemap.file_size as int,
                ),
    {
        let hot: (i64, i64, i64) = self.get_hot_range();
        let (lscreen, m, rscreen) = hot;
        let lm: Surroundings = self.linemap.find_surroundings(m);
        let sd: Surroundings = self.data.find_surroundings(m);
        let sel_start: i64 = match &self.sel {
            Some(sel) => sel.start,
            None => 0,
        };
        let around_start: Surroundings = self.data.find_surroundings(sel_start);
        proof {
            assert(self.informs(hot, lm, sd, around_start));
        }
        let (l, r): (i64, i64) = self.surroundings_to_range(lm.min(sd), hot, max_len);
        // Load the visible screen if not loaded yet
        if (lscreen as i128 - r as i128) < load_radius as i128 && l as i128 - rscreen as i128
            <= load_radius as i128 {
            return ((l, r), true);
        }
        // Finished loading the local range, now attempt to load the selected range

        if let Some(sel) = &self.sel {
            if sel.end as i128 - sel.start as i128 <= max_sel as i128 {
                let l: i64 = match around_start {
                    Surroundings::In(_l, r) => r,
                    Surroundings::Out(_, _) => sel.start,
                };
                if l < sel.end {
                    let r: i128 = if sel.end as i128 <= l as i128 + max_len as i128 {
                        sel.end as i128
                    } else {
                        l as i128 + max_len as i128
                    };
                    return ((l, to_offset(r)), true);
                }
            }
        }
        // Nothing more to load, proceed to linemap farther out

        let (l, r): (i64, i64) = self.surroundings_to_range(lm, hot, max_len);
        ((l, r), false)
    }

    /// Whether these are the offsets around the screen, and what lies around its
    /// middle and around the start of the selection.
    pub open spec fn informs(
        self,
        hot: (i64, i64, i64),
        lm: Surroundings,
        sd: Surroundings,
        sel: Surroundings,
    ) -> bool {
        &&& is_hot_range(self.linemap@, self.hot, hot)
        &&& around(mapped_spans(self.linemap@), self.linemap.file_size as int, hot.1 as int, lm)
        &&& around(spans(self.data@), self.data.file_size as int, hot.1 as int, sd)
        &&& self.sel matches Some(range) ==> around(
            spans(self.data@),
            self.data.file_size as int,
            range.start as int,
            sel,
        )
    }

    /// The range in which loaded data is kept: what is on screen, and `load_radius`
    /// bytes around it.
    pub fn keep_range(&self, load_radius: i64) -> (r: Range<i64>)
        requires
            self.readable(),
        ensures
            exists|hot: (i64, i64, i64)| #[trigger]
                is_hot_range(self.linemap@, self.hot, hot) && r.start == to_line(
                    hot.0 - load_radius,
                ) && r.end == to_line(hot.2 + load_radius) && (load_radius >= 0 ==> r.start <= hot.0
                    && hot.2 <= r.end),
    {
        let hot: (i64, i64, i64) = self.get_hot_range();
        let (keepl, _keepm, keepr) = hot;
        Range {
            start: to_offset(keepl as i128 - load_radius as i128),
            end: to_offset(keepr as i128 + load_radius as i128),
        }
    }

    /// Decide what to do next.
    pub fn next_job(&self, read_size: i64, load_radius: i64, max_sel: i64) -> (r: Job)
        requires
            self.readable(),
            read_size >= 0,
        ensures
            exists|hot: (i64, i64, i64), lm: Surroundings, sd: Surroundings, sel: Surroundings|
                #[trigger]
                self.informs(hot, lm, sd, sel) && is_job(
                    next_range(
                        hot,
                        lm,
                        sd,
                        self.sel,
                        sel,
                        read_size as int,
                        load_radius as int,
                        max_sel as int,
                        self.linemap.file_size as int,
                    ),
                    r,
                ),
            r matches Job::Load { keep, .. } ==> exists|hot: (i64, i64, i64)| #[trigger]
                is_hot_range(self.linemap@, self.hot, hot) && keep.start == to_line(
                    hot.0 - load_radius,
                ) && keep.end == to_line(hot.2 + load_radius),
    {
        let keep: Range<i64> = self.keep_range(load_radius);
        let ((l, r), store): ((i64, i64), bool) = self.get_range_to_load(
            read_size,
            load_radius,
            max_sel,
        );
        if l < r && r as i128 - l as i128 <= i64::MAX as i128 {
            Job::Load { offset: l, len: r - l, keep, store }
        } else {
            proof {
                assert(l >= r);
            }
            Job::Idle
        }
    }
}

impl LoadedData {
    /// The selected bytes, if they are to go to the clipboard and all of them are
    /// loaded.
    pub fn copy_ready(&self) -> (r: Option<&[u8]>)
        requires
            self.readable(),
        ensures
            r is Some <==> self.pending_sel_copy && (self.sel matches Some(sel) && prefix_at(
                self.data@,
                sel.start as int,
            ).len() >= sel.end - sel.start),
            r matches Some(bytes) ==> (self.sel matches Some(sel) && bytes@ == prefix_at(
                self.data@,
                sel.start as int,
            ).take(sel.end - sel.start)),
            // They are there once all of them are loaded, and they are those of the file
            tidy(self.data@) ==> (r is Some <==> self.pending_sel_copy && (self.sel matches Some(
                sel,
            ) && forall|p: int| sel.start <= p < sel.end ==> #[trigger] held(self.data@, p))),
            forall|file: Seq<u8>| #[trigger]
                agrees(self.data@, file) ==> (self.sel matches Some(sel) ==> r matches Some(bytes)
                    ==> 0 <= sel.start && sel.end <= file.len() ==> bytes@ == file.subrange(
                    sel.start as int,
                    sel.end as int,
                )),
    {
        proof {
            if let Some(sel) = &self.sel {
                lemma_copied(self.data@, sel.start as int, sel.end as int);
            }
        }
        if !self.pending_sel_copy {
            return None;
        }
        match &self.sel {
            Some(sel) => {
                let data: &[u8] = self.data.longest_prefix(sel.start);
                let len: i128 = sel.end as i128 - sel.start as i128;
                if data.len() as i128 >= len {
                    proof {
                        assert(data@.subrange(0, len as int) =~= data@.take(len as int));
                    }
                    Some(slice_subrange(data, 0, len as usize))
                } else {
                    None
                }
            },
            None => None,
        }
    }

    /// Note that the selected bytes went to the clipboard.
    pub fn copy_done(&mut self)
        ensures
            *final(self) == (LoadedData { pending_sel_copy: false, ..*old(self) }),
    {
        self.pending_sel_copy = false;
    }

    /// Request the backend to copy the selected text.
    pub fn copy_selection(&mut self)
        ensures
            *final(self) == (LoadedData { pending_sel_copy: true, ..*old(self) }),
    {
        self.pending_sel_copy = true;
    }

    /// Set the part of the file that is on screen, and the selected part. Returns
    /// whether anything changed.
    pub fn set_hot_area(&mut self, area: FileRect, selection: Option<Range<i64>>) -> (changed: bool)
        ensures
            *final(self) == (LoadedData { hot: area, sel: selection, ..*old(self) }),
            changed == (old(self).hot != area || !same_range(old(self).sel, selection)),
    {
        let same_sel: bool = match (&self.sel, &selection) {
            (Some(a), Some(b)) => a.start == b.start && a.end == b.end,
            (None, None) => true,
            _ => false,
        };
        let changed: bool = !(self.hot == area) || !same_sel;
        self.hot = area;
        self.sel = selection;
        changed
    }

    /// Set the size of the file, which should only grow.
    pub fn set_file_size(&mut self, file_size: i64)
        requires
            old(self).readable(),
            file_size >= 0,
        ensures
            final(self).readable(),
            old(self).wf() ==> final(self).wf(),
            final(self).linemap.file_size == file_size,
            final(self).data.file_size == file_size,
            final(self).linemap.segments == old(self).linemap.segments,
            final(self).data.segments == old(self).data.segments,
            final(self).data.max_loaded == old(self).data.max_loaded,
            final(self).data.merge_batch_size == old(self).data.merge_batch_size,
            final(self).data.realloc_threshold == old(self).data.realloc_threshold,
            final(self).hot == old(self).hot,
            final(self).sel == old(self).sel,
            final(self).pending_sel_copy == old(self).pending_sel_copy,
    {
        let ghost runs = self.data@;
        self.linemap.file_size = file_size;
        self.data.file_size = file_size;
        proof {
            assert(self.data@ =~= runs);
        }
    }

    /// Take in a piece of the file: map it, and store it if it is close to what is on
    /// screen.
    pub fn load_segment(
        &mut self,
        linemapper: &LineMapper,
        offset: i64,
        bytes: Vec<u8>,
        keep: Range<i64>,
        store: bool,
    )
        requires
            old(self).wf(),
            old(self).data.merge_batch_size > 0,
            linemapper.wf(),
            linemapper.migrate_batch_size > 0,
            0 <= offset,
            offset + bytes@.len() <= LIMIT,
        ensures
            final(self).wf(),
            final(self).linemap.file_size == old(self).linemap.file_size,
            final(self).data.same_limits(old(self).data),
            final(self).hot == old(self).hot,
            final(self).sel == old(self).sel,
            final(self).pending_sel_copy == old(self).pending_sel_copy,
            final(self).linemap@ == processed(
                old(self).linemap@,
                old(self).linemap.file_size as int,
                offset as int,
                bytes@,
                linemapper.layout@,
                linemapper.bytes_per_anchor as int,
            ),
            (Load { mapper: linemapper, offset, keep, store }).kept(
                final(self).data,
                *old(self),
                bytes@,
            ),
            !store ==> final(self).data@ == old(self).data@,
            store ==> {
                let all = loaded(old(self).data@, offset as int, bytes@);
                ||| final(self).data@ == all
                ||| final(self).data@ == clip(all, keep.start as int, keep.end as int)
            },
            store && old(self).data.max_loaded == usize::MAX ==> final(self).data@ == loaded(
                old(self).data@,
                offset as int,
                bytes@,
            ),
            store && live(loaded(old(self).data@, offset as int, bytes@)) > old(
                self,
            ).data.max_loaded && old(self).data.max_loaded < usize::MAX ==> final(self).data@
                == clip(
                loaded(old(self).data@, offset as int, bytes@),
                keep.start as int,
                keep.end as int,
            ),
            // What is loaded stays true to the file that the piece is from
            forall|file: Seq<u8>| #[trigger]
                old(self).true_to(file, linemapper.layout@) && offset + bytes@.len() <= file.len()
                    && bytes@ == file.subrange(offset as int, offset + bytes@.len())
                    ==> final(self).true_to(file, linemapper.layout@),
    {
        let ghost a = linemapper.layout@;
        let ghost end = offset + bytes@.len();
        proof {
            self.linemap.lemma_settled();
            assert forall|file: Seq<u8>| #[trigger]
                self.true_to(file, a) && end <= file.len() && bytes@ == file.subrange(
                    offset as int,
                    end,
                ) implies describes_all(
                processed(
                    self.linemap@,
                    self.linemap.file_size as int,
                    offset as int,
                    bytes@,
                    a,
                    linemapper.bytes_per_anchor as int,
                ),
                file,
                a,
            ) && agrees(loaded(self.data@, offset as int, bytes@), file) by {
                lemma_processed_truth(
                    self.linemap@,
                    file,
                    offset as int,
                    end,
                    a,
                    linemapper.bytes_per_anchor as int,
                );
                lemma_loaded_agrees(self.data@, offset as int, bytes@, file);
            }
        }
        let ghost lo = keep.start as int;
        let ghost hi = keep.end as int;
        let ghost piece = bytes@;
        let load = Load { mapper: linemapper, offset, keep, store };
        let task: Loading = Loading::Mapping(Mapping::Look, bytes);
        assert(task.on_way(load, *self, *self, piece));
        task.run(&load, self);
        proof {
            let all = load.stored(*old(self), piece);
            load.lemma_kept(self.data, *old(self), piece);
            lemma_loaded(old(self).data@, offset as int, piece);
            assert forall|file: Seq<u8>| #[trigger]
                old(self).true_to(file, a) && end <= file.len() && piece == file.subrange(
                    offset as int,
                    end,
                ) implies self.true_to(file, a) by {
                lemma_clip_agrees(all, lo, hi, file);
            }
        }
    }
}

/// All bytes of a range are loaded if and only if the longest prefix at its start is as long,
/// and then they are those of the file.
pub proof fn lemma_copied(runs: Seq<Run>, start: int, end: int)
    requires
        ordered(runs),
        start <= end,
    ensures
        tidy(runs) ==> (prefix_at(runs, start).len() >= end - start <==> forall|p: int|
            start <= p < end ==> #[trigger] held(runs, p)),
        forall|file: Seq<u8>| #[trigger]
            agrees(runs, file) && 0 <= start && end <= file.len() && prefix_at(runs, start).len()
                >= end - start ==> prefix_at(runs, start).take(end - start) == file.subrange(
                start,
                end,
            ),
{
    let s = prefix_at(runs, start);
    if tidy(runs) {
        lemma_prefix(runs, start);
        if s.len() < end - start {
            assert(!held(runs, start + s.len()));
        }
    }
    assert forall|file: Seq<u8>| #[trigger]
        agrees(runs, file) && 0 <= start && end <= file.len() && s.len() >= end - start implies s.take(
    end - start) == file.subrange(start, end) by {
        lemma_prefix_is_text(runs, file, start);
        assert(s.take(end - start) =~= file.subrange(start, end));
    }
}

/// Whether two ranges are the same, or both missing.
pub open spec fn same_range(a: Option<Range<i64>>, b: Option<Range<i64>>) -> bool {
    match (a, b) {
        (Some(a), Some(b)) => a.start == b.start && a.end == b.end,
        (None, None) => true,
        _ => false,
    }
}

/// Whether a job is to load a range: nothing where it is empty.
pub open spec fn is_job(range: ((int, int), bool), job: Job) -> bool {
    let ((l, r), s) = range;
    match job {
        Job::Load { offset, len, store, .. } => l < r && offset == l && len == r - l && store == s,
        Job::Idle => l >= r,
    }
}

} // verus!
