//! Looking up positions and characters in what is loaded.

use crate::layout::{
    lemma_walk_extend, shown, walk, Advances, CharLayout, Walk, NEWLINE, REPLACEMENT_CHAR, UNITS,
};
use crate::linemap::{
    at_or_before, is_base, is_first_abs, is_located_lower, is_lower, is_mapped, is_segment_of,
    known_rect, LineMap, Mapped, MappedSegment,
};
use crate::loaded::{can_locate, first_line, last_line, LoadedData};
use crate::marks::{width, Mark, LIMIT};
use crate::position::{add_distance, ceil_lines, floor_lines, FileRect};
use crate::runs::{covers, held, holder, ordered, prefix_at, suffix_at, Run};
use crate::utf8::{
    char_at, decode_utf8, decode_utf8_rev, is_boundary, lemma_ends_are_boundaries, lemma_rest,
    lemma_step_in_bounds, lemma_step_to_boundary, step_back_len, step_len,
};
use vstd::prelude::*;
use vstd::slice::slice_subrange;

verus! {

/// The loaded data at a position.
pub struct DataAt<'a> {
    /// Y position relative to the reference anchor.
    pub dy: i64,
    /// X position relative to the reference anchor.
    pub dx: i128,
    /// Absolute position of the data.
    pub offset: i64,
    /// As much data as it could be collected starting at `offset`.
    pub data: &'a [u8],
}

/// What is found at a position.
pub struct Found {
    pub dy: int,
    pub dx: int,
    pub offset: int,
    pub data: Seq<u8>,
}

impl View for DataAt<'_> {
    type V = Found;

    open spec fn view(&self) -> Found {
        Found {
            dy: self.dy as int,
            dx: self.dx as int,
            offset: self.offset as int,
            data: self.data@,
        }
    }
}

/// Gives access to the loaded data, with the layout of its text.
pub struct FileLock<'a> {
    pub loaded: &'a LoadedData,
    pub layout: &'a CharLayout,
}

/// The segment of an offset, and its mark at or before the offset.
pub open spec fn base_of(map: Seq<Mapped>, offset: int) -> (int, int) {
    choose|ik: (int, int)| is_base(map, offset, ik.0, ik.1)
}

/// The index of the last mark at or before a position.
pub open spec fn lower_of(marks: Seq<Mark>, y: int, x: int) -> int {
    choose|k: int| is_located_lower(marks, y, x, k)
}

/// The state of a walk that is at a mark.
pub open spec fn walk_at(m: Mark) -> Walk {
    Walk { y: m.y, x: m.x, abs: m.abs, widest: 0, rel_width: 0 }
}

/// Whether a column at `x` lies before the place that divides the next character,
/// which starts at `from` and is `adv` wide, where `hdiv` tells which part of it lies
/// before that place, in units of `1 / UNITS`.
pub open spec fn divides(from: int, adv: int, hdiv: int, x: int) -> bool {
    adv * hdiv > (x - from) * 0x100_0000
}

/// Where a walk over `s` from `p` stops when it looks for a position: at the position
/// or after it, at the end of its line, or at the end of the text.
pub open spec fn stop_at(
    s: Seq<u8>,
    p: int,
    w: Walk,
    y: int,
    x: int,
    hdiv: int,
    a: Advances,
) -> int
    decreases
            if p < s.len() {
                s.len() - p
            } else {
                0
            },
{
    if p < s.len() && (w.y < y || w.y == y && w.x < x) {
        let c = shown(char_at(s, p));
        if w.y == y && (c == NEWLINE || divides(w.x, a.of(c) as int, hdiv, x)) {
            p
        } else {
            stop_at(s, p + step_len(s, p), w.step(c, a), y, x, hdiv, a)
        }
    } else {
        p
    }
}

/// Where a walk over `s` from `p` stops that goes on to `q` or the first boundary
/// after it, or to the end of the text.
pub open spec fn pass(s: Seq<u8>, p: int, q: int) -> int
    decreases
            if p < s.len() {
                s.len() - p
            } else {
                0
            },
{
    if p < s.len() && p < q {
        pass(s, p + step_len(s, p), q)
    } else {
        p
    }
}

/// What is found at `p` in the text that follows the mark `lo`, as it is seen from
/// the mark `base`. On the first line of a segment that does not start a line, the column
/// is that from the start of the segment.
pub open spec fn found(s: Seq<u8>, p: int, lo: Mark, base: Mark, a: Advances) -> Found {
    let w = walk(s, 0, p, a, walk_at(lo));
    Found { dy: w.y - base.y, dx: w.x - base.x, offset: lo.offset + p, data: s.skip(p) }
}

/// What is found at a position.
pub open spec fn found_at(
    map: Seq<Mapped>,
    runs: Seq<Run>,
    a: Advances,
    base_offset: int,
    y: int,
    x: int,
    hdiv: int,
) -> Option<Found> {
    if can_locate(map, base_offset, y) {
        let (i, k) = base_of(map, base_offset);
        let marks = map[i].marks;
        let base = marks[k];
        let lo = marks[lower_of(marks, base.y + y, base.x + x)];
        let s = prefix_at(runs, lo.offset);
        Some(found(s, stop_at(s, 0, walk_at(lo), base.y + y, base.x + x, hdiv, a), lo, base, a))
    } else {
        None
    }
}

/// What is found at an offset, unless the columns there do not compare to those at
/// the base.
pub open spec fn found_offset(
    map: Seq<Mapped>,
    runs: Seq<Run>,
    a: Advances,
    base_offset: int,
    offset: int,
) -> Option<Found> {
    if is_mapped(map, base_offset) && is_mapped(map, offset) {
        let (i, k) = base_of(map, base_offset);
        let (j, l) = base_of(map, offset);
        let base = map[i].marks[k];
        let lo = map[j].marks[l];
        let s = prefix_at(runs, lo.offset);
        let p = pass(s, 0, offset - lo.offset);
        if i != j || base.abs != lo.abs || walk(s, 0, p, a, walk_at(lo)).abs != base.abs {
            None
        } else {
            Some(found(s, p, lo, base, a))
        }
    } else {
        None
    }
}

/// The base of an offset is the one that its definition picks.
pub proof fn lemma_base_of(map: LineMap, offset: int, i: int, k: int)
    requires
        map.readable(),
        is_base(map@, offset, i, k),
    ensures
        base_of(map@, offset) == (i, k),
{
    map.lemma_base_unique(offset, i, k);
    let ik = (i, k);
    assert(is_base(map@, offset, ik.0, ik.1));
    let c = base_of(map@, offset);
    assert(is_base(map@, offset, c.0, c.1));
}

/// The last mark at or before a position is the one that its definition picks.
proof fn lemma_lower_of(marks: Seq<Mark>, y: int, x: int, k: int)
    requires
        is_located_lower(marks, y, x, k),
    ensures
        lower_of(marks, y, x) == k,
{
    let c = lower_of(marks, y, x);
    assert(is_located_lower(marks, y, x, c));
    if c < k {
        assert(!at_or_before(marks[k], y, x));
    } else if c > k {
        assert(!at_or_before(marks[c], y, x));
    }
}

/// Where an offset is mapped, it has a base.
pub proof fn lemma_mapped_base(map: LineMap, offset: int)
    requires
        map.readable(),
        is_mapped(map@, offset),
    ensures
        is_base(map@, offset, base_of(map@, offset).0, base_of(map@, offset).1),
{
    let i = choose|i: int| is_segment_of(map@, offset, i);
    let seg = map.segments@[i];
    assert(map@[i] == seg@);
    assert(seg.readable());
    lemma_has_lower(seg.marks(), offset, seg.marks().len() as int);
    let k = choose|k: int| is_lower(seg.marks(), offset, k);
    let ik = (i, k);
    assert(is_base(map@, offset, ik.0, ik.1));
}

/// Among marks of which the first one is at or before an offset, one is the last.
proof fn lemma_has_lower(marks: Seq<Mark>, offset: int, n: int)
    requires
        1 <= n <= marks.len(),
        marks[0].offset <= offset,
        forall|j: int| n <= j < marks.len() ==> (#[trigger] marks[j]).offset > offset,
    ensures
        exists|k: int| is_lower(marks, offset, k),
    decreases n,
{
    if marks[n - 1].offset <= offset {
        assert(is_lower(marks, offset, n - 1));
    } else {
        lemma_has_lower(marks, offset, n - 1);
    }
}

impl<'a> FileLock<'a> {
    /// Get the bounding rectangle of the loaded area around a given offset.
    pub fn bounding_rect(&self, around_offset: i64) -> (r: FileRect)
        requires
            self.loaded.readable(),
        ensures
            r.corner.base_offset == around_offset,
            !is_mapped(self.loaded.linemap@, around_offset as int) ==> r.corner.delta_x == 0
                && r.corner.delta_y == 0 && r.size.x == 0 && r.size.y == 0,
            is_mapped(self.loaded.linemap@, around_offset as int) ==> exists|i: int, k: int, f: int|
                #![trigger is_base(self.loaded.linemap@, around_offset as int, i, k), is_first_abs(self.loaded.linemap@[i].marks, f)]
                is_base(self.loaded.linemap@, around_offset as int, i, k) && is_first_abs(
                    self.loaded.linemap@[i].marks,
                    f,
                ) && (
                r.corner.delta_x as int, r.corner.delta_y as int, r.size.x as int, r.size.y as int)
                    == known_rect(self.loaded.linemap@[i], k, f),
    {
        self.loaded.linemap.bounding_rect(around_offset)
    }

    /// Look up a file position (by line Y and fractional X coordinate) and map
    /// it to the last offset that is before or at the given position.
    ///
    /// `hdiv` specifies how to round fractional X positions to exact character
    /// boundaries, in units of `1 / UNITS`.
    /// `hdiv = UNITS` rounds like `floor`, to the last boundary before `x`
    /// `hdiv = UNITS / 2` rounds like `round`, to the closest boundary to `x`
    /// `hdiv = 0` rounds like `ceil`, to the first boundary after `x`
    ///
    /// Where the base is on a line whose start is known, and the position is found on the
    /// first line of the segment, whose start is not known, `dx` is the distance of that
    /// place from the start of the segment, less the column of the base. It tells places on
    /// that line apart, but not how they lie to the base.
    pub fn lookup_pos(&self, base_offset: i64, y: i64, x: i128, hdiv: u32) -> (r: Option<DataAt<'a>>)
        requires
            self.loaded.readable(),
        ensures
            r is Some <==> can_locate(self.loaded.linemap@, base_offset as int, y as int),
            r matches Some(d) ==> Some(d@) == found_at(
                self.loaded.linemap@,
                self.loaded.data@,
                self.layout@,
                base_offset as int,
                y as int,
                x as int,
                hdiv as int,
            ),
            r matches Some(d) ==> {
                &&& 0 <= d.offset
                &&& d.offset + d.data@.len() <= i64::MAX
                &&& -0x1_0000_0000_0000_0000_0000_0000_0000 <= d.dx
                &&& d.dx <= 0x1_0000_0000_0000_0000_0000_0000_0000
            },
    {
        let ghost map = self.loaded.linemap@;
        let ghost runs = self.loaded.data@;
        let ghost a = self.layout@;
        let (i, k, l) = match self.loaded.linemap.pos_to_anchor(base_offset, y, x) {
            Some((i, k, l)) => (i, k, l),
            None => {
                return None;
            },
        };
        let seg: &MappedSegment = &self.loaded.linemap.segments[i];
        assert(seg.readable());
        let ghost marks = seg@.marks;
        assert(map[i as int] == seg@);
        let ghost base = marks[k as int];
        let ghost lo = marks[l as int];
        proof {
            lemma_base_of(self.loaded.linemap, base_offset as int, i as int, k as int);
            lemma_lower_of(marks, base.y + y, base.x + x, l as int);
            seg.lemma_small(k as int);
            seg.lemma_small(l as int);
        }
        let (base_y, base_x): (i64, i128) = seg.position(k);
        let (lo_y, lo_x): (i64, i128) = seg.position(l);
        let start: i64 = seg.anchors[l].offset;
        let s: &'a [u8] = self.loaded.data.longest_prefix(start);
        let len: usize = s.len();
        proof {
            lemma_prefix_fits(runs, start as int);
            lemma_ends_are_boundaries(s@);
        }
        let ghost w0 = walk_at(lo);
        let ghost goal = stop_at(s@, 0, w0, base.y + y, base.x + x, hdiv as int, a);
        let ghost mut w = w0;
        let mut p: usize = 0;
        let mut dx: i128 = lo_x - base_x;
        let mut dy: i64 = lo_y - base_y;
        let mut done: bool = false;
        // Remove excess data before the target position
        while !done && p < len && (dy < y || dy == y && dx < x)
            invariant
                a == self.layout@,
                len == s@.len(),
                p <= len,
                start + len <= i64::MAX,
                0 <= start,
                is_boundary(s@, 0),
                is_boundary(s@, p as int),
                w0 == walk_at(lo),
                w == walk(s@, 0, p as int, a, w0),
                w.y == dy + base.y,
                w.x == dx + base.x,
                base_x == base.x,
                0 <= base.y <= LIMIT,
                0 <= base.x <= width(LIMIT as int),
                0 <= lo.y <= start,
                0 <= lo.x <= width(LIMIT as int),
                lo.y <= w.y <= lo.y + p,
                0 <= w.x <= lo.x + width(p as int),
                goal == if done {
                    p as int
                } else {
                    stop_at(s@, p as int, w, base.y + y, base.x + x, hdiv as int, a)
                },
            decreases
                    len - p,
                    if done {
                        0int
                    } else {
                        1int
                    },
        {
            let (c, adv): (Result<u32, u8>, usize) = decode_utf8(slice_subrange(s, p, len));
            proof {
                lemma_rest(s@, p as int);
                assert(s@.subrange(p as int, len as int) =~= s@.skip(p as int));
                lemma_step_in_bounds(s@, p as int);
                lemma_step_to_boundary(s@, p as int);
                lemma_walk_extend(s@, 0, p as int, a, w0);
            }
            let c: u32 = match c {
                Ok(c) => c,
                Err(_) => REPLACEMENT_CHAR,
            };
            if c == NEWLINE {
                if dy == y {
                    done = true;
                } else {
                    dy = dy + 1;
                    dx = -base_x;
                }
            } else {
                let hadv: u32 = self.layout.advance_for(c);
                if dy == y && cuts(dx, hadv, hdiv, x) {
                    done = true;
                } else {
                    dx = dx + hadv as i128;
                }
            }
            if !done {
                proof {
                    w = w.step(c, a);
                }
                p = p + adv;
            }
        }
        let data: &'a [u8] = slice_subrange(s, p, len);
        proof {
            assert(data@ =~= s@.skip(p as int));
        }
        Some(DataAt { dy, dx, offset: start + p as i64, data })
    }

    /// Looks up the character at `precise_offset`, returning its position
    /// relative to `base_offset`.
    /// If `precise_offset` is in the middle of a character, returns the next
    /// character boundary.
    /// Returns `None` if either offset is not loaded, or if the columns at one of them
    /// are known and at the other one are not.
    pub fn lookup_offset(&self, base_offset: i64, precise_offset: i64) -> (r: Option<DataAt<'a>>)
        requires
            self.loaded.readable(),
        ensures
            match r {
                Some(d) => Some(d@),
                None => None,
            } == found_offset(
                self.loaded.linemap@,
                self.loaded.data@,
                self.layout@,
                base_offset as int,
                precise_offset as int,
            ),
    {
        let ghost map = self.loaded.linemap@;
        let ghost runs = self.loaded.data@;
        let ghost a = self.layout@;
        proof {
            if is_mapped(map, base_offset as int) && is_mapped(map, precise_offset as int) {
                lemma_mapped_base(self.loaded.linemap, base_offset as int);
                lemma_mapped_base(self.loaded.linemap, precise_offset as int);
            }
        }
        let (i, k, l) = match self.loaded.linemap.offset_to_anchor(base_offset, precise_offset) {
            Some((i, k, l)) => (i, k, l),
            None => {
                return None;
            },
        };
        let seg: &MappedSegment = &self.loaded.linemap.segments[i];
        assert(seg.readable());
        let ghost marks = seg@.marks;
        assert(map[i as int] == seg@);
        let ghost base = marks[k as int];
        let ghost lo = marks[l as int];
        proof {
            lemma_base_of(self.loaded.linemap, base_offset as int, i as int, k as int);
            lemma_base_of(self.loaded.linemap, precise_offset as int, i as int, l as int);
            seg.lemma_small(k as int);
            seg.lemma_small(l as int);
            assert(is_segment_of(map, base_offset as int, i as int));
            assert(is_segment_of(map, precise_offset as int, i as int));
        }
        let (base_y, base_x): (i64, i128) = seg.position(k);
        let base_abs: bool = k >= seg.first_absolute;
        let (lo_y, lo_x): (i64, i128) = seg.position(l);
        let start: i64 = seg.anchors[l].offset;
        let s: &'a [u8] = self.loaded.data.longest_prefix(start);
        let len: usize = s.len();
        proof {
            lemma_prefix_fits(runs, start as int);
            lemma_ends_are_boundaries(s@);
        }
        let ghost w0 = walk_at(lo);
        let ghost goal = pass(s@, 0, precise_offset - start);
        let ghost mut w = w0;
        let mut p: usize = 0;
        // Parse data before target position, accumulating x/y changes
        let mut dx: i128 = lo_x - base_x;
        let mut dy: i64 = lo_y - base_y;
        let mut abs: bool = base_abs;
        while p < len && start + (p as i64) < precise_offset
            invariant
                a == self.layout@,
                len == s@.len(),
                p <= len,
                start + len <= i64::MAX,
                0 <= start,
                is_boundary(s@, 0),
                is_boundary(s@, p as int),
                w0 == walk_at(lo),
                w == walk(s@, 0, p as int, a, w0),
                w.y == dy + base.y,
                w.x == dx + base.x,
                w.abs == abs,
                base_x == base.x,
                0 <= base.y <= LIMIT,
                0 <= base.x <= width(LIMIT as int),
                0 <= lo.y <= start,
                0 <= lo.x <= width(LIMIT as int),
                lo.y <= w.y <= lo.y + p,
                0 <= w.x <= lo.x + width(p as int),
                goal == pass(s@, p as int, precise_offset - start),
            decreases len - p,
        {
            let (c, adv): (Result<u32, u8>, usize) = decode_utf8(slice_subrange(s, p, len));
            proof {
                lemma_rest(s@, p as int);
                assert(s@.subrange(p as int, len as int) =~= s@.skip(p as int));
                lemma_step_in_bounds(s@, p as int);
                lemma_step_to_boundary(s@, p as int);
                lemma_walk_extend(s@, 0, p as int, a, w0);
            }
            let c: u32 = match c {
                Ok(c) => c,
                Err(_) => REPLACEMENT_CHAR,
            };
            if c == NEWLINE {
                dy = dy + 1;
                dx = -base_x;
                abs = true;
            } else {
                let hadv: u32 = self.layout.advance_for(c);
                dx = dx + hadv as i128;
            }
            proof {
                w = w.step(c, a);
            }
            p = p + adv;
        }
        if abs != base_abs {
            // The text went on to a line whose columns are known, but the column of
            // the base is not
            return None;
        }
        let data: &'a [u8] = slice_subrange(s, p, len);
        proof {
            assert(data@ =~= s@.skip(p as int));
        }
        Some(DataAt { dy, dx, offset: start + p as i64, data })
    }

    /// Moves the given offset by a certain amount of characters.
    ///
    /// O(n) in the amount of characters due to UTF-8.
    /// May not have enough data to complete the offset.
    /// In this case, it fails but returns the farthest it could get.
    pub fn char_delta(&self, offset: i64, delta: i16) -> (r: Result<i64, i64>)
        requires
            self.loaded.readable(),
        ensures
            delta >= 0 ==> r == moved(
                offset,
                forward(prefix_at(self.loaded.data@, offset as int), delta as nat),
            ),
            delta < 0 ==> r == moved(
                offset,
                backward(suffix_at(self.loaded.data@, offset as int), (-delta) as nat),
            ),
    {
        let ghost runs = self.loaded.data@;
        if delta < 0 {
            // Move backwards
            let s: &[u8] = self.loaded.data.longest_suffix(offset);
            proof {
                lemma_suffix_fits(runs, offset as int);
                assert(s@.take(s@.len() as int) =~= s@);
            }
            let mut left: i32 = -(delta as i32);
            let mut e: usize = s.len();
            let ghost all = backward(s@, (-delta) as nat);
            while left > 0
                invariant
                    delta < 0,
                    s@ == suffix_at(self.loaded.data@, offset as int),
                    all == backward(s@, (-delta) as nat),
                    0 <= left <= 0x8000,
                    e <= s@.len(),
                    s@.len() == 0 || s@.len() <= offset,
                    all.0 == backward(s@.take(e as int), left as nat).0,
                    all.1 == backward(s@.take(e as int), left as nat).1 - (s@.len() - e),
                decreases left,
            {
                let ghost t = s@.take(e as int);
                if e == 0 {
                    return Err(offset - (s.len() - e) as i64);
                }
                let rest: &[u8] = slice_subrange(s, 0, e);
                proof {
                    assert(rest@ =~= t);
                }
                let (_c, rev): (Result<u32, u8>, usize) = decode_utf8_rev(rest);
                proof {
                    assert(t.take(t.len() - rev) =~= s@.take(e - rev));
                }
                e = e - rev;
                left = left - 1;
            }
            Ok(offset - (s.len() - e) as i64)
        } else {
            // Move forwards
            let s: &[u8] = self.loaded.data.longest_prefix(offset);
            let len: usize = s.len();
            proof {
                lemma_prefix_bounds(runs, offset as int);
                assert(s@.skip(0) =~= s@);
            }
            let mut left: i32 = delta as i32;
            let mut p: usize = 0;
            let ghost all = forward(s@, delta as nat);
            while left > 0
                invariant
                    delta >= 0,
                    s@ == prefix_at(self.loaded.data@, offset as int),
                    all == forward(s@, delta as nat),
                    0 <= left <= 0x8000,
                    p <= len,
                    len == s@.len(),
                    s@.len() == 0 || (offset >= 0 && offset + s@.len() <= i64::MAX),
                    all.0 == forward(s@.skip(p as int), left as nat).0,
                    all.1 == forward(s@.skip(p as int), left as nat).1 + p,
                decreases left,
            {
                let ghost t = s@.skip(p as int);
                if p >= len {
                    return Err(offset + p as i64);
                }
                let rest: &[u8] = slice_subrange(s, p, len);
                proof {
                    assert(rest@ =~= t);
                }
                let (_c, adv): (Result<u32, u8>, usize) = decode_utf8(rest);
                proof {
                    assert(t.skip(adv as int) =~= s@.skip(p + adv));
                }
                p = p + adv;
                left = left - 1;
            }
            Ok(offset + p as i64)
        }
    }
}

/// A line or a character that is met in a rectangle.
#[derive(Clone, Copy, Debug, PartialEq, Eq)]
pub struct Visit {
    /// Absolute position of the line or the character.
    pub offset: i64,
    /// X position relative to the reference anchor.
    pub dx: i128,
    /// Y position relative to the reference anchor.
    pub dy: i64,
    /// The code point and its advance, or nothing at the start of a line.
    pub glyph: Option<(u32, u32)>,
}

/// A line or a character that is met, as a value.
pub struct Met {
    pub offset: int,
    pub dx: int,
    pub dy: int,
    pub glyph: Option<(u32, u32)>,
}

impl View for Visit {
    type V = Met;

    open spec fn view(&self) -> Met {
        Met {
            offset: self.offset as int,
            dx: self.dx as int,
            dy: self.dy as int,
            glyph: self.glyph,
        }
    }
}

/// The values of a list of visits.
pub open spec fn met(v: Seq<Visit>) -> Seq<Met> {
    Seq::new(v.len(), |i: int| v[i]@)
}

/// The characters of a line from `d` on, up to the column `x1`, the end of the line
/// or the end of what is loaded.
pub open spec fn line_glyphs(d: Found, y: int, x1: int, a: Advances) -> Seq<Met>
    decreases d.data.len(),
{
    if d.data.len() > 0 && (d.dy < y || d.dx < x1) {
        let c = shown(char_at(d.data, 0));
        if c == NEWLINE {
            Seq::empty()
        } else {
            let next = Found {
                dx: d.dx + a.of(c),
                offset: d.offset + step_len(d.data, 0),
                data: d.data.skip(step_len(d.data, 0) as int),
                ..d
            };
            seq![
                Met { offset: d.offset, dx: d.dx, dy: d.dy, glyph: Some((c, a.of(c))) },
            ] + line_glyphs(next, y, x1, a)
        }
    } else {
        Seq::empty()
    }
}

/// What is met on one line.
pub open spec fn line_items(found: Option<Found>, y: int, x1: int, a: Advances) -> Seq<Met> {
    match found {
        Some(d) => seq![Met { offset: d.offset, dx: d.dx, dy: d.dy, glyph: None }] + line_glyphs(
            d,
            y,
            x1,
            a,
        ),
        None => Seq::empty(),
    }
}

/// What is met on the lines from `y` up to `y1`.
pub open spec fn rect_items(
    map: Seq<Mapped>,
    runs: Seq<Run>,
    a: Advances,
    view: FileRect,
    y: int,
    y1: int,
) -> Seq<Met>
    decreases
            if y < y1 {
                y1 - y
            } else {
                0
            },
{
    if y < y1 {
        line_items(
            found_at(
                map,
                runs,
                a,
                view.corner.base_offset as int,
                y,
                view.corner.delta_x as int,
                0x100_0000,
            ),
            y,
            view.right(),
            a,
        ) + rect_items(map, runs, a, view, y + 1, y1)
    } else {
        Seq::empty()
    }
}

impl<'a> FileLock<'a> {
    /// Adds the characters of a line to `out`.
    fn visit_line(&self, d: DataAt<'a>, y: i64, x1: i128, out: &mut Vec<Visit>)
        requires
            0 <= d.offset,
            d.offset + d.data@.len() <= i64::MAX,
            -0x1_0000_0000_0000_0000_0000_0000_0000 <= d.dx
                <= 0x1_0000_0000_0000_0000_0000_0000_0000,
        ensures
            met(final(out)@) == met(old(out)@) + line_items(
                Some(d@),
                y as int,
                x1 as int,
                self.layout@,
            ),
    {
        let ghost a = self.layout@;
        let ghost before = out@;
        let ghost all = line_items(Some(d@), y as int, x1 as int, a);
        let s: &[u8] = d.data;
        let len: usize = s.len();
        let dy: i64 = d.dy;
        let mut p: usize = 0;
        let mut dx: i128 = d.dx;
        let ghost mut cur: Found = d@;
        out.push(Visit { offset: d.offset, dx, dy, glyph: None });
        proof {
            assert(s@.skip(0) =~= s@);
            assert(met(out@) =~= met(before) + seq![
                Met { offset: d.offset as int, dx: d.dx as int, dy: d.dy as int, glyph: None },
            ]);
            assert(met(before) + all =~= met(out@) + line_glyphs(cur, y as int, x1 as int, a));
        }
        let mut done: bool = false;
        while !done && p < len && (dy < y || dx < x1)
            invariant
                a == self.layout@,
                s@ == d.data@,
                len == s@.len(),
                p <= len,
                0 <= d.offset,
                d.offset + len <= i64::MAX,
                -0x1_0000_0000_0000_0000_0000_0000_0000 <= d.dx,
                d.dx <= 0x1_0000_0000_0000_0000_0000_0000_0000,
                d.dx <= dx <= d.dx + width(p as int),
                dy == d.dy,
                cur == (Found {
                    dy: dy as int,
                    dx: dx as int,
                    offset: d.offset + p,
                    data: s@.skip(p as int),
                }),
                met(before) + all == met(out@) + if done {
                    Seq::<Met>::empty()
                } else {
                    line_glyphs(cur, y as int, x1 as int, a)
                },
            decreases
                    len - p,
                    if done {
                        0int
                    } else {
                        1int
                    },
        {
            let (c, adv): (Result<u32, u8>, usize) = decode_utf8(slice_subrange(s, p, len));
            proof {
                assert(s@.subrange(p as int, len as int) =~= s@.skip(p as int));
                assert(s@.skip(p as int).skip(adv as int) =~= s@.skip(p + adv));
            }
            let c: u32 = match c {
                Ok(c) => c,
                Err(_) => REPLACEMENT_CHAR,
            };
            if c == NEWLINE {
                done = true;
            } else {
                let hadv: u32 = self.layout.advance_for(c);
                let ghost was = out@;
                let ghost old_cur = cur;
                out.push(Visit { offset: d.offset + p as i64, dx, dy, glyph: Some((c, hadv)) });
                proof {
                    let m = Met {
                        offset: old_cur.offset,
                        dx: old_cur.dx,
                        dy: old_cur.dy,
                        glyph: Some((c, hadv)),
                    };
                    cur = Found {
                        dy: dy as int,
                        dx: dx + hadv,
                        offset: d.offset + p + adv,
                        data: s@.skip(p + adv),
                    };
                    assert(line_glyphs(old_cur, y as int, x1 as int, a) == seq![m] + line_glyphs(
                        cur,
                        y as int,
                        x1 as int,
                        a,
                    ));
                    assert(met(out@) =~= met(was) + seq![m]);
                    assert(met(was) + (seq![m] + line_glyphs(cur, y as int, x1 as int, a)) =~= met(
                        out@,
                    ) + line_glyphs(cur, y as int, x1 as int, a));
                }
                dx = dx + hadv as i128;
                p = p + adv;
            }
        }
        proof {
            assert(met(out@) + Seq::<Met>::empty() =~= met(out@));
        }
    }

    /// Collect all lines and characters contained in the given rectangle.
    pub fn visit_rect(&self, view: FileRect) -> (r: Vec<Visit>)
        requires
            self.loaded.readable(),
        ensures
            met(r@) == rect_items(
                self.loaded.linemap@,
                self.loaded.data@,
                self.layout@,
                view,
                first_line(view),
                last_line(view),
            ),
    {
        let ghost map = self.loaded.linemap@;
        let ghost runs = self.loaded.data@;
        let ghost a = self.layout@;
        let y0: i64 = floor_lines(view.corner.delta_y);
        let y1: i64 = ceil_lines(add_distance(view.corner.delta_y, view.size.y));
        let x0: i128 = view.corner.delta_x;
        let x1: i128 = add_distance(view.corner.delta_x, view.size.x);
        let mut out: Vec<Visit> = Vec::new();
        let ghost all = rect_items(map, runs, a, view, y0 as int, y1 as int);
        let mut y: i64 = y0;
        proof {
            assert(met(out@) + all =~= all);
        }
        while y < y1
            invariant
                self.loaded.readable(),
                map == self.loaded.linemap@,
                runs == self.loaded.data@,
                a == self.layout@,
                x0 == view.corner.delta_x,
                x1 == view.right(),
                all == met(out@) + rect_items(map, runs, a, view, y as int, y1 as int),
            decreases y1 - y,
        {
            let ghost was = out@;
            let ghost rest = rect_items(map, runs, a, view, y + 1, y1 as int);
            // Look up the start of this line
            let line = self.lookup_pos(view.corner.base_offset, y, x0, UNITS as u32);
            match line {
                Some(d) => {
                    // Process readable text
                    self.visit_line(d, y, x1, &mut out);
                    proof {
                        let items = line_items(Some(d@), y as int, x1 as int, a);
                        assert(met(was) + (items + rest) =~= met(out@) + rest);
                    }
                },
                None => {
                    proof {
                        let items = Seq::<Met>::empty();
                        assert(met(was) + (items + rest) =~= met(out@) + rest);
                    }
                },
            }
            y = y + 1;
        }
        proof {
            assert(met(out@) + Seq::<Met>::empty() =~= met(out@));
        }
        out
    }
}

/// How far `n` characters of `s` reach, and whether there are that many.
pub open spec fn forward(s: Seq<u8>, n: nat) -> (bool, int)
    decreases n,
{
    if n == 0 {
        (true, 0)
    } else if s.len() == 0 {
        (false, 0)
    } else {
        let k = step_len(s, 0) as int;
        let (done, rest) = forward(s.skip(k), (n - 1) as nat);
        (done, k + rest)
    }
}

/// How far back the last `n` characters of `s` reach, and whether there are that
/// many.
pub open spec fn backward(s: Seq<u8>, n: nat) -> (bool, int)
    decreases n,
{
    if n == 0 {
        (true, 0)
    } else if s.len() == 0 {
        (false, 0)
    } else {
        let k = step_back_len(s, s.len() as int) as int;
        let (done, rest) = backward(s.take(s.len() - k), (n - 1) as nat);
        (done, rest - k)
    }
}

/// The offset that a move leads to.
pub open spec fn moved(offset: i64, step: (bool, int)) -> Result<i64, i64> {
    if step.0 {
        Ok((offset + step.1) as i64)
    } else {
        Err((offset + step.1) as i64)
    }
}

/// Loaded text before an offset does not reach before the file.
proof fn lemma_suffix_fits(runs: Seq<Run>, p: int)
    requires
        ordered(runs),
    ensures
        suffix_at(runs, p).len() == 0 || suffix_at(runs, p).len() <= p,
{
    if held(runs, p - 1) {
        let i = holder(runs, p - 1);
        assert(covers(runs, i, p - 1));
        assert(runs[i].at >= 0);
    }
}

/// Loaded text at an offset lies within the range of offsets.
proof fn lemma_prefix_bounds(runs: Seq<Run>, p: int)
    requires
        ordered(runs),
    ensures
        prefix_at(runs, p).len() == 0 || (p >= 0 && p + prefix_at(runs, p).len() <= i64::MAX),
{
    if held(runs, p) {
        let i = holder(runs, p);
        assert(covers(runs, i, p));
        assert(runs[i].at >= 0 && runs[i].end() <= i64::MAX);
    }
}

/// Whether a column lies before the place that divides the next character.
fn cuts(from: i128, adv: u32, hdiv: u32, x: i128) -> (r: bool)
    requires
        from < x,
        i128::MIN < from,
    ensures
        r == divides(from as int, adv as int, hdiv as int, x as int),
{
    proof {
        assert(0 <= adv * hdiv <= 0xFFFF_FFFF * 0xFFFF_FFFF) by (nonlinear_arith)
            requires
                0 <= adv <= 0xFFFF_FFFF,
                0 <= hdiv <= 0xFFFF_FFFF,
        ;
    }
    let part: i128 = adv as i128 * hdiv as i128;
    let d: i128 = add_distance(x, -from);
    if d > 0x1_0000_0000_0000_0000 {
        false
    } else {
        part > d * UNITS
    }
}

/// The longest loaded text at an offset ends at an offset.
proof fn lemma_prefix_fits(runs: Seq<Run>, p: int)
    requires
        ordered(runs),
        0 <= p <= i64::MAX,
    ensures
        p + prefix_at(runs, p).len() <= i64::MAX,
{
    if held(runs, p) {
        let i = holder(runs, p);
        assert(covers(runs, i, p));
        assert(runs[i].end() <= i64::MAX);
    }
}

} // verus!
