//! Builds the line map out of pieces of the file.

use crate::filling::{
    compatible, covered, ends_before, first_gap, gap_end, inserted, lemma_ends_before,
    lemma_starts_upto, processed, spans_byte, starts_upto,
};
use crate::layout::{
    lemma_walk_sane, max_int, shown, walk, Advances, CharLayout, Walk, NEWLINE, REPLACEMENT_CHAR,
    UNITS,
};
use crate::linemap::{Anchor, LineMap, Mapped, MappedSegment, MAX_BASE_X, MAX_BASE_Y};
use crate::mapping::{Mapping, Merged, Merging, Piece};
use crate::marks::{lawful, precedes, regular, sound, width, Mark, LIMIT};
use crate::merging::{adjacent, merged, stands_for};
use crate::utf8::{
    announced_len, char_at, decode_utf8, is_cont, is_utf8_cont, lemma_ends_are_boundaries,
    lemma_rest, lemma_step_in_bounds, step_len, utf8_seq_len,
};
use std::collections::VecDeque;
use vstd::prelude::*;
use vstd::slice::slice_subrange;

verus! {

/// How many bytes of memory one anchor is reckoned to take.
pub const ANCHOR_SIZE: usize = 24;

/// Maps pieces of the file.
pub struct LineMapper {
    pub bytes_per_anchor: usize,
    pub migrate_batch_size: usize,
    pub layout: CharLayout,
}

/// The mark of a walk that is at `offset`.
pub open spec fn mark_at(offset: int, w: Walk) -> Mark {
    Mark { offset, y: w.y, x: w.x, abs: w.abs }
}

/// The marks that are placed in `s`, which stands at `offset` in the file, from the
/// index `p` on: one at each character that starts `gap` bytes or more after the
/// last one, counting on from `acc` bytes, and one at the end.
pub open spec fn marks_from(
    s: Seq<u8>,
    offset: int,
    p: int,
    acc: int,
    gap: int,
    a: Advances,
    w: Walk,
) -> Seq<Mark>
    decreases
            if p < s.len() {
                s.len() - p
            } else {
                0
            },
{
    if p < s.len() {
        let n = step_len(s, p);
        let v = w.step(shown(char_at(s, p)), a);
        if acc >= gap {
            seq![mark_at(offset + p, w)] + marks_from(s, offset, p + n, acc + n - gap, gap, a, v)
        } else {
            marks_from(s, offset, p + n, acc + n, gap, a, v)
        }
    } else {
        seq![mark_at(offset + p, w)]
    }
}

/// How many bytes at the start of a piece may belong to a character that starts
/// before it: at most three continuation bytes.
pub open spec fn left_trim(d: Seq<u8>) -> int {
    if d.len() < 1 || !is_cont(d[0]) {
        0
    } else if d.len() < 2 || !is_cont(d[1]) {
        1
    } else if d.len() < 3 || !is_cont(d[2]) {
        2
    } else {
        3
    }
}

/// How many bytes of a piece come before a character that announces to go on after
/// its end, if one of the last three bytes starts such a character.
pub open spec fn right_trim(d: Seq<u8>) -> int {
    let n = d.len() as int;
    if n >= 1 && announced_len(d[n - 1]) > 1 {
        n - 1
    } else if n >= 2 && announced_len(d[n - 2]) > 2 {
        n - 2
    } else if n >= 3 && announced_len(d[n - 3]) > 3 {
        n - 3
    } else {
        n
    }
}

/// Where the part of a piece starts that is mapped.
pub open spec fn trimmed_start(d: Seq<u8>, rigid_left: bool) -> int {
    if rigid_left {
        0
    } else {
        left_trim(d)
    }
}

/// The part of a piece that is mapped.
pub open spec fn trimmed(d: Seq<u8>, rigid_left: bool, rigid_right: bool) -> Seq<u8> {
    let rest = d.skip(trimmed_start(d, rigid_left));
    if rigid_right {
        rest
    } else {
        rest.take(right_trim(rest))
    }
}

/// What is known of a piece of text that stands at `offset` in the file.
pub open spec fn surveyed(offset: int, s: Seq<u8>, a: Advances, gap: int) -> Mapped {
    let w = Walk::start(offset == 0);
    let end = walk(s, 0, s.len() as int, a, w).end_line();
    Mapped {
        marks: marks_from(s, offset, 0, gap, gap, a, w),
        widest: end.widest,
        rel_width: end.rel_width,
    }
}

/// What is known of a piece of the file after its edges were cut to characters.
pub open spec fn created(
    offset: int,
    d: Seq<u8>,
    rigid_left: bool,
    rigid_right: bool,
    a: Advances,
    gap: int,
) -> Mapped {
    surveyed(
        offset + trimmed_start(d, rigid_left),
        trimmed(d, rigid_left, rigid_right),
        a,
        gap,
    )
}

/// The number from which the bases of a segment are drawn.
pub open spec fn scramble(start: int) -> u32 {
    (#[verifier::truncate]
    ((start + 143) as u32)).wrapping_mul(0x9e3779b9)
}

/// A later position of a walk comes after the mark of an earlier one.
proof fn lemma_step_follows(m: Mark, offset: int, w: Walk, n: int, c: u32, a: Advances)
    requires
        m == mark_at(offset, w) || precedes(m, mark_at(offset, w)),
        w.sane(),
        sound(m),
        n >= 1,
    ensures
        precedes(m, mark_at(offset + n, w.step(c, a))),
{
}

/// The marks placed in a piece of text form a lawful list.
pub proof fn lemma_marks_from(
    s: Seq<u8>,
    offset: int,
    p: int,
    acc: int,
    gap: int,
    a: Advances,
    w: Walk,
)
    requires
        0 <= p <= s.len(),
        0 <= offset,
        offset + s.len() <= LIMIT,
        w.sane(),
        w.abs ==> w.x <= width(offset + p),
    ensures
        ({
            let out = marks_from(s, offset, p, acc, gap, a, w);
            let m = mark_at(offset + p, w);
            &&& out.len() >= 1
            &&& forall|k: int| 0 <= k < out.len() ==> sound(#[trigger] out[k])
            &&& forall|k: int|
                0 <= k < out.len() ==> #[trigger] out[k] == m || precedes(m, out[k])
            &&& forall|j: int, k: int|
                0 <= j < k < out.len() ==> precedes(#[trigger] out[j], #[trigger] out[k])
            &&& acc >= gap || p == s.len() ==> out[0] == m
            &&& out.last().offset == offset + s.len()
            &&& w.abs == (w.y > 0) ==> forall|k: int|
                0 <= k < out.len() ==> (#[trigger] out[k]).abs == (out[k].y > 0)
            &&& out.len() == 1 ==> p == s.len() || acc < gap
        }),
    decreases s.len() - p,
{
    let out = marks_from(s, offset, p, acc, gap, a, w);
    let m = mark_at(offset + p, w);
    assert(sound(m));
    if p < s.len() {
        let n = step_len(s, p) as int;
        let c = shown(char_at(s, p));
        let v = w.step(c, a);
        let acc1 = if acc >= gap {
            acc + n - gap
        } else {
            acc + n
        };
        lemma_step_in_bounds(s, p);
        let rest = marks_from(s, offset, p + n, acc1, gap, a, v);
        let m1 = mark_at(offset + p + n, v);
        lemma_marks_from(s, offset, p + n, acc1, gap, a, v);
        lemma_step_follows(m, offset + p, w, n, c, a);
        assert forall|k: int| 0 <= k < rest.len() implies precedes(m, #[trigger] rest[k]) by {
            assert(rest[k] == m1 || precedes(m1, rest[k]));
        }
        if acc >= gap {
            assert(out == seq![m] + rest);
            assert forall|j: int, k: int| 0 <= j < k < out.len() implies precedes(
                #[trigger] out[j],
                #[trigger] out[k],
            ) by {
                assert(out[k] == rest[k - 1]);
                if j > 0 {
                    assert(out[j] == rest[j - 1]);
                }
            }
            assert forall|k: int| 0 <= k < out.len() implies sound(#[trigger] out[k]) && (out[k] == m
                || precedes(m, out[k])) && (w.abs == (w.y > 0) ==> out[k].abs == (out[k].y > 0)) by {
                if k > 0 {
                    assert(out[k] == rest[k - 1]);
                }
            }
            assert(out.last() == rest.last());
        } else {
            assert(out == rest);
        }
    }
}

/// What is known of a piece of text is lawful, and its widths are bounded.
pub proof fn lemma_surveyed(offset: int, s: Seq<u8>, a: Advances, gap: int)
    requires
        0 <= offset,
        offset + s.len() <= LIMIT,
    ensures
        lawful(surveyed(offset, s, a, gap).marks),
        regular(surveyed(offset, s, a, gap).marks),
        surveyed(offset, s, a, gap).start() == offset,
        surveyed(offset, s, a, gap).end() == offset + s.len(),
        0 <= surveyed(offset, s, a, gap).widest <= width(offset + s.len()),
        0 <= surveyed(offset, s, a, gap).rel_width <= width(s.len() as int),
{
    let w = Walk::start(offset == 0);
    lemma_marks_from(s, offset, 0, gap, gap, a, w);
    lemma_ends_are_boundaries(s);
    lemma_walk_sane(s, 0, s.len() as int, a, w);
}

/// The marks that lie before the end of a piece cost `gap` bytes each.
proof fn lemma_marks_spread(
    s: Seq<u8>,
    offset: int,
    p: int,
    acc: int,
    gap: int,
    a: Advances,
    w: Walk,
)
    requires
        0 <= p <= s.len(),
        0 <= acc,
        1 <= gap,
    ensures
        (marks_from(s, offset, p, acc, gap, a, w).len() - 1) * gap <= acc + (s.len() - p),
    decreases s.len() - p,
{
    let out = marks_from(s, offset, p, acc, gap, a, w);
    if p < s.len() {
        let n = step_len(s, p) as int;
        let v = w.step(shown(char_at(s, p)), a);
        lemma_step_in_bounds(s, p);
        if acc >= gap {
            let rest = marks_from(s, offset, p + n, acc + n - gap, gap, a, v);
            lemma_marks_spread(s, offset, p + n, acc + n - gap, gap, a, v);
            assert(out.len() == rest.len() + 1);
            let k = rest.len() as int;
            assert(k * gap == (k - 1) * gap + gap) by (nonlinear_arith);
        } else {
            lemma_marks_spread(s, offset, p + n, acc + n, gap, a, v);
        }
    } else {
        assert((out.len() - 1) * gap == 0) by (nonlinear_arith)
            requires
                out.len() == 1,
        ;
    }
}

/// The anchors of a piece are as many as the spacing allows: one for every `gap` bytes,
/// one at the start and one at the end.
pub proof fn lemma_anchor_count(offset: int, s: Seq<u8>, a: Advances, gap: int)
    requires
        1 <= gap,
    ensures
        surveyed(offset, s, a, gap).marks.len() <= s.len() as int / gap + 2,
{
    let n = surveyed(offset, s, a, gap).marks.len() as int;
    let len = s.len() as int;
    lemma_marks_spread(s, offset, 0, gap, gap, a, Walk::start(offset == 0));
    assert(n <= len / gap + 2) by (nonlinear_arith)
        requires
            (n - 1) * gap <= gap + len,
            1 <= gap,
            0 <= len,
    ;
}

/// Whether no two neighbors of a list of marks are more than `most` bytes apart.
pub open spec fn close_marks(marks: Seq<Mark>, most: int) -> bool {
    forall|k: int, j: int|
        0 <= k < marks.len() && j == k + 1 && j < marks.len() ==> (#[trigger] marks[j]).offset - (
        #[trigger] marks[k]).offset <= most
}

/// The marks that are placed from `p` on are not far apart, nor is the first one from `p`.
proof fn lemma_marks_close(
    s: Seq<u8>,
    offset: int,
    p: int,
    acc: int,
    gap: int,
    a: Advances,
    w: Walk,
)
    requires
        0 <= p <= s.len(),
        0 <= acc,
        1 <= gap,
    ensures
        ({
            let out = marks_from(s, offset, p, acc, gap, a, w);
            &&& out.len() >= 1
            &&& offset + p <= out[0].offset
            &&& acc >= gap ==> out[0].offset == offset + p
            &&& acc < gap ==> out[0].offset <= offset + p + (gap - acc) + 3
            &&& close_marks(out, gap + 3)
        }),
    decreases s.len() - p,
{
    if p < s.len() {
        let n = step_len(s, p) as int;
        let v = w.step(shown(char_at(s, p)), a);
        lemma_step_in_bounds(s, p);
        if acc >= gap {
            let out = marks_from(s, offset, p, acc, gap, a, w);
            let rest = marks_from(s, offset, p + n, acc + n - gap, gap, a, v);
            lemma_marks_close(s, offset, p + n, acc + n - gap, gap, a, v);
            assert(out == seq![mark_at(offset + p, w)] + rest);
            assert forall|k: int, j: int|
                0 <= k < out.len() && j == k + 1 && j < out.len() implies (#[trigger] out[j]).offset
                - (#[trigger] out[k]).offset <= gap + 3 by {
                assert(out[j] == rest[j - 1]);
                if k > 0 {
                    assert(out[k] == rest[k - 1]);
                }
            }
        } else {
            lemma_marks_close(s, offset, p + n, acc + n, gap, a, v);
        }
    }
}

/// The anchors of a piece are dense enough to look positions up: the first one is at its start
/// and the last one at its end, and no part of it that is longer than `gap` bytes, and the rest
/// of a character, is without one.
pub proof fn lemma_anchors_close(offset: int, s: Seq<u8>, a: Advances, gap: int)
    requires
        1 <= gap,
        0 <= offset,
        offset + s.len() <= LIMIT,
    ensures
        ({
            let marks = surveyed(offset, s, a, gap).marks;
            &&& marks[0].offset == offset
            &&& marks.last().offset == offset + s.len()
            &&& close_marks(marks, gap + 3)
        }),
{
    lemma_surveyed(offset, s, a, gap);
    lemma_marks_close(s, offset, 0, gap, gap, a, Walk::start(offset == 0));
}

/// At most three bytes are cut from each edge of a piece: on the left only bytes that go on
/// with a character from before it, and on the right only the start of a character that goes on
/// after it. Nothing is cut from a rigid edge.
pub proof fn lemma_created_edges(
    offset: int,
    d: Seq<u8>,
    rigid_left: bool,
    rigid_right: bool,
    a: Advances,
    gap: int,
)
    requires
        0 <= offset,
        offset + d.len() <= LIMIT,
    ensures
        ({
            let seg = created(offset, d, rigid_left, rigid_right, a, gap);
            let l = seg.start() - offset;
            let r = seg.end() - offset;
            &&& 0 <= l <= 3
            &&& l <= r <= d.len()
            &&& d.len() - r <= 3
            &&& rigid_left ==> l == 0
            &&& rigid_right ==> r == d.len()
            &&& forall|k: int| 0 <= k < l ==> 0x80 <= #[trigger] d[k] < 0xC0
            &&& !rigid_left && l < 3 && l < d.len() ==> !(0x80 <= d[l] < 0xC0)
            &&& r < d.len() ==> announced_len(d[r]) > d.len() - r
            &&& !rigid_right && r == d.len() ==> forall|k: int|
                l <= k < r && d.len() - k <= 3 ==> announced_len(#[trigger] d[k]) <= d.len() - k
        }),
{
    let l = trimmed_start(d, rigid_left);
    let rest = d.skip(l);
    let s = trimmed(d, rigid_left, rigid_right);
    lemma_surveyed(offset + l, s, a, gap);
    let n = rest.len() as int;
    if n >= 1 {
        assert(rest[n - 1] == d[d.len() - 1]);
    }
    if n >= 2 {
        assert(rest[n - 2] == d[d.len() - 2]);
    }
    if n >= 3 {
        assert(rest[n - 3] == d[d.len() - 3]);
    }
}

impl LineMapper {
    /// The limits within which pieces are mapped.
    pub open spec fn wf(self) -> bool {
        1 <= self.bytes_per_anchor
    }

    /// A mapper that spreads its anchors so that those of a file of `file_size` bytes
    /// fit in `max_memory` bytes.
    pub fn new(
        layout: CharLayout,
        file_size: i64,
        max_memory: usize,
        migrate_batch_size: usize,
    ) -> (r: LineMapper)
        requires
            file_size >= 0,
            max_memory >= ANCHOR_SIZE,
            file_size / (max_memory / ANCHOR_SIZE) as i64 <= usize::MAX,
            max_memory / ANCHOR_SIZE <= i64::MAX,
        ensures
            r.wf(),
            r.layout == layout,
            r.migrate_batch_size == migrate_batch_size,
            r.bytes_per_anchor == max_int(
                file_size / (max_memory / ANCHOR_SIZE) as i64,
                ANCHOR_SIZE as int,
            ),
            // As many anchors as fit, one byte farther apart, are enough for the file, and they
            // are no farther apart than that takes
            file_size < (r.bytes_per_anchor + 1) * (max_memory / ANCHOR_SIZE),
            r.bytes_per_anchor > ANCHOR_SIZE ==> r.bytes_per_anchor * (max_memory / ANCHOR_SIZE)
                <= file_size,
    {
        let max_anchors: usize = max_memory / ANCHOR_SIZE;
        let spread: i64 = file_size / max_anchors as i64;
        proof {
            let (f, m, q) = (file_size as int, max_anchors as int, spread as int);
            assert(m >= 1 ==> q * m <= f < (q + 1) * m) by (nonlinear_arith)
                requires
                    q == f / m,
            ;
            let g = max_int(q, ANCHOR_SIZE as int);
            assert((q + 1) * m <= (g + 1) * m) by (nonlinear_arith)
                requires
                    q <= g,
                    m >= 0,
            ;
        }
        let bytes_per_anchor: usize = if spread as usize >= ANCHOR_SIZE {
            spread as usize
        } else {
            ANCHOR_SIZE  // reasonable minimum
        };
        LineMapper { layout, bytes_per_anchor, migrate_batch_size }
    }

    /// Note: A prefix and/or suffix of at most length 3 may be discarded from the given
    /// segment to align with UTF-8 character boundaries.
    /// They will not be discarded on the edges if the `rigid` flags are set.
    pub fn create_segment(
        &self,
        offset: i64,
        data: &[u8],
        rigid_left: bool,
        rigid_right: bool,
    ) -> (seg: MappedSegment)
        requires
            self.wf(),
            0 <= offset,
            offset + data@.len() <= LIMIT,
        ensures
            seg.readable(),
            seg.start < seg.end ==> seg.wf(),
            seg@ == created(
                offset as int,
                data@,
                rigid_left,
                rigid_right,
                self.layout@,
                self.bytes_per_anchor as int,
            ),
            seg.base_y == (scramble(seg.start as int) & 0xFFFF) as i64,
            seg.base_x_relative == (scramble(seg.start as int) >> 16) * UNITS,
            seg.anchors@.len() <= (seg.end - seg.start) / self.bytes_per_anchor as int + 2,
    {
        // Try our best to align the beginning and end of the segment to UTF-8 boundaries
        // Always works for valid UTF-8
        let mut lo: usize = 0;
        let mut hi: usize = data.len();
        if !rigid_left {
            while lo < 3 && lo < hi && is_utf8_cont(data[lo])
                invariant
                    lo <= hi,
                    lo <= 3,
                    hi == data@.len(),
                    forall|k: int| 0 <= k < lo ==> is_cont(#[trigger] data@[k]),
                decreases 3 - lo,
            {
                lo = lo + 1;
            }
        }
        if !rigid_right {
            let n: usize = hi - lo;
            if n >= 1 && utf8_seq_len(data[hi - 1]) > 1 {
                hi = hi - 1;
            } else if n >= 2 && utf8_seq_len(data[hi - 2]) > 2 {
                hi = hi - 2;
            } else if n >= 3 && utf8_seq_len(data[hi - 3]) > 3 {
                hi = hi - 3;
            }
        }
        let start: i64 = offset + lo as i64;
        let text: &[u8] = slice_subrange(data, lo, hi);
        proof {
            assert(lo == trimmed_start(data@, rigid_left));
            assert(text@ =~= trimmed(data@, rigid_left, rigid_right));
        }
        self.survey(start, text)
    }

    /// Merge two exactly adjacent segments.
    pub fn merge_segments(&self, lmap: &mut LineMap, l_idx: usize)
        requires
            self.migrate_batch_size > 0,
            old(lmap).loose(),
            adjacent(old(lmap)@, l_idx as int),
        ensures
            final(lmap).loose(),
            final(lmap).file_size == old(lmap).file_size,
            final(lmap)@ == merged(old(lmap)@, l_idx as int),
    {
        let ghost goal = merged(lmap@, l_idx as int);
        let mut merging: Merging = Merging::Begin { i: l_idx };
        loop
            invariant
                self.migrate_batch_size > 0,
                merging.fits(*lmap),
                lmap.file_size == old(lmap).file_size,
                merging.outcome(*lmap) == goal,
                goal == merged(old(lmap)@, l_idx as int),
            decreases merging.rank(), merging.anchors_left(*lmap),
        {
            match merging.step(lmap, self.migrate_batch_size) {
                Merged::More(then) => {
                    merging = then;
                },
                Merged::Finished(_) => {
                    return ;
                },
            }
        }
    }

    /// Adds a segment, and merges it with the segments that it touches.
    pub fn insert_segment(&self, lmap: &mut LineMap, seg: MappedSegment)
        requires
            self.migrate_batch_size > 0,
            old(lmap).wf(),
            seg.readable(),
            seg.start < seg.end ==> seg.wf() && compatible(old(lmap)@, seg@),
        ensures
            final(lmap).wf(),
            final(lmap).file_size == old(lmap).file_size,
            final(lmap)@ == inserted(old(lmap)@, seg@),
    {
        let piece = Piece { mapper: self, offset: 0, data: &[] };
        let task: Mapping = Mapping::Insert { seg, next: None };
        task.run(&piece, lmap);
    }

    /// Process a piece of data, adding any missing line mappings from it.
    ///
    /// Note: A prefix and/or suffix of at most length 3 may be discarded from the given
    /// segment to align with UTF-8 character boundaries.
    pub fn process_data(&self, lmap: &mut LineMap, offset: i64, data: &[u8])
        requires
            self.wf(),
            self.migrate_batch_size > 0,
            old(lmap).wf(),
            0 <= offset,
            offset + data@.len() <= LIMIT,
        ensures
            final(lmap).wf(),
            final(lmap).file_size == old(lmap).file_size,
            final(lmap)@ == processed(
                old(lmap)@,
                old(lmap).file_size as int,
                offset as int,
                data@,
                self.layout@,
                self.bytes_per_anchor as int,
            ),
    {
        let piece = Piece { mapper: self, offset, data };
        Mapping::Look.run(&piece, lmap);
    }

    /// Maps a piece of text.
    fn survey(&self, start: i64, text: &[u8]) -> (seg: MappedSegment)
        requires
            self.wf(),
            0 <= start,
            start + text@.len() <= LIMIT,
        ensures
            seg.readable(),
            seg.start < seg.end ==> seg.wf(),
            seg.start == start,
            seg@ == surveyed(
                start as int,
                text@,
                self.layout@,
                self.bytes_per_anchor as int,
            ),
            seg.base_y == (scramble(seg.start as int) & 0xFFFF) as i64,
            seg.base_x_relative == (scramble(seg.start as int) >> 16) * UNITS,
            seg.anchors@.len() <= (seg.end - seg.start) / self.bytes_per_anchor as int + 2,
    {
        let ghost a = self.layout@;
        let ghost gap = self.bytes_per_anchor as int;
        let ghost w0 = Walk::start(start == 0);
        let ghost all = marks_from(text@, start as int, 0, gap, gap, a, w0);
        let ghost last = walk(text@, 0, text@.len() as int, a, w0);
        let len: usize = text.len();
        let end: i64 = start + len as i64;
        let rand: u32 = (#[verifier::truncate]
        ((start + 143) as u32)).wrapping_mul(0x9e3779b9);
        assert(rand & 0xFFFF <= 0xFFFF) by (bit_vector);
        assert(rand >> 16 <= 0xFFFF) by (bit_vector);
        let base_y: i64 = (rand & 0xFFFF) as i64;
        let base_x: i128 = (rand >> 16) as i128 * UNITS;
        let mut anchors: VecDeque<Anchor> = VecDeque::new();
        let mut first_absolute: usize = 0;
        let mut widest_line: i128 = 0;
        let mut rel_width: i128 = 0;
        let mut acc: u128 = self.bytes_per_anchor as u128;
        let mut i: usize = 0;
        let mut y: i64 = 0;
        let mut x: i128 = 0;
        let mut abs_x: bool = start == 0;
        let ghost mut w: Walk = w0;
        let ghost mut placed: Seq<Mark> = Seq::empty();
        proof {
            assert(placed + all =~= all);
        }
        while i < len
            invariant
                self.wf(),
                a == self.layout@,
                gap == self.bytes_per_anchor,
                len == text@.len(),
                0 <= start,
                start + len <= LIMIT,
                0 <= base_y <= MAX_BASE_Y,
                0 <= base_x <= MAX_BASE_X,
                i <= len,
                acc <= self.bytes_per_anchor + i,
                w.sane(),
                w.y == y,
                w.x == x,
                w.abs == abs_x,
                w.widest == widest_line,
                w.rel_width == rel_width,
                y <= i,
                x <= width(i as int),
                widest_line <= width(i as int),
                rel_width <= width(i as int),
                last == walk(text@, i as int, len as int, a, w),
                all == placed + marks_from(text@, start as int, i as int, acc as int, gap, a, w),
                anchors@.len() == placed.len(),
                anchors@.len() <= i,
                first_absolute <= anchors@.len(),
                !abs_x ==> first_absolute == anchors@.len(),
                forall|k: int|
                    0 <= k < placed.len() ==> stands_for(
                        #[trigger] anchors@[k],
                        placed[k],
                        base_y as int,
                        base_x as int,
                    ),
                forall|k: int|
                    0 <= k < placed.len() ==> (#[trigger] placed[k]).abs == (k >= first_absolute),
            decreases len - i,
        {
            let (c, adv): (Result<u32, u8>, usize) = decode_utf8(slice_subrange(text, i, len));
            proof {
                let sub = text@.subrange(i as int, len as int);
                lemma_rest(text@, i as int);
                assert(sub =~= text@.skip(i as int));
            }
            let ghost rest = marks_from(text@, start as int, i as int, acc as int, gap, a, w);
            let c: u32 = match c {
                Ok(c) => c,
                Err(_) => REPLACEMENT_CHAR,
            };
            let ghost was = placed;
            if acc >= self.bytes_per_anchor as u128 {
                acc = acc - self.bytes_per_anchor as u128;
                anchors.push_back(
                    Anchor {
                        offset: start + i as i64,
                        y_offset: y - base_y,
                        x_offset: if abs_x {
                            x
                        } else {
                            x - base_x
                        },
                    },
                );
                if !abs_x {
                    first_absolute = first_absolute + 1;
                }
                proof {
                    let m = mark_at(start + i, w);
                    let next = marks_from(
                        text@,
                        start as int,
                        i + adv,
                        acc + adv,
                        gap,
                        a,
                        w.step(c, a),
                    );
                    assert(rest == seq![m] + next);
                    assert(placed + rest =~= placed.push(m) + next);
                    placed = placed.push(m);
                    assert(stands_for(
                        anchors@[was.len() as int],
                        m,
                        base_y as int,
                        base_x as int,
                    ));
                    assert forall|k: int| 0 <= k < placed.len() implies stands_for(
                        #[trigger] anchors@[k],
                        placed[k],
                        base_y as int,
                        base_x as int,
                    ) by {
                        if k < was.len() {
                            assert(placed[k] == was[k]);
                        }
                    }
                    assert forall|k: int| 0 <= k < placed.len() implies (#[trigger] placed[k]).abs == (
                    k >= first_absolute) by {
                        if k < was.len() {
                            assert(placed[k] == was[k]);
                        }
                    }
                }
            }
            proof {
                w = w.step(c, a);
            }
            i = i + adv;
            acc = acc + adv as u128;
            if c == NEWLINE {
                // Newline
                if abs_x {
                    if x > widest_line {
                        widest_line = x;
                    }
                } else {
                    rel_width = x;
                }
                x = 0;
                y = y + 1;
                abs_x = true;
            } else {
                x = x + self.layout.advance_for(c) as i128;
            }
        }
        if abs_x {
            if x > widest_line {
                widest_line = x;
            }
        } else {
            rel_width = x;
        }
        anchors.push_back(
            Anchor {
                offset: end,
                y_offset: y - base_y,
                x_offset: if abs_x {
                    x
                } else {
                    x - base_x
                },
            },
        );
        assert(first_absolute < anchors.len());
        if !abs_x {
            first_absolute = first_absolute + 1;
        }
        let seg = MappedSegment {
            start,
            end,
            first_absolute,
            base_y,
            base_x_relative: base_x,
            widest_line,
            rel_width,
            anchors,
        };
        proof {
            lemma_surveyed(start as int, text@, a, gap);
            lemma_anchor_count(start as int, text@, a, gap);
            let m = mark_at(end as int, w);
            assert(all =~= placed.push(m));
            assert forall|k: int| 0 <= k < all.len() implies seg.marks()[k] == #[trigger] all[k] by {
                if k < placed.len() {
                    assert(all[k] == placed[k]);
                    assert(stands_for(
                        seg.anchors@[k],
                        placed[k],
                        base_y as int,
                        base_x as int,
                    ));
                }
            }
            assert(seg.marks() =~= all);
        }
        seg
    }
}

/// A created segment lies within its piece.
pub proof fn lemma_created(
    offset: int,
    d: Seq<u8>,
    rigid_left: bool,
    rigid_right: bool,
    a: Advances,
    gap: int,
)
    requires
        0 <= offset,
        offset + d.len() <= LIMIT,
    ensures
        ({
            let seg = created(offset, d, rigid_left, rigid_right, a, gap);
            &&& offset <= seg.start() <= seg.end() <= offset + d.len()
            &&& lawful(seg.marks)
            &&& regular(seg.marks)
            &&& seg.start() < seg.end() ==> seg.marks.len() > 1
            &&& seg.start() == offset + trimmed_start(d, rigid_left)
            &&& seg.end() == seg.start() + trimmed(d, rigid_left, rigid_right).len()
            &&& seg.start() <= offset + 3
            &&& rigid_left ==> seg.start() == offset
            &&& seg.end() >= offset + d.len() - 3
            &&& rigid_right ==> seg.end() == offset + d.len()
        }),
{
    let lo = trimmed_start(d, rigid_left);
    let text = trimmed(d, rigid_left, rigid_right);
    assert(offset + lo + text.len() <= offset + d.len());
    lemma_surveyed(offset + lo, text, a, gap);
}

impl LineMap {
    /// Find where the first hole at or after `offset` starts, in a range that ends
    /// at `end`, and whether that is the edge of a segment or of the file.
    pub fn first_hole(&self, offset: i64, end: i64) -> (r: (i64, bool))
        requires
            self.wf(),
            0 <= offset <= end,
        ensures
            (r.0 as int, r.1) == first_gap(self@, offset as int, end as int),
            offset <= r.0 <= end,
            r.0 == end || !covered(self@, r.0 as int),
    {
        let ghost map = self@;
        proof {
            self.lemma_settled();
            lemma_ends_before(map, offset as int);
        }
        let k: usize = self.find_after(offset);
        proof {
            let n = ends_before(map, offset as int) as int;
            if n < k {
                assert(map[n].end() >= offset);
            } else if n > k {
                assert(map[k as int].end() < offset);
            }
        }
        if k < self.segments.len() {
            assert(map[k as int] == self.segments@[k as int]@);
            assert(self.segments@[k as int].wf());
            if self.segments[k].start <= offset {
                let seg_end: i64 = self.segments[k].end;
                proof {
                    assert forall|j: int| !spans_byte(map, j, seg_end as int) by {
                        if spans_byte(map, j, seg_end as int) {
                            if j < k {
                                assert(map[j].end() < map[k as int].start());
                            } else if j > k {
                                assert(map[k as int].end() < map[j].start());
                            }
                        }
                    }
                }
                if seg_end <= end {
                    return (seg_end, true);
                } else {
                    return (end, true);
                }
            }
        }
        proof {
            assert forall|j: int| !spans_byte(map, j, offset as int) by {
                if spans_byte(map, j, offset as int) && j > k {
                    assert(map[k as int].end() < map[j].start());
                }
            }
        }
        (offset, offset == 0)
    }

    /// Find where the hole at `l` ends, in a range that ends at `end`, whether that is
    /// the edge of a segment or of the file, and where the next hole starts if there
    /// is one.
    pub fn hole_end(&self, l: i64, end: i64) -> (r: (i64, bool, Option<i64>))
        requires
            self.wf(),
            0 <= l <= end,
        ensures
            (r.0 as int, r.1) == gap_end(self@, self.file_size as int, l as int, end as int),
            l <= r.0 <= end,
            ({
                let n = starts_upto(self@, l as int) as int;
                r.2 == if r.0 >= end || n >= self@.len() || self@[n].end() >= end || self@[n].end()
                    <= l {
                    None::<i64>
                } else {
                    Some(self@[n].end() as i64)
                }
            }),
            r.2 matches Some(next) ==> next == self@[starts_upto(self@, l as int) as int].end()
                && l < next < end,
    {
        let ghost map = self@;
        proof {
            self.lemma_settled();
            lemma_starts_upto(map, l as int);
        }
        let (n, _j): (usize, usize) = self.place_for(l, end);
        if n >= self.segments.len() {
            return (end, end == self.file_size, None);
        }
        assert(map[n as int] == self.segments@[n as int]@);
        assert(self.segments@[n as int].wf());
        let start: i64 = self.segments[n].start;
        let seg_end: i64 = self.segments[n].end;
        if start > end {
            (end, false, None)
        } else if start >= end || seg_end >= end {
            (start, true, None)
        } else {
            (start, true, Some(seg_end))
        }
    }
}

} // verus!
