//! A line map that is stitched together from segments, each of which is mapped on its
//! own and only later meets its neighbors.
//!
//! There are two different "coordinate systems" in a text file:
//! - Raw byte offset
//! - Normalized screen position (screen coordinates divided by font height)
//!
//! Because the editor supports scrolling to the end of huge files, it must support a
//! mixed coordinate system. Instead of specifying an absolute line number and X
//! position, we specify a reference byte offset, and use line numbers relative to
//! that offset.

use crate::layout::{Advances, CharLayout, NEWLINE, REPLACEMENT_CHAR};
use crate::linemapper::ANCHOR_SIZE;
use crate::marks::LIMIT;
use crate::patchwork::{
    ends_before, fits, hole_end, hole_start, inserted, inserted_texts, lemma_ends_before,
    lemma_hole, lemma_inserted, lemma_neighbors, lemma_starts_upto, processed, starts_upto,
    stitched_in, told,
};
use crate::seams::{
    cut_at, describes, head_bytes, is_placed, lemma_merged, merged, moved_behind, pulled, shifted,
    straddles, tail_bytes, Patch, Spot,
};
use crate::strict::{
    decode_char, glyph_at, glyph_len, is_char, is_edge, lemma_read_bounds, lemma_read_extend,
    lemma_read_to_edge, place_at, Place,
};
use crate::utf8::{announced_len, code_point, is_cont, lead_len, utf8_seq_len};
use vstd::prelude::*;
use vstd::slice::slice_subrange;

verus! {

/// A horizontal position, in units of `1 / UNITS` font heights.
#[derive(Clone, Copy, Debug, PartialEq, Eq, Structural)]
pub enum PosX {
    /// Counted from the start of the line.
    Abs(i128),
    /// Counted from the start of the segment, which has no newline before it.
    Rel(i128),
}

/// What marks a relative position.
pub const REL_BIT: u128 = 0x8000_0000_0000_0000_0000_0000_0000_0000;

/// A known position.
#[derive(Clone, Copy, Debug)]
pub struct Anchor {
    /// The absolute byte offset that this anchor marks.
    pub offset: i64,
    /// The line number relative to the start of the containing segment.
    pub relative_y: i64,
    /// The X position of this anchor, may be relative (if this anchor is before any newline
    /// in its segment), or absolute.
    /// This is packed into the top bit, which is why this is stored without a sign.
    pub relabs_x: u128,
}

impl Anchor {
    /// The known place.
    pub open spec fn spot(self) -> Spot {
        Spot {
            offset: self.offset as int,
            place: Place {
                y: self.relative_y as int,
                x: if self.relabs_x >= REL_BIT {
                    self.relabs_x - REL_BIT
                } else {
                    self.relabs_x as int
                },
                abs: self.relabs_x < REL_BIT,
            },
        }
    }

    /// An anchor at a position.
    pub fn new(offset: i64, x: i128, rel_y: i64, absolute_x: bool) -> (r: Anchor)
        requires
            x >= 0,
        ensures
            r.spot() == (Spot {
                offset: offset as int,
                place: Place { y: rel_y as int, x: x as int, abs: absolute_x },
            }),
    {
        Anchor {
            offset,
            relative_y: rel_y,
            relabs_x: if absolute_x {
                x as u128
            } else {
                x as u128 + REL_BIT
            },
        }
    }

    /// Move this anchor horizontally.
    pub fn set_x(&mut self, x: i128, absolute: bool)
        requires
            x >= 0,
        ensures
            final(self).spot() == (Spot {
                offset: old(self).offset as int,
                place: Place { y: old(self).relative_y as int, x: x as int, abs: absolute },
            }),
    {
        self.relabs_x = if absolute {
            x as u128
        } else {
            x as u128 + REL_BIT
        };
    }

    /// The horizontal position of this anchor.
    pub fn x(&self) -> (r: PosX)
        ensures
            r == if self.spot().place.abs {
                PosX::Abs(self.spot().place.x as i128)
            } else {
                PosX::Rel(self.spot().place.x as i128)
            },
            0 <= self.spot().place.x <= i128::MAX,
    {
        if self.relabs_x < REL_BIT {
            PosX::Abs(self.relabs_x as i128)
        } else {
            PosX::Rel((self.relabs_x - REL_BIT) as i128)
        }
    }

    /// Move this anchor by a horizontal distance.
    pub fn nudge_x(&mut self, d: i128)
        requires
            0 <= old(self).spot().place.x + d <= i128::MAX,
        ensures
            final(self).spot() == (Spot {
                offset: old(self).offset as int,
                place: Place {
                    x: old(self).spot().place.x + d,
                    ..old(self).spot().place
                },
            }),
    {
        match self.x() {
            PosX::Abs(x) => self.set_x(x + d, true),
            PosX::Rel(x) => self.set_x(x + d, false),
        }
    }
}

/// A piece of the file whose positions are known.
pub struct MappedSegment {
    /// Inclusive start of this segment in absolute bytes.
    pub start: i64,
    /// Exclusive end of this segment in absolute bytes.
    pub end: i64,
    /// The last few bytes of the segment.
    /// Used for merging segments.
    /// Note that it might contain fewer than 4 bytes if `end - start` is less than 4.
    pub last_bytes_buf: [u8; 4],
    /// The first few bytes of the segment.
    pub first_bytes_buf: [u8; 4],
    /// `true` if this segment starts at the beginning of the file, and therefore line
    /// numbers are actually absolute.
    pub y_absolute: bool,
    /// The X coordinate of the segment's end edge.
    /// Might be absolute or relative.
    pub end_x: PosX,
    /// The line number of the segment's end edge, relative to its start.
    pub end_y: i64,
    /// A set of anchor points, representing known reference points with X and Y coordinates.
    pub anchors: Vec<Anchor>,
}

/// The known places of some anchors.
pub open spec fn spots_of(anchors: Seq<Anchor>) -> Seq<Spot> {
    Seq::new(anchors.len(), |i: int| anchors[i].spot())
}

/// The place that a horizontal position and a line make.
pub open spec fn place_of(x: PosX, y: int) -> Place {
    match x {
        PosX::Abs(x) => Place { y, x: x as int, abs: true },
        PosX::Rel(x) => Place { y, x: x as int, abs: false },
    }
}

impl View for MappedSegment {
    type V = Patch;

    open spec fn view(&self) -> Patch {
        Patch {
            start: self.start as int,
            end: self.end as int,
            first: self.first_bytes_buf@,
            last: self.last_bytes_buf@,
            y_absolute: self.y_absolute,
            tail: place_of(self.end_x, self.end_y as int),
            spots: spots_of(self.anchors@),
        }
    }
}

/// The places that are noted of `s` from `p` on: about one in every `n` bytes, where
/// `acc` bytes were read since the last one.
pub open spec fn noted(s: Seq<u8>, p: int, acc: int, n: int, offset: int, a: Advances) -> Seq<Spot>
    decreases
            if p < s.len() {
                s.len() - p
            } else {
                0
            },
{
    if 0 <= p < s.len() {
        let k = glyph_len(s, p);
        if acc >= n {
            seq![Spot { offset: offset + p, place: place_at(s, p, a, offset == 0) }] + noted(
                s,
                p + k,
                acc + k - n,
                n,
                offset,
                a,
            )
        } else {
            noted(s, p + k, acc + k, n, offset, a)
        }
    } else {
        Seq::empty()
    }
}

/// A segment that was mapped on its own.
pub open spec fn created(offset: int, s: Seq<u8>, n: int, a: Advances) -> Patch {
    Patch {
        start: offset,
        end: offset + s.len(),
        first: head_bytes(s),
        last: tail_bytes(s),
        y_absolute: offset == 0,
        tail: place_at(s, s.len() as int, a, offset == 0),
        spots: noted(s, 0, n, n, offset, a),
    }
}

/// The places that are noted are right, and in order.
proof fn lemma_noted(s: Seq<u8>, p: int, acc: int, n: int, offset: int, a: Advances)
    requires
        is_edge(s, p),
        0 <= offset,
    ensures
        ({
            let spots = noted(s, p, acc, n, offset, a);
            &&& forall|k: int|
                0 <= k < spots.len() ==> is_placed(#[trigger] spots[k], s, offset, a)
                    && spots[k].offset >= offset + p
            &&& forall|i: int, j: int|
                0 <= i <= j < spots.len() ==> (#[trigger] spots[i]).offset <= (
                #[trigger] spots[j]).offset
        }),
    decreases s.len() - p,
{
    if p < s.len() {
        let k = glyph_len(s, p);
        lemma_read_to_edge(s, p);
        let next = if acc >= n {
            acc + k - n
        } else {
            acc + k
        };
        lemma_noted(s, p + k, next, n, offset, a);
        let spots = noted(s, p, acc, n, offset, a);
        let rest = noted(s, p + k, next, n, offset, a);
        if acc >= n {
            let spot = Spot { offset: offset + p, place: place_at(s, p, a, offset == 0) };
            assert(spots[0] == spot);
            assert(spots.len() == rest.len() + 1);
            assert forall|i: int| 0 < i < spots.len() implies #[trigger] spots[i] == rest[i - 1] by {}
            assert forall|t: int| 0 <= t < spots.len() implies is_placed(
                #[trigger] spots[t],
                s,
                offset,
                a,
            ) && spots[t].offset >= offset + p by {
                if t > 0 {
                    assert(is_placed(rest[t - 1], s, offset, a));
                }
            }
            assert forall|i: int, j: int| 0 <= i <= j < spots.len() implies (
            #[trigger] spots[i]).offset <= (#[trigger] spots[j]).offset by {
                if i > 0 {
                    assert(rest[i - 1].offset <= rest[j - 1].offset);
                }
            }
        }
    }
}

/// A segment that was mapped on its own tells the truth about the text of its bytes.
pub proof fn lemma_created(offset: int, s: Seq<u8>, n: int, a: Advances)
    requires
        0 <= offset,
    ensures
        describes(created(offset, s, n, a), s, a),
{
    assert(is_edge(s, 0));
    lemma_noted(s, 0, n, n, offset, a);
    if s.len() > 0 {
        assert(created(offset, s, n, a).spots[0].offset == offset);
    }
}

/// The first and the last four bytes.
fn end_bytes(data: &[u8]) -> (r: ([u8; 4], [u8; 4]))
    ensures
        r.0@ == head_bytes(data@),
        r.1@ == tail_bytes(data@),
{
    let mut first: [u8; 4] = [0, 0, 0, 0];
    let mut last: [u8; 4] = [0, 0, 0, 0];
    let n: usize = data.len();
    let mut i: usize = 0;
    while i < 4
        invariant
            i <= 4,
            n == data@.len(),
            forall|k: int| 0 <= k < i ==> first@[k] == #[trigger] head_bytes(data@)[k],
            forall|k: int| i <= k < 4 ==> #[trigger] first@[k] == 0,
            forall|k: int| 0 <= k < i ==> last@[k] == #[trigger] tail_bytes(data@)[k],
            forall|k: int| i <= k < 4 ==> #[trigger] last@[k] == 0,
        decreases 4 - i,
    {
        if i < n {
            first[i] = data[i];
        }
        if n >= 4 - i {
            last[i] = data[n - (4 - i)];
        }
        i = i + 1;
    }
    assert(first@ =~= head_bytes(data@));
    assert(last@ =~= tail_bytes(data@));
    (first, last)
}

/// Find the character that was cut in two between the last bytes of a segment and the
/// first bytes of the next one. Returns where it starts in the bytes of both, its
/// length and the character.
fn find_cut(last: &[u8; 4], first: &[u8; 4]) -> (r: Option<(usize, usize, u32)>)
    ensures
        match r {
            Some((i, k, c)) => {
                let buf = last@ + first@;
                &&& cut_at(buf) == Some(i as int)
                &&& k == lead_len(buf[i as int])
                &&& c == code_point(buf, i as int, k as nat)
                &&& 1 <= i < 4
                &&& 2 <= k <= 4
                &&& i + k > 4
            },
            None => cut_at(last@ + first@) is None,
        },
{
    // One important issue we can have when merging segments is that
    // the segment creation algorithm interpreted UTF-8 sequences
    // at the edges incorrectly because of missing context.
    // This means that all we need to do is identify these sequences,
    // undo the incorrect spacing, and then redo the correct spacing.
    // The six potential sequences in particular are:
    //  N-3 N-2 N-1| 0   1   2
    //         [ S | C ]
    //         [ S | C   C ]
    //         [ S | C   C   C ]
    //     [ S   C | C ]
    //     [ S   C | C   C ]
    // [ S   C   C | C ]
    let buf: [u8; 8] = [
        last[0],
        last[1],
        last[2],
        last[3],
        first[0],
        first[1],
        first[2],
        first[3],
    ];
    assert(buf@ =~= last@ + first@);
    let mut i: usize = 3;
    while i > 0
        invariant
            i <= 3,
            forall|t: int| i < t < 4 ==> announced_len(#[trigger] buf@[t]) <= 4 - t,
            buf@ == last@ + first@,
        decreases i,
    {
        let len: usize = utf8_seq_len(buf[i]);
        if len > 4 - i {
            // we can quit eagerly, because if this check does
            // succeed, we know for sure that further checks
            // will not succeed either
            let tail: &[u8] = slice_subrange(buf.as_slice(), i, 8);
            let r: Option<(u32, usize)> = decode_char(tail);
            proof {
                lemma_later_cut(buf@, i as int);
                assert(tail@[0] == buf@[i as int]);
                let k = lead_len(buf@[i as int]);
                if is_char(tail@, 0, k) {
                    assert(is_char(buf@, i as int, k));
                }
                if is_char(buf@, i as int, k) {
                    assert(is_char(tail@, 0, k));
                }
            }
            return match r {
                Some((c, k)) => Some((i, k, c)),
                None => None,
            };
        }
        i = i - 1;
    }
    proof {
        assert(announced_len(buf@[1]) <= 3);
        assert(announced_len(buf@[2]) <= 2);
        assert(announced_len(buf@[3]) <= 1);
    }
    None
}

/// A byte that announces more bytes than there are before the middle decides where a
/// character could reach over it, if no later byte does so.
proof fn lemma_later_cut(buf: Seq<u8>, i: int)
    requires
        buf.len() == 8,
        1 <= i < 4,
        announced_len(buf[i]) > 4 - i,
        forall|t: int| i < t < 4 ==> announced_len(#[trigger] buf[t]) <= 4 - t,
    ensures
        cut_at(buf) == if straddles(buf, i) {
            Some(i)
        } else {
            None::<int>
        },
{
    assert(i < 3 ==> announced_len(buf[3]) <= 1);
    assert(i < 2 ==> announced_len(buf[2]) <= 2);
    assert(!is_cont(buf[i]));
}

/// A linear list of segments, which is kept short by merging those that touch.
///
/// Note that this type implements a merged-segment-list just like `SparseData`, but
/// the line map of a file and the sparse data of a file can cover completely different,
/// partially overlapping ranges.
pub struct LineMap {
    pub segments: Vec<MappedSegment>,
    pub bytes_per_anchor: usize,
    pub file_size: i64,
    pub layout: CharLayout,
    pub replacement_width: u32,
}

impl View for LineMap {
    type V = Seq<Patch>;

    open spec fn view(&self) -> Seq<Patch> {
        Seq::new(self.segments@.len(), |i: int| self.segments@[i]@)
    }
}

impl LineMap {
    /// The width of a replacement character is that of the layout.
    pub open spec fn set_up(self) -> bool {
        self.replacement_width == self.layout@.of(REPLACEMENT_CHAR)
    }

    /// Every segment tells the truth about some text.
    pub open spec fn wf(self) -> bool {
        &&& self.set_up()
        &&& exists|texts: Seq<Seq<u8>>| #[trigger] told(self@, texts, self.layout@)
    }

    /// Whether nothing but the segments may differ.
    pub open spec fn same_setup(self, other: LineMap) -> bool {
        &&& self.bytes_per_anchor == other.bytes_per_anchor
        &&& self.file_size == other.file_size
        &&& self.layout == other.layout
        &&& self.replacement_width == other.replacement_width
    }

    /// An empty map of a file of `file_size` bytes, for which at most `max_memory`
    /// bytes of anchors are to be kept.
    pub fn new(layout: CharLayout, max_memory: usize, file_size: i64) -> (r: LineMap)
        requires
            file_size >= 0,
            max_memory >= ANCHOR_SIZE,
            max_memory / ANCHOR_SIZE <= i64::MAX,
            file_size / (max_memory / ANCHOR_SIZE) as i64 <= usize::MAX,
        ensures
            r.wf(),
            r@ == Seq::<Patch>::empty(),
            r.layout == layout,
            r.file_size == file_size,
            r.bytes_per_anchor == file_size / (max_memory / ANCHOR_SIZE) as i64,
    {
        let max_anchors: usize = max_memory / ANCHOR_SIZE;
        proof {
            assert(max_anchors >= 1) by (nonlinear_arith)
                requires
                    max_memory >= ANCHOR_SIZE,
                    max_anchors == max_memory / ANCHOR_SIZE,
                    ANCHOR_SIZE > 0,
            ;
            assert(file_size as int / (max_anchors as int) >= 0) by (nonlinear_arith)
                requires
                    file_size >= 0,
                    max_anchors >= 1,
            ;
        }
        let bytes_per_anchor: usize = (file_size / max_anchors as i64) as usize;
        let replacement_width: u32 = layout.advance_for(REPLACEMENT_CHAR);
        let r = LineMap {
            segments: Vec::new(),
            bytes_per_anchor,
            file_size,
            layout,
            replacement_width,
        };
        proof {
            assert(r@ =~= Seq::<Patch>::empty());
            assert(told(r@, Seq::empty(), layout@));
        }
        r
    }

    /// Find the first segment that ends at or after the given offset.
    /// Returns the amount of segments if there is no segment after the given offset.
    pub fn find_after(&self, offset: i64) -> (r: usize)
        ensures
            r <= self@.len(),
            forall|k: int| 0 <= k < r ==> (#[trigger] self@[k]).end < offset,
            r < self@.len() ==> self@[r as int].end >= offset,
    {
        let mut i: usize = 0;
        while i < self.segments.len()
            invariant
                i <= self@.len(),
                forall|k: int| 0 <= k < i ==> (#[trigger] self@[k]).end < offset,
            decreases self@.len() - i,
        {
            if self.segments[i].end >= offset {
                return i;
            }
            i = i + 1;
        }
        i
    }

    /// Find the last segment that starts at or before the given offset.
    /// Returns the amount of segments if there is no segment before the given offset.
    pub fn find_before(&self, offset: i64) -> (r: usize)
        ensures
            r <= self@.len(),
            r < self@.len() ==> self@[r as int].start <= offset && (forall|k: int|
                r < k < self@.len() ==> (#[trigger] self@[k]).start > offset),
            r == self@.len() ==> forall|k: int|
                0 <= k < self@.len() ==> (#[trigger] self@[k]).start > offset,
    {
        let mut i: usize = self.segments.len();
        while i > 0
            invariant
                i <= self@.len(),
                forall|k: int| i <= k < self@.len() ==> (#[trigger] self@[k]).start > offset,
            decreases i,
        {
            i = i - 1;
            if self.segments[i].start <= offset {
                return i;
            }
        }
        self.segments.len()
    }

    /// Map some bytes without regard to what surrounds them.
    pub fn create_segment(&self, offset: i64, data: &[u8]) -> (seg: MappedSegment)
        requires
            0 <= offset,
            offset + data@.len() <= LIMIT,
        ensures
            seg@ == created(offset as int, data@, self.bytes_per_anchor as int, self.layout@),
    {
        let ghost a = self.layout@;
        let ghost n = self.bytes_per_anchor as int;
        let ghost abs = offset == 0;
        let len: usize = data.len();
        let (first, last): ([u8; 4], [u8; 4]) = end_bytes(data);
        let mut anchors: Vec<Anchor> = Vec::new();
        // Bytes since the last anchor, and how many of them the last one counts for
        let mut anchor_acc: u128 = self.bytes_per_anchor as u128;
        let mut i: usize = 0;
        let mut cur_x: i128 = 0;
        let mut cur_y: i64 = 0;
        let mut abs_x: bool = offset == 0;
        proof {
            assert(is_edge(data@, 0));
            assert(spots_of(anchors@) + noted(data@, 0, n, n, offset as int, a) =~= noted(
                data@,
                0,
                n,
                n,
                offset as int,
                a,
            ));
        }
        while i < len
            invariant
                a == self.layout@,
                n == self.bytes_per_anchor,
                abs == (offset == 0),
                len == data@.len(),
                0 <= offset,
                offset + len <= LIMIT,
                is_edge(data@, i as int),
                (Place { y: cur_y as int, x: cur_x as int, abs: abs_x }) == place_at(
                    data@,
                    i as int,
                    a,
                    abs,
                ),
                0 <= cur_y <= i,
                0 <= cur_x <= i * 0xFFFF_FFFF,
                0 <= anchor_acc <= n + i,
                noted(data@, 0, n, n, offset as int, a) == spots_of(anchors@) + noted(
                    data@,
                    i as int,
                    anchor_acc as int,
                    n,
                    offset as int,
                    a,
                ),
            decreases len - i,
        {
            let rest: &[u8] = slice_subrange(data, i, len);
            proof {
                lemma_char_in_rest(data@, i as int);
                lemma_read_to_edge(data@, i as int);
                lemma_read_extend(data@, 0, i as int, a, Place::start(abs));
                lemma_read_bounds(data@, 0, i + glyph_len(data@, i as int), a, Place::start(abs));
            }
            let (c, adv): (u32, usize) = match decode_char(rest) {
                Some((c, adv)) => (c, adv),
                // not a valid UTF-8 character
                None => (REPLACEMENT_CHAR, 1),
            };
            assert(adv == glyph_len(data@, i as int));
            assert(c == glyph_at(data@, i as int));
            let ghost was = anchors@;
            let ghost next = noted(
                data@,
                i + adv,
                anchor_acc + adv - (if anchor_acc >= n {
                    n
                } else {
                    0
                }),
                n,
                offset as int,
                a,
            );
            let place_anchor: bool = anchor_acc >= self.bytes_per_anchor as u128;
            anchor_acc = anchor_acc + adv as u128;
            if place_anchor {
                let anchor: Anchor = Anchor::new(offset + i as i64, cur_x, cur_y, abs_x);
                anchors.push(anchor);
                anchor_acc = anchor_acc - self.bytes_per_anchor as u128;
                proof {
                    assert(spots_of(was) + (seq![anchor.spot()] + next) =~= spots_of(anchors@)
                        + next);
                }
            }
            if c == NEWLINE {
                cur_x = 0;
                cur_y = cur_y + 1;
                abs_x = true;
            } else {
                cur_x = cur_x + self.layout.advance_for(c) as i128;
            }
            proof {
                assert((i + adv) * 0xFFFF_FFFF == i * 0xFFFF_FFFF + adv * 0xFFFF_FFFF)
                    by (nonlinear_arith);
            }
            i = i + adv;
        }
        let seg = MappedSegment {
            start: offset,
            end: offset + len as i64,
            last_bytes_buf: last,
            first_bytes_buf: first,
            y_absolute: offset == 0,
            end_x: if abs_x {
                PosX::Abs(cur_x)
            } else {
                PosX::Rel(cur_x)
            },
            end_y: cur_y,
            anchors,
        };
        proof {
            assert(spots_of(seg.anchors@) + Seq::<Spot>::empty() =~= spots_of(seg.anchors@));
        }
        seg
    }
}

/// What the decoder finds in the rest of a text is what is there in the text.
proof fn lemma_char_in_rest(s: Seq<u8>, p: int)
    requires
        0 <= p < s.len(),
    ensures
        ({
            let rest = s.subrange(p, s.len() as int);
            let k = lead_len(s[p]);
            &&& rest[0] == s[p]
            &&& is_char(rest, 0, k) == is_char(s, p, k)
            &&& is_char(s, p, k) ==> code_point(rest, 0, k) == code_point(s, p, k)
        }),
{
    let rest = s.subrange(p, s.len() as int);
    let k = lead_len(s[p]);
    if is_char(s, p, k) {
        assert(is_char(rest, 0, k));
    }
    if is_char(rest, 0, k) {
        assert(is_char(s, p, k));
    }
}

/// Whether a segment tells the truth about some text.
pub open spec fn truthful(p: Patch, a: Advances) -> bool {
    exists|s: Seq<u8>| #[trigger] describes(p, s, a)
}

/// The places in a segment stay small.
proof fn lemma_small(p: Patch, s: Seq<u8>, a: Advances)
    requires
        describes(p, s, a),
        p.end <= LIMIT,
    ensures
        0 <= p.tail.y <= s.len(),
        0 <= p.tail.x <= s.len() * 0xFFFF_FFFF,
        s.len() * 0xFFFF_FFFF <= LIMIT * 0xFFFF_FFFF,
        forall|k: int|
            0 <= k < p.spots.len() ==> {
                &&& p.start <= (#[trigger] p.spots[k]).offset < p.end
                &&& 0 <= p.spots[k].place.y <= s.len()
                &&& 0 <= p.spots[k].place.x <= LIMIT * 0xFFFF_FFFF
            },
{
    let start = Place::start(p.start == 0);
    assert(is_edge(s, 0));
    assert(is_edge(s, s.len() as int));
    lemma_read_bounds(s, 0, s.len() as int, a, start);
    assert(s.len() * 0xFFFF_FFFF <= LIMIT * 0xFFFF_FFFF) by (nonlinear_arith)
        requires
            s.len() <= LIMIT,
    ;
    assert forall|k: int| 0 <= k < p.spots.len() implies {
        &&& p.start <= (#[trigger] p.spots[k]).offset < p.end
        &&& 0 <= p.spots[k].place.y <= s.len()
        &&& 0 <= p.spots[k].place.x <= LIMIT * 0xFFFF_FFFF
    } by {
        assert(is_placed(p.spots[k], s, p.start, a));
        let q = p.spots[k].offset - p.start;
        lemma_read_bounds(s, 0, q, a, start);
        assert(q * 0xFFFF_FFFF <= LIMIT * 0xFFFF_FFFF) by (nonlinear_arith)
            requires
                q <= LIMIT,
        ;
    }
}

/// The first bytes of two segments, the left one of which is `ln` bytes long.
fn join_first(l: &[u8; 4], r: &[u8; 4], ln: i64) -> (bytes: [u8; 4])
    requires
        ln >= 0,
    ensures
        bytes@ == if ln < 4 {
            l@.take(ln as int) + r@.take(4 - ln)
        } else {
            l@
        },
{
    let mut bytes: [u8; 4] = *l;
    if ln < 4 {
        let ln: usize = ln as usize;
        let mut i: usize = ln;
        while i < 4
            invariant
                ln <= i <= 4,
                forall|k: int| 0 <= k < ln ==> #[trigger] bytes@[k] == l@[k],
                forall|k: int| ln <= k < i ==> #[trigger] bytes@[k] == r@[k - ln],
            decreases 4 - i,
        {
            bytes[i] = r[i - ln];
            i = i + 1;
        }
        assert(bytes@ =~= l@.take(ln as int) + r@.take(4 - ln));
    }
    bytes
}

/// The last bytes of two segments, the right one of which is `rn` bytes long.
fn join_last(l: &[u8; 4], r: &[u8; 4], rn: i64) -> (bytes: [u8; 4])
    requires
        rn >= 0,
    ensures
        bytes@ == if rn < 4 {
            l@.skip(rn as int) + r@.skip(4 - rn)
        } else {
            r@
        },
{
    let mut bytes: [u8; 4] = *r;
    if rn < 4 {
        let rn: usize = rn as usize;
        let mut i: usize = 0;
        while i < 4 - rn
            invariant
                rn < 4,
                i <= 4 - rn,
                forall|k: int| 0 <= k < i ==> #[trigger] bytes@[k] == l@[k + rn],
                forall|k: int| 4 - rn <= k < 4 ==> #[trigger] bytes@[k] == r@[k],
            decreases 4 - rn - i,
        {
            bytes[i] = l[i + rn];
            i = i + 1;
        }
        assert(bytes@ =~= l@.skip(rn as int) + r@.skip(4 - rn));
    }
    bytes
}

/// Move the anchors that are inside a character back to where that starts, at `at`.
fn pull_anchors(anchors: &mut Vec<Anchor>, at: i64, replacement_width: u32)
    requires
        at >= 0,
        forall|i: int, j: int|
            0 <= i <= j < old(anchors)@.len() ==> (#[trigger] old(anchors)@[i]).offset <= (
            #[trigger] old(anchors)@[j]).offset,
        forall|k: int|
            0 <= k < old(anchors)@.len() ==> pulled(
                (#[trigger] old(anchors)@[k]).spot(),
                at as int,
                replacement_width as int,
            ).place.x >= 0,
    ensures
        spots_of(final(anchors)@) == Seq::new(
            old(anchors)@.len(),
            |n: int| pulled(old(anchors)@[n].spot(), at as int, replacement_width as int),
        ),
{
    let ghost was = anchors@;
    let ghost rep = replacement_width as int;
    let mut i: usize = anchors.len();
    while i > 0 && anchors[i - 1].offset > at
        invariant
            at >= 0,
            rep == replacement_width,
            i <= anchors@.len() == was.len(),
            forall|k: int| 0 <= k < i ==> #[trigger] anchors@[k] == was[k],
            forall|k: int|
                i <= k < was.len() ==> (#[trigger] anchors@[k]).spot() == pulled(
                    was[k].spot(),
                    at as int,
                    rep,
                ),
            forall|k: int|
                0 <= k < was.len() ==> pulled((#[trigger] was[k]).spot(), at as int, rep).place.x
                    >= 0,
        decreases i,
    {
        i = i - 1;
        let mut anchor: Anchor = anchors[i];
        let back: i128 = (anchor.offset - at) as i128 * replacement_width as i128;
        proof {
            let n = anchor.offset - at;
            assert(n * rep <= 0x7FFF_FFFF_FFFF_FFFF * 0xFFFF_FFFF && n * rep >= 0)
                by (nonlinear_arith)
                requires
                    0 <= n <= 0x7FFF_FFFF_FFFF_FFFF,
                    0 <= rep <= 0xFFFF_FFFF,
            ;
            assert(pulled(was[i as int].spot(), at as int, rep).place.x >= 0);
        }
        anchor.nudge_x(-back);
        anchor.offset = at;
        anchors.set(i, anchor);
    }
    proof {
        assert(spots_of(anchors@) =~= Seq::new(
            was.len(),
            |n: int| pulled(was[n].spot(), at as int, rep),
        ));
    }
}

/// Append the anchors of a right segment to those of the left one, which ends at the
/// given place. If a character was cut between them, it starts at `at`, is `clen` bytes
/// long, and moves what follows it on its line by `d`.
fn append_anchors(
    anchors: &mut Vec<Anchor>,
    right: &Vec<Anchor>,
    end_x: PosX,
    end_y: i64,
    cut: Option<(i64, i64, i128)>,
    replacement_width: u32,
)
    requires
        0 <= place_of(end_x, end_y as int).x <= LIMIT * 0xFFFF_FFFF,
        0 <= end_y <= LIMIT,
        cut matches Some((at, clen, d)) ==> 0 <= at <= LIMIT && 0 <= clen <= 4
            && -0x4_0000_0000 <= d <= 0xFFFF_FFFF,
        forall|k: int|
            0 <= k < right@.len() ==> {
                let spot = (#[trigger] right@[k]).spot();
                let tail = place_of(end_x, end_y as int);
                &&& 0 <= spot.offset <= LIMIT
                &&& 0 <= spot.place.y
                &&& spot.place.y + end_y <= LIMIT
                &&& 0 <= spot.place.x <= LIMIT * 0xFFFF_FFFF
                &&& cut matches Some((at, clen, d)) ==> shifted(
                    spot,
                    tail,
                    at as int,
                    clen as int,
                    d as int,
                    replacement_width as int,
                ).place.x >= 0
            },
    ensures
        spots_of(final(anchors)@) == spots_of(old(anchors)@) + Seq::new(
            right@.len(),
            |n: int|
                match cut {
                    Some((at, clen, d)) => shifted(
                        right@[n].spot(),
                        place_of(end_x, end_y as int),
                        at as int,
                        clen as int,
                        d as int,
                        replacement_width as int,
                    ),
                    None => moved_behind(right@[n].spot(), place_of(end_x, end_y as int)),
                },
        ),
{
    let ghost tail = place_of(end_x, end_y as int);
    let ghost rep = replacement_width as int;
    let ghost f = |n: int|
        match cut {
            Some((at, clen, d)) => shifted(
                right@[n].spot(),
                tail,
                at as int,
                clen as int,
                d as int,
                rep,
            ),
            None => moved_behind(right@[n].spot(), tail),
        };
    let ghost was = spots_of(anchors@);
    let (tail_x, make_abs): (i128, bool) = match end_x {
        PosX::Rel(x) => (x, false),
        PosX::Abs(x) => (x, true),
    };
    let mut i: usize = 0;
    proof {
        assert(spots_of(anchors@) =~= was + Seq::new(0, f));
    }
    while i < right.len()
        invariant
            tail == place_of(end_x, end_y as int),
            rep == replacement_width,
            tail.x == tail_x,
            tail.abs == make_abs,
            0 <= tail.x <= LIMIT * 0xFFFF_FFFF,
            0 <= end_y <= LIMIT,
            cut matches Some((at, clen, d)) ==> 0 <= at <= LIMIT && 0 <= clen <= 4
                && -0x4_0000_0000 <= d <= 0xFFFF_FFFF,
            i <= right@.len(),
            forall|k: int|
                0 <= k < right@.len() ==> {
                    let spot = (#[trigger] right@[k]).spot();
                    &&& 0 <= spot.offset <= LIMIT
                    &&& 0 <= spot.place.y
                    &&& spot.place.y + end_y <= LIMIT
                    &&& 0 <= spot.place.x <= LIMIT * 0xFFFF_FFFF
                    &&& cut matches Some((at, clen, d)) ==> shifted(
                        spot,
                        tail,
                        at as int,
                        clen as int,
                        d as int,
                        rep,
                    ).place.x >= 0
                },
            forall|n: int|
                0 <= n < right@.len() ==> #[trigger] f(n) == match cut {
                    Some((at, clen, d)) => shifted(
                        right@[n].spot(),
                        tail,
                        at as int,
                        clen as int,
                        d as int,
                        rep,
                    ),
                    None => moved_behind(right@[n].spot(), tail),
                },
            spots_of(anchors@) == was + Seq::new(i as nat, f),
        decreases right@.len() - i,
    {
        let mut anchor: Anchor = right[i];
        let ghost spot = right@[i as int].spot();
        let ghost before = anchors@;
        // Nudge relative-x anchors by whatever was the last X position, and make them
        // absolute if the left segment ends on an absolute X position
        let inside: bool = match cut {
            Some((at, clen, _)) => anchor.offset < at + clen,
            None => false,
        };
        if let PosX::Rel(x) = anchor.x() {
            let d: i128 = match cut {
                Some((_, _, d)) => if inside {
                    0
                } else {
                    d
                },
                None => 0,
            };
            anchor.set_x(tail_x + x + d, make_abs);
        }
        anchor.relative_y = anchor.relative_y + end_y;
        if let Some((at, _, _)) = cut {
            if inside && anchor.offset > at {
                // This anchor is actually inside a character of the left side
                let back: i128 = (anchor.offset - at) as i128 * replacement_width as i128;
                proof {
                    let n = anchor.offset - at;
                    assert(n * rep <= 4 * 0xFFFF_FFFF && n * rep >= 0) by (nonlinear_arith)
                        requires
                            0 <= n <= 4,
                            0 <= rep <= 0xFFFF_FFFF,
                    ;
                }
                anchor.nudge_x(-back);
                anchor.offset = at;
            }
        }
        anchors.push(anchor);
        proof {
            assert(anchor.spot() == f(i as int));
            assert(spots_of(anchors@) =~= spots_of(before).push(anchor.spot()));
            assert(Seq::new((i + 1) as nat, f) =~= Seq::new(i as nat, f).push(f(i as int)));
            assert(spots_of(anchors@) =~= was + Seq::new((i + 1) as nat, f));
        }
        i = i + 1;
    }
    proof {
        assert(Seq::new(
            right@.len(),
            |n: int|
                match cut {
                    Some((at, clen, d)) => shifted(
                        right@[n].spot(),
                        place_of(end_x, end_y as int),
                        at as int,
                        clen as int,
                        d as int,
                        replacement_width as int,
                    ),
                    None => moved_behind(right@[n].spot(), place_of(end_x, end_y as int)),
                },
        ) =~= Seq::new(right@.len(), f));
    }
}

impl LineMap {
    /// Merge two segments that are touching exactly at their edges.
    /// Place the result into the left segment.
    pub fn merge_segments(&self, left: &mut MappedSegment, right: &MappedSegment)
        requires
            self.set_up(),
            truthful(old(left)@, self.layout@),
            truthful(right@, self.layout@),
            old(left).start < old(left).end,
            old(left).end == right.start,
            right.end <= LIMIT,
        ensures
            final(left)@ == merged(old(left)@, right@, self.layout@),
    {
        let ghost a = self.layout@;
        let ghost l = left@;
        let ghost r = right@;
        let ghost u = choose|s: Seq<u8>| describes(l, s, a);
        let ghost v = choose|s: Seq<u8>| describes(r, s, a);
        let ghost p = merged(l, r, a);
        let ghost rep = self.replacement_width as int;
        proof {
            lemma_merged(l, r, u, v, a);
            lemma_small(l, u, a);
            lemma_small(r, v, a);
            lemma_small(p, u + v, a);
            assert forall|i: int, j: int| 0 <= i <= j < left.anchors@.len() implies (
            #[trigger] left.anchors@[i]).offset <= (#[trigger] left.anchors@[j]).offset by {
                assert(l.spots[i].offset <= l.spots[j].offset);
            }
        }
        let cut: Option<(usize, usize, u32)> = find_cut(
            &left.last_bytes_buf,
            &right.first_bytes_buf,
        );
        let seam: Option<(i64, i64, i128)> = match cut {
            Some((buf_i, clen, c)) => {
                // This character was interpreted incorrectly.
                // In particular, each and all of its bytes were interpreted as
                // replacement characters.
                // Therefore, if the character starts at absolute byte offset `j`,
                // all anchors with offset `j < offset < j+clen` should be moved back
                // to offset `j`, and their X coordinates shifted by
                // `-(offset - j) * replacement_width`.
                // Also, all anchors with offset `j+clen <= offset` should have their
                // X coordinate shifted by `width(c) - clen * replacement_width`.
                proof {
                    assert(clen * rep <= 4 * 0xFFFF_FFFF && clen * rep >= 0) by (nonlinear_arith)
                        requires
                            0 <= clen <= 4,
                            0 <= rep <= 0xFFFF_FFFF,
                    ;
                    assert(describes(p, u + v, a));
                    lemma_cut_inside(l, r, u, v, a);
                }
                let at: i64 = left.end - (4 - buf_i as i64);
                let d: i128 = self.layout.advance_for(c) as i128 - clen as i128
                    * self.replacement_width as i128;
                proof {
                    assert forall|k: int| 0 <= k < left.anchors@.len() implies pulled(
                        (#[trigger] left.anchors@[k]).spot(),
                        at as int,
                        rep,
                    ).place.x >= 0 by {
                        assert(p.spots[k] == pulled(l.spots[k], at as int, rep));
                    }
                }
                pull_anchors(&mut left.anchors, at, self.replacement_width);
                Some((at, clen as i64, d))
            },
            None => None,
        };
        proof {
            assert forall|k: int| 0 <= k < right.anchors@.len() implies {
                let spot = (#[trigger] right.anchors@[k]).spot();
                &&& 0 <= spot.offset <= LIMIT
                &&& 0 <= spot.place.y
                &&& spot.place.y + left.end_y <= LIMIT
                &&& 0 <= spot.place.x <= LIMIT * 0xFFFF_FFFF
                &&& seam matches Some((at, clen, d)) ==> shifted(
                    spot,
                    l.tail,
                    at as int,
                    clen as int,
                    d as int,
                    rep,
                ).place.x >= 0
            } by {
                assert(r.spots[k] == right.anchors@[k].spot());
                let q = p.spots[l.spots.len() + k];
                match seam {
                    Some((at, clen, d)) => {
                        assert(q == shifted(
                            r.spots[k],
                            l.tail,
                            at as int,
                            clen as int,
                            d as int,
                            rep,
                        ));
                    },
                    None => {
                        assert(q == moved_behind(r.spots[k], l.tail));
                    },
                }
            }
        }
        append_anchors(
            &mut left.anchors,
            &right.anchors,
            left.end_x,
            left.end_y,
            seam,
            self.replacement_width,
        );
        // Merge the start bytes
        left.first_bytes_buf = join_first(
            &left.first_bytes_buf,
            &right.first_bytes_buf,
            left.end - left.start,
        );
        // Merge the end bytes
        left.last_bytes_buf = join_last(
            &left.last_bytes_buf,
            &right.last_bytes_buf,
            right.end - right.start,
        );
        let nudge: i128 = match seam {
            Some((_, _, d)) => d,
            None => 0,
        };
        proof {
            assert(p.tail.x <= LIMIT * 0xFFFF_FFFF);
        }
        left.end_x = match (left.end_x, right.end_x) {
            (_, PosX::Abs(x)) => PosX::Abs(x),
            (PosX::Abs(tail), PosX::Rel(x)) => PosX::Abs(tail + x + nudge),
            (PosX::Rel(tail), PosX::Rel(x)) => PosX::Rel(tail + x + nudge),
        };
        left.end_y = left.end_y + right.end_y;
        left.end = right.end;
        proof {
            assert(left@.spots =~= p.spots);
            assert(left@.tail == p.tail);
        }
    }
}

/// A cut character starts in the left one of two segments.
proof fn lemma_cut_inside(l: Patch, r: Patch, u: Seq<u8>, v: Seq<u8>, a: Advances)
    requires
        describes(l, u, a),
        describes(r, v, a),
        cut_at(l.last + r.first) is Some,
    ensures
        l.end + cut_at(l.last + r.first)->0 - 4 >= l.start,
{
    let buf = l.last + r.first;
    let i = cut_at(buf)->0;
    assert(straddles(buf, i));
    assert(buf[i] == tail_bytes(u)[i]);
}

impl LineMap {
    /// Merge a segment with those that it touches.
    fn stitch(
        &self,
        left: Option<MappedSegment>,
        seg: MappedSegment,
        right: Option<MappedSegment>,
    ) -> (r: MappedSegment)
        requires
            self.set_up(),
            truthful(seg@, self.layout@),
            seg.start < seg.end <= LIMIT,
            left matches Some(l) ==> truthful(l@, self.layout@) && l.start < l.end == seg.start,
            right matches Some(r) ==> truthful(r@, self.layout@) && seg.end == r.start && r.end
                <= LIMIT,
        ensures
            ({
                let x = match left {
                    Some(l) => merged(l@, seg@, self.layout@),
                    None => seg@,
                };
                r@ == match right {
                    Some(r) => merged(x, r@, self.layout@),
                    None => x,
                }
            }),
    {
        let ghost a = self.layout@;
        let ghost d = choose|s: Seq<u8>| describes(seg@, s, a);
        let mut seg: MappedSegment = seg;
        if let Some(prefix) = left {
            let mut prefix: MappedSegment = prefix;
            let ghost u = choose|s: Seq<u8>| describes(prefix@, s, a);
            proof {
                lemma_merged(prefix@, seg@, u, d, a);
            }
            self.merge_segments(&mut prefix, &seg);
            seg = prefix;
        }
        if let Some(suffix) = right {
            self.merge_segments(&mut seg, &suffix);
        }
        seg
    }

    /// Find how many segments start at or before an offset.
    fn count_starts(&self, offset: i64) -> (i: usize)
        requires
            self.wf(),
        ensures
            i == starts_upto(self@, offset as int),
            i <= self@.len(),
    {
        let ghost a = self.layout@;
        let ghost texts = choose|texts: Seq<Seq<u8>>| told(self@, texts, a);
        let before: usize = self.find_before(offset);
        proof {
            lemma_starts_upto(self@, texts, a, offset as int);
            let b = starts_upto(self@, offset as int);
            if before < self@.len() {
                if before < b - 1 {
                    assert(self@[b - 1].start <= offset);
                } else if before >= b {
                    assert(self@[before as int].start > offset);
                }
            } else if b > 0 {
                assert(self@[0].start <= offset);
            }
        }
        if before < self.segments.len() {
            before + 1
        } else {
            0
        }
    }

    /// Find how many segments end before an offset.
    fn count_ends(&self, offset: i64) -> (i: usize)
        requires
            self.wf(),
        ensures
            i == ends_before(self@, offset as int),
            i <= self@.len(),
    {
        let ghost a = self.layout@;
        let ghost texts = choose|texts: Seq<Seq<u8>>| told(self@, texts, a);
        let i: usize = self.find_after(offset);
        proof {
            lemma_ends_before(self@, texts, a, offset as int);
            let e = ends_before(self@, offset as int);
            if i < e {
                assert(self@[i as int].end < offset);
            } else if i > e {
                assert(self@[e].end >= offset);
            }
        }
        i
    }

    /// Take out the segments from `i` up to `j`, one more on either side if asked for,
    /// and those after them. Returns the two on the sides and the rest.
    fn open_up(&mut self, i: usize, j: usize, left: bool, right: bool) -> (r: (
        Option<MappedSegment>,
        Option<MappedSegment>,
        Vec<MappedSegment>,
    ))
        requires
            i <= j <= old(self)@.len(),
            left ==> i > 0,
            right ==> j < old(self)@.len(),
        ensures
            final(self).same_setup(*old(self)),
            final(self)@ == old(self)@.take(
                if left {
                    i - 1
                } else {
                    i as int
                },
            ),
            r.0 == if left {
                Some(old(self).segments@[i - 1])
            } else {
                None
            },
            r.1 == if right {
                Some(old(self).segments@[j as int])
            } else {
                None
            },
            r.2@ == old(self).segments@.skip(
                if right {
                    j + 1
                } else {
                    j as int
                },
            ),
    {
        let ghost segs = self.segments@;
        assert(right ==> j < self.segments.len());
        let rest: Vec<MappedSegment> = self.segments.split_off(
            if right {
                j + 1
            } else {
                j
            },
        );
        let suffix: Option<MappedSegment> = if right {
            self.segments.pop()
        } else {
            None
        };
        self.segments.truncate(i);
        let prefix: Option<MappedSegment> = if left {
            self.segments.pop()
        } else {
            None
        };
        proof {
            let n = if left {
                i - 1
            } else {
                i as int
            };
            assert(self.segments@ =~= segs.take(n));
            assert(self@ =~= old(self)@.take(n));
        }
        (prefix, suffix, rest)
    }

    /// Process a segment of data, adding anchors for it to the loaded segments.
    ///
    /// Empty data adds nothing. A segment of no bytes would know of no text, and would touch
    /// what comes to lie on both sides of it, so every segment holds at least one byte.
    pub fn process_segment(&mut self, offset: i64, data: &[u8])
        requires
            old(self).wf(),
            0 <= offset,
            offset + data@.len() <= LIMIT,
            fits(old(self)@, offset as int, offset + data@.len()),
        ensures
            final(self).wf(),
            final(self).same_setup(*old(self)),
            final(self)@ == if data@.len() == 0 {
                old(self)@
            } else {
                inserted(
                    old(self)@,
                    created(
                        offset as int,
                        data@,
                        old(self).bytes_per_anchor as int,
                        old(self).layout@,
                    ),
                    old(self).layout@,
                )
            },
    {
        if data.len() == 0 {
            return;
        }
        let ghost a = self.layout@;
        let ghost map = self@;
        let ghost texts = choose|texts: Seq<Seq<u8>>| told(map, texts, a);
        let ghost p = created(offset as int, data@, self.bytes_per_anchor as int, a);
        let end: i64 = offset + data.len() as i64;
        // process the data into a self-contained segment
        let seg: MappedSegment = self.create_segment(offset, data);
        let i: usize = self.count_starts(offset);
        let j: usize = self.count_ends(end);
        // check if this segment merges into a segment to the left
        let merge_left: bool = i > 0 && self.segments[i - 1].end >= offset;
        // check if this segment merges with a following segment
        let merge_right: bool = j < self.segments.len() && self.segments[j].start <= end;
        proof {
            lemma_created(offset as int, data@, self.bytes_per_anchor as int, a);
            lemma_inserted(map, texts, p, data@, a);
            lemma_neighbors(map, texts, a, offset as int, end as int);
            assert(i > 0 ==> self.segments@[i - 1]@ == map[i - 1]);
            assert(j < map.len() ==> self.segments@[j as int]@ == map[j as int]);
            assert(describes(seg@, data@, a));
        }
        // replace previous segments with new merged segment
        let (prefix, suffix, rest) = self.open_up(i, j, merge_left, merge_right);
        let mut rest: Vec<MappedSegment> = rest;
        let whole: MappedSegment = self.stitch(prefix, seg, suffix);
        self.segments.push(whole);
        self.segments.append(&mut rest);
        proof {
            assert(whole@ == stitched_in(map, p, a));
            assert(self@ =~= inserted(map, p, a));
            assert(told(self@, inserted_texts(map, texts, p.start, p.end, data@), a));
        }
    }

    /// Find the next part of a range that is in no segment. It starts at or after the
    /// end of the range if there is none.
    pub fn next_hole(&self, from: i64, end: i64) -> (r: (i64, i64))
        requires
            self.wf(),
        ensures
            r.0 == hole_start(self@, from as int),
            r.1 == hole_end(self@, r.0 as int, end as int),
            from <= r.0,
            r.0 < end ==> r.0 < r.1 <= end && fits(self@, r.0 as int, r.1 as int),
    {
        let ghost a = self.layout@;
        let ghost texts = choose|texts: Seq<Seq<u8>>| told(self@, texts, a);
        proof {
            lemma_hole(self@, texts, a, from as int, end as int);
        }
        let i: usize = self.count_ends(from);
        assert(i < self@.len() ==> self.segments@[i as int]@ == self@[i as int]);
        let l: i64 = if i < self.segments.len() && self.segments[i].start <= from {
            self.segments[i].end
        } else {
            from
        };
        let j: usize = self.count_starts(l);
        assert(j < self@.len() ==> self.segments@[j as int]@ == self@[j as int]);
        let r: i64 = if j < self.segments.len() && self.segments[j].start < end {
            self.segments[j].start
        } else {
            end
        };
        (l, r)
    }

    /// Process a piece of data, adding any missing line mappings from it.
    pub fn process_data(&mut self, offset: i64, data: &[u8])
        requires
            old(self).wf(),
            0 <= offset,
            offset + data@.len() <= LIMIT,
        ensures
            final(self).wf(),
            final(self).same_setup(*old(self)),
            final(self)@ == processed(
                old(self)@,
                offset as int,
                data@,
                offset as int,
                old(self).bytes_per_anchor as int,
                old(self).layout@,
            ),
    {
        let ghost a = self.layout@;
        let ghost n = self.bytes_per_anchor as int;
        let len: usize = data.len();
        let end: i64 = offset + len as i64;
        // iterate over the "holes" that are contained in the received range
        let mut hole: (i64, i64) = self.next_hole(offset, end);
        let ghost mut from: int = offset as int;
        while hole.0 < end
            invariant
                self.wf(),
                self.same_setup(*old(self)),
                a == self.layout@,
                n == self.bytes_per_anchor,
                0 <= offset <= from <= end <= LIMIT,
                len == data@.len(),
                end == offset + len,
                hole.0 == hole_start(self@, from),
                hole.1 == hole_end(self@, hole.0 as int, end as int),
                from <= hole.0,
                hole.0 < end ==> hole.0 < hole.1 <= end && fits(
                    self@,
                    hole.0 as int,
                    hole.1 as int,
                ),
                processed(old(self)@, offset as int, data@, offset as int, n, a) == processed(
                    self@,
                    offset as int,
                    data@,
                    from,
                    n,
                    a,
                ),
            decreases end - from,
        {
            // we have a hole from `l` to `r`
            let (l, r): (i64, i64) = hole;
            let piece: &[u8] = slice_subrange(data, (l - offset) as usize, (r - offset) as usize);
            self.process_segment(l, piece);
            // advance to the next hole
            proof {
                from = r as int;
            }
            hole = self.next_hole(r, end);
        }
    }
}

} // verus!
