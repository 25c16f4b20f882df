//! What is known around the screen: the rectangle that can be scrolled, and the part of the
//! file that is on screen.

use crate::fileview::{synced, Drag, ScrollManager};
use crate::layout::{lemma_walk_cut, lemma_walk_sane, shown, walk, Advances, Walk};
use crate::linemap::{
    at_or_before, before, is_base, is_first_abs, is_located_lower, is_located_upper, known_rect,
    LineMap, Mapped,
};
use crate::loaded::{first_line, is_frame, last_line, middle_column, middle_line};
use crate::lookup::lemma_base_of;
use crate::marks::{lawful, precedes, sound};
use crate::places::{lemma_positions_grow, width_at};
use crate::position::{FileRect, FileVec};
use crate::rows::lemma_rect_lines;
use crate::truth::{
    describes, lemma_go_on, lemma_true_positions, position_from, position_in, tells, tells_all,
};
use crate::utf8::{
    char_at, is_boundary, lemma_ends_are_boundaries, lemma_step_in_bounds,
    lemma_step_stops_at_boundary, lemma_step_to_boundary, step_len,
};
use vstd::prelude::*;

verus! {

/// Going on never makes the lines that were read narrower.
proof fn lemma_walk_widest(s: Seq<u8>, p: int, q: int, a: Advances, w: Walk)
    requires
        is_boundary(s, p),
        is_boundary(s, q),
        p <= q,
        w.sane(),
    ensures
        ({
            let v = walk(s, p, q, a, w).end_line();
            &&& w.abs ==> w.x <= v.widest
            &&& !w.abs ==> w.x <= v.rel_width
            &&& w.abs ==> w.end_line().widest <= v.widest
            &&& w.abs ==> w.rel_width == v.rel_width
        }),
    decreases q - p,
{
    if p < q {
        let c = shown(char_at(s, p));
        let n = p + step_len(s, p);
        lemma_step_in_bounds(s, p);
        lemma_step_to_boundary(s, p);
        lemma_step_stops_at_boundary(s, p, q);
        lemma_walk_widest(s, n, q, a, w.step(c, a));
    }
}

/// Some place between `p` and `q` is at the end of the widest line that was read, unless no
/// line was wider than before.
proof fn lemma_walk_reaches(s: Seq<u8>, p: int, q: int, a: Advances, w: Walk)
    requires
        is_boundary(s, p),
        is_boundary(s, q),
        p <= q,
        w.sane(),
    ensures
        walk(s, p, q, a, w).end_line().widest == w.widest || exists|m: int|
            p <= m <= q && is_boundary(s, m) && (#[trigger] walk(s, p, m, a, w)).abs && walk(
                s,
                p,
                m,
                a,
                w,
            ).x == walk(s, p, q, a, w).end_line().widest,
    decreases q - p,
{
    lemma_ends_are_boundaries(s);
    assert(walk(s, p, p, a, w) == w);
    if p < q {
        let c = shown(char_at(s, p));
        let n = p + step_len(s, p);
        let v = w.step(c, a);
        lemma_step_in_bounds(s, p);
        lemma_step_to_boundary(s, p);
        lemma_step_stops_at_boundary(s, p, q);
        lemma_walk_reaches(s, n, q, a, v);
        let most = walk(s, p, q, a, w).end_line().widest;
        if walk(s, n, q, a, v).end_line().widest != v.widest {
            let m = choose|m: int|
                n <= m <= q && is_boundary(s, m) && (#[trigger] walk(s, n, m, a, v)).abs && walk(
                    s,
                    n,
                    m,
                    a,
                    v,
                ).x == most;
            assert(walk(s, p, m, a, w) == walk(s, n, m, a, v));
        }
    }
}

/// The position of a place in a segment, as it is seen from its start.
proof fn lemma_seen_from(seg: Mapped, file: Seq<u8>, a: Advances, m: int)
    requires
        describes(seg, file, a),
        is_boundary(file, m),
        seg.start() <= m,
    ensures
        ({
            let from = position_in(file, a, seg.start());
            let at = position_in(file, a, m);
            let v = position_from(file, a, seg.start(), m);
            &&& v.sane()
            &&& at.y == from.y + v.y
            &&& v.abs ==> at.x == v.x
            &&& !v.abs ==> at.x == from.x + v.x
            &&& is_boundary(file, seg.start())
        }),
{
    assert(seg.marks[0].offset == seg.start());
    lemma_ends_are_boundaries(file);
    if seg.start() > 0 {
        lemma_go_on(file, a, 0, seg.start(), m);
    } else {
        lemma_walk_sane(file, 0, m, a, Walk::start(true));
    }
}

/// The rectangle that is known around an absolute mark holds every place whose column is
/// known. It starts at the column zero of the first line whose start is known and goes down to
/// the last line, and it is as wide as the widest of the lines.
pub proof fn lemma_bounds(seg: Mapped, file: Seq<u8>, a: Advances, k: int, f: int, m: int)
    requires
        describes(seg, file, a),
        lawful(seg.marks),
        is_first_abs(seg.marks, f),
        0 <= k < seg.marks.len(),
        seg.marks[k].abs,
        is_boundary(file, m),
        seg.marks[f].offset <= m <= seg.end(),
    ensures
        ({
            let (left, top, w, h) = known_rect(seg, k, f);
            let base = position_in(file, a, seg.marks[k].offset);
            let first = position_in(file, a, seg.marks[f].offset);
            let last = position_in(file, a, seg.end());
            let at = position_in(file, a, m);
            &&& left <= at.x - base.x <= left + w
            &&& top <= (at.y - base.y) * 0x100_0000 <= top + h
            &&& left + base.x == 0
            &&& top == (first.y - base.y) * 0x100_0000
            &&& top + h == (last.y - base.y) * 0x100_0000
            &&& w == 0 || exists|e: int|
                seg.start() <= e <= seg.end() && is_boundary(file, e) && (#[trigger] position_in(
                    file,
                    a,
                    e,
                )).x == w
        }),
{
    let start = seg.start();
    let w0 = Walk::start(start == 0);
    assert(f <= k);
    lemma_true_positions(seg, file, a, k);
    lemma_true_positions(seg, file, a, f);
    let n = seg.marks.len() - 1;
    assert(seg.marks[n] == seg.marks.last());
    lemma_true_positions(seg, file, a, n);
    lemma_seen_from(seg, file, a, m);
    assert(is_boundary(file, seg.marks[f].offset));
    // Every place after an absolute mark is absolute
    lemma_walk_cut(file, start, seg.marks[f].offset, m, a, w0);
    lemma_seen_from(seg, file, a, seg.marks[f].offset);
    lemma_walk_sane(
        file,
        seg.marks[f].offset,
        m,
        a,
        position_from(file, a, start, seg.marks[f].offset),
    );
    // ... and the widest line is at least as wide
    lemma_walk_cut(file, start, m, seg.end(), a, w0);
    lemma_walk_widest(file, m, seg.end(), a, position_from(file, a, start, m));
    lemma_positions_grow(file, a, seg.marks[f].offset, m);
    lemma_positions_grow(file, a, m, seg.end());
    lemma_walk_reaches(file, start, seg.end(), a, w0);
    if seg.widest != 0 {
        let e = choose|e: int|
            start <= e <= seg.end() && is_boundary(file, e) && (#[trigger] walk(
                file,
                start,
                e,
                a,
                w0,
            )).abs && walk(file, start, e, a, w0).x == seg.widest;
        lemma_seen_from(seg, file, a, e);
        assert(position_in(file, a, e).x == seg.widest);
    }
}

/// The rectangle that is known around a relative mark holds every place of the first line of
/// the segment. It starts where the segment does, and is as wide as what is known of that line.
pub proof fn lemma_first_line_bounds(
    seg: Mapped,
    file: Seq<u8>,
    a: Advances,
    k: int,
    f: int,
    m: int,
)
    requires
        describes(seg, file, a),
        lawful(seg.marks),
        is_first_abs(seg.marks, f),
        0 <= k < seg.marks.len(),
        !seg.marks[k].abs,
        is_boundary(file, m),
        seg.start() <= m <= seg.end(),
        position_in(file, a, m).y == position_in(file, a, seg.start()).y,
    ensures
        ({
            let (left, top, w, h) = known_rect(seg, k, f);
            let base = position_in(file, a, seg.marks[k].offset);
            let at = position_in(file, a, m);
            &&& left <= at.x - base.x <= left + w
            &&& top == 0 <= h
            &&& at.y == base.y
            &&& left + base.x == position_in(file, a, seg.start()).x
        }),
{
    let start = seg.start();
    let w0 = Walk::start(start == 0);
    assert(seg.marks[0].offset == start);
    lemma_true_positions(seg, file, a, k);
    lemma_seen_from(seg, file, a, m);
    lemma_ends_are_boundaries(file);
    assert(sound(seg.marks[k]));
    assert(sound(seg.marks[seg.marks.len() - 1]));
    if f < seg.marks.len() {
        assert(sound(seg.marks[f]));
    }
    if start == 0 {
        assert(is_boundary(file, seg.marks[k].offset));
        lemma_walk_sane(file, 0, seg.marks[k].offset, a, w0);
    } else {
        lemma_walk_sane(file, start, m, a, w0);
        lemma_walk_cut(file, start, m, seg.end(), a, w0);
        lemma_walk_widest(file, m, seg.end(), a, position_from(file, a, start, m));
    }
}

/// Scrolling is confined to the rectangle that is known, and moves no farther than it must for
/// that. The rectangle that the scrollbars are drawn for stays while one of them is dragged.
pub proof fn lemma_synced(scroll: ScrollManager, bounds: FileRect, size: FileVec, drag: Drag)
    requires
        0 <= bounds.size.x,
        0 <= bounds.size.y,
        bounds.corner.delta_x + bounds.size.x <= i128::MAX,
        bounds.corner.delta_y + bounds.size.y <= i128::MAX,
    ensures
        ({
            let new = synced(scroll, bounds, size, drag);
            let (left, right) = (
                bounds.corner.delta_x as int,
                bounds.corner.delta_x + bounds.size.x,
            );
            let (top, bottom) = (
                bounds.corner.delta_y as int,
                bounds.corner.delta_y + bounds.size.y,
            );
            &&& confined(scroll.pos.delta_x as int, new.pos.delta_x as int, left, right)
            &&& confined(scroll.pos.delta_y as int, new.pos.delta_y as int, top, bottom)
            &&& new.pos.base_offset == scroll.pos.base_offset
            &&& new.last_view.corner == new.pos
            &&& new.last_view.size == size
            &&& new.last_bounds == if drag is ScrollbarX || drag is ScrollbarY {
                scroll.last_bounds
            } else {
                bounds
            }
        }),
{
}

/// Whether a coordinate went from `old` to `new` to be between two others, but no farther than
/// that.
pub open spec fn confined(old: int, new: int, lo: int, hi: int) -> bool {
    &&& lo <= new <= hi
    &&& lo <= old <= hi ==> new == old
    &&& old < lo ==> new == lo
    &&& old > hi ==> new == hi
}

/// The part of the file that is on screen lies between the offsets that frame it: every
/// character that is in the rectangle, at least in part, and in the segment of its base.
pub proof fn lemma_framed(
    map: LineMap,
    file: Seq<u8>,
    a: Advances,
    rect: FileRect,
    l: int,
    mid: int,
    r: int,
    i: int,
    k: int,
    m: int,
)
    requires
        map.readable(),
        tells_all(map@, file, a),
        is_frame(map@, rect, l, mid, r),
        is_base(map@, rect.corner.base_offset as int, i, k),
        map@[i].start() <= m <= map@[i].end(),
        is_boundary(file, m),
        m < file.len(),
        i64::MIN * 0x100_0000 <= rect.corner.delta_y,
        rect.corner.delta_y + rect.size.y <= i64::MAX * 0x100_0000,
        0 <= rect.size.y,
        ({
            let marks = map@[i].marks;
            let base = position_in(file, a, marks[k].offset);
            let at = position_in(file, a, m);
            let y = at.y - base.y;
            &&& (y + 1) * 0x100_0000 > rect.corner.delta_y
            &&& y * 0x100_0000 < rect.corner.delta_y + rect.size.y
            &&& at.x + width_at(file, a, m) > base.x + rect.corner.delta_x
            &&& forall|j: int|
                0 <= j < marks.len() && position_in(file, a, (#[trigger] marks[j]).offset).y == at.y
                    ==> marks[j].abs == marks[k].abs
        }),
    ensures
        l <= m <= r,
{
    let b = rect.corner.base_offset as int;
    let marks = map@[i].marks;
    let base = marks[k];
    let at = position_in(file, a, m);
    let y = at.y - position_in(file, a, base.offset).y;
    let from = position_in(file, a, marks[0].offset);
    lemma_base_of(map, b, i, k);
    assert(tells(marks, file, a));
    assert(map@[i] == map.segments@[i]@);
    assert(map.segments@[i].readable());
    lemma_rect_lines(rect, y);
    assert(position_in(file, a, base.offset).y == base.y + from.y);
    // The first one
    let (i1, k1, l1) = choose|i1: int, k1: int, l1: int|
        #![trigger is_base(map@, b, i1, k1), map@[i1].marks[l1]]
        is_base(map@, b, i1, k1) && is_located_lower(
            map@[i1].marks,
            map@[i1].marks[k1].y + first_line(rect),
            map@[i1].marks[k1].x + rect.corner.delta_x,
            l1,
        ) && l == map@[i1].marks[l1].offset;
    lemma_base_of(map, b, i1, k1);
    if l1 > 0 && m < l {
        let lo = marks[l1];
        assert(at_or_before(lo, base.y + first_line(rect), base.x + rect.corner.delta_x));
        lemma_positions_grow(file, a, m, lo.offset);
        assert(position_in(file, a, lo.offset).y == lo.y + from.y);
    }
    // The last one
    let (i2, k2, l2) = choose|i2: int, k2: int, l2: int|
        #![trigger is_base(map@, b, i2, k2), map@[i2].marks[l2]]
        is_base(map@, b, i2, k2) && is_located_upper(
            map@[i2].marks,
            map@[i2].marks[k2].y + last_line(rect),
            map@[i2].marks[k2].x + rect.right(),
            l2,
        ) && r == map@[i2].marks[l2].offset;
    lemma_base_of(map, b, i2, k2);
    if l2 < marks.len() - 1 && m > r {
        let hi = marks[l2];
        assert(!before(hi, base.y + last_line(rect), base.x + rect.right()));
        lemma_positions_grow(file, a, hi.offset, m);
        assert(position_in(file, a, hi.offset).y == hi.y + from.y);
    }
}

/// The offsets that frame what is on screen are in order.
pub proof fn lemma_frame_in_order(map: LineMap, rect: FileRect, l: int, mid: int, r: int)
    requires
        map.readable(),
        is_frame(map@, rect, l, mid, r),
        0 < rect.size.y,
        0 <= rect.size.x,
        -0x4000_0000_0000_0000_0000_0000_0000_0000 <= rect.corner.delta_x,
        rect.corner.delta_x + rect.size.x <= 0x3FFF_FFFF_FFFF_FFFF_FFFF_FFFF_FFFF_FFFF,
        i64::MIN * 0x100_0000 <= rect.corner.delta_y,
        rect.corner.delta_y + rect.size.y <= i64::MAX * 0x100_0000,
    ensures
        0 <= l <= mid <= r,
{
    let b = rect.corner.base_offset as int;
    let (i1, k1, l1) = choose|i1: int, k1: int, l1: int|
        #![trigger is_base(map@, b, i1, k1), map@[i1].marks[l1]]
        is_base(map@, b, i1, k1) && is_located_lower(
            map@[i1].marks,
            map@[i1].marks[k1].y + first_line(rect),
            map@[i1].marks[k1].x + rect.corner.delta_x,
            l1,
        ) && l == map@[i1].marks[l1].offset;
    let (i2, k2, l2) = choose|i2: int, k2: int, l2: int|
        #![trigger is_base(map@, b, i2, k2), map@[i2].marks[l2]]
        is_base(map@, b, i2, k2) && is_located_lower(
            map@[i2].marks,
            map@[i2].marks[k2].y + middle_line(rect),
            map@[i2].marks[k2].x + middle_column(rect),
            l2,
        ) && mid == map@[i2].marks[l2].offset;
    let (i3, k3, l3) = choose|i3: int, k3: int, l3: int|
        #![trigger is_base(map@, b, i3, k3), map@[i3].marks[l3]]
        is_base(map@, b, i3, k3) && is_located_upper(
            map@[i3].marks,
            map@[i3].marks[k3].y + last_line(rect),
            map@[i3].marks[k3].x + rect.right(),
            l3,
        ) && r == map@[i3].marks[l3].offset;
    lemma_base_of(map, b, i1, k1);
    lemma_base_of(map, b, i2, k2);
    lemma_base_of(map, b, i3, k3);
    let marks = map@[i1].marks;
    let base = marks[k1];
    assert(map@[i1] == map.segments@[i1]@);
    assert(map.segments@[i1].readable());
    assert(sound(marks[l1]) && sound(marks[l2]) && sound(marks[l3]));
    assert(first_line(rect) <= middle_line(rect) < last_line(rect));
    assert(rect.corner.delta_x <= middle_column(rect) <= rect.right());
    if l2 < l1 {
        assert(at_or_before(marks[l1], base.y + first_line(rect), base.x + rect.corner.delta_x));
        assert(!at_or_before(marks[l1], base.y + middle_line(rect), base.x + middle_column(rect)));
    }
    if l1 < l2 {
        assert(precedes(marks[l1], marks[l2]));
    }
    if l3 < l2 {
        assert(precedes(marks[l3], marks[l2]));
        assert(at_or_before(marks[l2], base.y + middle_line(rect), base.x + middle_column(rect)));
        assert(!before(marks[l3], base.y + last_line(rect), base.x + rect.right()));
    } else if l2 < l3 {
        assert(precedes(marks[l2], marks[l3]));
    }
}

} // verus!
