//! What lookups answer: how they round, and that they tell the truth.

use crate::layout::{
    lemma_walk_cut, lemma_walk_sane, lemma_walk_window, shown, walk, Advances, Walk, NEWLINE,
};
use crate::linemap::{
    at_or_before, is_base, is_located_lower, is_mapped, LineMap, Mapped, MappedSegment,
};
use crate::loaded::can_locate;
use crate::lookup::{
    backward, base_of, divides, forward, found, found_at, found_offset, lemma_base_of,
    lemma_mapped_base, lower_of, moved, pass, stop_at, walk_at,
};
use crate::pieces::is_text;
use crate::runs::{
    agrees, covers, held, holder, lemma_bytes_at, lemma_holder, ordered, prefix_at, suffix_at, Run,
};
use crate::truth::{position_in, tells, tells_all};
use crate::utf8::{
    char_at, is_boundary, is_sequence, lead_len, lemma_ends_are_boundaries, lemma_rest,
    lemma_rev_undoes_decode, lemma_step_in_bounds, lemma_step_stops_at_boundary,
    lemma_step_to_boundary, step_len,
};
use vstd::prelude::*;

verus! {

/// Where the search for a position stops.
///
/// It stops between two characters. Unless the text ends there, it is on the line
/// that was looked for or after it, and on that line at the column or past it, at the
/// end of the line, or before a character that the column does not reach into far
/// enough.
pub proof fn lemma_stop(s: Seq<u8>, p: int, w: Walk, y: int, x: int, hdiv: int, a: Advances)
    requires
        is_boundary(s, p),
    ensures
        ({
            let q = stop_at(s, p, w, y, x, hdiv, a);
            let v = walk(s, p, q, a, w);
            let c = shown(char_at(s, q));
            &&& p <= q <= s.len()
            &&& is_boundary(s, q)
            &&& q < s.len() ==> v.y >= y
            &&& q < s.len() && v.y == y && v.x < x ==> c == NEWLINE || divides(
                v.x,
                a.of(c) as int,
                hdiv,
                x,
            )
        }),
    decreases s.len() - p,
{
    if p < s.len() && (w.y < y || w.y == y && w.x < x) {
        let c = shown(char_at(s, p));
        if !(w.y == y && (c == NEWLINE || divides(w.x, a.of(c) as int, hdiv, x))) {
            lemma_step_in_bounds(s, p);
            lemma_step_to_boundary(s, p);
            lemma_stop(s, p + step_len(s, p), w.step(c, a), y, x, hdiv, a);
        }
    }
}

/// A search that starts at or before a position passes it by a part of one character
/// at most, which is what the column does not reach into far enough.
pub proof fn lemma_overshoot(s: Seq<u8>, p: int, w: Walk, y: int, x: int, hdiv: int, a: Advances)
    requires
        is_boundary(s, p),
        w.y < y || w.y == y && w.x <= x,
        0 <= x,
    ensures
        ({
            let v = walk(s, p, stop_at(s, p, w, y, x, hdiv, a), a, w);
            &&& v.y < y || v.y == y
            &&& v.y == y && v.x > x ==> exists|from: int, adv: int|
                from < x && from + adv == v.x && !#[trigger] divides(from, adv, hdiv, x)
        }),
    decreases s.len() - p,
{
    if p < s.len() && (w.y < y || w.y == y && w.x < x) {
        let c = shown(char_at(s, p));
        if !(w.y == y && (c == NEWLINE || divides(w.x, a.of(c) as int, hdiv, x))) {
            let n = p + step_len(s, p);
            let v = w.step(c, a);
            lemma_step_in_bounds(s, p);
            lemma_step_to_boundary(s, p);
            if v.y < y || v.y == y && v.x <= x {
                lemma_overshoot(s, n, v, y, x, hdiv, a);
            } else {
                assert(stop_at(s, n, v, y, x, hdiv, a) == n);
                assert(walk(s, n, n, a, v) == v);
                assert(!divides(w.x, a.of(c) as int, hdiv, x));
            }
        }
    }
}

/// Dividing characters at their end rounds like `floor`: the search never passes the
/// column.
pub proof fn lemma_rounds_down(s: Seq<u8>, p: int, w: Walk, y: int, x: int, a: Advances)
    requires
        is_boundary(s, p),
        w.y < y || w.y == y && w.x <= x,
        0 <= x,
    ensures
        ({
            let q = stop_at(s, p, w, y, x, 0x100_0000, a);
            let v = walk(s, p, q, a, w);
            let c = shown(char_at(s, q));
            &&& v.y == y ==> v.x <= x
            &&& q < s.len() && v.y == y && c != NEWLINE ==> v.x + a.of(c) > x || v.x == x
        }),
{
    lemma_overshoot(s, p, w, y, x, 0x100_0000, a);
    lemma_stop(s, p, w, y, x, 0x100_0000, a);
}

/// Dividing characters at their start rounds like `ceil`: the search goes on until it
/// is at the column or past it, or at the end of the line.
pub proof fn lemma_rounds_up(s: Seq<u8>, p: int, w: Walk, y: int, x: int, a: Advances)
    requires
        is_boundary(s, p),
    ensures
        ({
            let q = stop_at(s, p, w, y, x, 0, a);
            let v = walk(s, p, q, a, w);
            q < s.len() && v.y == y && shown(char_at(s, q)) != NEWLINE ==> v.x >= x
        }),
{
    lemma_stop(s, p, w, y, x, 0, a);
}

/// Dividing characters in the middle rounds like `round`: the boundary that is found is
/// no farther from the column than half of the character that the column is in.
pub proof fn lemma_rounds_to_nearest(s: Seq<u8>, p: int, w: Walk, y: int, x: int, a: Advances)
    requires
        is_boundary(s, p),
        w.y < y || w.y == y && w.x <= x,
        0 <= x,
    ensures
        ({
            let q = stop_at(s, p, w, y, x, 0x80_0000, a);
            let v = walk(s, p, q, a, w);
            let c = shown(char_at(s, q));
            &&& v.y == y && v.x > x ==> exists|from: int, adv: int|
                from < x && from + adv == v.x && 2 * (v.x - x) <= adv && !#[trigger] divides(
                    from,
                    adv,
                    0x80_0000,
                    x,
                )
            &&& q < s.len() && v.y == y && v.x < x && c != NEWLINE ==> 2 * (x - v.x) < a.of(c)
        }),
{
    lemma_overshoot(s, p, w, y, x, 0x80_0000, a);
    lemma_stop(s, p, w, y, x, 0x80_0000, a);
    let q = stop_at(s, p, w, y, x, 0x80_0000, a);
    let v = walk(s, p, q, a, w);
    if v.y == y && v.x > x {
        let (from, adv) = choose|from: int, adv: int|
            from < x && from + adv == v.x && !#[trigger] divides(from, adv, 0x80_0000, x);
        assert(!divides(from, adv, 0x80_0000, x));
    }
}

/// Passing to an offset leads to it if it stands between two characters, and else to
/// the next place that does, or to the end of the text.
pub proof fn lemma_pass(s: Seq<u8>, p: int, q: int)
    requires
        is_boundary(s, p),
        p <= q,
    ensures
        p <= pass(s, p, q) <= s.len(),
        is_boundary(s, pass(s, p, q)),
        pass(s, p, q) >= q || pass(s, p, q) == s.len(),
        is_boundary(s, q) ==> pass(s, p, q) == q,
        forall|m: int| q <= m < pass(s, p, q) ==> !#[trigger] is_boundary(s, m),
    decreases s.len() - p,
{
    if p < s.len() && p < q {
        let n = p + step_len(s, p);
        lemma_step_in_bounds(s, p);
        lemma_step_to_boundary(s, p);
        if is_boundary(s, q) {
            lemma_step_stops_at_boundary(s, p, q);
        }
        if n <= q {
            lemma_pass(s, n, q);
        } else {
            assert(pass(s, n, q) == n);
            assert forall|m: int| q <= m < n implies !#[trigger] is_boundary(s, m) by {
                if is_boundary(s, m) {
                    lemma_step_stops_at_boundary(s, p, m);
                }
            }
        }
    }
}

/// Two walks that read the same characters stay as far apart as they were, up to the
/// first line end.
pub proof fn lemma_walk_apart(s: Seq<u8>, p: int, q: int, a: Advances, w: Walk, v: Walk, dx: int)
    requires
        v.abs,
        w.abs ==> w.x == v.x,
        !w.abs ==> w.x + dx == v.x,
    ensures
        walk(s, p, q, a, v).y - walk(s, p, q, a, w).y == v.y - w.y,
        walk(s, p, q, a, w).abs ==> walk(s, p, q, a, w).x == walk(s, p, q, a, v).x,
        !walk(s, p, q, a, w).abs ==> !w.abs && walk(s, p, q, a, w).x + dx == walk(s, p, q, a, v).x,
    decreases
            if p < q {
                q - p
            } else {
                0
            },
{
    if p < q {
        let c = shown(char_at(s, p));
        lemma_walk_apart(s, p + step_len(s, p), q, a, w.step(c, a), v.step(c, a), dx);
    }
}

/// The longest loaded text at an offset is the text of the file there.
pub proof fn lemma_prefix_is_text(runs: Seq<Run>, file: Seq<u8>, p: int)
    requires
        ordered(runs),
        agrees(runs, file),
        0 <= p <= file.len(),
    ensures
        p + prefix_at(runs, p).len() <= file.len(),
        prefix_at(runs, p) == file.subrange(p, p + prefix_at(runs, p).len()),
{
    let s = prefix_at(runs, p);
    if held(runs, p) {
        let i = holder(runs, p);
        assert(covers(runs, i, p));
        if s.len() > 0 {
            let last = p + s.len() - 1;
            assert(covers(runs, i, last));
            assert(held(runs, last));
        }
        assert forall|k: int| 0 <= k < s.len() implies s[k] == file[p + k] by {
            let q = p + k;
            assert(covers(runs, i, q));
            lemma_bytes_at(runs, i, q);
            assert(held(runs, q));
        }
    }
    assert(s =~= file.subrange(p, p + s.len()));
}

/// What is found from a known position is so in the file: the data is the text at its
/// offset, and its line and column lie where they do in the whole text, as they are
/// seen from the base.
///
/// This is said of every place that stands between two characters of the file. The
/// only other ones lie in a character of which only a part is loaded.
pub proof fn lemma_found_truth(
    seg: Mapped,
    runs: Seq<Run>,
    file: Seq<u8>,
    a: Advances,
    k: int,
    l: int,
    p: int,
)
    requires
        tells(seg.marks, file, a),
        ordered(runs),
        agrees(runs, file),
        0 <= k < seg.marks.len(),
        0 <= l < seg.marks.len(),
        is_boundary(prefix_at(runs, seg.marks[l].offset), p),
        is_boundary(file, seg.marks[l].offset + p),
        walk(prefix_at(runs, seg.marks[l].offset), 0, p, a, walk_at(seg.marks[l])).abs
            == seg.marks[k].abs,
    ensures
        ({
            let base = seg.marks[k];
            let lo = seg.marks[l];
            let d = found(prefix_at(runs, lo.offset), p, lo, base, a);
            &&& d.offset + d.data.len() <= file.len()
            &&& d.data == file.subrange(d.offset, d.offset + d.data.len())
            &&& d.dy == position_in(file, a, d.offset).y - position_in(file, a, base.offset).y
            &&& d.dx == position_in(file, a, d.offset).x - position_in(file, a, base.offset).x
        }),
{
    let base = seg.marks[k];
    let lo = seg.marks[l];
    let s = prefix_at(runs, lo.offset);
    let q = lo.offset + p;
    lemma_prefix_is_text(runs, file, lo.offset);
    lemma_ends_are_boundaries(s);
    lemma_ends_are_boundaries(file);
    assert(s.skip(p) =~= file.subrange(q, q + s.skip(p).len()));
    // The walk over the loaded text is the walk over the file
    lemma_walk_window(s, 0, p, 0, p, a, walk_at(lo));
    assert(s.subrange(0, p) =~= file.subrange(lo.offset, q));
    lemma_walk_window(file, lo.offset, q, 0, p, a, walk_at(lo));
    // ... which goes on from the start of the file
    let w = Walk::start(true);
    let there = position_in(file, a, lo.offset);
    let from = position_in(file, a, seg.marks[0].offset);
    lemma_walk_cut(file, 0, lo.offset, q, a, w);
    lemma_walk_sane(file, 0, lo.offset, a, w);
    lemma_walk_apart(file, lo.offset, q, a, walk_at(lo), there, from.x);
}

/// Looking up an offset tells the truth: what is found stands at that offset, or at
/// the next character where the offset lies in the middle of one, and its position is
/// the one that it has in the whole text, as it is seen from the base.
pub proof fn lemma_lookup_offset_truth(
    map: LineMap,
    runs: Seq<Run>,
    file: Seq<u8>,
    a: Advances,
    base_offset: int,
    offset: int,
)
    requires
        map.readable(),
        tells_all(map@, file, a),
        ordered(runs),
        agrees(runs, file),
        found_offset(map@, runs, a, base_offset, offset) matches Some(d) && is_boundary(
            file,
            d.offset,
        ),
    ensures
        ({
            let d = found_offset(map@, runs, a, base_offset, offset).unwrap();
            let (i, k) = base_of(map@, base_offset);
            let base = map@[i].marks[k];
            &&& is_base(map@, base_offset, i, k)
            &&& d.offset >= offset || d.data.len() == 0
            &&& d.offset + d.data.len() <= file.len()
            &&& d.data == file.subrange(d.offset, d.offset + d.data.len())
            &&& d.dy == position_in(file, a, d.offset).y - position_in(file, a, base.offset).y
            &&& d.dx == position_in(file, a, d.offset).x - position_in(file, a, base.offset).x
        }),
{
    lemma_mapped_base(map, base_offset);
    lemma_mapped_base(map, offset);
    let (i, k) = base_of(map@, base_offset);
    let (j, l) = base_of(map@, offset);
    let lo = map@[j].marks[l];
    let s = prefix_at(runs, lo.offset);
    let p = pass(s, 0, offset - lo.offset);
    assert(tells(map@[i].marks, file, a));
    lemma_ends_are_boundaries(s);
    lemma_pass(s, 0, offset - lo.offset);
    lemma_found_truth(map@[i], runs, file, a, k, l, p);
}

/// Looking up an offset finds nothing where it or the base is not mapped, where they are in
/// two segments, or where the column of only one of them is known.
pub proof fn lemma_lookup_offset_fails(
    map: LineMap,
    runs: Seq<Run>,
    a: Advances,
    base_offset: int,
    offset: int,
    i: int,
    k: int,
    j: int,
    l: int,
)
    requires
        map.readable(),
    ensures
        !is_mapped(map@, base_offset) || !is_mapped(map@, offset) ==> found_offset(
            map@,
            runs,
            a,
            base_offset,
            offset,
        ) is None,
        is_base(map@, base_offset, i, k) && is_base(map@, offset, j, l) && (i != j
            || map@[i].marks[k].abs != map@[j].marks[l].abs) ==> found_offset(
            map@,
            runs,
            a,
            base_offset,
            offset,
        ) is None,
{
    if is_base(map@, base_offset, i, k) && is_base(map@, offset, j, l) {
        lemma_base_of(map, base_offset, i, k);
        lemma_base_of(map, offset, j, l);
    }
}

/// Looking up a position tells the truth: what is found has the position in the whole
/// text that it is said to have, as it is seen from the base.
pub proof fn lemma_lookup_pos_truth(
    map: LineMap,
    runs: Seq<Run>,
    file: Seq<u8>,
    a: Advances,
    base_offset: int,
    y: int,
    x: int,
    hdiv: int,
)
    requires
        map.readable(),
        tells_all(map@, file, a),
        ordered(runs),
        agrees(runs, file),
        can_locate(map@, base_offset, y),
        found_at(map@, runs, a, base_offset, y, x, hdiv) matches Some(d) && is_boundary(
            file,
            d.offset,
        ),
        knows_column(map@, runs, a, base_offset, y, x, hdiv),
    ensures
        ({
            let d = found_at(map@, runs, a, base_offset, y, x, hdiv).unwrap();
            let (i, k) = base_of(map@, base_offset);
            let base = map@[i].marks[k];
            &&& is_base(map@, base_offset, i, k)
            &&& d.offset + d.data.len() <= file.len()
            &&& d.data == file.subrange(d.offset, d.offset + d.data.len())
            &&& d.dy == position_in(file, a, d.offset).y - position_in(file, a, base.offset).y
            &&& d.dx == position_in(file, a, d.offset).x - position_in(file, a, base.offset).x
        }),
{
    let (bi, bk) = choose|bi: int, bk: int| #[trigger] is_base(map@, base_offset, bi, bk);
    lemma_base_of(map, base_offset, bi, bk);
    let (i, k) = base_of(map@, base_offset);
    let marks = map@[i].marks;
    let base = marks[k];
    assert(map@[i] == map.segments@[i]@);
    assert(map.segments@[i].readable());
    lemma_has_located(map.segments@[i], base.y + y, base.x + x, marks.len() as int);
    let l = lower_of(marks, base.y + y, base.x + x);
    assert(is_located_lower(marks, base.y + y, base.x + x, l));
    let lo = marks[l];
    let s = prefix_at(runs, lo.offset);
    assert(tells(map@[i].marks, file, a));
    lemma_ends_are_boundaries(s);
    lemma_stop(s, 0, walk_at(lo), base.y + y, base.x + x, hdiv, a);
    let p = stop_at(s, 0, walk_at(lo), base.y + y, base.x + x, hdiv, a);
    lemma_found_truth(map@[i], runs, file, a, k, l, p);
}

/// Whether the search for a position ends where columns compare to the one of the
/// base: both on lines whose start is known, or both on the one line whose start is
/// not.
pub open spec fn knows_column(
    map: Seq<Mapped>,
    runs: Seq<Run>,
    a: Advances,
    base_offset: int,
    y: int,
    x: int,
    hdiv: int,
) -> bool {
    let (i, k) = base_of(map, base_offset);
    let marks = map[i].marks;
    let base = marks[k];
    let lo = marks[lower_of(marks, base.y + y, base.x + x)];
    let s = prefix_at(runs, lo.offset);
    walk(
        s,
        0,
        stop_at(s, 0, walk_at(lo), base.y + y, base.x + x, hdiv, a),
        a,
        walk_at(lo),
    ).abs == base.abs
}

/// There is a last mark at or before every position, or the first mark.
pub proof fn lemma_has_located(seg: MappedSegment, y: int, x: int, n: int)
    requires
        1 <= n <= seg.marks().len(),
        forall|j: int|
            n <= j < seg.marks().len() ==> !at_or_before(#[trigger] seg.marks()[j], y, x),
    ensures
        exists|k: int| is_located_lower(seg.marks(), y, x, k),
    decreases n,
{
    if n == 1 || at_or_before(seg.marks()[n - 1], y, x) {
        assert(is_located_lower(seg.marks(), y, x, n - 1));
    } else {
        lemma_has_located(seg, y, x, n - 1);
    }
}

/// The last of the characters that a move forward passes.
proof fn lemma_forward_last(s: Seq<u8>, p: int, n: nat)
    requires
        is_boundary(s, p),
        n >= 1,
        forward(s.skip(p), n).0,
    ensures
        ({
            let (done, e) = forward(s.skip(p), (n - 1) as nat);
            &&& done
            &&& 0 <= e
            &&& p + e < s.len()
            &&& is_boundary(s, p + e)
            &&& forward(s.skip(p), n).1 == e + step_len(s, p + e)
        }),
    decreases n,
{
    let t = s.skip(p);
    assert(t.len() > 0);
    let k = step_len(t, 0) as int;
    lemma_rest(s, p);
    lemma_step_in_bounds(s, p);
    if n > 1 {
        lemma_step_to_boundary(s, p);
        assert(t.skip(k) =~= s.skip(p + k));
        lemma_forward_last(s, p + k, (n - 1) as nat);
    } else {
        assert(forward(t.skip(k), 0) == (true, 0int));
    }
}

/// In a text, moving back over characters undoes moving forward over them.
proof fn lemma_back_undoes_forward(s: Seq<u8>, p: int, n: nat)
    requires
        is_text(s),
        is_boundary(s, p),
        forward(s.skip(p), n).0,
    ensures
        0 <= forward(s.skip(p), n).1,
        p + forward(s.skip(p), n).1 <= s.len(),
        n > 0 ==> forward(s.skip(p), n).1 > 0,
        backward(s.take(p + forward(s.skip(p), n).1), n) == (true, -forward(s.skip(p), n).1),
    decreases n,
{
    if n > 0 {
        let d = forward(s.skip(p), n).1;
        let e = forward(s.skip(p), (n - 1) as nat).1;
        lemma_forward_last(s, p, n);
        lemma_back_undoes_forward(s, p, (n - 1) as nat);
        let q = p + e;
        let k = step_len(s, q) as int;
        lemma_step_in_bounds(s, q);
        assert(is_sequence(s, q, lead_len(s[q])));
        lemma_rev_undoes_decode(s, q);
        let t = s.take(q + k);
        assert(is_sequence(t, q, lead_len(t[q])));
        lemma_rev_undoes_decode(t, q);
        assert(t.take(q) =~= s.take(q));
    }
}

/// Moving forward by some characters and back by as many leads to where it started, if the
/// segment that is loaded there is a text and the move starts between two characters of it.
pub proof fn lemma_char_delta_undone(runs: Seq<Run>, offset: i64, n: nat, p: i64)
    requires
        ordered(runs),
        held(runs, offset as int) ==> {
            let run = runs[holder(runs, offset as int)];
            is_text(run.data) && is_boundary(run.data, offset - run.at)
        },
        moved(offset, forward(prefix_at(runs, offset as int), n)) == Ok::<i64, i64>(p),
    ensures
        moved(p, backward(suffix_at(runs, p as int), n)) == Ok::<i64, i64>(offset),
{
    if n > 0 {
        let s = prefix_at(runs, offset as int);
        assert(s.len() > 0);
        let i = holder(runs, offset as int);
        assert(covers(runs, i, offset as int));
        let run = runs[i];
        let o = offset - run.at;
        lemma_back_undoes_forward(run.data, o, n);
        let d = forward(s, n).1;
        assert(p == offset + d);
        assert(covers(runs, i, p - 1));
        lemma_holder(runs, i, p - 1);
        assert(suffix_at(runs, p as int) == run.data.take(o + d));
    }
}

} // verus!
