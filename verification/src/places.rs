//! Where the lines of a file have their columns, and that a lookup finds it.

use crate::answers::{
    lemma_found_truth, lemma_has_located, lemma_pass, lemma_prefix_is_text, lemma_walk_apart,
};
use crate::layout::{
    lemma_walk_cut, lemma_walk_sane, lemma_walk_window, shown, walk, Advances, Walk, NEWLINE,
};
use crate::linemap::{at_or_before, is_base, is_located_lower, is_segment_of, LineMap};
use crate::lines::lemma_position_step;
use crate::loaded::can_locate;
use crate::lookup::{
    divides, found_at, found_offset, lemma_base_of, lower_of, pass, stop_at, walk_at,
};
use crate::marks::{lawful, precedes, sound, Mark};
use crate::runs::{agrees, covers, holder, lemma_holder, ordered, prefix_at, Run};
use crate::truth::{position_in, tells, tells_all};
use crate::utf8::{
    char_at, is_boundary, is_sequence, lead_len, lemma_ends_are_boundaries, lemma_step_in_bounds,
    lemma_step_stops_at_boundary, lemma_window, step_len,
};
use vstd::prelude::*;

verus! {

/// Whether a character of the text starts at `q` and ends at `p`.
pub open spec fn is_char(file: Seq<u8>, q: int, p: int) -> bool {
    is_boundary(file, q) && q < file.len() && p == q + step_len(file, q)
}

/// Whether a newline stands at `p`.
pub open spec fn is_newline(file: Seq<u8>, p: int) -> bool {
    p < file.len() && shown(char_at(file, p)) == NEWLINE
}

/// Whether a line starts at `p`: at the start of the text, or right after a newline.
pub open spec fn is_line_start(file: Seq<u8>, p: int) -> bool {
    p == 0 || exists|q: int| #[trigger] is_char(file, q, p) && is_newline(file, q)
}

/// How wide the character at `p` is.
pub open spec fn width_at(file: Seq<u8>, a: Advances, p: int) -> int {
    a.of(shown(char_at(file, p))) as int
}

/// Whether `p` is where line `y` of a file has the column `x`, on that part of the line
/// that ends at `end`. The place lies between two characters of the line.
///
/// It lies before the column only at the end, or where the column does not reach far
/// enough into the next character: not over the part `hdiv` of it, in units of
/// `1 / UNITS`. It lies past the column only at the start of the line, or where the
/// column does reach far enough into the character before.
pub open spec fn is_place(
    file: Seq<u8>,
    a: Advances,
    y: int,
    x: int,
    hdiv: int,
    end: int,
    p: int,
) -> bool {
    let at = position_in(file, a, p);
    &&& is_boundary(file, p)
    &&& p <= end
    &&& at.y == y
    &&& at.x < x ==> p == end || width_at(file, a, p) * hdiv > (x - at.x) * 0x100_0000
    &&& at.x > x ==> is_line_start(file, p) || exists|q: int| #[trigger]
        is_char(file, q, p) && {
            let before = position_in(file, a, q);
            &&& before.y == y
            &&& before.x < x
            &&& width_at(file, a, q) * hdiv <= (x - before.x) * 0x100_0000
        }
}

/// What is loaded of a file and known of it, and that it is so.
pub open spec fn true_sight(map: LineMap, runs: Seq<Run>, file: Seq<u8>, a: Advances) -> bool {
    &&& map.readable()
    &&& tells_all(map@, file, a)
    &&& ordered(runs)
    &&& agrees(runs, file)
}

/// Whether the column `x` of line `y` can be looked up in what is loaded.
///
/// The mark at `g` of a segment is at the place or before it, and the text from there on is
/// loaded: up to `end`, where the line ends, or where what is loaded ends past the column.
/// The columns of the line compare to the one of the mark at `k`.
pub open spec fn line_known(
    marks: Seq<Mark>,
    runs: Seq<Run>,
    file: Seq<u8>,
    a: Advances,
    k: int,
    g: int,
    y: int,
    x: int,
    end: int,
) -> bool {
    let start = marks[g].offset;
    let from = position_in(file, a, start);
    let reach = start + prefix_at(runs, start).len();
    &&& 0 <= k < marks.len()
    &&& 0 <= g < marks.len()
    &&& from.y < y || from.y == y && (from.x <= x || g == 0 && is_line_start(file, start))
    &&& start <= end <= reach
    &&& is_boundary(file, end)
    &&& position_in(file, a, end).y == y
    &&& {
        ||| end == file.len()
        ||| is_newline(file, end) && end + step_len(file, end) <= reach
        ||| end == reach && x < position_in(file, a, end).x
    }
    &&& marks[k].abs || position_in(file, a, marks[k].offset).y == y
    &&& forall|j: int|
        0 <= j < marks.len() && position_in(file, a, (#[trigger] marks[j]).offset).y == y
            ==> marks[j].abs == marks[k].abs
}

/// Lines and columns go up with the offset.
pub proof fn lemma_positions_grow(file: Seq<u8>, a: Advances, p: int, q: int)
    requires
        is_boundary(file, p),
        is_boundary(file, q),
        p <= q,
    ensures
        ({
            let l = position_in(file, a, p);
            let r = position_in(file, a, q);
            &&& 0 <= l.y <= r.y
            &&& 0 <= l.x
            &&& r.y <= q
            &&& 0 <= r.x <= q * 0xFFFF_FFFF
            &&& l.y == r.y ==> l.x <= r.x
            &&& p < q && l.y == r.y ==> !is_newline(file, p) && l.x + width_at(file, a, p) <= r.x
            &&& p < q && is_newline(file, p) ==> l.y < r.y
        }),
{
    let w = Walk::start(true);
    lemma_ends_are_boundaries(file);
    lemma_walk_sane(file, 0, p, a, w);
    lemma_walk_sane(file, 0, q, a, w);
    lemma_walk_cut(file, 0, p, q, a, w);
    lemma_walk_sane(file, p, q, a, position_in(file, a, p));
    if p < q {
        let n = p + step_len(file, p);
        lemma_position_step(file, a, p);
        lemma_step_stops_at_boundary(file, p, q);
        lemma_walk_sane(file, 0, n, a, w);
        lemma_walk_cut(file, 0, n, q, a, w);
        lemma_walk_sane(file, n, q, a, position_in(file, a, n));
    }
}

/// A line starts at column zero.
pub proof fn lemma_line_start(file: Seq<u8>, a: Advances, p: int)
    requires
        is_line_start(file, p),
    ensures
        position_in(file, a, p).x == 0,
{
    if p != 0 {
        let q = choose|q: int| #[trigger] is_char(file, q, p) && is_newline(file, q);
        lemma_position_step(file, a, q);
    }
}

/// A part of a text has the characters of the text that lie in it.
pub proof fn lemma_same_char(s: Seq<u8>, file: Seq<u8>, o: int, p: int)
    requires
        0 <= o,
        0 <= p < s.len(),
        o + s.len() <= file.len(),
        s == file.subrange(o, o + s.len()),
        p + step_len(file, o + p) <= s.len(),
    ensures
        step_len(s, p) == step_len(file, o + p),
        char_at(s, p) == char_at(file, o + p),
{
    let n = lead_len(file[o + p]);
    if is_sequence(file, o + p, n) {
        assert(is_sequence(s, p, n));
    } else if is_sequence(s, p, n) {
        assert(is_sequence(file, o + p, n));
    }
}

/// The search for a place starts at the mark `g` or after it, in text that is loaded as far.
proof fn lemma_starts_search(
    marks: Seq<Mark>,
    runs: Seq<Run>,
    file: Seq<u8>,
    a: Advances,
    k: int,
    g: int,
    l: int,
    y: int,
    x: int,
    end: int,
)
    requires
        lawful(marks),
        tells(marks, file, a),
        ordered(runs),
        agrees(runs, file),
        0 <= k < marks.len(),
        is_located_lower(marks, marks[k].y + y, marks[k].x + x, l),
        line_known(
            marks,
            runs,
            file,
            a,
            k,
            g,
            position_in(file, a, marks[k].offset).y + y,
            position_in(file, a, marks[k].offset).x + x,
            end,
        ),
    ensures
        ({
            let lo = marks[l];
            let s = prefix_at(runs, lo.offset);
            let start = marks[g].offset;
            let (ty, tx) = (marks[k].y + y, marks[k].x + x);
            &&& 0 <= lo.offset <= end
            &&& lo.offset + s.len() == start + prefix_at(runs, start).len()
            &&& lo.offset + s.len() <= file.len()
            &&& s == file.subrange(lo.offset, lo.offset + s.len())
            &&& lo.y < ty || lo.y == ty && lo.abs == marks[k].abs && (lo.x <= tx || is_line_start(
                file,
                lo.offset,
            ))
            &&& lo.y < ty ==> marks[k].abs
        }),
{
    let base = marks[k];
    let lo = marks[l];
    let start = marks[g].offset;
    let (ty, tx) = (base.y + y, base.x + x);
    let from = position_in(file, a, marks[0].offset);
    assert(sound(marks[g]) && sound(lo) && sound(base));
    // The mark at `g` is at or before the place, or it is the first one
    assert(position_in(file, a, marks[g].offset).y == marks[g].y + from.y);
    assert(position_in(file, a, base.offset).y == base.y + from.y);
    assert(position_in(file, a, lo.offset).y == lo.y + from.y);
    assert(at_or_before(marks[g], ty, tx) || g == 0);
    if l < g {
        assert(!at_or_before(marks[g], ty, tx));
    } else if g < l {
        assert(precedes(marks[g], marks[l]));
        assert(at_or_before(lo, ty, tx));
    }
    assert(start <= lo.offset);
    // ... and so the one that is found is not past the end of the line
    if lo.offset > end {
        lemma_positions_grow(file, a, end, lo.offset);
    }
    lemma_prefix_is_text(runs, file, start);
    lemma_prefix_is_text(runs, file, lo.offset);
    let reach = start + prefix_at(runs, start).len();
    if lo.offset < reach {
        let r = holder(runs, start);
        assert(covers(runs, r, start));
        assert(covers(runs, r, lo.offset));
        lemma_holder(runs, r, lo.offset);
    }
}

/// The search for a position ends at its place.
///
/// The text `s` stands at `o` in the file, and the search is at `p` of it. The lines and
/// columns of the file differ from those of the search by `dy` and `dx`.
proof fn lemma_search(
    s: Seq<u8>,
    file: Seq<u8>,
    a: Advances,
    o: int,
    p: int,
    w: Walk,
    y: int,
    x: int,
    hdiv: int,
    dy: int,
    dx: int,
    end: int,
)
    requires
        0 <= o,
        0 <= p,
        o + s.len() <= file.len(),
        s == file.subrange(o, o + s.len()),
        is_boundary(file, o + p),
        o + p <= end <= o + s.len(),
        is_boundary(file, end),
        position_in(file, a, end).y == y + dy,
        end == o + s.len() || is_newline(file, end) && end + step_len(file, end) <= o + s.len(),
        position_in(file, a, o + p).y == w.y + dy,
        w.y == y ==> position_in(file, a, o + p).x == w.x + dx,
        w.y < y ==> dx == 0,
        w.y < y || w.y == y && (w.x <= x || is_line_start(file, o + p)),
    ensures
        ({
            let q = stop_at(s, p, w, y, x, hdiv, a);
            let v = walk(s, p, q, a, w);
            &&& p <= q <= s.len()
            &&& is_place(file, a, y + dy, x + dx, hdiv, end, o + q)
            &&& v.y == y
            &&& v.x + dx == position_in(file, a, o + q).x
        }),
    decreases end - (o + p),
{
    let c = shown(char_at(s, p));
    if o + p == end {
        if end < o + s.len() {
            lemma_same_char(s, file, o, p);
        }
        assert(stop_at(s, p, w, y, x, hdiv, a) == p);
    } else {
        let n = p + step_len(file, o + p);
        lemma_positions_grow(file, a, o + p, end);
        lemma_step_in_bounds(file, o + p);
        lemma_step_stops_at_boundary(file, o + p, end);
        lemma_position_step(file, a, o + p);
        lemma_same_char(s, file, o, p);
        if w.y == y && (w.x >= x || divides(w.x, a.of(c) as int, hdiv, x)) {
            assert(stop_at(s, p, w, y, x, hdiv, a) == p);
        } else {
            let v = w.step(c, a);
            assert(is_char(file, o + p, o + n));
            assert(stop_at(s, p, w, y, x, hdiv, a) == stop_at(s, n, v, y, x, hdiv, a));
            if w.y == y && v.x > x {
                assert(stop_at(s, n, v, y, x, hdiv, a) == n);
                assert(walk(s, n, n, a, v) == v);
            } else {
                lemma_search(s, file, a, o, n, v, y, x, hdiv, dy, dx, end);
            }
            let q = stop_at(s, n, v, y, x, hdiv, a);
            assert(walk(s, p, q, a, w) == walk(s, n, q, a, v));
        }
    }
}

/// Looking up a position finds its place: `y` lines and `x` columns away from the mark of
/// the base, whatever marks the map has, and rounded by `hdiv`. With it comes the text
/// there, as far as it is loaded.
pub proof fn lemma_lookup_place(
    map: LineMap,
    runs: Seq<Run>,
    file: Seq<u8>,
    a: Advances,
    base_offset: int,
    y: int,
    x: int,
    hdiv: int,
    i: int,
    k: int,
    g: int,
    end: int,
)
    requires
        map.readable(),
        tells_all(map@, file, a),
        ordered(runs),
        agrees(runs, file),
        is_base(map@, base_offset, i, k),
        line_known(
            map@[i].marks,
            runs,
            file,
            a,
            k,
            g,
            position_in(file, a, map@[i].marks[k].offset).y + y,
            position_in(file, a, map@[i].marks[k].offset).x + x,
            end,
        ),
    ensures
        found_at(map@, runs, a, base_offset, y, x, hdiv) is Some,
        ({
            let d = found_at(map@, runs, a, base_offset, y, x, hdiv).unwrap();
            let base = position_in(file, a, map@[i].marks[k].offset);
            let start = map@[i].marks[g].offset;
            let reach = start + prefix_at(runs, start).len();
            &&& is_place(file, a, base.y + y, base.x + x, hdiv, end, d.offset)
            &&& d.dy == y
            &&& d.dx == position_in(file, a, d.offset).x - base.x
            &&& d.offset <= reach <= file.len()
            &&& d.data == file.subrange(d.offset, reach)
        }),
{
    lemma_base_of(map, base_offset, i, k);
    let marks = map@[i].marks;
    let base = marks[k];
    assert(map@[i] == map.segments@[i]@);
    assert(map.segments@[i].readable());
    assert(tells(marks, file, a));
    assert(position_in(file, a, base.offset).y == base.y + position_in(file, a, marks[0].offset).y);
    assert(can_locate(map@, base_offset, y));
    lemma_has_located(map.segments@[i], base.y + y, base.x + x, marks.len() as int);
    let l = lower_of(marks, base.y + y, base.x + x);
    assert(is_located_lower(marks, base.y + y, base.x + x, l));
    lemma_starts_search(marks, runs, file, a, k, g, l, y, x, end);
    let lo = marks[l];
    let s = prefix_at(runs, lo.offset);
    let from = position_in(file, a, marks[0].offset);
    let dx = if base.abs {
        0
    } else {
        from.x
    };
    lemma_search(
        s,
        file,
        a,
        lo.offset,
        0,
        walk_at(lo),
        base.y + y,
        base.x + x,
        hdiv,
        from.y,
        dx,
        end,
    );
    let q = stop_at(s, 0, walk_at(lo), base.y + y, base.x + x, hdiv, a);
    assert(s.skip(q) =~= file.subrange(lo.offset + q, lo.offset + s.len()));
}

/// Whether `p` lies between two characters of line `y`.
pub open spec fn on_line(file: Seq<u8>, a: Advances, y: int, p: int) -> bool {
    is_boundary(file, p) && position_in(file, a, p).y == y
}

/// How far two columns are apart.
pub open spec fn apart_by(l: int, r: int) -> int {
    if l <= r {
        r - l
    } else {
        l - r
    }
}

/// A place before the column is followed by a character that goes past the column by more
/// than what is left of it, or it is the end. One past the column comes after a character
/// that started before the column.
pub proof fn lemma_place_sides(
    file: Seq<u8>,
    a: Advances,
    y: int,
    x: int,
    hdiv: int,
    end: int,
    p: int,
    m: int,
)
    requires
        is_place(file, a, y, x, hdiv, end, p),
        on_line(file, a, y, m),
        m <= end,
    ensures
        ({
            let at = position_in(file, a, p);
            let c = position_in(file, a, m).x;
            &&& m <= p ==> c <= at.x
            &&& m >= p ==> c >= at.x
            &&& m > p && at.x < x ==> c >= at.x + width_at(file, a, p) && width_at(file, a, p)
                * hdiv > (x - at.x) * 0x100_0000
            &&& m < p && at.x > x ==> exists|q: int| #[trigger]
                is_char(file, q, p) && {
                    let before = position_in(file, a, q).x;
                    &&& c <= before < x
                    &&& at.x == before + width_at(file, a, q)
                    &&& width_at(file, a, q) * hdiv <= (x - before) * 0x100_0000
                }
        }),
{
    let at = position_in(file, a, p);
    if m < p {
        lemma_positions_grow(file, a, m, p);
        if at.x > x {
            if is_line_start(file, p) {
                let q = choose|q: int| #[trigger] is_char(file, q, p) && is_newline(file, q);
                lemma_step_stops_at_boundary(file, m, p);
                if q < m {
                    lemma_step_stops_at_boundary(file, q, m);
                }
                lemma_positions_grow(file, a, m, q);
                lemma_position_step(file, a, q);
            } else {
                let q = choose|q: int| #[trigger]
                    is_char(file, q, p) && {
                        let before = position_in(file, a, q);
                        &&& before.y == y
                        &&& before.x < x
                        &&& width_at(file, a, q) * hdiv <= (x - before.x) * 0x100_0000
                    };
                if q < m {
                    lemma_step_stops_at_boundary(file, q, m);
                }
                lemma_positions_grow(file, a, m, q);
                lemma_position_step(file, a, q);
                lemma_positions_grow(file, a, q, p);
            }
        }
    } else {
        lemma_positions_grow(file, a, p, m);
    }
}

/// Dividing characters at their end rounds down: the place is not past the column, unless
/// the column lies before the line, and no place of the line after it is at the column or
/// before, unless the characters between take no room.
pub proof fn lemma_place_down(file: Seq<u8>, a: Advances, y: int, x: int, end: int, p: int)
    requires
        is_place(file, a, y, x, 0x100_0000, end, p),
    ensures
        position_in(file, a, p).x > x ==> is_line_start(file, p) && x < 0,
        forall|m: int|
            #![trigger on_line(file, a, y, m)]
            on_line(file, a, y, m) && p < m <= end ==> position_in(file, a, m).x > x
                || position_in(file, a, m).x == x && position_in(file, a, p).x == x,
{
    let at = position_in(file, a, p);
    if at.x > x {
        if is_line_start(file, p) {
            lemma_line_start(file, a, p);
        } else {
            let q = choose|q: int| #[trigger]
                is_char(file, q, p) && {
                    let before = position_in(file, a, q);
                    &&& before.y == y
                    &&& before.x < x
                    &&& width_at(file, a, q) * 0x100_0000 <= (x - before.x) * 0x100_0000
                };
            lemma_position_step(file, a, q);
        }
    }
    assert forall|m: int|
        #![trigger on_line(file, a, y, m)]
        on_line(file, a, y, m) && p < m <= end implies position_in(file, a, m).x > x || position_in(
        file,
        a,
        m,
    ).x == x && at.x == x by {
        lemma_place_sides(file, a, y, x, 0x100_0000, end, p, m);
    }
}

/// Dividing characters at their start rounds up: the place is not before the column,
/// unless it is the end, and no place of the line before it is at the column or past it,
/// unless the characters between take no room.
pub proof fn lemma_place_up(file: Seq<u8>, a: Advances, y: int, x: int, end: int, p: int)
    requires
        is_place(file, a, y, x, 0, end, p),
    ensures
        position_in(file, a, p).x < x ==> p == end,
        forall|m: int|
            #![trigger on_line(file, a, y, m)]
            on_line(file, a, y, m) && m < p ==> position_in(file, a, m).x < x || position_in(
                file,
                a,
                m,
            ).x == x && position_in(file, a, p).x == x,
{
    assert forall|m: int|
        #![trigger on_line(file, a, y, m)]
        on_line(file, a, y, m) && m < p implies position_in(file, a, m).x < x || position_in(
        file,
        a,
        m,
    ).x == x && position_in(file, a, p).x == x by {
        lemma_place_sides(file, a, y, x, 0, end, p, m);
    }
}

/// Dividing characters in the middle rounds to the nearest place: no other one of the line
/// is nearer to the column.
pub proof fn lemma_place_nearest(file: Seq<u8>, a: Advances, y: int, x: int, end: int, p: int)
    requires
        is_place(file, a, y, x, 0x80_0000, end, p),
    ensures
        forall|m: int|
            #![trigger on_line(file, a, y, m)]
            on_line(file, a, y, m) && m <= end ==> apart_by(position_in(file, a, p).x, x)
                <= apart_by(position_in(file, a, m).x, x),
{
    assert forall|m: int|
        #![trigger on_line(file, a, y, m)]
        on_line(file, a, y, m) && m <= end implies apart_by(position_in(file, a, p).x, x)
        <= apart_by(position_in(file, a, m).x, x) by {
        lemma_place_sides(file, a, y, x, 0x80_0000, end, p, m);
    }
}

/// A place between two characters of a text is one in a part of the text too, and the
/// other way round before the end of a part that ends between two characters.
pub proof fn lemma_part_boundary(s: Seq<u8>, file: Seq<u8>, o: int, to: int, m: int)
    requires
        0 <= o,
        o + s.len() <= file.len(),
        s == file.subrange(o, o + s.len()),
        is_boundary(file, o),
        is_boundary(file, to),
        0 <= m <= to - o,
        to - o <= s.len(),
    ensures
        is_boundary(s, to - o),
        is_boundary(s, m) <==> is_boundary(file, o + m),
{
    assert forall|q: int, n: nat| #[trigger] is_sequence(s, q, n) && q < to - o implies q + n <= to
        - o by {
        assert(is_sequence(file, o + q, n));
    }
    lemma_ends_are_boundaries(s);
    lemma_window(file, o, to, m);
    lemma_window(s, 0, to - o, m);
    assert(s.subrange(0, to - o) =~= file.subrange(o, to));
}

/// Looking up an offset finds it, where it and the base are in one segment, their columns
/// compare, and the text from the mark before it is loaded: at the offset, or where it lies
/// in a character at the end of that, with the position that this place has in the file.
pub proof fn lemma_lookup_offset_place(
    map: LineMap,
    runs: Seq<Run>,
    file: Seq<u8>,
    a: Advances,
    base_offset: int,
    offset: int,
    i: int,
    k: int,
    l: int,
    to: int,
)
    requires
        map.readable(),
        tells_all(map@, file, a),
        ordered(runs),
        agrees(runs, file),
        is_base(map@, base_offset, i, k),
        is_base(map@, offset, i, l),
        offset <= to,
        is_boundary(file, to),
        forall|m: int| offset <= m < to ==> !#[trigger] is_boundary(file, m),
        offset_known(map@[i].marks, runs, file, a, k, l, to),
    ensures
        found_offset(map@, runs, a, base_offset, offset) is Some,
        ({
            let d = found_offset(map@, runs, a, base_offset, offset).unwrap();
            let base = position_in(file, a, map@[i].marks[k].offset);
            let start = map@[i].marks[l].offset;
            let reach = start + prefix_at(runs, start).len();
            &&& d.offset == to
            &&& d.dy == position_in(file, a, to).y - base.y
            &&& d.dx == position_in(file, a, to).x - base.x
            &&& to <= reach <= file.len()
            &&& d.data == file.subrange(to, reach)
        }),
{
    lemma_base_of(map, base_offset, i, k);
    lemma_base_of(map, offset, i, l);
    assert(is_segment_of(map@, base_offset, i));
    assert(is_segment_of(map@, offset, i));
    let marks = map@[i].marks;
    assert(map@[i] == map.segments@[i]@);
    assert(map.segments@[i].readable());
    assert(tells(marks, file, a));
    let base = marks[k];
    let lo = marks[l];
    assert(sound(lo));
    let s = prefix_at(runs, lo.offset);
    lemma_prefix_is_text(runs, file, lo.offset);
    lemma_ends_are_boundaries(s);
    lemma_pass(s, 0, offset - lo.offset);
    let p = pass(s, 0, offset - lo.offset);
    // What is passed is the text up to there
    lemma_part_boundary(s, file, lo.offset, to, 0);
    if p > to - lo.offset {
        assert(!is_boundary(s, to - lo.offset));
    }
    lemma_part_boundary(s, file, lo.offset, to, p);
    if lo.offset + p < to {
        assert(!is_boundary(file, lo.offset + p));
    }
    assert(lo.offset + p == to);
    // Its columns compare to those at the base
    let w = walk_at(lo);
    lemma_walk_window(s, 0, p, 0, p, a, w);
    assert(s.subrange(0, p) =~= file.subrange(lo.offset, to));
    lemma_walk_window(file, lo.offset, to, 0, p, a, w);
    lemma_walk_sane(file, lo.offset, to, a, w);
    let there = position_in(file, a, lo.offset);
    let from = position_in(file, a, marks[0].offset);
    lemma_ends_are_boundaries(file);
    lemma_walk_cut(file, 0, lo.offset, to, a, Walk::start(true));
    lemma_walk_sane(file, 0, lo.offset, a, Walk::start(true));
    lemma_walk_apart(file, lo.offset, to, a, w, there, from.x);
    lemma_found_truth(map@[i], runs, file, a, k, l, p);
    assert(s.skip(p) =~= file.subrange(to, lo.offset + s.len()));
}

/// Whether the place `to` can be looked up from the mark at `l`: the text up to it is
/// loaded, and its column compares to the one of the mark at `k`.
pub open spec fn offset_known(
    marks: Seq<Mark>,
    runs: Seq<Run>,
    file: Seq<u8>,
    a: Advances,
    k: int,
    l: int,
    to: int,
) -> bool {
    let start = marks[l].offset;
    &&& 0 <= k < marks.len()
    &&& 0 <= l < marks.len()
    &&& to <= start + prefix_at(runs, start).len()
    &&& marks[l].abs == marks[k].abs
    &&& marks[l].abs || position_in(file, a, to).y == position_in(file, a, start).y
}

/// Every line ends somewhere, at or after a place on it or before it.
proof fn lemma_line_ends(file: Seq<u8>, a: Advances, p: int, y: int) -> (end: int)
    requires
        is_boundary(file, p),
        position_in(file, a, p).y <= y <= position_in(file, a, file.len() as int).y,
    ensures
        p <= end,
        on_line(file, a, y, end),
        end == file.len() || is_newline(file, end),
    decreases file.len() - p,
{
    if position_in(file, a, p).y == y && (p == file.len() || is_newline(file, p)) {
        p
    } else {
        lemma_step_in_bounds(file, p);
        lemma_position_step(file, a, p);
        lemma_line_ends(file, a, p + step_len(file, p), y)
    }
}

/// Where a file is mapped and loaded from its start to its end, all columns of all of its lines
/// can be looked up.
pub proof fn lemma_all_known(
    map: LineMap,
    runs: Seq<Run>,
    file: Seq<u8>,
    a: Advances,
    i: int,
    k: int,
    y: int,
    x: int,
) -> (end: int)
    requires
        true_sight(map, runs, file, a),
        0 <= i < map@.len(),
        0 <= k < map@[i].marks.len(),
        map@[i].marks[0].offset == 0,
        forall|j: int| 0 <= j < map@[i].marks.len() ==> (#[trigger] map@[i].marks[j]).abs,
        prefix_at(runs, 0).len() == file.len(),
        0 <= y <= position_in(file, a, file.len() as int).y,
    ensures
        line_known(map@[i].marks, runs, file, a, k, 0, y, x, end),
        end == file.len() || is_newline(file, end),
{
    lemma_ends_are_boundaries(file);
    let end = lemma_line_ends(file, a, 0, y);
    if end < file.len() {
        lemma_step_in_bounds(file, end);
    }
    end
}

} // verus!
