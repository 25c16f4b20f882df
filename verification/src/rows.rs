//! That a visit of a rectangle meets the characters of the file that are in it.

use crate::layout::{shown, Advances, Walk};
use crate::linemap::{is_base, LineMap};
use crate::lines::lemma_position_step;
use crate::loaded::{can_locate, first_line, last_line};
use crate::lookup::{found_at, line_glyphs, line_items, rect_items, Found, Met};
use crate::places::{
    is_newline, is_place, lemma_lookup_place, lemma_place_down, lemma_place_sides,
    lemma_positions_grow, lemma_same_char, line_known, on_line, true_sight, width_at,
};
use crate::position::FileRect;
use crate::runs::Run;
use crate::truth::position_in;
use crate::utf8::{
    char_at, is_boundary, lemma_step_in_bounds, lemma_step_stops_at_boundary,
    lemma_step_to_boundary, step_len,
};
use vstd::prelude::*;

verus! {

/// Whether an item has the position in the file that its offset has, as it is seen from a
/// base, on the line `y` away from the base.
pub open spec fn is_at(item: Met, file: Seq<u8>, a: Advances, base: Walk, y: int) -> bool {
    let at = position_in(file, a, item.offset);
    &&& is_boundary(file, item.offset)
    &&& item.dy == y
    &&& at.y == base.y + y
    &&& item.dx == at.x - base.x
}

/// Whether an item is a character of the file, but not a newline, with its code point and its
/// advance.
pub open spec fn is_glyph(item: Met, file: Seq<u8>, a: Advances) -> bool {
    let c = shown(char_at(file, item.offset));
    &&& item.offset < file.len()
    &&& !is_newline(file, item.offset)
    &&& item.glyph == Some((c, a.of(c)))
}

/// Whether items are the characters of a line from `p` on that start before the column
/// `right`: each once and in order, up to that column or to `end`.
pub open spec fn are_glyphs(
    items: Seq<Met>,
    file: Seq<u8>,
    a: Advances,
    base: Walk,
    y: int,
    right: int,
    p: int,
    end: int,
) -> bool {
    let stop = after_glyphs(items, file, p);
    &&& forall|n: int|
        0 <= n < items.len() ==> #[trigger] is_next(items, file, a, base, y, right, p, n)
    &&& is_boundary(file, stop)
    &&& stop <= end
    &&& stop == end || position_in(file, a, stop).x - base.x >= right
}

/// Whether the item at `n` is the character that comes after the items before it, on its line
/// and before the column `right`.
pub open spec fn is_next(
    items: Seq<Met>,
    file: Seq<u8>,
    a: Advances,
    base: Walk,
    y: int,
    right: int,
    p: int,
    n: int,
) -> bool {
    &&& is_at(items[n], file, a, base, y)
    &&& is_glyph(items[n], file, a)
    &&& items[n].dx < right
    &&& items[n].offset == after_glyphs(items.take(n), file, p)
}

/// The offset right after some characters that start at `p`.
pub open spec fn after_glyphs(items: Seq<Met>, file: Seq<u8>, p: int) -> int {
    if items.len() == 0 {
        p
    } else {
        items.last().offset + step_len(file, items.last().offset)
    }
}

/// What is met on a line are its characters.
proof fn lemma_glyphs(
    d: Found,
    file: Seq<u8>,
    a: Advances,
    base: Walk,
    y: int,
    right: int,
    end: int,
)
    requires
        is_boundary(file, d.offset),
        is_boundary(file, end),
        d.offset <= end <= d.offset + d.data.len() <= file.len(),
        d.data == file.subrange(d.offset, d.offset + d.data.len()),
        end == d.offset + d.data.len() || is_newline(file, end) && end + step_len(file, end)
            <= d.offset + d.data.len(),
        position_in(file, a, end).y == base.y + y,
        position_in(file, a, d.offset).y == base.y + y,
        d.dy == y,
        d.dx == position_in(file, a, d.offset).x - base.x,
    ensures
        are_glyphs(line_glyphs(d, y, right, a), file, a, base, y, right, d.offset, end),
    decreases d.data.len(),
{
    let v = line_glyphs(d, y, right, a);
    let p = d.offset;
    if d.data.len() > 0 && d.dx < right {
        if p < end {
            lemma_positions_grow(file, a, p, end);
            lemma_step_stops_at_boundary(file, p, end);
        }
        lemma_step_in_bounds(file, p);
        lemma_step_to_boundary(file, p);
        lemma_same_char(d.data, file, p, 0);
        if !is_newline(file, p) {
            lemma_position_step(file, a, p);
            let c = shown(char_at(file, p));
            let k = step_len(file, p) as int;
            let next = Found {
                dx: d.dx + a.of(c),
                offset: p + k,
                data: d.data.skip(k),
                ..d
            };
            assert(next.data =~= file.subrange(p + k, p + d.data.len()));
            lemma_glyphs(next, file, a, base, y, right, end);
            let rest = line_glyphs(next, y, right, a);
            let m = Met { offset: p, dx: d.dx, dy: d.dy, glyph: Some((c, a.of(c))) };
            assert(v == seq![m] + rest);
            assert(after_glyphs(v, file, p) == after_glyphs(rest, file, p + k)) by {
                if rest.len() > 0 {
                    assert(v.last() == rest.last());
                }
            }
            assert forall|n: int| 0 <= n < v.len() implies #[trigger] is_next(
                v,
                file,
                a,
                base,
                y,
                right,
                p,
                n,
            ) by {
                if n > 0 {
                    assert(is_next(rest, file, a, base, y, right, p + k, n - 1));
                    assert(v[n] == rest[n - 1]);
                    if n > 1 {
                        assert(v.take(n).last() == v[n - 1]);
                        assert(rest.take(n - 1).last() == rest[n - 2]);
                    } else {
                        assert(v.take(n).last() == v[0]);
                    }
                }
            }
        }
    }
}

/// Whether items are what is met of a line between two columns: first the place where the
/// line has the left one, and from there on its characters up to the right one, or to
/// `end`.
pub open spec fn is_row(
    items: Seq<Met>,
    file: Seq<u8>,
    a: Advances,
    base: Walk,
    y: int,
    left: int,
    right: int,
    end: int,
) -> bool {
    &&& items.len() >= 1
    &&& items[0].glyph is None
    &&& is_at(items[0], file, a, base, y)
    &&& is_place(file, a, base.y + y, base.x + left, 0x100_0000, end, items[0].offset)
    &&& are_glyphs(items.skip(1), file, a, base, y, right, items[0].offset, end)
}

/// Whether the character at `m` is one of line `y` away from a base that is in view between
/// two columns, at least in part, before `end`.
pub open spec fn in_view(
    file: Seq<u8>,
    a: Advances,
    base: Walk,
    y: int,
    left: int,
    right: int,
    end: int,
    m: int,
) -> bool {
    &&& on_line(file, a, base.y + y, m)
    &&& m < end
    &&& position_in(file, a, m).x + width_at(file, a, m) > base.x + left
    &&& position_in(file, a, m).x < base.x + right
}

/// Every character is met that stands before where the items end.
proof fn lemma_glyph_met(
    items: Seq<Met>,
    file: Seq<u8>,
    a: Advances,
    base: Walk,
    y: int,
    right: int,
    p: int,
    end: int,
    m: int,
    n: int,
) -> (r: int)
    requires
        are_glyphs(items, file, a, base, y, right, p, end),
        is_boundary(file, m),
        is_boundary(file, p),
        p <= m < after_glyphs(items.take(n), file, p),
        0 <= n <= items.len(),
    ensures
        0 <= r < n,
        items[r].offset == m,
    decreases n,
{
    assert(n > 0);
    let t = items.take(n);
    assert(t.last() == items[n - 1]);
    let at = items[n - 1].offset;
    assert(is_next(items, file, a, base, y, right, p, n - 1));
    if m == at {
        n - 1
    } else {
        if m > at {
            lemma_step_stops_at_boundary(file, at, m);
        }
        lemma_glyph_met(items, file, a, base, y, right, p, end, m, n - 1)
    }
}

/// The characters of a row come in the order of the file, so that none comes twice.
pub proof fn lemma_row_in_order(
    items: Seq<Met>,
    file: Seq<u8>,
    a: Advances,
    base: Walk,
    y: int,
    left: int,
    right: int,
    end: int,
    m: int,
    n: int,
)
    requires
        is_row(items, file, a, base, y, left, right, end),
        1 <= m < n < items.len(),
    ensures
        items[m].offset < items[n].offset,
    decreases n - m,
{
    let v = items.skip(1);
    assert(items[n] == v[n - 1]);
    assert(items[n - 1] == v[n - 2]);
    assert(v.take(n - 1).last() == v[n - 2]);
    assert(is_next(v, file, a, base, y, right, items[0].offset, n - 2));
    assert(is_next(v, file, a, base, y, right, items[0].offset, n - 1));
    lemma_step_in_bounds(file, v[n - 2].offset);
    if m < n - 1 {
        lemma_row_in_order(items, file, a, base, y, left, right, end, m, n - 1);
    }
}

/// A row holds every character of its line that is in view.
pub proof fn lemma_row_complete(
    items: Seq<Met>,
    file: Seq<u8>,
    a: Advances,
    base: Walk,
    y: int,
    left: int,
    right: int,
    end: int,
    m: int,
) -> (r: int)
    requires
        is_row(items, file, a, base, y, left, right, end),
        in_view(file, a, base, y, left, right, end, m),
    ensures
        1 <= r < items.len(),
        items[r].offset == m,
        is_at(items[r], file, a, base, y),
        is_glyph(items[r], file, a),
{
    let v = items.skip(1);
    let p = items[0].offset;
    let at = position_in(file, a, p);
    let x = base.x + left;
    if m < p {
        lemma_place_sides(file, a, base.y + y, x, 0x100_0000, end, p, m);
        lemma_place_down(file, a, base.y + y, x, end, p);
        lemma_positions_grow(file, a, m, p);
    }
    let stop = after_glyphs(v, file, p);
    if m >= stop {
        lemma_positions_grow(file, a, stop, m);
        lemma_positions_grow(file, a, p, m);
        if v.len() > 0 {
            let last = v[v.len() - 1];
            assert(is_next(v, file, a, base, y, right, p, v.len() - 1));
            lemma_step_in_bounds(file, last.offset);
            lemma_positions_grow(file, a, last.offset, stop);
        }
    }
    assert(v.take(v.len() as int) =~= v);
    let r = lemma_glyph_met(v, file, a, base, y, right, p, end, m, v.len() as int);
    assert(is_next(v, file, a, base, y, right, p, r));
    assert(items[r + 1] == v[r]);
    r + 1
}

/// A visit of a line that is known meets its row.
pub proof fn lemma_visit_row(
    map: LineMap,
    runs: Seq<Run>,
    file: Seq<u8>,
    a: Advances,
    base_offset: int,
    y: int,
    left: int,
    right: int,
    i: int,
    k: int,
    g: int,
    end: int,
)
    requires
        true_sight(map, runs, file, a),
        is_base(map@, base_offset, i, k),
        row_known(map, runs, file, a, y, left, i, k, g, end),
    ensures
        is_row(
            line_items(found_at(map@, runs, a, base_offset, y, left, 0x100_0000), y, right, a),
            file,
            a,
            position_in(file, a, map@[i].marks[k].offset),
            y,
            left,
            right,
            end,
        ),
{
    let base = position_in(file, a, map@[i].marks[k].offset);
    lemma_lookup_place(map, runs, file, a, base_offset, y, left, 0x100_0000, i, k, g, end);
    let d = found_at(map@, runs, a, base_offset, y, left, 0x100_0000).unwrap();
    lemma_glyphs(d, file, a, base, y, right, end);
    let items = line_items(Some(d), y, right, a);
    assert(items.skip(1) =~= line_glyphs(d, y, right, a));
}

/// The part of some items that one line has.
pub open spec fn row_of(items: Seq<Met>, cuts: Seq<int>, n: int) -> Seq<Met> {
    items.subrange(cuts[n], cuts[n + 1])
}

/// Whether items are what is met on the lines from `y0` up to `y1` between two columns: one
/// part for each line, in order. It is the row of the line where that is known, and nothing
/// where the line cannot be looked up.
pub open spec fn are_rows(
    items: Seq<Met>,
    cuts: Seq<int>,
    map: LineMap,
    runs: Seq<Run>,
    file: Seq<u8>,
    a: Advances,
    base_offset: int,
    y0: int,
    y1: int,
    left: int,
    right: int,
    i: int,
    k: int,
) -> bool {
    &&& cuts.len() == y1 - y0 + 1
    &&& cuts[0] == 0
    &&& cuts.last() == items.len()
    &&& forall|n: int|
        #![trigger row_of(items, cuts, n)]
        0 <= n < y1 - y0 ==> is_row_of(
            row_of(items, cuts, n),
            map,
            runs,
            file,
            a,
            base_offset,
            y0 + n,
            left,
            right,
            i,
            k,
        )
    &&& forall|m: int, n: int| 0 <= m <= n < cuts.len() ==> #[trigger] cuts[m] <= #[trigger] cuts[n]
}

/// Whether a row is the one of a line, where that is known, and nothing where the line cannot
/// be looked up.
pub open spec fn is_row_of(
    row: Seq<Met>,
    map: LineMap,
    runs: Seq<Run>,
    file: Seq<u8>,
    a: Advances,
    base_offset: int,
    y: int,
    left: int,
    right: int,
    i: int,
    k: int,
) -> bool {
    &&& !can_locate(map@, base_offset, y) ==> row.len() == 0
    &&& forall|g: int, end: int| #[trigger]
        row_known(map, runs, file, a, y, left, i, k, g, end) ==> is_row(
            row,
            file,
            a,
            position_in(file, a, map@[i].marks[k].offset),
            y,
            left,
            right,
            end,
        )
}

/// Whether the column `left` can be looked up, `y` lines away from a base.
pub open spec fn row_known(
    map: LineMap,
    runs: Seq<Run>,
    file: Seq<u8>,
    a: Advances,
    y: int,
    left: int,
    i: int,
    k: int,
    g: int,
    end: int,
) -> bool {
    let marks = map@[i].marks;
    let base = position_in(file, a, marks[k].offset);
    line_known(marks, runs, file, a, k, g, base.y + y, base.x + left, end)
}

/// A visit of some lines meets the rows of those that are known, and nothing else.
pub proof fn lemma_visit_rows(
    map: LineMap,
    runs: Seq<Run>,
    file: Seq<u8>,
    a: Advances,
    view: FileRect,
    y0: int,
    y1: int,
    i: int,
    k: int,
) -> (cuts: Seq<int>)
    requires
        true_sight(map, runs, file, a),
        is_base(map@, view.corner.base_offset as int, i, k),
        y0 <= y1,
        i128::MIN <= view.corner.delta_x + view.size.x <= i128::MAX,
    ensures
        are_rows(
            rect_items(map@, runs, a, view, y0, y1),
            cuts,
            map,
            runs,
            file,
            a,
            view.corner.base_offset as int,
            y0,
            y1,
            view.corner.delta_x as int,
            view.corner.delta_x + view.size.x,
            i,
            k,
        ),
    decreases y1 - y0,
{
    let b = view.corner.base_offset as int;
    let left = view.corner.delta_x as int;
    let right = view.corner.delta_x + view.size.x;
    let items = rect_items(map@, runs, a, view, y0, y1);
    let marks = map@[i].marks;
    let base = position_in(file, a, marks[k].offset);
    if y0 == y1 {
        let cuts = seq![0int];
        assert(cuts.last() == 0);
        cuts
    } else {
        let row0 = line_items(
            found_at(map@, runs, a, b, y0, left, 0x100_0000),
            y0,
            right,
            a,
        );
        let rest = rect_items(map@, runs, a, view, y0 + 1, y1);
        assert(items == row0 + rest);
        let tail = lemma_visit_rows(map, runs, file, a, view, y0 + 1, y1, i, k);
        let cuts = Seq::new(
            (y1 - y0 + 1) as nat,
            |n: int|
                if n == 0 {
                    0int
                } else {
                    tail[n - 1] + row0.len()
                },
        );
        assert(is_row_of(row0, map, runs, file, a, b, y0, left, right, i, k)) by {
            assert forall|g: int, end: int| #[trigger]
                row_known(map, runs, file, a, y0, left, i, k, g, end) implies is_row(
                row0,
                file,
                a,
                base,
                y0,
                left,
                right,
                end,
            ) by {
                lemma_visit_row(map, runs, file, a, b, y0, left, right, i, k, g, end);
            }
        }
        assert forall|n: int| 0 <= n < y1 - y0 implies is_row_of(
            #[trigger] row_of(items, cuts, n),
            map,
            runs,
            file,
            a,
            b,
            y0 + n,
            left,
            right,
            i,
            k,
        ) by {
            let row = row_of(items, cuts, n);
            assert(tail[tail.len() - 1] == rest.len());
            if n == 0 {
                assert(tail[0] == 0);
                assert(row =~= row0);
            } else {
                let old = row_of(rest, tail, n - 1);
                assert(is_row_of(old, map, runs, file, a, b, y0 + 1 + (n - 1), left, right, i, k));
                assert(row =~= old);
            }
        }
        assert(cuts.last() == tail.last() + row0.len());
        assert(cuts[y1 - y0] == cuts.last());
        cuts
    }
}

/// The lines of a rectangle are those that are in it, at least in part.
pub proof fn lemma_rect_lines(view: FileRect, y: int)
    requires
        i64::MIN * 0x100_0000 <= view.corner.delta_y,
        view.corner.delta_y + view.size.y <= i64::MAX * 0x100_0000,
        0 <= view.size.y,
    ensures
        first_line(view) <= y < last_line(view) <==> (y + 1) * 0x100_0000 > view.corner.delta_y && y
            * 0x100_0000 < view.corner.delta_y + view.size.y,
{
}

/// A visit of a rectangle meets every character of the file that is in it, on a line that is
/// known: with its offset, its code point, its advance, and the position that it has in the
/// file, as it is seen from the mark of the base.
pub proof fn lemma_visit_rect(
    map: LineMap,
    runs: Seq<Run>,
    file: Seq<u8>,
    a: Advances,
    view: FileRect,
    i: int,
    k: int,
    g: int,
    end: int,
    y: int,
    m: int,
) -> (n: int)
    requires
        true_sight(map, runs, file, a),
        is_base(map@, view.corner.base_offset as int, i, k),
        i64::MIN * 0x100_0000 <= view.corner.delta_y,
        view.corner.delta_y + view.size.y <= i64::MAX * 0x100_0000,
        0 <= view.size.y,
        i128::MIN <= view.corner.delta_x + view.size.x <= i128::MAX,
        (y + 1) * 0x100_0000 > view.corner.delta_y,
        y * 0x100_0000 < view.corner.delta_y + view.size.y,
        row_known(map, runs, file, a, y, view.corner.delta_x as int, i, k, g, end),
        in_view(
            file,
            a,
            position_in(file, a, map@[i].marks[k].offset),
            y,
            view.corner.delta_x as int,
            view.corner.delta_x + view.size.x,
            end,
            m,
        ),
    ensures
        ({
            let items = rect_items(map@, runs, a, view, first_line(view), last_line(view));
            let base = position_in(file, a, map@[i].marks[k].offset);
            &&& 0 <= n < items.len()
            &&& items[n].offset == m
            &&& is_at(items[n], file, a, base, y)
            &&& is_glyph(items[n], file, a)
        }),
{
    let y0 = first_line(view);
    let y1 = last_line(view);
    let left = view.corner.delta_x as int;
    let right = view.corner.delta_x + view.size.x;
    let items = rect_items(map@, runs, a, view, y0, y1);
    let base = position_in(file, a, map@[i].marks[k].offset);
    lemma_rect_lines(view, y);
    let cuts = lemma_visit_rows(map, runs, file, a, view, y0, y1, i, k);
    let row = row_of(items, cuts, y - y0);
    assert(is_row_of(
        row,
        map,
        runs,
        file,
        a,
        view.corner.base_offset as int,
        y0 + (y - y0),
        left,
        right,
        i,
        k,
    ));
    assert(is_row(row, file, a, base, y, left, right, end));
    let r = lemma_row_complete(row, file, a, base, y, left, right, end, m);
    assert(cuts[cuts.len() - 1] == items.len());
    assert(row[r] == items[cuts[y - y0] + r]);
    cuts[y - y0] + r
}

} // verus!
