//! Where moves of the cursor lead in a file, and what of it stays on screen.

use crate::answers::{lemma_has_located, lemma_prefix_is_text, lemma_walk_apart};
use crate::fileview::{
    after_move, after_moves, key_moves, target, Key, MoveCmd, MoveKind, ScrollManager, Selected,
    Sight,
};
use crate::layout::{
    lemma_walk_cut, lemma_walk_sane, lemma_walk_window, shown, walk, Advances, Walk,
};
use crate::linemap::{at_or_before, is_base, is_located_lower, is_lower, is_mapped, LineMap};
use crate::loaded::can_locate;
use crate::lookup::{backward, forward, lemma_base_of, lower_of, moved, stop_at, walk_at};
use crate::marks::{sound, width, LIMIT};
use crate::places::{
    is_char, is_line_start, is_newline, is_place, lemma_line_start, lemma_lookup_offset_place,
    lemma_lookup_place, lemma_part_boundary, lemma_positions_grow, lemma_same_char, line_known,
    offset_known, true_sight,
};
use crate::position::{to_distance, FilePos};
use crate::runs::{agrees, covers, held, holder, lemma_bytes_at, ordered, prefix_at, suffix_at, Run};
use crate::truth::{position_in, tells};
use crate::utf8::{
    char_at, is_boundary, is_sequence, lead_len, lemma_ends_are_boundaries, lemma_lead_is_boundary,
    lemma_step_in_bounds, lemma_step_stops_at_boundary, lemma_step_to_boundary, lemma_window,
    step_back_len, step_len,
};
use vstd::prelude::*;

verus! {

/// Whether the cursor stands between two characters at `at`, where the mark at `k` of the
/// segment at `i` is the one before it, from which its column is known.
pub open spec fn stands(
    map: LineMap,
    runs: Seq<Run>,
    file: Seq<u8>,
    a: Advances,
    i: int,
    k: int,
    at: int,
) -> bool {
    &&& true_sight(map, runs, file, a)
    &&& is_boundary(file, at)
    &&& is_base(map@, at, i, k)
    &&& offset_known(map@[i].marks, runs, file, a, k, k, at)
}

/// The position of the mark before the cursor is small, and so is the one of the cursor.
proof fn lemma_stands(
    map: LineMap,
    runs: Seq<Run>,
    file: Seq<u8>,
    a: Advances,
    i: int,
    k: int,
    at: int,
)
    requires
        stands(map, runs, file, a, i, k, at),
    ensures
        ({
            let m = map@[i].marks[k];
            let base = position_in(file, a, m.offset);
            let here = position_in(file, a, at);
            &&& tells(map@[i].marks, file, a)
            &&& is_boundary(file, m.offset)
            &&& 0 <= m.offset <= at <= file.len()
            &&& at <= i64::MAX
            &&& 0 <= base.y <= here.y <= at
            &&& 0 <= base.x <= width(i64::MAX as int)
            &&& 0 <= here.x <= width(i64::MAX as int)
        }),
{
    let marks = map@[i].marks;
    assert(map@[i] == map.segments@[i]@);
    assert(map.segments@[i].readable());
    assert(tells(marks, file, a));
    let m = marks[k];
    assert(sound(m));
    assert(is_lower(marks, at, k));
    lemma_positions_grow(file, a, m.offset, at);
    lemma_ends_are_boundaries(file);
    lemma_positions_grow(file, a, 0, m.offset);
    lemma_reach_fits(runs, m.offset);
    assert(position_in(file, a, at).x <= width(at));
    assert(width(at) <= width(i64::MAX as int));
    assert(position_in(file, a, m.offset).x <= width(m.offset));
    assert(width(m.offset) <= width(i64::MAX as int));
}

/// Loaded text ends at an offset.
proof fn lemma_reach_fits(runs: Seq<Run>, p: int)
    requires
        ordered(runs),
        0 <= p <= LIMIT,
    ensures
        p + prefix_at(runs, p).len() <= i64::MAX,
{
    if held(runs, p) {
        let r = holder(runs, p);
        assert(covers(runs, r, p));
        assert(runs[r].end() <= i64::MAX);
    }
}

/// Moving by some lines leads from a cursor on line `n` of the file, at a column `x`, to the
/// place on line `n + delta` that is nearest to that column.
pub proof fn lemma_move_lines(
    map: LineMap,
    runs: Seq<Run>,
    file: Seq<u8>,
    a: Advances,
    from: i64,
    delta: i64,
    i: int,
    k: int,
    g: int,
    end: int,
)
    requires
        stands(map, runs, file, a, i, k, from as int),
        line_known(
            map@[i].marks,
            runs,
            file,
            a,
            k,
            g,
            position_in(file, a, from as int).y + delta,
            position_in(file, a, from as int).x,
            end,
        ),
    ensures
        is_place(
            file,
            a,
            position_in(file, a, from as int).y + delta,
            position_in(file, a, from as int).x,
            0x80_0000,
            end,
            target(Sight { map: map@, runs, a }, from, MoveKind::LineDelta(delta)),
        ),
{
    let marks = map@[i].marks;
    let base = position_in(file, a, marks[k].offset);
    let here = position_in(file, a, from as int);
    lemma_stands(map, runs, file, a, i, k, from as int);
    lemma_lookup_offset_place(map, runs, file, a, from as int, from as int, i, k, k, from as int);
    let y = here.y - base.y + delta;
    let x = here.x - base.x;
    assert(sound(marks[g])) by {
        assert(map@[i] == map.segments@[i]@);
        assert(map.segments@[i].readable());
    }
    lemma_reach_fits(runs, marks[g].offset);
    lemma_ends_are_boundaries(file);
    lemma_positions_grow(file, a, 0, end);
    lemma_lookup_place(map, runs, file, a, from as int, y, x, 0x80_0000, i, k, g, end);
}

/// Moving up past the first line that is known leads to where what is known starts.
pub proof fn lemma_move_above(
    map: LineMap,
    runs: Seq<Run>,
    file: Seq<u8>,
    a: Advances,
    from: i64,
    delta: i64,
    i: int,
    k: int,
)
    requires
        stands(map, runs, file, a, i, k, from as int),
        map@[i].marks[k].abs,
        position_in(file, a, from as int).y + delta < position_in(
            file,
            a,
            map@[i].marks[0].offset,
        ).y,
    ensures
        target(Sight { map: map@, runs, a }, from, MoveKind::LineDelta(delta))
            == map@[i].marks[0].offset,
{
    let marks = map@[i].marks;
    let base = marks[k];
    let here = position_in(file, a, from as int);
    lemma_stands(map, runs, file, a, i, k, from as int);
    lemma_base_of(map, from as int, i, k);
    lemma_lookup_offset_place(map, runs, file, a, from as int, from as int, i, k, k, from as int);
    let y = here.y - position_in(file, a, base.offset).y + delta;
    let x = here.x - position_in(file, a, base.offset).x;
    assert(can_locate(map@, from as int, y));
    assert(map@[i] == map.segments@[i]@);
    assert(map.segments@[i].readable());
    lemma_has_located(map.segments@[i], base.y + y, base.x + x, marks.len() as int);
    let l = lower_of(marks, base.y + y, base.x + x);
    assert(is_located_lower(marks, base.y + y, base.x + x, l));
    assert(sound(marks[l]));
    assert(!at_or_before(marks[l], base.y + y, base.x + x));
    assert(l == 0);
}

/// A search for a line that a text does not reach ends with the text.
proof fn lemma_search_past(
    s: Seq<u8>,
    p: int,
    w: Walk,
    y: int,
    x: int,
    hdiv: int,
    a: Advances,
)
    requires
        is_boundary(s, p),
        walk(s, p, s.len() as int, a, w).y < y,
    ensures
        stop_at(s, p, w, y, x, hdiv, a) == s.len(),
    decreases s.len() - p,
{
    lemma_ends_are_boundaries(s);
    lemma_walk_lines(s, p, s.len() as int, a, w);
    if p < s.len() {
        lemma_step_in_bounds(s, p);
        lemma_step_to_boundary(s, p);
        lemma_search_past(
            s,
            p + step_len(s, p),
            w.step(shown(char_at(s, p)), a),
            y,
            x,
            hdiv,
            a,
        );
    }
}

/// A walk never goes up.
proof fn lemma_walk_lines(s: Seq<u8>, p: int, q: int, a: Advances, w: Walk)
    ensures
        walk(s, p, q, a, w).y >= w.y,
    decreases
            if p < q {
                q - p
            } else {
                0
            },
{
    if p < q {
        lemma_walk_lines(s, p + step_len(s, p), q, a, w.step(shown(char_at(s, p)), a));
    }
}

/// Moving down past the last line that is loaded leads to where what is loaded ends.
pub proof fn lemma_move_below(
    map: LineMap,
    runs: Seq<Run>,
    file: Seq<u8>,
    a: Advances,
    from: i64,
    delta: i64,
    i: int,
    k: int,
)
    requires
        stands(map, runs, file, a, i, k, from as int),
        map@[i].marks[k].abs,
        position_in(file, a, from as int).y + delta <= i64::MAX,
        ({
            let last = map@[i].marks.last().offset;
            let reach = last + prefix_at(runs, last).len();
            &&& is_boundary(file, reach)
            &&& position_in(file, a, reach).y < position_in(file, a, from as int).y + delta
        }),
    ensures
        ({
            let last = map@[i].marks.last().offset;
            target(Sight { map: map@, runs, a }, from, MoveKind::LineDelta(delta)) == last
                + prefix_at(runs, last).len()
        }),
{
    let marks = map@[i].marks;
    let base = marks[k];
    let here = position_in(file, a, from as int);
    lemma_stands(map, runs, file, a, i, k, from as int);
    lemma_base_of(map, from as int, i, k);
    lemma_lookup_offset_place(map, runs, file, a, from as int, from as int, i, k, k, from as int);
    let y = here.y - position_in(file, a, base.offset).y + delta;
    let x = here.x - position_in(file, a, base.offset).x;
    assert(can_locate(map@, from as int, y));
    assert(map@[i] == map.segments@[i]@);
    assert(map.segments@[i].readable());
    lemma_has_located(map.segments@[i], base.y + y, base.x + x, marks.len() as int);
    let l = lower_of(marks, base.y + y, base.x + x);
    assert(is_located_lower(marks, base.y + y, base.x + x, l));
    // The last mark is the one that is found
    let n = marks.len() - 1;
    let lo = marks[n];
    assert(sound(lo));
    let s = prefix_at(runs, lo.offset);
    let reach = lo.offset + s.len();
    let from0 = position_in(file, a, marks[0].offset);
    assert(position_in(file, a, lo.offset).y == lo.y + from0.y);
    assert(position_in(file, a, base.offset).y == base.y + from0.y);
    lemma_positions_grow(file, a, lo.offset, reach);
    assert(at_or_before(lo, base.y + y, base.x + x));
    if l < n {
        assert(!at_or_before(marks[n], base.y + y, base.x + x));
    }
    // ... and the text from there on does not reach the line
    lemma_prefix_is_text(runs, file, lo.offset);
    let w = walk_at(lo);
    lemma_ends_are_boundaries(s);
    lemma_ends_are_boundaries(file);
    lemma_walk_window(file, lo.offset, reach, 0, s.len() as int, a, w);
    lemma_walk_cut(file, 0, lo.offset, reach, a, Walk::start(true));
    lemma_walk_sane(file, 0, lo.offset, a, Walk::start(true));
    lemma_walk_apart(file, lo.offset, reach, a, w, position_in(file, a, lo.offset), from0.x);
    lemma_search_past(s, 0, w, base.y + y, base.x + x, 0x80_0000, a);
}

/// Moving by some distance leads from a cursor at the column `x` to the place on its line
/// that is nearest to the column `x + delta`.
pub proof fn lemma_move_columns(
    map: LineMap,
    runs: Seq<Run>,
    file: Seq<u8>,
    a: Advances,
    from: i64,
    delta: i128,
    i: int,
    k: int,
    g: int,
    end: int,
)
    requires
        stands(map, runs, file, a, i, k, from as int),
        -0x4000_0000_0000_0000_0000_0000_0000_0000 <= delta
            <= 0x4000_0000_0000_0000_0000_0000_0000_0000,
        line_known(
            map@[i].marks,
            runs,
            file,
            a,
            k,
            g,
            position_in(file, a, from as int).y,
            position_in(file, a, from as int).x + delta,
            end,
        ),
    ensures
        is_place(
            file,
            a,
            position_in(file, a, from as int).y,
            position_in(file, a, from as int).x + delta,
            0x80_0000,
            end,
            target(Sight { map: map@, runs, a }, from, MoveKind::HorizontalDelta(delta)),
        ),
{
    let marks = map@[i].marks;
    let base = position_in(file, a, marks[k].offset);
    let here = position_in(file, a, from as int);
    lemma_stands(map, runs, file, a, i, k, from as int);
    lemma_lookup_offset_place(map, runs, file, a, from as int, from as int, i, k, k, from as int);
    let y = here.y - base.y;
    let x = here.x - base.x + delta;
    lemma_lookup_place(map, runs, file, a, from as int, y, x, 0x80_0000, i, k, g, end);
}

/// The key `Home` leads to the start of the line of the cursor.
pub proof fn lemma_home(
    map: LineMap,
    runs: Seq<Run>,
    file: Seq<u8>,
    a: Advances,
    from: i64,
    shift: bool,
    page: i64,
    size: i64,
    i: int,
    k: int,
    g: int,
    end: int,
)
    requires
        stands(map, runs, file, a, i, k, from as int),
        line_known(
            map@[i].marks,
            runs,
            file,
            a,
            k,
            g,
            position_in(file, a, from as int).y,
            -1,
            end,
        ),
    ensures
        ({
            let cmds = key_moves(Key::Home, false, shift, page, size);
            let to = target(Sight { map: map@, runs, a }, from, cmds[0].kind);
            &&& cmds.len() == 1
            &&& cmds[0].reset == !shift
            &&& is_line_start(file, to)
            &&& is_boundary(file, to)
            &&& position_in(file, a, to).y == position_in(file, a, from as int).y
            &&& position_in(file, a, to).x == 0
        }),
{
    let marks = map@[i].marks;
    let base = position_in(file, a, marks[k].offset);
    let here = position_in(file, a, from as int);
    lemma_stands(map, runs, file, a, i, k, from as int);
    lemma_lookup_offset_place(map, runs, file, a, from as int, from as int, i, k, k, from as int);
    let y = here.y - base.y;
    let x = to_distance(here.x - base.x + i128::MIN);
    // No place of the line lies before the column -1, so it is as good as any before it
    assert(base.x + x < -1);
    assert(position_in(file, a, marks[g].offset).x >= 0) by {
        assert(map@[i] == map.segments@[i]@);
        assert(map.segments@[i].readable());
        assert(sound(marks[g]));
        lemma_positions_grow(file, a, marks[g].offset, marks[g].offset);
    }
    lemma_positions_grow(file, a, end, end);
    lemma_lookup_place(map, runs, file, a, from as int, y, x, 0x80_0000, i, k, g, end);
    let to = target(Sight { map: map@, runs, a }, from, MoveKind::HorizontalDelta(i128::MIN));
    lemma_positions_grow(file, a, to, to);
    if !is_line_start(file, to) {
        let q = choose|q: int| #[trigger]
            is_char(file, q, to) && position_in(file, a, q).y == here.y && position_in(file, a, q).x
                < base.x + x;
        lemma_positions_grow(file, a, q, q);
    }
    lemma_line_start(file, a, to);
}

/// The key `End` leads to the end of the line of the cursor.
pub proof fn lemma_end(
    map: LineMap,
    runs: Seq<Run>,
    file: Seq<u8>,
    a: Advances,
    from: i64,
    shift: bool,
    page: i64,
    size: i64,
    i: int,
    k: int,
    g: int,
    end: int,
)
    requires
        stands(map, runs, file, a, i, k, from as int),
        line_known(
            map@[i].marks,
            runs,
            file,
            a,
            k,
            g,
            position_in(file, a, from as int).y,
            0x4000_0000_0000_0000_0000_0000_0000_0000,
            end,
        ),
    ensures
        ({
            let cmds = key_moves(Key::End, false, shift, page, size);
            let to = target(Sight { map: map@, runs, a }, from, cmds[0].kind);
            &&& cmds.len() == 1
            &&& cmds[0].reset == !shift
            &&& to == end
            &&& end == file.len() || is_newline(file, end)
        }),
{
    let marks = map@[i].marks;
    let base = position_in(file, a, marks[k].offset);
    let here = position_in(file, a, from as int);
    lemma_stands(map, runs, file, a, i, k, from as int);
    lemma_lookup_offset_place(map, runs, file, a, from as int, from as int, i, k, k, from as int);
    let y = here.y - base.y;
    let x = to_distance(here.x - base.x + i128::MAX);
    assert(map@[i] == map.segments@[i]@);
    assert(map.segments@[i].readable());
    assert(sound(marks[g]));
    lemma_reach_fits(runs, marks[g].offset);
    lemma_ends_are_boundaries(file);
    lemma_positions_grow(file, a, 0, end);
    assert(width(end) <= width(i64::MAX as int));
    lemma_lookup_place(map, runs, file, a, from as int, y, x, 0x80_0000, i, k, g, end);
    let to = target(Sight { map: map@, runs, a }, from, MoveKind::HorizontalDelta(i128::MAX));
    lemma_positions_grow(file, a, 0, to);
    assert(width(to) <= width(i64::MAX as int));
}

/// Clicking at a position leads to the place in the file that is nearest to it on the line
/// that it is on, as it is seen from the mark before the base of the position.
pub proof fn lemma_click(
    map: LineMap,
    runs: Seq<Run>,
    file: Seq<u8>,
    a: Advances,
    from: i64,
    pos: FilePos,
    i: int,
    k: int,
    g: int,
    end: int,
)
    requires
        true_sight(map, runs, file, a),
        is_base(map@, pos.base_offset as int, i, k),
        i64::MIN * 0x100_0000 <= pos.delta_y < i64::MAX * 0x100_0000,
        line_known(
            map@[i].marks,
            runs,
            file,
            a,
            k,
            g,
            position_in(file, a, map@[i].marks[k].offset).y + pos.delta_y as int / 0x100_0000,
            position_in(file, a, map@[i].marks[k].offset).x + pos.delta_x,
            end,
        ),
    ensures
        is_place(
            file,
            a,
            position_in(file, a, map@[i].marks[k].offset).y + pos.delta_y as int / 0x100_0000,
            position_in(file, a, map@[i].marks[k].offset).x + pos.delta_x,
            0x80_0000,
            end,
            target(Sight { map: map@, runs, a }, from, MoveKind::Absolute(pos)),
        ),
{
    lemma_lookup_place(
        map,
        runs,
        file,
        a,
        pos.base_offset as int,
        pos.delta_y as int / 0x100_0000,
        pos.delta_x as int,
        0x80_0000,
        i,
        k,
        g,
        end,
    );
}

/// How many characters of the text lie between `p` and `q`.
pub open spec fn chars_between(file: Seq<u8>, p: int, q: int) -> nat
    decreases
            if p < q {
                q - p
            } else {
                0
            },
{
    if p < q {
        1 + chars_between(file, p + step_len(file, p), q)
    } else {
        0
    }
}

/// One more character at the end.
proof fn lemma_chars_more(file: Seq<u8>, p: int, q: int, r: int)
    requires
        is_boundary(file, p),
        p <= q,
        is_char(file, q, r),
    ensures
        chars_between(file, p, r) == chars_between(file, p, q) + 1,
    decreases q - p,
{
    lemma_step_in_bounds(file, q);
    if p < q {
        lemma_step_in_bounds(file, p);
        lemma_step_to_boundary(file, p);
        lemma_step_stops_at_boundary(file, p, q);
        lemma_chars_more(file, p + step_len(file, p), q, r);
    } else {
        assert(chars_between(file, r, r) == 0);
    }
}

/// A character of the text ends at every place between two of them, but for the start, and
/// decoding backwards finds it.
proof fn lemma_char_back(file: Seq<u8>, e: int)
    requires
        is_boundary(file, e),
        0 < e,
    ensures
        1 <= step_back_len(file, e) <= e,
        is_char(file, e - step_back_len(file, e), e),
{
    let k = step_back_len(file, e) as int;
    let q = e - k;
    if is_sequence(file, q, k as nat) {
        assert(lead_len(file[q]) == k);
        lemma_lead_is_boundary(file, q);
    } else {
        assert(k == 1);
        assert forall|m: int, n: nat| #[trigger] is_sequence(file, m, n) && m < q implies m + n
            <= q by {
            if m + n > q {
                assert(m + n == e);
                assert(n == 1 || n == 2 || n == 3 || n == 4);
            }
        }
        if is_sequence(file, q, lead_len(file[q])) {
            assert(q + lead_len(file[q]) <= e);
        }
    }
}

/// Moving forward passes as many characters as it should, or goes to the end.
proof fn lemma_forward_chars(s: Seq<u8>, file: Seq<u8>, o: int, n: nat)
    requires
        0 <= o,
        o + s.len() <= file.len(),
        s == file.subrange(o, o + s.len()),
        is_boundary(file, o),
        is_boundary(file, o + s.len()),
    ensures
        ({
            let (done, d) = forward(s, n);
            &&& 0 <= d <= s.len()
            &&& is_boundary(file, o + d)
            &&& done ==> chars_between(file, o, o + d) == n
            &&& !done ==> d == s.len() && chars_between(file, o, o + d) < n
        }),
    decreases n,
{
    if n > 0 && s.len() > 0 {
        let k = step_len(file, o) as int;
        lemma_step_in_bounds(file, o);
        lemma_step_to_boundary(file, o);
        lemma_step_stops_at_boundary(file, o, o + s.len());
        lemma_same_char(s, file, o, 0);
        assert(s.skip(k) =~= file.subrange(o + k, o + s.len()));
        lemma_forward_chars(s.skip(k), file, o + k, (n - 1) as nat);
    }
}

/// Moving back passes as many characters as it should, or goes to the start.
proof fn lemma_backward_chars(s: Seq<u8>, file: Seq<u8>, o: int, n: nat)
    requires
        0 <= o,
        o + s.len() <= file.len(),
        s == file.subrange(o, o + s.len()),
        is_boundary(file, o),
        is_boundary(file, o + s.len()),
    ensures
        ({
            let (done, d) = backward(s, n);
            let e = o + s.len();
            &&& -s.len() <= d <= 0
            &&& is_boundary(file, e + d)
            &&& done ==> chars_between(file, e + d, e) == n
            &&& !done ==> d == -s.len() && chars_between(file, e + d, e) < n
        }),
    decreases n,
{
    if n > 0 && s.len() > 0 {
        let e = o + s.len();
        lemma_part_boundary(s, file, o, e, 0);
        lemma_char_back(s, s.len() as int);
        let k = step_back_len(s, s.len() as int) as int;
        let t = s.take(s.len() - k);
        lemma_part_boundary(s, file, o, e, s.len() - k);
        lemma_window(file, o, e, s.len() - k);
        assert(t =~= file.subrange(o, e - k));
        lemma_backward_chars(t, file, o, (n - 1) as nat);
        let d = backward(s, n).1;
        assert(is_char(file, e - k, e));
        lemma_chars_more(file, e + d, e - k, e);
    }
}

/// Moving by some characters passes as many of them, or all that are loaded there: forward
/// for a positive number, and back for a negative one.
pub proof fn lemma_move_chars(s: Sight, file: Seq<u8>, from: i64, delta: i16)
    requires
        ordered(s.runs),
        agrees(s.runs, file),
        is_boundary(file, from as int),
        is_boundary(file, from + prefix_at(s.runs, from as int).len()),
        is_boundary(file, from - suffix_at(s.runs, from as int).len()),
    ensures
        ({
            let to = target(s, from, MoveKind::CharDelta(delta));
            let least = from - suffix_at(s.runs, from as int).len();
            let most = from + prefix_at(s.runs, from as int).len();
            &&& is_boundary(file, to)
            &&& delta >= 0 ==> {
                &&& from <= to <= most
                &&& chars_between(file, from as int, to) == delta || to == most && chars_between(
                    file,
                    from as int,
                    to,
                ) < delta
            }
            &&& delta < 0 ==> {
                &&& least <= to <= from
                &&& chars_between(file, to, from as int) == -delta || to == least && chars_between(
                    file,
                    to,
                    from as int,
                ) < -delta
            }
        }),
{
    lemma_char_delta(s.runs, file, from, delta);
    let o = from as int;
    if delta >= 0 {
        lemma_prefix_is_text(s.runs, file, o);
        lemma_forward_chars(prefix_at(s.runs, o), file, o, delta as nat);
    } else {
        let b = suffix_at(s.runs, o);
        lemma_suffix_is_text(s.runs, file, o);
        lemma_backward_chars(b, file, o - b.len(), (-delta) as nat);
    }
}

/// The longest loaded text before an offset is the text of the file there.
proof fn lemma_suffix_is_text(runs: Seq<Run>, file: Seq<u8>, p: int)
    requires
        ordered(runs),
        agrees(runs, file),
        0 <= p <= file.len(),
    ensures
        suffix_at(runs, p).len() <= p,
        suffix_at(runs, p) == file.subrange(p - suffix_at(runs, p).len(), p),
{
    let s = suffix_at(runs, p);
    if held(runs, p - 1) {
        let i = holder(runs, p - 1);
        assert(covers(runs, i, p - 1));
        assert(runs[i].at >= 0);
        assert forall|m: int| 0 <= m < s.len() implies s[m] == file[p - s.len() + m] by {
            let q = p - s.len() + m;
            assert(covers(runs, i, q));
            lemma_bytes_at(runs, i, q);
            assert(held(runs, q));
        }
    }
    assert(s =~= file.subrange(p - s.len(), p));
}

/// Moving an offset by some characters succeeds if and only if as many of them are loaded
/// there, and then passes just these. Else it passes all that are loaded.
pub proof fn lemma_char_delta(runs: Seq<Run>, file: Seq<u8>, from: i64, delta: i16)
    requires
        ordered(runs),
        agrees(runs, file),
        is_boundary(file, from as int),
        is_boundary(file, from + prefix_at(runs, from as int).len()),
        is_boundary(file, from - suffix_at(runs, from as int).len()),
    ensures
        ({
            let o = from as int;
            let least = o - suffix_at(runs, o).len();
            let most = o + prefix_at(runs, o).len();
            &&& delta >= 0 ==> match moved(from, forward(prefix_at(runs, o), delta as nat)) {
                Ok(to) => from <= to <= most && chars_between(file, o, to as int) == delta,
                Err(to) => to == most && chars_between(file, o, most) < delta,
            }
            &&& delta < 0 ==> match moved(from, backward(suffix_at(runs, o), (-delta) as nat)) {
                Ok(to) => least <= to <= from && chars_between(file, to as int, o) == -delta,
                Err(to) => to == least && chars_between(file, least, o) < -delta,
            }
        }),
{
    let o = from as int;
    if delta >= 0 {
        lemma_prefix_is_text(runs, file, o);
        if held(runs, o) {
            let r = holder(runs, o);
            assert(covers(runs, r, o));
            assert(runs[r].end() <= i64::MAX);
        }
        lemma_forward_chars(prefix_at(runs, o), file, o, delta as nat);
    } else {
        let b = suffix_at(runs, o);
        lemma_suffix_is_text(runs, file, o);
        lemma_backward_chars(b, file, o - b.len(), (-delta) as nat);
    }
}

/// Whether a cursor from `lo` to `hi` is on a screen of the given size that is scrolled to
/// `at`, with some padding on both sides.
pub open spec fn on_screen(at: int, size: int, lo: int, hi: int, pad: int) -> bool {
    at <= lo - pad && hi + pad <= at + size
}

/// Whether a scroll coordinate went from `old` to `new` to bring a cursor on screen, but no
/// farther than that. On a screen that is too small for the cursor and its padding, it shows
/// the end of them.
pub open spec fn just_scrolled(old: int, new: int, size: int, lo: int, hi: int, pad: int) -> bool {
    if hi - lo + 2 * pad <= size {
        &&& on_screen(new, size, lo, hi, pad)
        &&& on_screen(old, size, lo, hi, pad) ==> new == old
        &&& new < old ==> new == lo - pad
        &&& new > old ==> new == hi + pad - size
    } else {
        new == hi + pad - size
    }
}

/// After a move, the position of the cursor is the one that it has in the file, as it is seen
/// from the mark before the base of the scroll position, and the screen shows it: the scroll
/// position moved as little as it takes to have the cursor on screen, up, down, left and
/// right, with the padding around it, where the screen has room for that.
pub proof fn lemma_move_scrolls(
    map: LineMap,
    runs: Seq<Run>,
    file: Seq<u8>,
    a: Advances,
    sel: Selected,
    scroll: ScrollManager,
    cmd: MoveCmd,
    pad: int,
    i: int,
    k: int,
    l: int,
)
    requires
        true_sight(map, runs, file, a),
        is_base(map@, scroll.pos.base_offset as int, i, k),
        ({
            let to = after_move(Sight { map: map@, runs, a }, sel, scroll, cmd, pad).0.second;
            &&& is_boundary(file, to as int)
            &&& is_base(map@, to as int, i, l)
            &&& offset_known(map@[i].marks, runs, file, a, k, l, to as int)
        }),
        0 <= pad <= 0x1_0000_0000_0000_0000_0000_0000_0000,
        0 <= scroll.last_view.size.x <= 0x1_0000_0000_0000_0000_0000_0000_0000,
        0 <= scroll.last_view.size.y <= 0x1_0000_0000_0000_0000_0000_0000_0000,
    ensures
        ({
            let s = Sight { map: map@, runs, a };
            let (new_sel, new) = after_move(s, sel, scroll, cmd, pad);
            let base = position_in(file, a, map@[i].marks[k].offset);
            let here = position_in(file, a, new_sel.second as int);
            let x = here.x - base.x;
            let y = (here.y - base.y) * 0x100_0000;
            let size = scroll.last_view.size;
            &&& new_sel.second_pos == Some(
                FilePos {
                    base_offset: scroll.pos.base_offset,
                    delta_x: x as i128,
                    delta_y: y as i128,
                },
            )
            &&& i128::MIN <= x <= i128::MAX
            &&& i128::MIN <= y <= i128::MAX
            &&& just_scrolled(
                scroll.pos.delta_x as int,
                new.pos.delta_x as int,
                size.x as int,
                x,
                x,
                pad,
            )
            &&& just_scrolled(
                scroll.pos.delta_y as int,
                new.pos.delta_y as int,
                size.y as int,
                y,
                y + 0x100_0000,
                pad,
            )
            &&& new.pos.base_offset == scroll.pos.base_offset
            &&& new.last_view == scroll.last_view
            &&& new.last_bounds == scroll.last_bounds
        }),
{
    let s = Sight { map: map@, runs, a };
    let to = after_move(s, sel, scroll, cmd, pad).0.second as int;
    let marks = map@[i].marks;
    assert(map@[i] == map.segments@[i]@);
    assert(map.segments@[i].readable());
    assert(tells(marks, file, a));
    assert(sound(marks[k]) && sound(marks[l]));
    lemma_lookup_offset_place(
        map,
        runs,
        file,
        a,
        scroll.pos.base_offset as int,
        to,
        i,
        k,
        l,
        to,
    );
    lemma_ends_are_boundaries(file);
    lemma_positions_grow(file, a, 0, marks[k].offset);
    lemma_positions_grow(file, a, 0, to);
    assert(width(to) <= width(i64::MAX as int));
    assert(width(marks[k].offset) <= width(i64::MAX as int));
}

/// The cursor stays where it is where it is not known where the move leads: where the cursor
/// is not mapped, or where the line cannot be looked up.
pub proof fn lemma_move_stays(
    map: LineMap,
    runs: Seq<Run>,
    a: Advances,
    from: i64,
    lines: i64,
    dx: i128,
    pos: FilePos,
)
    ensures
        ({
            let s = Sight { map: map@, runs, a };
            let line = pos.delta_y as int / 0x100_0000;
            &&& !is_mapped(map@, from as int) ==> target(s, from, MoveKind::LineDelta(lines)) == from
            &&& !is_mapped(map@, from as int) ==> target(s, from, MoveKind::HorizontalDelta(dx))
                == from
            &&& i64::MIN <= line <= i64::MAX && !can_locate(map@, pos.base_offset as int, line)
                ==> target(s, from, MoveKind::Absolute(pos)) == from
            &&& target(s, from, MoveKind::CharDelta(0)) == from
        }),
{
}

/// A move leads the cursor to its target. It keeps all of the scroll state but the position,
/// and that too where it is not known where the cursor goes.
pub proof fn lemma_move_keeps(
    s: Sight,
    sel: Selected,
    scroll: ScrollManager,
    cmd: MoveCmd,
    pad: int,
)
    ensures
        ({
            let (new_sel, new) = after_move(s, sel, scroll, cmd, pad);
            let to = target(s, sel.second, cmd.kind);
            &&& i64::MIN <= to <= i64::MAX ==> new_sel.second == to
            &&& new.last_view == scroll.last_view
            &&& new.last_bounds == scroll.last_bounds
            &&& new.pos.base_offset == scroll.pos.base_offset
            &&& new_sel.second_pos is None ==> new == scroll
            &&& new_sel.second_pos matches Some(pos) ==> pos.base_offset == scroll.pos.base_offset
        }),
{
}

/// Moves that are made together lead to the same as moves that are made one after the
/// other.
pub proof fn lemma_moves_in_order(
    s: Sight,
    sel: Selected,
    scroll: ScrollManager,
    first: Seq<MoveCmd>,
    more: Seq<MoveCmd>,
    pad: int,
)
    ensures
        ({
            let (sel1, scroll1) = after_moves(s, sel, scroll, first, pad);
            after_moves(s, sel, scroll, first + more, pad) == after_moves(
                s,
                sel1,
                scroll1,
                more,
                pad,
            )
        }),
    decreases more.len(),
{
    if more.len() == 0 {
        assert(first + more =~= first);
    } else {
        assert((first + more).drop_last() =~= first + more.drop_last());
        lemma_moves_in_order(s, sel, scroll, first, more.drop_last(), pad);
    }
}

} // verus!
