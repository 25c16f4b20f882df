//! What the lines and columns are that the positions in a text stand for.

use crate::layout::{lemma_walk_cut, lemma_walk_sane, shown, walk, Advances, Walk, NEWLINE};
use crate::truth::position_in;
use crate::utf8::{
    char_at, is_boundary, lemma_ends_are_boundaries, lemma_lead_is_boundary, lemma_step_in_bounds,
    lemma_step_stops_at_boundary, lemma_step_to_boundary, step_len,
};
use vstd::prelude::*;

verus! {

/// How many of the bytes from `p` to `q` are newlines.
pub open spec fn newlines(s: Seq<u8>, p: int, q: int) -> nat
    decreases q - p,
{
    if p < q {
        newlines(s, p + 1, q) + if s[p] == 0x0A {
            1nat
        } else {
            0nat
        }
    } else {
        0
    }
}

/// Whether every newline that is read is a newline byte. A longer sequence for the same
/// number is read as a newline too.
pub open spec fn plain_newlines(s: Seq<u8>) -> bool {
    forall|p: int|
        0 <= p < s.len() && #[trigger] char_at(s, p) == Ok::<u32, u8>(NEWLINE) ==> s[p] == 0x0A
}

/// How wide the characters from `p` to `q` are together.
pub open spec fn width_between(s: Seq<u8>, p: int, q: int, a: Advances) -> int
    decreases
            if p < q {
                q - p
            } else {
                0
            },
{
    if p < q {
        a.of(shown(char_at(s, p))) + width_between(s, p + step_len(s, p), q, a)
    } else {
        0
    }
}

/// A walk counts the newlines, and on a line without one the widths.
proof fn lemma_walk_counts(s: Seq<u8>, p: int, q: int, a: Advances, w: Walk)
    requires
        plain_newlines(s),
        is_boundary(s, p),
        is_boundary(s, q),
        p <= q,
    ensures
        walk(s, p, q, a, w).y == w.y + newlines(s, p, q),
        newlines(s, p, q) == 0 ==> walk(s, p, q, a, w).x == w.x + width_between(s, p, q, a),
    decreases q - p,
{
    if p < q {
        let n = step_len(s, p) as int;
        let c = shown(char_at(s, p));
        lemma_step_in_bounds(s, p);
        lemma_step_to_boundary(s, p);
        lemma_step_stops_at_boundary(s, p, q);
        lemma_walk_counts(s, p + n, q, a, w.step(c, a));
        reveal_with_fuel(newlines, 5);
        assert((c == NEWLINE) == (s[p] == 0x0A));
        assert(newlines(s, p, q) == newlines(s, p + n, q) + if c == NEWLINE {
            1nat
        } else {
            0nat
        });
    }
}

/// The line of a position is the number of newlines before it.
pub proof fn lemma_line_of(file: Seq<u8>, a: Advances, offset: int)
    requires
        plain_newlines(file),
        is_boundary(file, offset),
    ensures
        position_in(file, a, offset).y == newlines(file, 0, offset),
{
    lemma_ends_are_boundaries(file);
    lemma_walk_counts(file, 0, offset, a, Walk::start(true));
}

/// The column of a position is the width of what comes before it on its line, which starts
/// at `start`.
pub proof fn lemma_column_of(file: Seq<u8>, a: Advances, start: int, offset: int)
    requires
        plain_newlines(file),
        is_boundary(file, offset),
        0 <= start <= offset,
        start > 0 ==> file[start - 1] == 0x0A,
        newlines(file, start, offset) == 0,
    ensures
        is_boundary(file, start),
        position_in(file, a, offset).x == width_between(file, start, offset, a),
{
    let w = Walk::start(true);
    lemma_ends_are_boundaries(file);
    if start > 0 {
        lemma_lead_is_boundary(file, start - 1);
        lemma_step_to_boundary(file, start - 1);
        lemma_walk_cut(file, 0, start - 1, start, a, w);
        let before = walk(file, 0, start - 1, a, w);
        assert(char_at(file, start - 1) == Ok::<u32, u8>(NEWLINE));
        assert(walk(file, start, start, a, before.step(NEWLINE, a)) == before.step(NEWLINE, a));
        assert(walk(file, 0, start, a, w).x == 0);
    }
    lemma_walk_cut(file, 0, start, offset, a, w);
    lemma_walk_counts(file, start, offset, a, walk(file, 0, start, a, w));
}

/// Whether a line of `s` starts at `start` and ends at `end`, before a newline or at the end of
/// the text.
pub open spec fn is_line(s: Seq<u8>, start: int, end: int) -> bool {
    &&& 0 <= start <= end <= s.len()
    &&& start > 0 ==> s[start - 1] == 0x0A
    &&& newlines(s, start, end) == 0
    &&& end < s.len() ==> s[end] == 0x0A
}

/// The newlines of two parts add up.
proof fn lemma_newlines_cut(s: Seq<u8>, p: int, m: int, q: int)
    requires
        p <= m <= q,
    ensures
        newlines(s, p, q) == newlines(s, p, m) + newlines(s, m, q),
    decreases m - p,
{
    if p < m {
        lemma_newlines_cut(s, p + 1, m, q);
    }
}

/// One step further in the whole text.
pub proof fn lemma_position_step(file: Seq<u8>, a: Advances, p: int)
    requires
        is_boundary(file, p),
        p < file.len(),
    ensures
        is_boundary(file, p + step_len(file, p)),
        position_in(file, a, p + step_len(file, p)) == position_in(file, a, p).step(
            shown(char_at(file, p)),
            a,
        ),
{
    let w = Walk::start(true);
    let q = p + step_len(file, p);
    lemma_ends_are_boundaries(file);
    lemma_step_in_bounds(file, p);
    lemma_step_to_boundary(file, p);
    lemma_walk_cut(file, 0, p, q, a, w);
    let v = walk(file, 0, p, a, w).step(shown(char_at(file, p)), a);
    assert(walk(file, q, q, a, v) == v);
}

/// Going on never makes the widest line narrower.
proof fn lemma_widest_grows(file: Seq<u8>, a: Advances, p: int)
    requires
        is_boundary(file, p),
    ensures
        position_in(file, a, p).end_line().widest <= position_in(
            file,
            a,
            file.len() as int,
        ).end_line().widest,
    decreases file.len() - p,
{
    if p < file.len() {
        let w = Walk::start(true);
        lemma_ends_are_boundaries(file);
        lemma_step_in_bounds(file, p);
        lemma_position_step(file, a, p);
        lemma_walk_sane(file, 0, p, a, w);
        lemma_widest_grows(file, a, p + step_len(file, p));
    }
}

/// Some line is as wide as the widest one, where `start` is the start of the line of `p`.
proof fn lemma_widest_reached(file: Seq<u8>, a: Advances, start: int, p: int)
    requires
        plain_newlines(file),
        is_boundary(file, p),
        0 <= start <= p,
        start > 0 ==> file[start - 1] == 0x0A,
        newlines(file, start, p) == 0,
        position_in(file, a, p).widest == 0 || has_line(
            file,
            a,
            position_in(file, a, p).widest,
        ),
    ensures
        has_line(file, a, position_in(file, a, file.len() as int).end_line().widest),
    decreases file.len() - p,
{
    let w = position_in(file, a, p);
    lemma_ends_are_boundaries(file);
    lemma_walk_sane(file, 0, p, a, Walk::start(true));
    lemma_column_of(file, a, start, p);
    if p < file.len() {
        let n = step_len(file, p) as int;
        let c = shown(char_at(file, p));
        lemma_step_in_bounds(file, p);
        lemma_position_step(file, a, p);
        if c == NEWLINE {
            assert(char_at(file, p) == Ok::<u32, u8>(NEWLINE));
            assert(file[p] == 0x0A);
            assert(is_line(file, start, p));
            assert(line_width(file, a, start, p, w.x));
            lemma_widest_reached(file, a, p + 1, p + n);
        } else {
            lemma_walk_counts(file, p, p + n, a, w);
            lemma_newlines_cut(file, start, p, p + n);
            lemma_walk_cut(file, 0, p, p + n, a, Walk::start(true));
            lemma_widest_reached(file, a, start, p + n);
        }
    } else {
        assert(is_line(file, start, p));
        assert(line_width(file, a, start, p, w.x));
    }
}

/// Whether the line from `start` to `end` is that wide.
pub open spec fn line_width(s: Seq<u8>, a: Advances, start: int, end: int, width: int) -> bool {
    is_line(s, start, end) && width_between(s, start, end, a) == width
}

/// Whether some line is that wide.
pub open spec fn has_line(s: Seq<u8>, a: Advances, width: int) -> bool {
    exists|start: int, end: int| line_width(s, a, start, end, width)
}

/// The width of the widest line is that of some line, and no line is wider.
pub proof fn lemma_widest_line(file: Seq<u8>, a: Advances)
    requires
        plain_newlines(file),
    ensures
        ({
            let widest = position_in(file, a, file.len() as int).end_line().widest;
            &&& has_line(file, a, widest)
            &&& forall|start: int, end: int|
                is_line(file, start, end) ==> #[trigger] width_between(file, start, end, a)
                    <= widest
        }),
{
    lemma_ends_are_boundaries(file);
    lemma_widest_reached(file, a, 0, 0);
    assert forall|start: int, end: int| is_line(file, start, end) implies #[trigger] width_between(
        file,
        start,
        end,
        a,
    ) <= position_in(file, a, file.len() as int).end_line().widest by {
        if end < file.len() {
            lemma_lead_is_boundary(file, end);
        }
        lemma_column_of(file, a, start, end);
        lemma_walk_sane(file, 0, end, a, Walk::start(true));
        lemma_widest_grows(file, a, end);
    }
}

} // verus!
