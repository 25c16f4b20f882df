//! What the keys, the mouse and the scrollbars of a view are for.

use crate::cfg::ViewButtons;
use crate::fileview::{
    digits, dragged, key_moves, label, line_number, page_lines, target, wheel_step, Drag, FileView,
    Key, MousePlace, Sight,
};
use crate::layout::Advances;
use crate::linemap::LineMap;
use crate::moves::{chars_between, lemma_move_chars, lemma_move_lines, stands};
use crate::places::{is_place, line_known};
use crate::runs::{agrees, ordered, prefix_at, suffix_at, Run};
use crate::truth::position_in;
use crate::utf8::is_boundary;
use vstd::prelude::*;

verus! {

/// The number that decimal digits stand for, from the last to the first.
pub open spec fn number_of(s: Seq<u8>) -> int
    decreases s.len(),
{
    if s.len() == 0 {
        0
    } else {
        (s[0] - 48) + 10 * number_of(s.skip(1))
    }
}

/// The digits of a number stand for it, and there are no more of them than it takes.
pub proof fn lemma_digits(n: nat)
    ensures
        number_of(digits(n)) == n,
        digits(n).len() >= 1,
        forall|i: int| 0 <= i < digits(n).len() ==> 48 <= #[trigger] digits(n)[i] <= 57,
        n > 0 ==> digits(n).last() != 48,
        n < 10 ==> digits(n).len() == 1,
    decreases n,
{
    reveal_with_fuel(number_of, 2);
    let s = digits(n);
    if n < 10 {
        assert(s.skip(1).len() == 0);
    } else {
        lemma_digits(n / 10);
        let rest = digits(n / 10);
        assert(s == seq![(48 + n % 10) as u8] + rest);
        assert(s.skip(1) =~= rest);
        assert(s.last() == rest.last());
        assert forall|i: int| 0 <= i < s.len() implies 48 <= #[trigger] s[i] <= 57 by {
            if i > 0 {
                assert(s[i] == rest[i - 1]);
            }
        }
    }
}

/// The label of a line tells its number: where it is known where the file starts, it counts
/// the lines of the file from one on, and else the lines from the base, with a sign.
pub proof fn lemma_label(y: int, base_y: int, start_dy: Option<i64>)
    requires
        y >= 0,
        start_dy matches Some(start) ==> start == -base_y,
    ensures
        ({
            let s = label(y - base_y, start_dy);
            let n = s.len() as int;
            &&& start_dy is Some ==> number_of(s) == y + 1
            &&& start_dy is None && y >= base_y ==> s.last() == 43 && number_of(s.take(n - 1)) == y
                - base_y
            &&& start_dy is None && y < base_y ==> s.last() == 45 && number_of(s.take(n - 1))
                == base_y - y
        }),
{
    let k = line_number(y - base_y, start_dy);
    let m = if k < 0 {
        (-k) as nat
    } else {
        k as nat
    };
    lemma_digits(m);
    let s = label(y - base_y, start_dy);
    if start_dy is Some {
        assert(s =~= digits(m));
    } else {
        assert(s.take(s.len() - 1) =~= digits(m));
    }
}

/// A drag ends when the button is released, where it has to be held, and when a button is
/// pressed again, where it has not. Until then it stays what it is.
pub proof fn lemma_drag_ends(
    v: FileView,
    button: u16,
    down: bool,
    at: MousePlace,
    k: ViewButtons,
)
    requires
        !(v.drag is Idle),
    ensures
        ({
            let (drag, started) = dragged(v, button, down, at, k);
            let held = match v.drag {
                Drag::ScrollbarX | Drag::ScrollbarY => k.scrollbar_button.hold,
                Drag::Grab => k.grab_button.hold,
                Drag::Slide => k.slide_button.hold,
                Drag::Idle => true,
            };
            &&& drag is Idle <==> down != held
            &&& !(drag is Idle) ==> drag == v.drag
            &&& !(started is Drag)
        }),
{
}

/// A drag starts only where a button goes down in the view, and only one that the button is
/// for: on a scrollbar with the button of the scrollbars. Else the button may start a
/// selection, which no drag does.
pub proof fn lemma_drag_starts(
    v: FileView,
    button: u16,
    down: bool,
    at: MousePlace,
    k: ViewButtons,
)
    requires
        v.drag is Idle,
    ensures
        ({
            let (drag, started) = dragged(v, button, down, at, k);
            let bar = button == k.scrollbar_button.button && (at.on_x_bar || at.on_y_bar);
            &&& started is Drag <==> !(drag is Idle)
            &&& started is Drag ==> down && at.inside
            &&& drag is ScrollbarY ==> at.on_y_bar && button == k.scrollbar_button.button
            &&& drag is ScrollbarX ==> at.on_x_bar && !at.on_y_bar && button
                == k.scrollbar_button.button
            &&& drag is Slide ==> !bar && button == k.slide_button.button
            &&& drag is Grab ==> !bar && button == k.grab_button.button
            &&& down && at.inside && (bar || button == k.slide_button.button || button
                == k.grab_button.button) ==> started is Drag
            &&& started is Selection <==> down && at.inside && button == k.select_button && !(
            started is Drag)
        }),
{
}

/// The wheel scrolls by what it moved, in one direction or in the other.
pub proof fn lemma_wheel(d: i128)
    requires
        d > i128::MIN,
    ensures
        wheel_step(d as int, true) == d,
        wheel_step(d as int, false) == -d,
{
}

/// A page is as many lines as there are on screen in full, but at least one.
pub proof fn lemma_page(height: int)
    requires
        0 <= height < i64::MAX * 0x100_0000,
    ensures
        1 <= page_lines(height),
        height >= 0x100_0000 ==> page_lines(height) * 0x100_0000 <= height < (page_lines(height)
            + 1) * 0x100_0000,
        height < 0x100_0000 ==> page_lines(height) == 1,
{
}

/// How many lines down a key moves the cursor.
pub open spec fn lines_of(key: Key, page: int) -> Option<int> {
    match key {
        Key::Up => Some(-1int),
        Key::Down => Some(1int),
        Key::PageUp => Some(-page),
        Key::PageDown => Some(page),
        _ => None,
    }
}

/// The arrow keys up and down lead to the line above and to the line below, and the page keys
/// a page up and down, at the column of the cursor.
pub proof fn lemma_line_keys(
    map: LineMap,
    runs: Seq<Run>,
    file: Seq<u8>,
    a: Advances,
    from: i64,
    key: Key,
    ctrl: bool,
    shift: bool,
    page: i64,
    size: i64,
    i: int,
    k: int,
    g: int,
    end: int,
)
    requires
        stands(map, runs, file, a, i, k, from as int),
        page >= 1,
        lines_of(key, page as int) matches Some(n) && line_known(
            map@[i].marks,
            runs,
            file,
            a,
            k,
            g,
            position_in(file, a, from as int).y + n,
            position_in(file, a, from as int).x,
            end,
        ),
    ensures
        ({
            let cmds = key_moves(key, ctrl, shift, page, size);
            &&& cmds.len() == 1
            &&& cmds[0].reset == !shift
            &&& is_place(
                file,
                a,
                position_in(file, a, from as int).y + lines_of(key, page as int).unwrap(),
                position_in(file, a, from as int).x,
                0x80_0000,
                end,
                target(Sight { map: map@, runs, a }, from, cmds[0].kind),
            )
        }),
{
    let n = lines_of(key, page as int).unwrap() as i64;
    lemma_move_lines(map, runs, file, a, from, n, i, k, g, end);
}

/// The arrow keys left and right lead to the character before and to the one after.
pub proof fn lemma_char_keys(
    s: Sight,
    file: Seq<u8>,
    from: i64,
    ctrl: bool,
    shift: bool,
    page: i64,
    size: i64,
)
    requires
        ordered(s.runs),
        agrees(s.runs, file),
        is_boundary(file, from as int),
        is_boundary(file, from + prefix_at(s.runs, from as int).len()),
        is_boundary(file, from - suffix_at(s.runs, from as int).len()),
    ensures
        ({
            let left = key_moves(Key::Left, ctrl, shift, page, size);
            let right = key_moves(Key::Right, ctrl, shift, page, size);
            let l = target(s, from, left[0].kind);
            let r = target(s, from, right[0].kind);
            &&& left.len() == 1
            &&& right.len() == 1
            &&& left[0].reset == !shift
            &&& right[0].reset == !shift
            &&& prefix_at(s.runs, from as int).len() > 0 ==> from < r && chars_between(
                file,
                from as int,
                r,
            ) == 1
            &&& prefix_at(s.runs, from as int).len() == 0 ==> r == from
            &&& suffix_at(s.runs, from as int).len() > 0 ==> l < from && chars_between(
                file,
                l,
                from as int,
            ) == 1
            &&& suffix_at(s.runs, from as int).len() == 0 ==> l == from
        }),
{
    lemma_move_chars(s, file, from, 1);
    lemma_move_chars(s, file, from, (-1) as i16);
}

/// With the control key, `Home` leads to the start of the file and `End` to its end.
pub proof fn lemma_file_keys(s: Sight, from: i64, shift: bool, page: i64, size: i64)
    ensures
        ({
            let home = key_moves(Key::Home, true, shift, page, size);
            let end = key_moves(Key::End, true, shift, page, size);
            &&& home.len() == 1
            &&& end.len() == 1
            &&& home[0].reset == !shift
            &&& end[0].reset == !shift
            &&& target(s, from, home[0].kind) == 0
            &&& target(s, from, end[0].kind) == size
        }),
{
}

} // verus!
