//! What a view of a file does: scrolling, moving the cursor and selecting.

use crate::cfg::ViewButtons;
use crate::layout::{Advances, CharLayout, UNITS};
use crate::linemap::{is_base, is_first_abs, is_mapped, known_rect, Mapped};
use crate::loaded::{same_range, LoadedData};
use crate::lookup::{backward, forward, found_at, found_offset, moved, FileLock};
use crate::position::{
    add_distance, clamp, floor_lines, lines_below, nearest, to_distance, to_line, FilePos, FileRect,
    FileVec,
};
use crate::runs::{prefix_at, suffix_at, Run};
use std::ops::Range;
use vstd::prelude::*;

verus! {

/// The origin of a file.
pub open spec fn origin() -> FilePos {
    FilePos { base_offset: 0, delta_x: 0, delta_y: 0 }
}

/// An empty rectangle at the origin of a file.
pub open spec fn no_rect() -> FileRect {
    FileRect { corner: origin(), size: FileVec { x: 0, y: 0 } }
}

/// Where a view is scrolled to.
#[derive(Clone, Copy, Debug)]
pub struct ScrollManager {
    pub pos: FilePos,
    /// The rectangle that was last shown.
    pub last_view: FileRect,
    /// The rectangle that could last be scrolled to.
    pub last_bounds: FileRect,
}

/// The selected part of a file.
#[derive(Clone, Copy, Debug)]
pub struct Selected {
    /// The first selected offset.
    pub first: i64,
    /// The second selected offset.
    /// Note that this position might be before the first position,
    /// the "second" is chronological, not physical.
    pub second: i64,
    /// Non-authoritative physical position of the first selection endpoint.
    pub first_pos: Option<FilePos>,
    /// Non-authoritative physical position of the second selection endpoint.
    pub second_pos: Option<FilePos>,
}

/// What is being dragged.
#[derive(Clone, Copy, Debug, PartialEq, Eq, Structural)]
pub enum Drag {
    /// Nothing is being dragged.
    Idle,
    ScrollbarY,
    ScrollbarX,
    Slide,
    Grab,
}

/// How to move the cursor.
#[derive(Clone, Copy, Debug, PartialEq, Eq, Structural)]
pub enum MoveKind {
    /// Move directly to the character boundary closest to the
    /// given file position.
    Absolute(FilePos),
    /// Move directly to an offset within the file.
    Raw(i64),
    /// Move a number of characters to the left/right.
    CharDelta(i16),
    /// Move a number of lines up/down.
    LineDelta(i64),
    /// Move a certain spacial distance left/right.
    HorizontalDelta(i128),
}

/// Cursor movement commands.
/// When the key is typed, these commands are queued so that they can all
/// be executed at the same time reusing the same file lock.
#[derive(Clone, Copy, Debug, PartialEq, Eq, Structural)]
pub struct MoveCmd {
    /// Whether to reset the selection range.
    /// Otherwise, only move the second selection edge.
    pub reset: bool,
    /// The different kinds of movement.
    pub kind: MoveKind,
}

/// The keys that a view knows.
#[derive(Clone, Copy, Debug, PartialEq, Eq, Structural)]
pub enum Key {
    A,
    C,
    Home,
    End,
    PageUp,
    PageDown,
    Left,
    Right,
    Up,
    Down,
}

/// Where the mouse is, relative to a view.
#[derive(Clone, Copy, Debug, PartialEq, Eq, Structural)]
pub struct MousePlace {
    /// Whether it is in the view at all.
    pub inside: bool,
    /// Whether it is on the vertical scrollbar.
    pub on_y_bar: bool,
    /// Whether it is on the horizontal scrollbar.
    pub on_x_bar: bool,
    /// The position of the file that it is over.
    pub pos: FilePos,
}

/// What a mouse button has started.
#[derive(Clone, Copy, Debug, PartialEq, Eq, Structural)]
pub enum Started {
    Nothing,
    Drag,
    Selection,
}

/// A view of a file.
pub struct FileView {
    pub scroll: ScrollManager,
    pub selected: Selected,
    pub move_queue: Vec<MoveCmd>,
    pub drag: Drag,
    pub selecting: bool,
    pub send_sel_copy: bool,
}

impl Drag {
    /// Whether nothing is being dragged.
    pub fn is_none(&self) -> (r: bool)
        ensures
            r == (*self is Idle),
    {
        match self {
            Drag::Idle => true,
            _ => false,
        }
    }

    /// Whether one of the scrollbars is being dragged.
    pub fn is_scrollbar(&self) -> (r: bool)
        ensures
            r == (*self is ScrollbarX || *self is ScrollbarY),
    {
        match self {
            Drag::ScrollbarX | Drag::ScrollbarY => true,
            _ => false,
        }
    }

    /// Whether the view moves even if the mouse does not.
    pub fn requires_refresh(&self) -> (r: bool)
        ensures
            r == (*self is Slide),
    {
        match self {
            Drag::Slide => true,
            _ => false,
        }
    }

    /// Whether the button has to be held down.
    pub open spec fn is_held(self, k: ViewButtons) -> bool {
        match self {
            Drag::ScrollbarX => k.scrollbar_button.hold,
            Drag::ScrollbarY => k.scrollbar_button.hold,
            Drag::Grab => k.grab_button.hold,
            Drag::Slide => k.slide_button.hold,
            Drag::Idle => true,
        }
    }

    /// Whether the button has to be held down.
    pub fn hold(&self, k: &ViewButtons) -> (r: bool)
        ensures
            r == self.is_held(*k),
    {
        match self {
            Drag::ScrollbarX | Drag::ScrollbarY => k.scrollbar_button.hold,
            Drag::Grab => k.grab_button.hold,
            Drag::Slide => k.slide_button.hold,
            Drag::Idle => true,
        }
    }
}

/// The commands that a key stands for, where `page` is the number of lines on screen
/// and `size` that of bytes in the file.
pub open spec fn key_moves(key: Key, ctrl: bool, shift: bool, page: i64, size: i64) -> Seq<MoveCmd> {
    let one = |kind: MoveKind| seq![MoveCmd { reset: !shift, kind }];
    match key {
        Key::A => if ctrl {
            seq![
                MoveCmd { reset: true, kind: MoveKind::Raw(0) },
                MoveCmd { reset: false, kind: MoveKind::Raw(size) },
            ]
        } else {
            Seq::empty()
        },
        Key::C => Seq::empty(),
        Key::Home => one(
            if ctrl {
                MoveKind::Raw(0)
            } else {
                MoveKind::HorizontalDelta(i128::MIN)
            },
        ),
        Key::End => one(
            if ctrl {
                MoveKind::Raw(size)
            } else {
                MoveKind::HorizontalDelta(i128::MAX)
            },
        ),
        Key::PageUp => one(MoveKind::LineDelta((-page) as i64)),
        Key::PageDown => one(MoveKind::LineDelta(page)),
        Key::Left => one(MoveKind::CharDelta((-1) as i16)),
        Key::Right => one(MoveKind::CharDelta(1)),
        Key::Up => one(MoveKind::LineDelta((-1) as i64)),
        Key::Down => one(MoveKind::LineDelta(1)),
    }
}

/// How many whole lines are on screen, but at least one.
pub open spec fn page_lines(height: int) -> int {
    let n = to_line(lines_below(height));
    if n >= 1 {
        n
    } else {
        1
    }
}

/// What a view looks like when a mouse button goes down or up.
pub open spec fn dragged(
    v: FileView,
    button: u16,
    down: bool,
    at: MousePlace,
    k: ViewButtons,
) -> (Drag, Started) {
    let bar = button == k.scrollbar_button.button;
    if v.drag is Idle && down && at.inside && bar && at.on_y_bar {
        // Start dragging through vertical scrollbar
        (Drag::ScrollbarY, Started::Drag)
    } else if v.drag is Idle && down && at.inside && bar && at.on_x_bar {
        // Start dragging through horizontal scrollbar
        (Drag::ScrollbarX, Started::Drag)
    } else if v.drag is Idle && down && at.inside && button == k.slide_button.button {
        // Start slide-scrolling
        (Drag::Slide, Started::Drag)
    } else if v.drag is Idle && down && at.inside && button == k.grab_button.button {
        // Start grab-scrolling
        (Drag::Grab, Started::Drag)
    } else {
        (
            if !(v.drag is Idle && down) && down == !v.drag.is_held(k) {
                // Stop dragging
                Drag::Idle
            } else {
                v.drag
            },
            if button == k.select_button && down && at.inside {
                // Start selecting text
                Started::Selection
            } else {
                Started::Nothing
            },
        )
    }
}

impl FileView {
    /// A view of the start of a file.
    pub fn new() -> (r: FileView)
        ensures
            r.scroll.pos == origin(),
            r.scroll.last_view == no_rect(),
            r.scroll.last_bounds == no_rect(),
            r.scroll.wf(),
            r.selected.first == 0,
            r.selected.second == 0,
            r.selected.first_pos == Some(origin()),
            r.selected.second_pos == Some(origin()),
            r.move_queue@ == Seq::<MoveCmd>::empty(),
            r.drag is Idle,
            !r.selecting,
            !r.send_sel_copy,
    {
        let pos = FilePos { base_offset: 0, delta_x: 0, delta_y: 0 };
        let rect = FileRect { corner: pos, size: FileVec { x: 0, y: 0 } };
        FileView {
            scroll: ScrollManager { pos, last_view: rect, last_bounds: rect },
            selected: Selected {
                first: 0,
                second: 0,
                first_pos: Some(pos),
                second_pos: Some(pos),
            },
            move_queue: Vec::new(),
            drag: Drag::Idle,
            selecting: false,
            send_sel_copy: false,
        }
    }

    /// Whether nothing but what is queued may differ.
    pub open spec fn same_but_queue(self, other: FileView) -> bool {
        &&& self.scroll == other.scroll
        &&& self.selected == other.selected
        &&& self.drag == other.drag
        &&& self.selecting == other.selecting
        &&& self.send_sel_copy == other.send_sel_copy
    }

    /// Queue a move of the cursor.
    pub fn move_selection(&mut self, cmd: MoveCmd)
        ensures
            final(self).same_but_queue(*old(self)),
            final(self).move_queue@ == old(self).move_queue@.push(cmd),
    {
        self.move_queue.push(cmd);
    }

    /// React to a mouse button. Returns what it has started.
    pub fn handle_drag(&mut self, button: u16, down: bool, at: MousePlace, k: &ViewButtons) -> (r:
        Started)
        ensures
            (final(self).drag, r) == dragged(*old(self), button, down, at, *k),
            final(self).scroll == old(self).scroll,
            final(self).selected == old(self).selected,
            final(self).send_sel_copy == old(self).send_sel_copy,
            final(self).move_queue@ == if r is Selection {
                old(self).move_queue@.push(
                    MoveCmd { reset: true, kind: MoveKind::Absolute(at.pos) },
                )
            } else {
                old(self).move_queue@
            },
            final(self).selecting == match r {
                Started::Selection => true,
                Started::Drag => old(self).selecting,
                Started::Nothing => old(self).selecting && !(button == k.select_button && !down),
            },
    {
        if self.drag.is_none() && down {
            if at.inside {
                if button == k.scrollbar_button.button {
                    // Maybe start dragging one of the scrollbars
                    if at.on_y_bar {
                        self.drag = Drag::ScrollbarY;
                        return Started::Drag;
                    }
                    if at.on_x_bar {
                        self.drag = Drag::ScrollbarX;
                        return Started::Drag;
                    }
                }
                if button == k.slide_button.button {
                    // Start slide-scrolling
                    self.drag = Drag::Slide;
                    return Started::Drag;
                }
                if button == k.grab_button.button {
                    // Start grab-scrolling
                    self.drag = Drag::Grab;
                    return Started::Drag;
                }
            }
        } else if down == !self.drag.hold(k) {
            // Stop dragging
            // Whether the press or release event triggers this is
            // configurable per drag-type
            self.drag = Drag::Idle;
        }
        if button == k.select_button {
            if down {
                // Start selecting text
                if at.inside {
                    self.move_selection(
                        MoveCmd { reset: true, kind: MoveKind::Absolute(at.pos) },
                    );
                    self.selecting = true;
                    return Started::Selection;
                }
            } else {
                // Stop selecting text
                self.selecting = false;
            }
        }
        Started::Nothing
    }

    /// Let the selection follow the mouse. Returns whether it does.
    pub fn tick_selection(&mut self, pos: FilePos, synthetic: bool) -> (r: bool)
        ensures
            r == (old(self).selecting && !synthetic),
            final(self).same_but_queue(*old(self)),
            final(self).move_queue@ == if r {
                old(self).move_queue@.push(
                    MoveCmd { reset: false, kind: MoveKind::Absolute(pos) },
                )
            } else {
                old(self).move_queue@
            },
    {
        if self.selecting && !synthetic {
            self.move_selection(MoveCmd { reset: false, kind: MoveKind::Absolute(pos) });
            true
        } else {
            false
        }
    }

    /// Call this to notify the file view that the user switched to another tab.
    pub fn unfocus(&mut self)
        ensures
            final(self).drag is Idle,
            !final(self).selecting,
            final(self).scroll == old(self).scroll,
            final(self).selected == old(self).selected,
            final(self).move_queue == old(self).move_queue,
            final(self).send_sel_copy == old(self).send_sel_copy,
    {
        self.drag = Drag::Idle;
        self.selecting = false;
    }

    /// React to a key. Returns whether it did anything.
    pub fn handle_key(&mut self, key: Key, ctrl: bool, shift: bool, file_size: i64) -> (r: bool)
        ensures
            final(self).scroll == old(self).scroll,
            final(self).selected == old(self).selected,
            final(self).drag == old(self).drag,
            final(self).selecting == old(self).selecting,
            final(self).send_sel_copy == (old(self).send_sel_copy || (key is C && ctrl)),
            final(self).move_queue@ == old(self).move_queue@ + key_moves(
                key,
                ctrl,
                shift,
                page_lines(old(self).scroll.last_view.size.y as int) as i64,
                file_size,
            ),
            r == !((key is A || key is C) && !ctrl),
    {
        let ghost was = self.move_queue@;
        let n: i64 = floor_lines(self.scroll.last_view.size.y);
        let page: i64 = if n >= 1 {
            n
        } else {
            1
        };
        let reset: bool = !shift;
        let kind: MoveKind = match key {
            Key::C => {
                if ctrl {
                    self.send_sel_copy = true;
                }
                proof {
                    assert(was + Seq::<MoveCmd>::empty() =~= was);
                }
                return ctrl;
            },
            Key::A => {
                if ctrl {
                    self.move_selection(MoveCmd { reset: true, kind: MoveKind::Raw(0) });
                    self.move_selection(MoveCmd { reset: false, kind: MoveKind::Raw(file_size) });
                    proof {
                        assert(self.move_queue@ =~= was + key_moves(
                            key,
                            ctrl,
                            shift,
                            page,
                            file_size,
                        ));
                    }
                } else {
                    proof {
                        assert(was + Seq::<MoveCmd>::empty() =~= was);
                    }
                }
                return ctrl;
            },
            Key::Home => if ctrl {
                MoveKind::Raw(0)
            } else {
                MoveKind::HorizontalDelta(i128::MIN)
            },
            Key::End => if ctrl {
                MoveKind::Raw(file_size)
            } else {
                MoveKind::HorizontalDelta(i128::MAX)
            },
            Key::PageUp => MoveKind::LineDelta(-page),
            Key::PageDown => MoveKind::LineDelta(page),
            Key::Left => MoveKind::CharDelta(-1),
            Key::Right => MoveKind::CharDelta(1),
            Key::Up => MoveKind::LineDelta(-1),
            Key::Down => MoveKind::LineDelta(1),
        };
        self.move_selection(MoveCmd { reset, kind });
        proof {
            assert(self.move_queue@ =~= was + key_moves(key, ctrl, shift, page, file_size));
        }
        true
    }

    /// Scroll by what the mouse wheel moved.
    pub fn handle_wheel(&mut self, d: FileVec, invert_x: bool, invert_y: bool)
        ensures
            final(self).scroll.pos.base_offset == old(self).scroll.pos.base_offset,
            final(self).scroll.pos.delta_x == to_distance(
                old(self).scroll.pos.delta_x + wheel_step(d.x as int, invert_x),
            ),
            final(self).scroll.pos.delta_y == to_distance(
                old(self).scroll.pos.delta_y + wheel_step(d.y as int, invert_y),
            ),
            final(self).scroll.last_view == old(self).scroll.last_view,
            final(self).scroll.last_bounds == old(self).scroll.last_bounds,
            final(self).selected == old(self).selected,
            final(self).move_queue == old(self).move_queue,
            final(self).drag == old(self).drag,
            final(self).selecting == old(self).selecting,
            final(self).send_sel_copy == old(self).send_sel_copy,
    {
        let x: i128 = if invert_x {
            d.x
        } else if d.x == i128::MIN {
            i128::MAX
        } else {
            -d.x
        };
        let y: i128 = if invert_y {
            d.y
        } else if d.y == i128::MIN {
            i128::MAX
        } else {
            -d.y
        };
        self.scroll.pos = self.scroll.pos.offset(FileVec { x, y });
    }
}

/// How far a movement of the mouse wheel scrolls.
pub open spec fn wheel_step(d: int, invert: bool) -> int {
    if invert {
        d
    } else {
        to_distance(-d)
    }
}

/// What a lookup tells, from the text of the file that is loaded.
pub struct Sight {
    pub map: Seq<Mapped>,
    pub runs: Seq<Run>,
    pub a: Advances,
}

/// What can be looked up in what is loaded.
pub open spec fn sight_of(loaded: LoadedData, layout: CharLayout) -> Sight {
    Sight { map: loaded.linemap@, runs: loaded.data@, a: layout@ }
}

/// How a cursor divides characters: in the middle.
pub const MIDDLE: u32 = 0x80_0000;

/// The offset of what is found `dy` lines and `dx` columns away from a base, or `else_`
/// where nothing can be found.
pub open spec fn offset_at(s: Sight, base: int, dy: int, dx: int, else_: int) -> int {
    match found_at(s.map, s.runs, s.a, base, dy, dx, 0x80_0000) {
        Some(d) => d.offset,
        None => else_,
    }
}

/// Where the cursor goes.
pub open spec fn target(s: Sight, from: i64, kind: MoveKind) -> int {
    match kind {
        MoveKind::Absolute(pos) => offset_at(
            s,
            pos.base_offset as int,
            to_line(lines_below(pos.delta_y as int)),
            pos.delta_x as int,
            from as int,
        ),
        MoveKind::Raw(off) => off as int,
        MoveKind::CharDelta(delta) => {
            let step = if delta >= 0 {
                forward(prefix_at(s.runs, from as int), delta as nat)
            } else {
                backward(suffix_at(s.runs, from as int), (-delta) as nat)
            };
            match moved(from, step) {
                Ok(off) => off as int,
                Err(off) => off as int,
            }
        },
        MoveKind::LineDelta(delta) => match found_offset(
            s.map,
            s.runs,
            s.a,
            from as int,
            from as int,
        ) {
            Some(at) => offset_at(s, from as int, to_line(at.dy + delta), at.dx, from as int),
            None => from as int,
        },
        MoveKind::HorizontalDelta(delta) => match found_offset(
            s.map,
            s.runs,
            s.a,
            from as int,
            from as int,
        ) {
            Some(at) => offset_at(s, from as int, at.dy, to_distance(at.dx + delta), from as int),
            None => from as int,
        },
    }
}

/// Where an offset is on screen, as it is seen from the base of the scroll position.
pub open spec fn seen_at(s: Sight, base_offset: i64, offset: int) -> Option<FilePos> {
    match found_offset(s.map, s.runs, s.a, base_offset as int, offset) {
        Some(at) => Some(
            FilePos {
                base_offset,
                delta_x: at.dx as i128,
                delta_y: (at.dy * 0x100_0000) as i128,
            },
        ),
        None => None,
    }
}

/// The scroll coordinate nearest to `n` that keeps the cursor, which goes from `lo` to
/// `hi`, on a screen of the given size, with some padding around it.
pub open spec fn kept_in(n: int, lo: int, hi: int, pad: int, size: int) -> int {
    let least = to_distance(to_distance(hi + pad) + to_distance(-size));
    let most = to_distance(lo + to_distance(-pad));
    nearest(
        n,
        least,
        if most >= least {
            most
        } else {
            least
        },
    )
}

/// The scroll position after the cursor went to a position.
pub open spec fn followed(scroll: ScrollManager, cursor: Option<FilePos>, pad: int) -> FilePos {
    match cursor {
        Some(pos) => {
            let size = scroll.last_view.size;
            FilePos {
                base_offset: scroll.pos.base_offset,
                delta_x: kept_in(
                    scroll.pos.delta_x as int,
                    pos.delta_x as int,
                    pos.delta_x as int,
                    pad,
                    size.x as int,
                ) as i128,
                delta_y: kept_in(
                    scroll.pos.delta_y as int,
                    pos.delta_y as int,
                    to_distance(pos.delta_y + 0x100_0000),
                    pad,
                    size.y as int,
                ) as i128,
            }
        },
        None => scroll.pos,
    }
}

/// The selection and the scroll position after one move.
pub open spec fn after_move(
    s: Sight,
    sel: Selected,
    scroll: ScrollManager,
    cmd: MoveCmd,
    pad: int,
) -> (Selected, ScrollManager) {
    let second = target(s, sel.second, cmd.kind) as i64;
    let second_pos = seen_at(s, scroll.pos.base_offset, second as int);
    (
        Selected {
            first: if cmd.reset {
                second
            } else {
                sel.first
            },
            second,
            first_pos: if cmd.reset {
                second_pos
            } else {
                sel.first_pos
            },
            second_pos,
        },
        ScrollManager { pos: followed(scroll, second_pos, pad), ..scroll },
    )
}

/// The selection and the scroll position after some moves.
pub open spec fn after_moves(
    s: Sight,
    sel: Selected,
    scroll: ScrollManager,
    cmds: Seq<MoveCmd>,
    pad: int,
) -> (Selected, ScrollManager)
    decreases cmds.len(),
{
    if cmds.len() == 0 {
        (sel, scroll)
    } else {
        let (sel1, scroll1) = after_moves(s, sel, scroll, cmds.drop_last(), pad);
        after_move(s, sel1, scroll1, cmds.last(), pad)
    }
}

/// The scroll coordinate nearest to `n` that keeps the cursor on screen.
fn keep_in(n: i128, lo: i128, hi: i128, pad: i128, size: i128) -> (r: i128)
    ensures
        r == kept_in(n as int, lo as int, hi as int, pad as int, size as int),
{
    let least: i128 = add_distance(add_distance(hi, pad), negate(size));
    let most: i128 = add_distance(lo, negate(pad));
    clamp(
        n,
        least,
        if most >= least {
            most
        } else {
            least
        },
    )
}

/// The opposite of a distance.
fn negate(d: i128) -> (r: i128)
    ensures
        r == to_distance(-(d as int)),
{
    if d == i128::MIN {
        i128::MAX
    } else {
        -d
    }
}

impl Selected {
    /// The selected offsets in order.
    pub open spec fn spec_range(self) -> (i64, i64) {
        if self.first <= self.second {
            (self.first, self.second)
        } else {
            (self.second, self.first)
        }
    }

    /// The selected offsets in order.
    pub fn range(&self) -> (r: Range<i64>)
        ensures
            (r.start, r.end) == self.spec_range(),
            r.start <= r.end,
    {
        if self.first <= self.second {
            Range { start: self.first, end: self.second }
        } else {
            Range { start: self.second, end: self.first }
        }
    }

    /// Whether a character is selected.
    pub fn is_selected(&self, offset: i64) -> (r: bool)
        ensures
            r == (self.spec_range().0 <= offset < self.spec_range().1),
    {
        let range: Range<i64> = self.range();
        range.start <= offset && offset < range.end
    }
}

/// Where the cursor goes.
pub fn move_target(file: &FileLock<'_>, from: i64, kind: MoveKind) -> (r: i64)
    requires
        file.loaded.readable(),
    ensures
        r == target(sight_of(*file.loaded, *file.layout), from, kind),
{
    match kind {
        MoveKind::Absolute(pos) => {
            // Select based on a spacial position
            let (base, y, x): (i64, i64, i128) = pos.floor();
            match file.lookup_pos(base, y, x, MIDDLE) {
                Some(at) => at.offset,
                None => from,
            }
        },
        MoveKind::Raw(off) => {
            // Select based on a raw file offset
            off
        },
        MoveKind::CharDelta(delta) => {
            // Move the current selection by this amount of characters
            match file.char_delta(from, delta) {
                Ok(off) => off,
                Err(off) => off,
            }
        },
        MoveKind::LineDelta(delta) => {
            // Move the current selection by this amount of lines
            match file.lookup_offset(from, from) {
                Some(at) => {
                    let y: i64 = add_lines(at.dy, delta);
                    match file.lookup_pos(from, y, at.dx, MIDDLE) {
                        Some(at_target) => at_target.offset,
                        None => from,
                    }
                },
                None => from,
            }
        },
        MoveKind::HorizontalDelta(delta) => {
            // Move the current selection by this distance
            match file.lookup_offset(from, from) {
                Some(at) => {
                    let x: i128 = add_distance(at.dx, delta);
                    match file.lookup_pos(from, at.dy, x, MIDDLE) {
                        Some(at_target) => at_target.offset,
                        None => from,
                    }
                },
                None => from,
            }
        },
    }
}

/// Adds numbers of lines, as far as they fit.
fn add_lines(a: i64, b: i64) -> (r: i64)
    ensures
        r == to_line(a + b),
{
    match a.checked_add(b) {
        Some(sum) => sum,
        None => if a < 0 {
            i64::MIN
        } else {
            i64::MAX
        },
    }
}

impl FileView {
    /// Move the cursor, and scroll so that it stays on screen.
    pub fn apply_move(&mut self, file: &FileLock<'_>, cmd: MoveCmd, cursor_padding: i128)
        requires
            file.loaded.readable(),
        ensures
            (final(self).selected, final(self).scroll) == after_move(
                sight_of(*file.loaded, *file.layout),
                old(self).selected,
                old(self).scroll,
                cmd,
                cursor_padding as int,
            ),
            final(self).move_queue == old(self).move_queue,
            final(self).drag == old(self).drag,
            final(self).selecting == old(self).selecting,
            final(self).send_sel_copy == old(self).send_sel_copy,
    {
        // Move offset depending on the command type
        self.selected.second = move_target(file, self.selected.second, cmd.kind);
        // Figure out spacial position based on offset
        let base_offset: i64 = self.scroll.pos.base_offset;
        let pos: Option<FilePos> = match file.lookup_offset(base_offset, self.selected.second) {
            Some(at) => Some(
                FilePos { base_offset, delta_x: at.dx, delta_y: at.dy as i128 * UNITS },
            ),
            None => None,
        };
        self.selected.second_pos = pos;
        // Move scroll position to fit cursor within bounds
        if let Some(pos) = pos {
            let size: FileVec = self.scroll.last_view.size;
            self.scroll.pos.delta_y = keep_in(
                self.scroll.pos.delta_y,
                pos.delta_y,
                add_distance(pos.delta_y, UNITS),
                cursor_padding,
                size.y,
            );
            self.scroll.pos.delta_x = keep_in(
                self.scroll.pos.delta_x,
                pos.delta_x,
                pos.delta_x,
                cursor_padding,
                size.x,
            );
        }
        // Conditionally reset the selection

        if cmd.reset {
            self.selected.first = self.selected.second;
            self.selected.first_pos = self.selected.second_pos;
        }
    }

    /// Ran periodically.
    /// Applies the queued moves, and tells the backend what part of the file is on
    /// screen and what is selected, and to copy the selection if that was asked for.
    /// Returns whether the backend has something new to do.
    pub fn bookkeep_file(
        &mut self,
        loaded: &mut LoadedData,
        layout: &CharLayout,
        cursor_padding: i128,
    ) -> (wake: bool)
        requires
            old(loaded).readable(),
        ensures
            (final(self).selected, final(self).scroll) == after_moves(
                sight_of(*old(loaded), *layout),
                old(self).selected,
                old(self).scroll,
                old(self).move_queue@,
                cursor_padding as int,
            ),
            final(self).move_queue@.len() == 0,
            final(self).drag == old(self).drag,
            final(self).selecting == old(self).selecting,
            !final(self).send_sel_copy,
            final(loaded).readable(),
            final(loaded).linemap == old(loaded).linemap,
            final(loaded).data == old(loaded).data,
            final(loaded).hot == final(self).scroll.last_view,
            final(loaded).sel matches Some(sel) && (sel.start, sel.end)
                == final(self).selected.spec_range(),
            final(loaded).pending_sel_copy == (old(loaded).pending_sel_copy || old(
                self,
            ).send_sel_copy),
            wake == (old(self).send_sel_copy || final(loaded).hot != old(loaded).hot
                || !same_range(final(loaded).sel, old(loaded).sel)),
    {
        let ghost s = sight_of(*loaded, *layout);
        let ghost cmds = self.move_queue@;
        // Apply selection movements
        let n: usize = self.move_queue.len();
        let mut i: usize = 0;
        proof {
            assert(cmds.take(0) =~= Seq::<MoveCmd>::empty());
        }
        while i < n
            invariant
                loaded.readable(),
                *loaded == *old(loaded),
                s == sight_of(*loaded, *layout),
                cmds == old(self).move_queue@,
                n == cmds.len(),
                i <= n,
                self.move_queue@ == cmds,
                self.drag == old(self).drag,
                self.selecting == old(self).selecting,
                self.send_sel_copy == old(self).send_sel_copy,
                (self.selected, self.scroll) == after_moves(
                    s,
                    old(self).selected,
                    old(self).scroll,
                    cmds.take(i as int),
                    cursor_padding as int,
                ),
            decreases n - i,
        {
            let cmd: MoveCmd = self.move_queue[i];
            let file = FileLock { loaded: &*loaded, layout };
            self.apply_move(&file, cmd, cursor_padding);
            proof {
                assert(cmds.take(i + 1).drop_last() =~= cmds.take(i as int));
            }
            i = i + 1;
        }
        proof {
            assert(cmds.take(n as int) =~= cmds);
        }
        self.move_queue = Vec::new();
        // Inform the backend about what area of the file to load (and keep loaded)
        let changed: bool = loaded.set_hot_area(
            self.scroll.last_view,
            Some(self.selected.range()),
        );
        // Send a copy command if requested
        if self.send_sel_copy {
            loaded.copy_selection();
            self.send_sel_copy = false;
            true
        } else {
            changed
        }
    }
}

/// The cursor is kept on screen, with the padding below it and right of it, and above
/// it and left of it too where the screen is large enough.
pub proof fn lemma_cursor_kept(n: int, lo: int, hi: int, pad: int, size: int)
    requires
        -0x1_0000_0000_0000_0000_0000_0000_0000 <= lo <= hi
            <= 0x1_0000_0000_0000_0000_0000_0000_0000,
        0 <= pad <= 0x1_0000_0000_0000_0000_0000_0000_0000,
        0 <= size <= 0x1_0000_0000_0000_0000_0000_0000_0000,
    ensures
        hi + pad <= kept_in(n, lo, hi, pad, size) + size,
        size >= (hi - lo) + 2 * pad ==> kept_in(n, lo, hi, pad, size) <= lo - pad,
        // Nothing scrolls while the cursor is well on screen
        hi + pad <= n + size && n <= lo - pad ==> kept_in(n, lo, hi, pad, size) == n,
{
}

/// A move either resets the selection to where the cursor goes, or keeps its other end.
pub proof fn lemma_move_selects(
    s: Sight,
    sel: Selected,
    scroll: ScrollManager,
    cmd: MoveCmd,
    pad: int,
)
    ensures
        ({
            let new = after_move(s, sel, scroll, cmd, pad).0;
            &&& cmd.reset ==> new.first == new.second && new.first_pos == new.second_pos
            &&& !cmd.reset ==> new.first == sel.first && new.first_pos == sel.first_pos
        }),
{
}

/// Selecting everything selects the whole file, whatever was selected before and
/// whatever is loaded.
pub proof fn lemma_select_all(
    s: Sight,
    sel: Selected,
    scroll: ScrollManager,
    shift: bool,
    page: i64,
    size: i64,
    pad: int,
)
    requires
        size >= 0,
    ensures
        after_moves(
            s,
            sel,
            scroll,
            key_moves(Key::A, true, shift, page, size),
            pad,
        ).0.spec_range() == (0i64, size),
{
    let cmds = key_moves(Key::A, true, shift, page, size);
    let start = cmds.drop_last();
    assert(start =~= seq![cmds[0]]);
    assert(start.drop_last() =~= Seq::<MoveCmd>::empty());
    assert(after_moves(s, sel, scroll, start.drop_last(), pad) == (sel, scroll));
    assert(after_moves(s, sel, scroll, start, pad) == after_move(s, sel, scroll, cmds[0], pad));
}

impl FileView {
    /// Scroll no farther than what is loaded around the base, and note what is shown.
    /// The bounds of the scrollbars are not updated while one is being dragged, which
    /// makes the drag experience much smoother while the file is still being loaded.
    pub fn sync_scroll(&mut self, loaded: &LoadedData, size: FileVec)
        requires
            loaded.readable(),
        ensures
            ({
                let base = old(self).scroll.pos.base_offset;
                exists|bounds: FileRect| #[trigger]
                    is_bounds(loaded.linemap@, base, bounds) && final(self).scroll
                        == synced(old(self).scroll, bounds, size, old(self).drag)
            }),
            old(self).scroll.wf() ==> final(self).scroll.wf(),
            final(self).selected == old(self).selected,
            final(self).move_queue == old(self).move_queue,
            final(self).drag == old(self).drag,
            final(self).selecting == old(self).selecting,
            final(self).send_sel_copy == old(self).send_sel_copy,
    {
        let bounds: FileRect = loaded.linemap.bounding_rect(self.scroll.pos.base_offset);
        proof {
            assert(is_bounds(loaded.linemap@, self.scroll.pos.base_offset, bounds));
        }
        self.scroll.pos = bounds.clamp_pos(self.scroll.pos);
        self.scroll.last_view = FileRect { corner: self.scroll.pos, size };
        if !self.drag.is_scrollbar() {
            self.scroll.last_bounds = bounds;
        }
    }
}

/// Whether a rectangle is the one that is loaded around an offset.
pub open spec fn is_bounds(map: Seq<Mapped>, base: i64, bounds: FileRect) -> bool {
    &&& bounds.corner.base_offset == base
    &&& !is_mapped(map, base as int) ==> bounds.corner.delta_x == 0 && bounds.corner.delta_y == 0
        && bounds.size.x == 0 && bounds.size.y == 0
    &&& is_mapped(map, base as int) ==> exists|i: int, k: int, f: int|
        #![trigger is_base(map, base as int, i, k), is_first_abs(map[i].marks, f)]
        is_base(map, base as int, i, k) && is_first_abs(map[i].marks, f) && (
        bounds.corner.delta_x as int,
        bounds.corner.delta_y as int,
        bounds.size.x as int,
        bounds.size.y as int,
        ) == known_rect(map[i], k, f)
}

/// The scroll state after the bounds became known.
pub open spec fn synced(
    scroll: ScrollManager,
    bounds: FileRect,
    size: FileVec,
    drag: Drag,
) -> ScrollManager {
    let pos = FilePos {
        base_offset: scroll.pos.base_offset,
        delta_x: nearest(
            scroll.pos.delta_x as int,
            bounds.corner.delta_x as int,
            bounds.right(),
        ) as i128,
        delta_y: nearest(
            scroll.pos.delta_y as int,
            bounds.corner.delta_y as int,
            bounds.bottom(),
        ) as i128,
    };
    ScrollManager {
        pos,
        last_view: FileRect { corner: pos, size },
        last_bounds: if drag is ScrollbarX || drag is ScrollbarY {
            scroll.last_bounds
        } else {
            bounds
        },
    }
}

/// The decimal digits of a number, from the last to the first.
pub open spec fn digits(n: nat) -> Seq<u8>
    decreases n,
{
    if n < 10 {
        seq![(48 + n) as u8]
    } else {
        seq![(48 + n % 10) as u8] + digits(n / 10)
    }
}

/// The number of a line, which counts from one at the start of the file where that is
/// known, and else from the base.
pub open spec fn line_number(dy: int, start_dy: Option<i64>) -> int {
    match start_dy {
        Some(start) => dy - start + 1,
        None => dy,
    }
}

/// The label of a line, from the last character to the first: its number, with a sign
/// where it does not count from the start of the file.
pub open spec fn label(dy: int, start_dy: Option<i64>) -> Seq<u8> {
    let n = line_number(dy, start_dy);
    digits(
        if n < 0 {
            (-n) as nat
        } else {
            n as nat
        },
    ) + match start_dy {
        Some(_) => Seq::empty(),
        None => if n < 0 {
            seq![45u8]
        } else {
            seq![43u8]
        },
    }
}

/// The label of a line, from the last character to the first.
pub fn line_label(dy: i64, start_dy: Option<i64>) -> (r: Vec<u8>)
    ensures
        r@ == label(dy as int, start_dy),
{
    let n: i128 = match start_dy {
        Some(start) => dy as i128 - start as i128 + 1,
        None => dy as i128,
    };
    let mut rest: i128 = if n < 0 {
        -n
    } else {
        n
    };
    let mut out: Vec<u8> = Vec::new();
    let ghost all = digits(rest as nat);
    proof {
        assert(out@ + all =~= all);
    }
    while rest >= 10
        invariant
            0 <= rest,
            all == out@ + digits(rest as nat),
        decreases rest,
    {
        let ghost was = out@;
        let d: u8 = (rest % 10) as u8;
        out.push(48 + d);
        proof {
            assert(digits(rest as nat) == seq![(48 + rest % 10) as u8] + digits((rest / 10) as nat));
            assert(was + (seq![(48 + d) as u8] + digits((rest / 10) as nat)) =~= out@ + digits(
                (rest / 10) as nat,
            ));
        }
        rest = rest / 10;
    }
    let d: u8 = rest as u8;
    out.push(48 + d);
    proof {
        assert(out@ =~= all);
    }
    if start_dy.is_none() {
        out.push(
            if n < 0 {
                45
            } else {
                43
            },
        );
    }
    proof {
        assert(out@ =~= label(dy as int, start_dy));
    }
    out
}

/// The largest size of a rectangle that can be scrolled.
pub const MAX_EXTENT: i128 = 0x10_0000_0000_0000_0000_0000_0000;

/// Which part of `size` lies before `d`, in units of `1 / UNITS`.
pub open spec fn fraction(d: int, size: int) -> int {
    if d <= 0 {
        0
    } else if d >= size {
        0x100_0000
    } else {
        d * 0x100_0000 / size
    }
}

/// Which part of `size` lies before `d`, in units of `1 / UNITS`.
fn fraction_of(d: i128, size: i128) -> (r: u32)
    requires
        size <= MAX_EXTENT,
    ensures
        r == fraction(d as int, size as int),
        r <= UNITS,
{
    if d <= 0 {
        0
    } else if d >= size {
        0x100_0000
    } else {
        proof {
            assert(0 <= (d * 0x100_0000) / (size as int) < 0x100_0000) by (nonlinear_arith)
                requires
                    0 < d < size,
            ;
        }
        (d * UNITS / size) as u32
    }
}

impl ScrollManager {
    /// The rectangle that can be scrolled has a size that can be computed with.
    pub open spec fn wf(self) -> bool {
        &&& 0 <= self.last_bounds.size.x <= MAX_EXTENT
        &&& 0 <= self.last_bounds.size.y <= MAX_EXTENT
    }

    /// Check whether to draw the vertical scrollbar.
    pub fn ydraw(&self) -> (r: bool)
        ensures
            r == (self.last_view.size.y < self.last_bounds.size.y),
    {
        self.last_view.size.y < self.last_bounds.size.y
    }

    /// Check whether to draw the horizontal scrollbar.
    pub fn xdraw(&self) -> (r: bool)
        ensures
            r == (self.last_view.size.x < self.last_bounds.size.x),
    {
        self.last_view.size.x < self.last_bounds.size.x
    }

    /// Compute where along the file is the current vertical scroll, as a fraction in
    /// units of `1 / UNITS`.
    pub fn ycoef(&self) -> (r: u32)
        requires
            self.wf(),
        ensures
            r == fraction(
                to_distance(
                    self.pos.delta_y + to_distance(-(self.last_bounds.corner.delta_y as int)),
                ),
                self.last_bounds.size.y as int,
            ),
            r <= UNITS,
            // Nothing at the start, all of it at the end, and in between as much as lies before
            self.pos.delta_y <= self.last_bounds.corner.delta_y ==> r == 0,
            i128::MIN < self.last_bounds.corner.delta_y < self.pos.delta_y && self.pos.delta_y
                - self.last_bounds.corner.delta_y >= self.last_bounds.size.y ==> r == UNITS,
            i128::MIN < self.last_bounds.corner.delta_y && 0 <= self.pos.delta_y
                - self.last_bounds.corner.delta_y < self.last_bounds.size.y ==> r * self.last_bounds.size.y <= (self.pos.delta_y
                - self.last_bounds.corner.delta_y) * UNITS < (r + 1) * self.last_bounds.size.y,
    {
        proof {
            let d = self.pos.delta_y - self.last_bounds.corner.delta_y;
            if 0 <= d < self.last_bounds.size.y {
                lemma_fraction(d, self.last_bounds.size.y as int);
            }
        }
        fraction_of(
            add_distance(self.pos.delta_y, negate(self.last_bounds.corner.delta_y)),
            self.last_bounds.size.y,
        )
    }

    /// Compute the fraction of the file that the screen takes up, in units of
    /// `1 / UNITS`.
    /// Note that the scrollhandle may be larger if a lower limit is reached.
    pub fn hcoef(&self) -> (r: u32)
        requires
            self.wf(),
        ensures
            r == if self.last_bounds.size.y == 0 {
                0x100_0000
            } else {
                fraction(self.last_view.size.y as int, self.last_bounds.size.y as int)
            },
            r <= UNITS,
            // All of it where the screen is as large, and else as much as the screen takes up
            self.last_view.size.y >= self.last_bounds.size.y ==> r == UNITS,
            0 <= self.last_view.size.y < self.last_bounds.size.y ==> r
                * self.last_bounds.size.y <= self.last_view.size.y * UNITS < (r + 1)
                * self.last_bounds.size.y,
    {
        if self.last_bounds.size.y == 0 {
            0x100_0000
        } else {
            proof {
                if 0 < self.last_bounds.size.y {
                    lemma_fraction(self.last_view.size.y as int, self.last_bounds.size.y as int);
                }
            }
            fraction_of(self.last_view.size.y, self.last_bounds.size.y)
        }
    }

    /// Compute where along the file is the current horizontal scroll, as a fraction in
    /// units of `1 / UNITS`.
    pub fn xcoef(&self) -> (r: u32)
        requires
            self.wf(),
        ensures
            r == fraction(
                to_distance(
                    self.pos.delta_x + to_distance(-(self.last_bounds.corner.delta_x as int)),
                ),
                self.last_bounds.size.x as int,
            ),
            r <= UNITS,
            // Nothing at the start, all of it at the end, and in between as much as lies before
            self.pos.delta_x <= self.last_bounds.corner.delta_x ==> r == 0,
            i128::MIN < self.last_bounds.corner.delta_x < self.pos.delta_x && self.pos.delta_x
                - self.last_bounds.corner.delta_x >= self.last_bounds.size.x ==> r == UNITS,
            i128::MIN < self.last_bounds.corner.delta_x && 0 <= self.pos.delta_x
                - self.last_bounds.corner.delta_x < self.last_bounds.size.x ==> r * self.last_bounds.size.x <= (self.pos.delta_x
                - self.last_bounds.corner.delta_x) * UNITS < (r + 1) * self.last_bounds.size.x,
    {
        proof {
            let d = self.pos.delta_x - self.last_bounds.corner.delta_x;
            if 0 <= d < self.last_bounds.size.x {
                lemma_fraction(d, self.last_bounds.size.x as int);
            }
        }
        fraction_of(
            add_distance(self.pos.delta_x, negate(self.last_bounds.corner.delta_x)),
            self.last_bounds.size.x,
        )
    }

    /// Compute the fraction of the widest line that the screen takes up, in units of
    /// `1 / UNITS`.
    /// Note that the scrollhandle may be larger if a lower limit is reached.
    pub fn wcoef(&self) -> (r: u32)
        requires
            self.wf(),
        ensures
            r == if self.last_bounds.size.x == 0 {
                0x100_0000
            } else {
                fraction(self.last_view.size.x as int, self.last_bounds.size.x as int)
            },
            r <= UNITS,
            // All of it where the screen is as large, and else as much as the screen takes up
            self.last_view.size.x >= self.last_bounds.size.x ==> r == UNITS,
            0 <= self.last_view.size.x < self.last_bounds.size.x ==> r
                * self.last_bounds.size.x <= self.last_view.size.x * UNITS < (r + 1)
                * self.last_bounds.size.x,
    {
        if self.last_bounds.size.x == 0 {
            0x100_0000
        } else {
            proof {
                if 0 < self.last_bounds.size.x {
                    lemma_fraction(self.last_view.size.x as int, self.last_bounds.size.x as int);
                }
            }
            fraction_of(self.last_view.size.x, self.last_bounds.size.x)
        }
    }

    /// Scroll vertically to a part of the file, given in units of `1 / UNITS`.
    pub fn drag_y(&mut self, part: u32)
        requires
            old(self).wf(),
        ensures
            final(self).pos.delta_y == to_distance(
                old(self).last_bounds.corner.delta_y + part_of(
                    old(self).last_bounds.size.y as int,
                    part as int,
                ),
            ),
            // From the start of what can be scrolled to its end, in proportion
            ({
                let from = old(self).last_bounds.corner.delta_y;
                let size = old(self).last_bounds.size.y;
                let d = final(self).pos.delta_y - from;
                from + size <= i128::MAX ==> {
                    &&& 0 <= d <= size
                    &&& part >= UNITS ==> d == size
                    &&& part <= UNITS ==> d * UNITS <= size * part < (d + 1) * UNITS
                }
            }),
            final(self).pos.delta_x == old(self).pos.delta_x,
            final(self).pos.base_offset == old(self).pos.base_offset,
            final(self).last_view == old(self).last_view,
            final(self).last_bounds == old(self).last_bounds,
    {
        proof {
            lemma_part(self.last_bounds.size.y as int, part as int);
        }
        self.pos.delta_y = add_distance(
            self.last_bounds.corner.delta_y,
            take_part(self.last_bounds.size.y, part),
        );
    }

    /// Scroll horizontally to a part of the file, given in units of `1 / UNITS`.
    pub fn drag_x(&mut self, part: u32)
        requires
            old(self).wf(),
        ensures
            final(self).pos.delta_x == to_distance(
                old(self).last_bounds.corner.delta_x + part_of(
                    old(self).last_bounds.size.x as int,
                    part as int,
                ),
            ),
            // From the start of what can be scrolled to its end, in proportion
            ({
                let from = old(self).last_bounds.corner.delta_x;
                let size = old(self).last_bounds.size.x;
                let d = final(self).pos.delta_x - from;
                from + size <= i128::MAX ==> {
                    &&& 0 <= d <= size
                    &&& part >= UNITS ==> d == size
                    &&& part <= UNITS ==> d * UNITS <= size * part < (d + 1) * UNITS
                }
            }),
            final(self).pos.delta_y == old(self).pos.delta_y,
            final(self).pos.base_offset == old(self).pos.base_offset,
            final(self).last_view == old(self).last_view,
            final(self).last_bounds == old(self).last_bounds,
    {
        proof {
            lemma_part(self.last_bounds.size.x as int, part as int);
        }
        self.pos.delta_x = add_distance(
            self.last_bounds.corner.delta_x,
            take_part(self.last_bounds.size.x, part),
        );
    }
}

/// A part of a size, given in units of `1 / UNITS`, but no more than all of it.
pub open spec fn part_of(size: int, part: int) -> int {
    if part >= 0x100_0000 {
        size
    } else {
        size * part / 0x100_0000
    }
}

/// A part of a size, given in units of `1 / UNITS`, but no more than all of it.
fn take_part(size: i128, part: u32) -> (r: i128)
    requires
        0 <= size <= MAX_EXTENT,
    ensures
        r == part_of(size as int, part as int),
{
    if part >= 0x100_0000 {
        size
    } else {
        proof {
            assert(0 <= size * part <= MAX_EXTENT * 0x100_0000) by (nonlinear_arith)
                requires
                    0 <= size <= MAX_EXTENT,
                    0 <= part < 0x100_0000,
            ;
        }
        size * part as i128 / UNITS
    }
}

/// The part of a size that lies before a place goes from nothing to all of it, and is as large
/// as units allow.
pub proof fn lemma_fraction(d: int, size: int)
    requires
        0 < size,
    ensures
        0 <= fraction(d, size) <= 0x100_0000,
        d <= 0 ==> fraction(d, size) == 0,
        d >= size ==> fraction(d, size) == 0x100_0000,
        0 <= d <= size ==> fraction(d, size) * size <= d * 0x100_0000 < (fraction(d, size) + 1)
            * size,
{
    if 0 < d < size {
        let f = d * 0x100_0000 / size;
        assert(f * size <= d * 0x100_0000 < (f + 1) * size && 0 <= f <= 0x100_0000)
            by (nonlinear_arith)
            requires
                0 < d < size,
                f == d * 0x100_0000 / size,
        ;
    } else if d <= 0 {
        assert(0 * size == 0) by (nonlinear_arith);
    }
    assert(0x100_0000 * size <= size * 0x100_0000 < (0x100_0000 + 1) * size) by (nonlinear_arith)
        requires
            0 < size,
    ;
}

/// Dragging a scrollbar to some part of the file leads to where that part ends.
pub proof fn lemma_part(size: int, part: int)
    requires
        0 <= size,
        0 <= part,
    ensures
        0 <= part_of(size, part) <= size,
        part_of(size, 0) == 0,
        part >= 0x100_0000 ==> part_of(size, part) == size,
        part <= 0x100_0000 ==> part_of(size, part) * 0x100_0000 <= size * part < (part_of(size, part)
            + 1) * 0x100_0000,
{
    assert(0 <= size * part) by (nonlinear_arith)
        requires
            0 <= size,
            0 <= part,
    ;
    if part < 0x100_0000 {
        assert(size * part <= size * 0x100_0000) by (nonlinear_arith)
            requires
                0 <= size,
                part < 0x100_0000,
        ;
    }
    assert(size * 0 == 0);
}

/// Dragging a scrollbar back to where it is moves the scroll position by less than the
/// part of the file that one unit stands for.
pub proof fn lemma_drag_back(d: int, size: int)
    requires
        0 <= d <= size,
        0 < size,
    ensures
        part_of(size, fraction(d, size)) <= d,
        (d - part_of(size, fraction(d, size))) * 0x100_0000 < size + 0x100_0000,
{
    if 0 < d < size {
        let f = d * 0x100_0000 / size;
        assert(0 <= f < 0x100_0000) by (nonlinear_arith)
            requires
                0 < d < size,
                f == d * 0x100_0000 / size,
        ;
        assert(f * size <= d * 0x100_0000 < (f + 1) * size) by (nonlinear_arith)
            requires
                0 < size,
                f == d * 0x100_0000 / size,
        ;
        let g = size * f;
        assert(g == f * size) by (nonlinear_arith)
            requires
                g == size * f,
        ;
        assert((f + 1) * size == f * size + size) by (nonlinear_arith);
    }
}

} // verus!
