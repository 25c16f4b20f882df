//! Views, tabs and input.

use gaze::cfg::{DragButton, ViewButtons};
use gaze::fileview::{
    line_label, Drag, FileView, Key, MousePlace, MoveCmd, MoveKind, Started,
};
use gaze::input::InputState;
use gaze::layout::{CharLayout, UNITS};
use gaze::linemapper::LineMapper;
use gaze::loaded::LoadedData;
use gaze::position::{FilePos, FileRect, FileVec};
use gaze::tabs::{tab_click, TabAction, TabKey, TabList, WindowAction};

const U: i128 = UNITS;

fn square() -> CharLayout {
    CharLayout::new(&[], U as u32)
}

fn load(text: &[u8]) -> LoadedData {
    let mut loaded = LoadedData::new(usize::MAX, 1024, 1024);
    loaded.set_file_size(text.len() as i64);
    let mapper = LineMapper::new(square(), text.len() as i64, 1 << 20, 16);
    loaded.load_segment(&mapper, 0, text.to_vec(), 0..0, true);
    loaded
}

const TEXT: &[u8] = b"first line\nsecond\n\nfourth line, which is somewhat longer than an anchor\nend";

fn buttons() -> ViewButtons {
    ViewButtons {
        grab_button: DragButton { button: 2, hold: true },
        scrollbar_button: DragButton { button: 0, hold: true },
        slide_button: DragButton { button: 1, hold: false },
        select_button: 0,
    }
}

fn place(inside: bool, on_y_bar: bool, on_x_bar: bool) -> MousePlace {
    let pos = FilePos { base_offset: 0, delta_x: 3 * U, delta_y: U };
    MousePlace { inside, on_y_bar, on_x_bar, pos }
}

/// Where the cursor ends up after some moves from an offset.
fn moved(from: i64, kinds: &[MoveKind]) -> i64 {
    let mut loaded = load(TEXT);
    let layout = square();
    let mut v = FileView::new();
    v.move_selection(MoveCmd { reset: true, kind: MoveKind::Raw(from) });
    for &kind in kinds {
        v.move_selection(MoveCmd { reset: false, kind });
    }
    v.bookkeep_file(&mut loaded, &layout, 0);
    assert!(v.move_queue.is_empty());
    v.selected.second
}

#[test]
fn cursor_moves() {
    assert_eq!(moved(0, &[MoveKind::CharDelta(3)]), 3);
    assert_eq!(moved(3, &[MoveKind::CharDelta(-1)]), 2);
    assert_eq!(moved(3, &[MoveKind::CharDelta(-100)]), 0);
    assert_eq!(moved(3, &[MoveKind::LineDelta(1)]), 14);
    assert_eq!(moved(14, &[MoveKind::LineDelta(-1)]), 3);
    // A shorter line
    assert_eq!(moved(9, &[MoveKind::LineDelta(1)]), 17);
    assert_eq!(moved(14, &[MoveKind::LineDelta(1)]), 18);
    assert_eq!(moved(14, &[MoveKind::HorizontalDelta(i128::MIN)]), 11);
    assert_eq!(moved(14, &[MoveKind::HorizontalDelta(i128::MAX)]), 17);
    assert_eq!(moved(14, &[MoveKind::HorizontalDelta(U)]), 15);
    assert_eq!(
        moved(0, &[MoveKind::Absolute(FilePos {
            base_offset: 0,
            delta_x: 2 * U + U / 2,
            delta_y: U + U / 2
        })]),
        14
    );
    // Nothing is loaded there
    assert_eq!(
        moved(5, &[MoveKind::Absolute(FilePos { base_offset: 900, delta_x: 0, delta_y: 0 })]),
        5
    );
    assert_eq!(moved(900, &[MoveKind::LineDelta(1)]), 900);
    assert_eq!(moved(900, &[MoveKind::HorizontalDelta(U)]), 900);
}

#[test]
fn selections() {
    let mut loaded = load(TEXT);
    let layout = square();
    let mut v = FileView::new();
    v.move_selection(MoveCmd { reset: true, kind: MoveKind::Raw(20) });
    v.move_selection(MoveCmd { reset: false, kind: MoveKind::Raw(10) });
    assert!(v.bookkeep_file(&mut loaded, &layout, 0));
    assert_eq!((v.selected.first, v.selected.second), (20, 10));
    assert_eq!(v.selected.range(), 10..20);
    assert_eq!(loaded.sel, Some(10..20));
    assert!(v.selected.is_selected(10));
    assert!(v.selected.is_selected(19));
    assert!(!v.selected.is_selected(20));
    assert!(!v.bookkeep_file(&mut loaded, &layout, 0));
    assert!(v.handle_key(Key::C, true, false, 0));
    assert!(v.bookkeep_file(&mut loaded, &layout, 0));
    assert!(loaded.pending_sel_copy);
    assert!(!v.send_sel_copy);
}

#[test]
fn everything_can_be_selected() {
    for loaded in [&mut load(TEXT), &mut LoadedData::new(usize::MAX, 1024, 1024)] {
        let mut v = FileView::new();
        v.move_selection(MoveCmd { reset: true, kind: MoveKind::Raw(7) });
        assert!(v.handle_key(Key::A, true, false, TEXT.len() as i64));
        v.bookkeep_file(loaded, &square(), 0);
        assert_eq!(v.selected.range(), 0..TEXT.len() as i64);
        // Moving without a shift key drops the selection
        assert!(v.handle_key(Key::Home, true, false, TEXT.len() as i64));
        v.bookkeep_file(loaded, &square(), 0);
        assert_eq!(v.selected.range(), 0..0);
        // Moving with one keeps where it starts
        assert!(v.handle_key(Key::End, true, true, TEXT.len() as i64));
        v.bookkeep_file(loaded, &square(), 0);
        assert_eq!((v.selected.first, v.selected.second), (0, TEXT.len() as i64));
    }
}

#[test]
fn cursor_stays_on_screen() {
    let mut loaded = load(TEXT);
    let layout = square();
    let mut v = FileView::new();
    v.sync_scroll(&loaded, FileVec { x: 10 * U, y: 2 * U });
    assert_eq!(v.scroll.pos, FilePos { base_offset: 0, delta_x: 0, delta_y: 0 });
    // Down to the last line
    v.move_selection(MoveCmd { reset: true, kind: MoveKind::Raw(TEXT.len() as i64) });
    v.bookkeep_file(&mut loaded, &layout, 0);
    assert_eq!(v.scroll.pos.delta_y, 3 * U);
    assert_eq!(v.selected.second_pos.unwrap().delta_y, 4 * U);
    // And back
    v.move_selection(MoveCmd { reset: true, kind: MoveKind::Raw(0) });
    v.bookkeep_file(&mut loaded, &layout, 0);
    assert_eq!(v.scroll.pos.delta_y, 0);
    // Far to the right, with padding
    v.move_selection(MoveCmd { reset: true, kind: MoveKind::Raw(60) });
    v.bookkeep_file(&mut loaded, &layout, U);
    assert_eq!(v.selected.second_pos.unwrap().delta_x, 41 * U);
    assert_eq!(v.scroll.pos.delta_x, 32 * U);
}

#[test]
fn scrolling_is_bounded() {
    let loaded = load(TEXT);
    let mut v = FileView::new();
    v.handle_wheel(FileVec { x: 0, y: -100 * U }, false, false);
    assert_eq!(v.scroll.pos.delta_y, 100 * U);
    v.sync_scroll(&loaded, FileVec { x: 10 * U, y: 2 * U });
    assert_eq!(v.scroll.pos.delta_y, 4 * U);
    v.handle_wheel(FileVec { x: -2 * U, y: -100 * U }, false, true);
    v.sync_scroll(&loaded, FileVec { x: 10 * U, y: 2 * U });
    assert_eq!(v.scroll.pos, FilePos { base_offset: 0, delta_x: 2 * U, delta_y: 0 });
    assert_eq!(v.scroll.last_view.corner, v.scroll.pos);
    // The bounds do not move while a scrollbar is dragged
    let bounds = v.scroll.last_bounds;
    v.drag = Drag::ScrollbarY;
    v.sync_scroll(&LoadedData::new(0, 1, 1), FileVec { x: 0, y: 0 });
    assert_eq!(v.scroll.last_bounds, bounds);
    v.drag = Drag::Grab;
    v.sync_scroll(&LoadedData::new(0, 1, 1), FileVec { x: 0, y: 0 });
    assert_eq!(v.scroll.last_bounds.size, FileVec { x: 0, y: 0 });
}

#[test]
fn scrollbars() {
    let mut v = FileView::new();
    assert_eq!(v.scroll.hcoef(), U as u32);
    assert_eq!(v.scroll.ycoef(), 0);
    assert!(!v.scroll.ydraw());
    let corner = FilePos { base_offset: 0, delta_x: -2 * U, delta_y: -10 * U };
    v.scroll.last_bounds = FileRect { corner, size: FileVec { x: 8 * U, y: 40 * U } };
    v.scroll.last_view.size = FileVec { x: 8 * U, y: 10 * U };
    assert!(v.scroll.ydraw());
    assert!(!v.scroll.xdraw());
    assert_eq!(v.scroll.hcoef(), (U / 4) as u32);
    assert_eq!(v.scroll.wcoef(), U as u32);
    assert_eq!(v.scroll.ycoef(), (U / 4) as u32);
    assert_eq!(v.scroll.xcoef(), (U / 4) as u32);
    v.scroll.drag_y((U / 2) as u32);
    assert_eq!(v.scroll.pos.delta_y, 10 * U);
    assert_eq!(v.scroll.ycoef(), (U / 2) as u32);
    v.scroll.drag_x(2 * U as u32);
    assert_eq!(v.scroll.pos.delta_x, 6 * U);
    v.scroll.pos.delta_y = 1000 * U;
    assert_eq!(v.scroll.ycoef(), U as u32);
    v.scroll.pos.delta_y = -1000 * U;
    assert_eq!(v.scroll.ycoef(), 0);
}

#[test]
fn keys_queue_moves() {
    let mut v = FileView::new();
    v.scroll.last_view.size.y = 20 * U + 5;
    let mut press = |key: Key, ctrl: bool, shift: bool| {
        let used = v.handle_key(key, ctrl, shift, 777);
        (used, std::mem::take(&mut v.move_queue))
    };
    let one = |reset: bool, kind: MoveKind| (true, vec![MoveCmd { reset, kind }]);
    assert_eq!(press(Key::Left, false, false), one(true, MoveKind::CharDelta(-1)));
    assert_eq!(press(Key::Right, false, true), one(false, MoveKind::CharDelta(1)));
    assert_eq!(press(Key::Up, false, false), one(true, MoveKind::LineDelta(-1)));
    assert_eq!(press(Key::Down, false, false), one(true, MoveKind::LineDelta(1)));
    assert_eq!(press(Key::PageUp, false, false), one(true, MoveKind::LineDelta(-20)));
    assert_eq!(press(Key::PageDown, false, true), one(false, MoveKind::LineDelta(20)));
    assert_eq!(press(Key::Home, true, false), one(true, MoveKind::Raw(0)));
    assert_eq!(press(Key::End, true, false), one(true, MoveKind::Raw(777)));
    assert_eq!(press(Key::Home, false, false), one(true, MoveKind::HorizontalDelta(i128::MIN)));
    assert_eq!(press(Key::End, false, false), one(true, MoveKind::HorizontalDelta(i128::MAX)));
    assert_eq!(
        press(Key::A, true, false),
        (
            true,
            vec![
                MoveCmd { reset: true, kind: MoveKind::Raw(0) },
                MoveCmd { reset: false, kind: MoveKind::Raw(777) },
            ]
        )
    );
    assert_eq!(press(Key::A, false, false), (false, vec![]));
    assert_eq!(press(Key::C, false, false), (false, vec![]));
    let mut v = FileView::new();
    assert!(v.handle_key(Key::PageDown, false, false, 0));
    assert_eq!(v.move_queue[0].kind, MoveKind::LineDelta(1));
}

#[test]
fn dragging() {
    let k = buttons();
    let mut v = FileView::new();
    assert!(v.drag.is_none());
    assert_eq!(v.handle_drag(0, true, place(true, true, true), &k), Started::Drag);
    assert_eq!(v.drag, Drag::ScrollbarY);
    assert!(v.drag.is_scrollbar());
    assert_eq!(v.handle_drag(0, false, place(true, true, true), &k), Started::Nothing);
    assert_eq!(v.drag, Drag::Idle);
    assert_eq!(v.handle_drag(0, true, place(true, false, true), &k), Started::Drag);
    assert_eq!(v.drag, Drag::ScrollbarX);
    v.unfocus();
    // A button that is pressed once to start and once to stop
    assert_eq!(v.handle_drag(1, true, place(true, false, false), &k), Started::Drag);
    assert_eq!(v.drag, Drag::Slide);
    assert!(v.drag.requires_refresh());
    assert_eq!(v.handle_drag(1, false, place(true, false, false), &k), Started::Nothing);
    assert_eq!(v.drag, Drag::Slide);
    assert_eq!(v.handle_drag(1, true, place(true, false, false), &k), Started::Nothing);
    assert_eq!(v.drag, Drag::Idle);
    assert_eq!(v.handle_drag(2, true, place(false, false, false), &k), Started::Nothing);
    assert_eq!(v.handle_drag(2, true, place(true, false, false), &k), Started::Drag);
    assert_eq!(v.drag, Drag::Grab);
    assert!(v.drag.hold(&k));
}

#[test]
fn selecting_with_the_mouse() {
    let k = buttons();
    let mut v = FileView::new();
    let at = place(true, false, false);
    assert!(!v.tick_selection(at.pos, false));
    assert_eq!(v.handle_drag(0, true, at, &k), Started::Selection);
    assert!(v.selecting);
    assert!(v.tick_selection(at.pos, false));
    assert!(!v.tick_selection(at.pos, true));
    assert_eq!(
        v.move_queue,
        vec![
            MoveCmd { reset: true, kind: MoveKind::Absolute(at.pos) },
            MoveCmd { reset: false, kind: MoveKind::Absolute(at.pos) },
        ]
    );
    assert_eq!(v.handle_drag(0, false, at, &k), Started::Nothing);
    assert!(!v.selecting);
}

#[test]
fn labels_of_lines() {
    let text = |dy: i64, start: Option<i64>| {
        let mut v = line_label(dy, start);
        v.reverse();
        String::from_utf8(v).unwrap()
    };
    assert_eq!(text(0, Some(0)), "1");
    assert_eq!(text(1233, Some(0)), "1234");
    assert_eq!(text(5, Some(-94)), "100");
    assert_eq!(text(-1, Some(0)), "0");
    assert_eq!(text(0, None), "+0");
    assert_eq!(text(42, None), "+42");
    assert_eq!(text(-307, None), "-307");
    assert_eq!(text(i64::MAX, Some(i64::MIN)), "18446744073709551616");
}

#[test]
fn list_of_tabs() {
    let mut t: TabList<&str> = TabList::new();
    assert_eq!(t.neighbor(false), None);
    assert_eq!(t.kill_tab(0), None);
    t.load("a");
    t.load("b");
    t.load("c");
    assert_eq!((t.cur_tab, t.tabs.clone()), (2, vec!["a", "b", "c"]));
    assert_eq!(t.select_tab(0), Some(2));
    assert_eq!(t.select_tab(0), None);
    t.load("d");
    assert_eq!((t.cur_tab, t.tabs.clone()), (1, vec!["a", "d", "b", "c"]));
    assert_eq!(t.neighbor(false), Some(2));
    assert_eq!(t.neighbor(true), Some(0));
    t.select_tab(3);
    assert_eq!(t.neighbor(false), Some(0));
    assert_eq!(t.kill_tab(3), Some("c"));
    assert_eq!(t.cur_tab, 2);
    assert_eq!(t.kill_tab(0), Some("a"));
    assert_eq!((t.cur_tab, t.tabs.clone()), (1, vec!["d", "b"]));
    t.select_tab(0);
    assert_eq!(t.neighbor(true), Some(1));
    assert_eq!(t.kill_tab(5), None);
}

#[test]
fn taking_a_tab_out_for_a_moment() {
    let mut t: TabList<u32> = TabList::new();
    for i in 0..4 {
        t.load(i);
    }
    for i in 0..4 {
        let tab = t.take_ftab(i).unwrap();
        assert_eq!(t.tabs.len(), 3);
        t.put_ftab(i, tab);
        assert_eq!(t.tabs, vec![0, 1, 2, 3]);
    }
    assert_eq!(t.take_ftab(4), None);
}

#[test]
fn tab_keys_and_clicks() {
    let mut t: TabList<u32> = TabList::new();
    assert_eq!(t.handle_key(TabKey::Tab, true, false), WindowAction::Nothing);
    t.load(0);
    t.load(1);
    assert_eq!(t.handle_key(TabKey::Tab, true, false), WindowAction::Select(0));
    assert_eq!(t.handle_key(TabKey::Tab, true, true), WindowAction::Select(0));
    assert_eq!(t.handle_key(TabKey::W, true, false), WindowAction::Kill(1));
    assert_eq!(t.handle_key(TabKey::O, true, false), WindowAction::Open);
    assert_eq!(t.handle_key(TabKey::O, false, false), WindowAction::Nothing);
    assert_eq!(tab_click(0, true, 0, 2), TabAction::Select);
    assert_eq!(tab_click(2, true, 0, 2), TabAction::Kill);
    assert_eq!(tab_click(2, false, 0, 2), TabAction::Nothing);
    assert_eq!(tab_click(1, true, 0, 2), TabAction::Nothing);
}

#[test]
fn keys_and_buttons() {
    let mut i = InputState::new();
    for k in 0..=255u8 {
        assert!(!i.key(k));
    }
    i.set_key_down(70, true);
    i.set_key_down(200, true);
    assert!(i.key(70) && i.key(200) && !i.key(6) && !i.key(71));
    assert!(i.ctrl(70, 71) && i.ctrl(71, 70) && !i.ctrl(71, 72));
    assert!(i.shift(1, 200));
    i.set_key_down(70, false);
    assert!(!i.key(70) && i.key(200));
    i.set_mouse_down(63, true);
    i.set_mouse_down(64, true);
    assert!(i.mouse(63) && !i.mouse(64) && !i.mouse(62));
    i.set_mouse_down(63, false);
    assert!(!i.mouse(63) && i.key(200));
}
