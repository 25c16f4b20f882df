//! Looking things up in the line map.

use gaze::layout::{CharLayout, UNITS};
use gaze::linemap::LineMap;
use gaze::linemapper::LineMapper;
use gaze::loaded::LoadedData;
use gaze::lookup::{FileLock, Visit};
use gaze::mapping::{Mapping, Piece};
use gaze::position::{ceil_lines, floor_lines, FilePos, FileRect, FileVec};
use gaze::storing::Next;
use gaze::surroundings::Surroundings;

const U: i128 = UNITS;

/// Every character is as wide as one font height.
fn square() -> CharLayout {
    CharLayout::new(&[], U as u32)
}

fn load(text: &[u8]) -> LoadedData {
    let mut loaded = LoadedData::new(usize::MAX, 1024, 1024);
    loaded.set_file_size(text.len() as i64);
    let mapper = LineMapper::new(square(), text.len() as i64, 1 << 20, 16);
    loaded.load_segment(&mapper, 0, text.to_vec(), 0..0, true);
    loaded
}

const TEXT: &[u8] = b"first line\nsecond\n\nfourth line, which is somewhat longer than an anchor\nend";

#[test]
fn positions_to_offsets() {
    let loaded = load(TEXT);
    let layout = square();
    let file = FileLock { loaded: &loaded, layout: &layout };
    let find = |y: i64, x: i128, hdiv: u32| {
        let at = file.lookup_pos(0, y, x, hdiv).unwrap();
        (at.offset, at.dy, at.dx)
    };
    assert_eq!(find(0, 0, U as u32), (0, 0, 0));
    assert_eq!(find(1, 2 * U, U as u32), (13, 1, 2 * U));
    assert_eq!(find(3, 40 * U, U as u32), (59, 3, 40 * U));
    // Past the end of a line
    assert_eq!(find(1, 100 * U, U as u32), (17, 1, 6 * U));
    assert_eq!(find(2, 5 * U, U as u32), (18, 2, 0));
    // Past the end of the text
    assert_eq!(find(100, 0, U as u32), (TEXT.len() as i64, 4, 3 * U));
    assert_eq!(find(i64::MAX, i128::MAX, 0), (TEXT.len() as i64, 4, 3 * U));
    assert_eq!(find(i64::MIN, i128::MIN, 0), (0, 0, 0));
}

#[test]
fn rounding_of_columns() {
    let loaded = load(TEXT);
    let layout = square();
    let file = FileLock { loaded: &loaded, layout: &layout };
    let find = |x: i128, hdiv: i128| file.lookup_pos(0, 0, x, hdiv as u32).unwrap().offset;
    // Like floor
    assert_eq!(find(2 * U + U - 1, U), 2);
    assert_eq!(find(3 * U, U), 3);
    // Like ceil
    assert_eq!(find(2 * U + 1, 0), 3);
    assert_eq!(find(2 * U, 0), 2);
    // Like round
    assert_eq!(find(2 * U + U / 2 - 1, U / 2), 2);
    assert_eq!(find(2 * U + U / 2, U / 2), 3);
    assert_eq!(find(2 * U + U / 2 + 1, U / 2), 3);
}

#[test]
fn offsets_to_positions() {
    let loaded = load(TEXT);
    let layout = square();
    let file = FileLock { loaded: &loaded, layout: &layout };
    let mut y = 0;
    let mut x = 0;
    for (i, &b) in TEXT.iter().enumerate() {
        let at = file.lookup_offset(0, i as i64).unwrap();
        assert_eq!((at.offset, at.dy, at.dx), (i as i64, y, x));
        assert_eq!(at.data, &TEXT[i..]);
        if b == b'\n' {
            y += 1;
            x = 0;
        } else {
            x += U;
        }
    }
    assert!(file.lookup_offset(0, TEXT.len() as i64 + 1).is_none());
    assert!(file.lookup_offset(-1, 0).is_none());
}

#[test]
fn offset_in_the_middle_of_a_character() {
    let loaded = load("a\u{20ac}b".as_bytes());
    let layout = square();
    let file = FileLock { loaded: &loaded, layout: &layout };
    for i in 2..=4 {
        let at = file.lookup_offset(0, i).unwrap();
        assert_eq!((at.offset, at.dx), (4, 2 * U));
    }
}

#[test]
fn unknown_line_starts() {
    let mut loaded = LoadedData::new(usize::MAX, 1024, 1024);
    loaded.set_file_size(1000);
    let mapper = LineMapper::new(square(), 1000, 1 << 20, 16);
    loaded.load_segment(&mapper, 100, b"abc\ndef\nghi".to_vec(), 0..0, true);
    let layout = square();
    let file = FileLock { loaded: &loaded, layout: &layout };
    // On the line whose start is not loaded, columns count from the start of the segment
    let at = file.lookup_offset(100, 102).unwrap();
    assert_eq!((at.offset, at.dy, at.dx), (102, 0, 2 * U));
    // Other lines do not compare to it
    assert!(file.lookup_offset(100, 105).is_none());
    assert!(file.lookup_pos(100, 1, 0, 0).is_none());
    assert_eq!(file.lookup_pos(100, 0, U, 0).unwrap().offset, 101);
    // What is not loaded at all
    assert!(file.lookup_pos(50, 0, 0, 0).is_none());
    assert_eq!(
        file.bounding_rect(50),
        FileRect {
            corner: FilePos { base_offset: 50, delta_x: 0, delta_y: 0 },
            size: FileVec { x: 0, y: 0 },
        }
    );
    let rect = file.bounding_rect(100);
    assert_eq!(rect.size.x, 3 * U);
    assert_eq!(rect.corner.delta_y, 0);
}

#[test]
fn bounds_of_the_loaded_area() {
    let loaded = load(TEXT);
    let layout = square();
    let file = FileLock { loaded: &loaded, layout: &layout };
    let widest = "fourth line, which is somewhat longer than an anchor".len() as i128;
    assert_eq!(
        file.bounding_rect(0),
        FileRect {
            corner: FilePos { base_offset: 0, delta_x: 0, delta_y: 0 },
            size: FileVec { x: widest * U, y: 4 * U },
        }
    );
    // The base is the anchor before the offset
    let base = file.lookup_offset(0, 24).unwrap();
    let rect = file.bounding_rect(32);
    assert_eq!(rect.corner.delta_y, -(base.dy as i128) * U);
    assert_eq!(rect.corner.delta_x, -base.dx);
}

#[test]
fn moving_by_characters() {
    let loaded = load("a\u{e9}\u{20ac}\u{1f600}z".as_bytes());
    let layout = square();
    let file = FileLock { loaded: &loaded, layout: &layout };
    assert_eq!(file.char_delta(0, 0), Ok(0));
    assert_eq!(file.char_delta(0, 1), Ok(1));
    assert_eq!(file.char_delta(0, 2), Ok(3));
    assert_eq!(file.char_delta(1, 3), Ok(10));
    assert_eq!(file.char_delta(0, 6), Err(11));
    assert_eq!(file.char_delta(10, -1), Ok(6));
    assert_eq!(file.char_delta(10, -3), Ok(1));
    assert_eq!(file.char_delta(3, -5), Err(0));
    assert_eq!(file.char_delta(500, 1), Err(500));
    assert_eq!(file.char_delta(0, i16::MIN), Err(0));
    assert_eq!(file.char_delta(file.char_delta(3, 1).unwrap(), -1), Ok(3));
}

#[test]
fn visiting_a_rectangle() {
    let loaded = load(b"abc\ndefgh\n\nij");
    let layout = square();
    let file = FileLock { loaded: &loaded, layout: &layout };
    let visit = file.visit_rect(FileRect {
        corner: FilePos { base_offset: 0, delta_x: U, delta_y: U / 2 },
        size: FileVec { x: 2 * U, y: 2 * U },
    });
    let line = |offset: i64, dx: i128, dy: i64| Visit { offset, dx: dx * U, dy, glyph: None };
    let glyph = |offset: i64, dx: i128, dy: i64, c: u8| Visit {
        offset,
        dx: dx * U,
        dy,
        glyph: Some((c as u32, U as u32)),
    };
    assert_eq!(
        visit,
        vec![
            line(1, 1, 0),
            glyph(1, 1, 0, b'b'),
            glyph(2, 2, 0, b'c'),
            line(5, 1, 1),
            glyph(5, 1, 1, b'e'),
            glyph(6, 2, 1, b'f'),
            line(10, 0, 2),
        ]
    );
    assert!(file
        .visit_rect(FileRect {
            corner: FilePos { base_offset: 999, delta_x: 0, delta_y: 0 },
            size: FileVec { x: U, y: U },
        })
        .is_empty());
}

#[test]
fn surroundings_in_the_map() {
    let mapper = LineMapper::new(square(), 1000, 1 << 20, 16);
    let mut map = LineMap::new();
    map.file_size = 1000;
    assert_eq!(map.find_surroundings(7), Surroundings::Out(0, 1000));
    mapper.process_data(&mut map, 100, &[b'x'; 50]);
    mapper.process_data(&mut map, 300, &[b'y'; 50]);
    assert_eq!(map.find_surroundings(7), Surroundings::Out(0, 100));
    assert_eq!(map.find_surroundings(120), Surroundings::In(100, 150));
    assert_eq!(map.find_surroundings(150), Surroundings::Out(150, 300));
    assert_eq!(map.find_surroundings(2000), Surroundings::Out(350, 1000));
    assert_eq!(map.find_segment(150), Some(0));
    assert_eq!(map.find_segment(151), None);
    assert_eq!(map.find_before(99), 2);
    assert_eq!(map.find_before(299), 0);
    assert_eq!(map.find_after(150), 0);
    assert_eq!(map.find_after(151), 1);
    assert_eq!(map.first_hole(120, 400), (150, true));
    assert_eq!(map.first_hole(160, 400), (160, false));
    assert_eq!(map.first_hole(0, 50), (0, true));
    assert_eq!(map.hole_end(150, 400), (300, true, Some(350)));
    assert_eq!(map.hole_end(350, 400), (400, false, None));
    assert_eq!(map.hole_end(350, 1000), (1000, true, None));
    assert_eq!(map.hole_end(0, 50), (50, false, None));
}

#[test]
fn anchors_near_an_offset() {
    let mapper = LineMapper { bytes_per_anchor: 32, migrate_batch_size: 16, layout: square() };
    let mut map = LineMap::new();
    map.file_size = 1000;
    mapper.process_data(&mut map, 0, &[b'x'; 100]);
    let s = &map.segments[0];
    let offsets: Vec<i64> = s.anchors.iter().map(|a| a.offset).collect();
    assert_eq!(offsets, vec![0, 32, 64, 96, 100]);
    assert_eq!(s.find_lower(63), Some(1));
    assert_eq!(s.find_lower(64), Some(2));
    assert_eq!(s.find_lower(-1), None);
    assert_eq!(s._find_upper(64), Some(2));
    assert_eq!(s._find_upper(65), Some(3));
    assert_eq!(s._find_upper(101), None);
    assert_eq!(s.locate_lower(0, 64 * U - 1), 1);
    assert_eq!(s.locate_lower(0, 64 * U), 2);
    assert_eq!(s.locate_lower(-1, 0), 0);
    assert_eq!(s.locate_upper(0, 64 * U), 2);
    assert_eq!(s.locate_upper(0, 64 * U + 1), 3);
    assert_eq!(s.locate_upper(1, 0), 4);
    assert_eq!(s.anchors[1]._x_rel(5), s.anchors[1].x_offset + 5);
    assert_eq!(s.anchors[1].x_abs(), 32 * U);
    assert_eq!(map.pos_to_anchor(40, 0, 40 * U), Some((0, 1, 2)));
    assert_eq!(map.pos_to_anchor_upper(40, 0, 40 * U), Some((0, 1, 3)));
    assert_eq!(map.offset_to_anchor(40, 99), Some((0, 1, 3)));
    assert_eq!(map.offset_to_anchor(40, 101), None);
}

#[test]
fn merging_the_map_step_by_step() {
    // A short segment before a longer one, so that anchors move to the right
    let text: Vec<u8> = (0..200).map(|i| if i % 7 == 3 { b'\n' } else { b'a' + i % 5 }).collect();
    for cut in [10usize, 100, 190] {
        let mapper = LineMapper::new(square(), 1000, 1 << 20, 1);
        let mut whole = LineMap::new();
        whole.file_size = 1000;
        mapper.process_data(&mut whole, 50, &text);
        let mut map = LineMap::new();
        map.file_size = 1000;
        let left = mapper.create_segment(50, &text[..cut], true, true);
        let right = mapper.create_segment(50 + cut as i64, &text[cut..], true, true);
        assert_eq!(map.place_segment(left), (0, false, false));
        assert_eq!(map.place_segment(right), (1, true, false));
        let into_left = map.begin_merge(0);
        assert_eq!(into_left, cut >= 100);
        if !into_left {
            while !map.pin_batch(0, 1) {
                assert_eq!(map.segments.len(), 2);
            }
        }
        while !map.merge_batch(0, into_left, 1) {
            assert_eq!(map.segments[0].end, map.segments[1].start);
        }
        assert_eq!(map.finish_merge(0, into_left).anchors.len(), 1);
        let (a, b) = (&map.segments[0], &whole.segments[0]);
        assert_eq!((a.start, a.end), (b.start, b.end));
        assert_eq!(a.widest_line, b.widest_line);
        assert_eq!(a.rel_width, b.rel_width);
        for anchor in b.anchors.iter() {
            if let Some(twin) = a.anchors.iter().find(|x| x.offset == anchor.offset) {
                assert_eq!(twin.y(a), anchor.y(b));
                assert_eq!(twin.x(a), anchor.x(b));
            }
        }
    }
}

/// Checks the positions that a map knows against the text of the whole file.
fn assert_true_positions(map: &LineMap, text: &[u8]) {
    let position = |offset: i64| {
        let before = &text[..offset as usize];
        let y = before.iter().filter(|b| **b == b'\n').count() as i64;
        let line = before.iter().rposition(|b| *b == b'\n').map_or(0, |i| i + 1);
        (y, (before.len() - line) as i128 * U)
    };
    for seg in map.segments.iter() {
        let (from_y, from_x) = position(seg.start);
        for (k, anchor) in seg.anchors.iter().enumerate() {
            let (y, x) = position(anchor.offset);
            assert_eq!(anchor.y(seg) + from_y, y);
            if k >= seg.first_absolute {
                assert_eq!(anchor.x(seg), x);
            } else {
                assert_eq!(anchor.x(seg) + from_x, x);
            }
        }
    }
}

#[test]
fn positions_are_true_while_merging() {
    let text: Vec<u8> = (0..900).map(|i| if i % 97 == 60 { b'\n' } else { b'x' }).collect();
    for (lo, cut, hi) in [(100, 200, 800), (100, 700, 800), (165, 230, 500), (170, 240, 250)] {
        let mapper = LineMapper::new(square(), 900, 1 << 20, 1);
        let mut map = LineMap::new();
        map.file_size = 900;
        let left = mapper.create_segment(lo as i64, &text[lo..cut], true, true);
        let right = mapper.create_segment(cut as i64, &text[cut..hi], true, true);
        map.place_segment(left);
        map.place_segment(right);
        assert_true_positions(&map, &text);
        let into_left = map.begin_merge(0);
        assert_true_positions(&map, &text);
        if !into_left {
            while !map.pin_batch(0, 1) {
                assert_true_positions(&map, &text);
            }
        }
        while !map.merge_batch(0, into_left, 1) {
            assert_true_positions(&map, &text);
        }
        map.finish_merge(0, into_left);
        assert_true_positions(&map, &text);
        assert_eq!((map.segments[0].start, map.segments[0].end), (lo as i64, hi as i64));
    }
}

/// The smallest spacing that a mapper gives itself.
#[test]
fn anchors_close_together() {
    let mapper = LineMapper::new(square(), 1000, 1 << 20, 16);
    assert_eq!(mapper.bytes_per_anchor, 24);
    let seg = mapper.create_segment(10, b"\x82\xACab\ncdef\xE2\x82", false, false);
    assert_eq!((seg.start, seg.end), (12, 19));
    let places = |seg: &gaze::linemap::MappedSegment| -> Vec<(i64, i64, i128)> {
        seg.anchors.iter().map(|a| (a.offset, a.y(seg), a.x(seg))).collect()
    };
    assert_eq!(places(&seg), vec![(12, 0, 0), (19, 1, 4 * U)]);
    assert_eq!(seg.first_absolute, 1);
    assert_eq!(seg.rel_width, 2 * U);
    assert_eq!(seg.widest_line, 4 * U);
    // One anchor for every 24 bytes, one at the start and one at the end
    let long = mapper.create_segment(0, &[b'x'; 100], true, true);
    let offsets: Vec<i64> = long.anchors.iter().map(|a| a.offset).collect();
    assert_eq!(offsets, vec![0, 24, 48, 72, 96, 100]);
    // An anchor at every byte
    let dense = LineMapper { bytes_per_anchor: 1, migrate_batch_size: 16, layout: square() };
    let seg = dense.create_segment(0, b"a\nb", true, true);
    assert_eq!(places(&seg), vec![(0, 0, 0), (1, 0, U), (2, 1, 0), (3, 1, U)]);
}

/// A piece that covers two holes fills both of them.
#[test]
fn two_holes_at_once() {
    let mapper = LineMapper::new(square(), 1000, 1 << 20, 16);
    let text: Vec<u8> = (0..300).map(|i| if i % 11 == 5 { b'\n' } else { b'a' + i as u8 % 7 }).collect();
    let mut map = LineMap::new();
    map.file_size = 300;
    mapper.process_data(&mut map, 100, &text[100..200]);
    mapper.process_data(&mut map, 0, &text);
    assert_eq!(map.segments.len(), 1);
    let s = &map.segments[0];
    assert_eq!((s.start, s.end, s.first_absolute, s.rel_width), (0, 300, 0, 0));
    assert_true_positions(&map, &text);
}

/// However the lock is passed on between two steps, what comes out is the same.
#[test]
fn mapping_step_by_step() {
    let mapper = LineMapper { bytes_per_anchor: 2, migrate_batch_size: 3, layout: square() };
    let text: Vec<u8> = (0..120).map(|i| if i % 9 == 4 { b'\n' } else { b'a' }).collect();
    let mut whole = LineMap::new();
    whole.file_size = 120;
    let mut map = LineMap::new();
    map.file_size = 120;
    let mut yields = 0;
    let mut freed = 0;
    for (lo, hi) in [(30usize, 50usize), (80, 100), (0, 120)] {
        mapper.process_data(&mut whole, lo as i64, &text[lo..hi]);
        let piece = Piece { mapper: &mapper, offset: lo as i64, data: &text[lo..hi] };
        let mut task = Mapping::Look;
        let mut rested = 0;
        loop {
            let step = task.step(&piece, &mut map);
            task = step.task;
            freed += step.freed.is_some() as usize;
            match step.next {
                Next::Go => {}
                Next::Yield => yields += 1,
                Next::Release => {
                    task = task.rest(&piece);
                    rested += matches!(task, Mapping::Insert { .. }) as usize;
                }
                Next::Done => break,
            }
            assert_true_positions(&map, &text);
        }
        assert!(task.is_done());
        // One for each hole
        assert_eq!(rested, if hi - lo == 120 { 3 } else { 1 });
    }
    assert!(yields > 4);
    assert_eq!(freed, 4);
    assert_eq!(map.segments.len(), 1);
    let places = |map: &LineMap| -> Vec<(i64, i64, i128)> {
        let s = &map.segments[0];
        s.anchors.iter().map(|a| (a.offset, a.y(s), a.x(s))).collect()
    };
    assert_eq!(places(&map), places(&whole));
    assert_eq!(map.segments[0].widest_line, 8 * U);
}

/// What is merged knows the same as what is mapped at once.
#[test]
fn merging_is_mapping_at_once() {
    let text = "\u{20ac}uro\nsecond\nthird and longest".as_bytes();
    let n = text.len();
    let mapper = LineMapper { bytes_per_anchor: 4, migrate_batch_size: 2, layout: square() };
    for mid in [3usize, 6, 7, 9, 14, 20] {
        let mut map = LineMap::new();
        map.file_size = n as i64;
        map.segments.push(mapper.create_segment(0, &text[..mid], true, true));
        map.segments.push(mapper.create_segment(mid as i64, &text[mid..], true, true));
        mapper.merge_segments(&mut map, 0);
        let whole = mapper.create_segment(0, text, true, true);
        assert_eq!(map.segments.len(), 1);
        let s = &map.segments[0];
        assert_eq!((s.start, s.end), (whole.start, whole.end));
        assert_eq!((s.widest_line, s.rel_width), (whole.widest_line, whole.rel_width));
        assert_eq!(s.widest_line, 17 * U);
        let ends = |s: &gaze::linemap::MappedSegment| {
            let (f, l) = (s.anchors.front().unwrap(), s.anchors.back().unwrap());
            (f.y(s), f.x(s), l.y(s), l.x(s))
        };
        assert_eq!(ends(s), ends(&whole));
        assert_eq!(ends(s), (0, 0, 2, 17 * U));
    }
}

/// Moving back undoes moving forward.
#[test]
fn there_and_back() {
    let text = "a\u{e9}\u{20ac}\u{1f600}z\n\u{e9}b";
    let loaded = load(text.as_bytes());
    let layout = square();
    let file = FileLock { loaded: &loaded, layout: &layout };
    for (offset, _) in text.char_indices() {
        let left = text[offset..].chars().count() as i16;
        for n in 0..=left {
            let p = file.char_delta(offset as i64, n).unwrap();
            assert_eq!(file.char_delta(p, -n), Ok(offset as i64));
        }
        assert!(file.char_delta(offset as i64, left + 1).is_err());
    }
}

#[test]
fn bases_of_segments() {
    let mapper = LineMapper::new(square(), 1000, 1 << 20, 1);
    let seg = mapper.create_segment(100, b"abc", true, true);
    let rand = 243u32.wrapping_mul(0x9e3779b9);
    assert_eq!(seg.base_y, (rand & 0xFFFF) as i64);
    assert_eq!(seg.base_x_relative, (rand >> 16) as i128 * U);
    assert_eq!(seg.anchors[0].y(&seg), 0);
    assert_eq!(seg.anchors[0].x(&seg), 0);
}

#[test]
fn hot_ranges() {
    let mut loaded = load(TEXT);
    loaded.hot = FileRect {
        corner: FilePos { base_offset: 0, delta_x: 0, delta_y: U },
        size: FileVec { x: 40 * U, y: 2 * U },
    };
    let (l, m, r) = loaded.get_hot_range();
    assert!(l <= m && m <= r);
    assert_eq!(loaded.try_get_hot_range(), Some((l, m, r)));
    assert_eq!(loaded.keep_range(5), l - 5..r + 5);
    loaded.hot.corner.base_offset = 5000;
    assert_eq!(loaded.try_get_hot_range(), None);
    assert_eq!(loaded.get_hot_range(), (5000, 5000, 5000));
}

#[test]
fn ranges_to_load() {
    let mut loaded = LoadedData::new(usize::MAX, 1024, 1024);
    loaded.set_file_size(1000);
    let go = |s: Surroundings, hot: (i64, i64, i64), max: i64| loaded.surroundings_to_range(s, hot, max);
    assert_eq!(go(Surroundings::In(0, 1000), (5, 5, 5), 100), (0, 0));
    assert_eq!(go(Surroundings::In(0, 500), (5, 5, 5), 100), (500, 600));
    assert_eq!(go(Surroundings::In(500, 1000), (5, 5, 5), 100), (400, 500));
    assert_eq!(go(Surroundings::In(400, 600), (410, 420, 430), 100), (300, 400));
    assert_eq!(go(Surroundings::In(400, 600), (570, 580, 590), 100), (600, 700));
    assert_eq!(go(Surroundings::In(50, 600), (60, 70, 80), 100), (0, 50));
    assert_eq!(go(Surroundings::Out(400, 450), (410, 420, 430), 100), (400, 450));
    assert_eq!(go(Surroundings::Out(400, 900), (410, 420, 430), 100), (400, 500));
    assert_eq!(go(Surroundings::Out(400, 900), (880, 890, 890), 100), (800, 900));
    assert_eq!(go(Surroundings::Out(400, 900), (600, 600, 600), 101), (550, 651));
}

#[test]
fn clipboard_requests() {
    let mut loaded = load(TEXT);
    assert!(loaded.set_hot_area(loaded.hot, Some(6..10)));
    assert!(!loaded.set_hot_area(loaded.hot, Some(6..10)));
    assert_eq!(loaded.copy_ready(), None);
    loaded.copy_selection();
    assert_eq!(loaded.copy_ready(), Some(&b"line"[..]));
    loaded.copy_done();
    assert_eq!(loaded.copy_ready(), None);
    loaded.copy_selection();
    assert!(loaded.set_hot_area(loaded.hot, Some(70..90)));
    assert_eq!(loaded.copy_ready(), None);
    assert!(loaded.set_hot_area(loaded.hot, None));
    assert_eq!(loaded.copy_ready(), None);
}

#[test]
fn whole_lines() {
    assert_eq!(floor_lines(0), 0);
    assert_eq!(floor_lines(U - 1), 0);
    assert_eq!(floor_lines(U), 1);
    assert_eq!(floor_lines(-1), -1);
    assert_eq!(floor_lines(-U), -1);
    assert_eq!(floor_lines(-U - 1), -2);
    assert_eq!(ceil_lines(1), 1);
    assert_eq!(ceil_lines(U), 1);
    assert_eq!(ceil_lines(U + 1), 2);
    assert_eq!(ceil_lines(-1), 0);
    assert_eq!(ceil_lines(-U), -1);
    assert_eq!(floor_lines(i128::MAX), i64::MAX);
    assert_eq!(ceil_lines(i128::MIN), i64::MIN);
    let p = FilePos { base_offset: 3, delta_x: 7, delta_y: -1 };
    assert_eq!(p.floor(), (3, -1, 7));
    assert_eq!(
        p.offset(FileVec { x: 1, y: i128::MIN }),
        FilePos { base_offset: 3, delta_x: 8, delta_y: i128::MIN }
    );
    let r = FileRect {
        corner: FilePos { base_offset: 0, delta_x: 0, delta_y: 10 },
        size: FileVec { x: 5, y: 5 },
    };
    assert_eq!(r.clamp_pos(p), FilePos { base_offset: 3, delta_x: 5, delta_y: 10 });
}
