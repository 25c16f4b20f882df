//! Mapping a text piece by piece.

use gaze::layout::CharLayout;
use gaze::linemapper::ANCHOR_SIZE;
use gaze::stitched::{Anchor, LineMap, PosX};
use gaze::strict::decode_char;

const REPLACEMENT: u32 = 0xFFFD;

/// `a` is 3 wide, `é` 5, `€` 7, an emoji 11, a replacement character 100, and all the
/// rest 1.
fn layout() -> CharLayout {
    CharLayout::new(
        &[
            ('a' as u32, 3),
            ('é' as u32, 5),
            ('€' as u32, 7),
            ('😀' as u32, 11),
            (REPLACEMENT, 100),
        ],
        1,
    )
}

fn width(c: u32) -> i128 {
    layout().advance_for(c) as i128
}

/// A map with an anchor for about every `gap` bytes.
fn map_with_gap(gap: i64) -> LineMap {
    LineMap::new(layout(), ANCHOR_SIZE, gap)
}

/// The lines and columns of all places between the characters of a text.
fn places(text: &[u8]) -> Vec<(usize, i64, i128)> {
    let mut out = vec![];
    let mut i = 0;
    let mut y = 0;
    let mut x = 0;
    while i < text.len() {
        out.push((i, y, x));
        let valid = (1..=4).find(|k| {
            i + k <= text.len()
                && std::str::from_utf8(&text[i..i + k]).map_or(false, |s| s.chars().count() == 1)
        });
        let (c, k) = match valid {
            Some(k) => {
                let s = std::str::from_utf8(&text[i..i + k]).unwrap();
                (s.chars().next().unwrap() as u32, k)
            }
            None => (REPLACEMENT, 1),
        };
        if c == '\n' as u32 {
            y += 1;
            x = 0;
        } else {
            x += width(c);
        }
        i += k;
    }
    out.push((i, y, x));
    out
}

fn assert_truth(map: &LineMap, text: &[u8]) {
    let places = places(text);
    assert_eq!(map.segments.len(), 1);
    let seg = &map.segments[0];
    assert_eq!((seg.start, seg.end), (0, text.len() as i64));
    assert!(seg.y_absolute);
    let (_, y, x) = places[places.len() - 1];
    assert_eq!((seg.end_y, seg.end_x), (y, PosX::Abs(x)));
    assert_eq!(seg.anchors[0].offset, 0);
    for anchor in seg.anchors.iter() {
        let place = places.iter().find(|p| p.0 as i64 == anchor.offset);
        let (_, y, x) = *place.expect("anchor inside a character");
        assert_eq!((anchor.relative_y, anchor.x()), (y, PosX::Abs(x)));
    }
}

#[test]
fn anchors_pack_their_position() {
    let mut anchor = Anchor::new(7, 20, 2, false);
    assert_eq!(anchor.x(), PosX::Rel(20));
    anchor.nudge_x(-5);
    assert_eq!(anchor.x(), PosX::Rel(15));
    anchor.set_x(3, true);
    assert_eq!(anchor.x(), PosX::Abs(3));
    anchor.nudge_x(4);
    assert_eq!(anchor.x(), PosX::Abs(7));
    assert_eq!((anchor.offset, anchor.relative_y), (7, 2));
    assert_eq!(Anchor::new(0, i128::MAX, 0, false).x(), PosX::Rel(i128::MAX));
}

#[test]
fn strict_decoding_is_that_of_std() {
    let check = |b: &[u8], k: usize| {
        let expected = match std::str::from_utf8(&b[..k]) {
            Ok(s) => s.chars().next().map(|c| (c as u32, k)),
            Err(_) => None,
        };
        assert_eq!(decode_char(b), expected, "{:?}", b);
    };
    let some = [0x00u8, 0x7F, 0x80, 0x8F, 0x90, 0x9F, 0xA0, 0xBF, 0xC0, 0xFF];
    for a in 0..=0xFFu8 {
        for b in 0..=0xFFu8 {
            for c in some {
                for d in some {
                    let bytes = [a, b, c, d];
                    let k = match a {
                        0..=0x7F => 1,
                        0x80..=0xBF => 0,
                        0xC0..=0xDF => 2,
                        0xE0..=0xEF => 3,
                        _ => 4,
                    };
                    check(&bytes, k);
                }
            }
        }
    }
    assert_eq!(decode_char("€".as_bytes()), Some((0x20AC, 3)));
    assert_eq!(decode_char(&"€".as_bytes()[..2]), None);
}

#[test]
fn segment_of_its_own() {
    let map = map_with_gap(2);
    let seg = map.create_segment(10, "aa\né".as_bytes());
    assert_eq!((seg.start, seg.end), (10, 15));
    assert!(!seg.y_absolute);
    assert_eq!((seg.end_x, seg.end_y), (PosX::Abs(5), 1));
    assert_eq!(seg.first_bytes_buf, [b'a', b'a', b'\n', 0xC3]);
    assert_eq!(seg.last_bytes_buf, [b'a', b'\n', 0xC3, 0xA9]);
    let anchors: Vec<_> = seg
        .anchors
        .iter()
        .map(|a| (a.offset, a.relative_y, a.x()))
        .collect();
    assert_eq!(
        anchors,
        vec![(10, 0, PosX::Rel(0)), (12, 0, PosX::Rel(6))]
    );
    let short = map.create_segment(0, b"a");
    assert_eq!(short.first_bytes_buf, [b'a', 0, 0, 0]);
    assert_eq!(short.last_bytes_buf, [0, 0, 0, b'a']);
    assert_eq!(short.end_x, PosX::Abs(3));
}

#[test]
fn cut_characters_are_mended() {
    let text = "a😀a".as_bytes();
    for cut in 1..text.len() {
        let map = map_with_gap(1);
        let mut left = map.create_segment(100, &text[..cut]);
        let right = map.create_segment(100 + cut as i64, &text[cut..]);
        if (2..5).contains(&cut) {
            // The bytes of the emoji are taken for replacement characters
            assert_eq!(left.end_x, PosX::Rel(3 + (cut as i128 - 1) * 100));
        }
        map.merge_segments(&mut left, &right);
        assert_eq!((left.start, left.end), (100, 106));
        assert_eq!(left.end_x, PosX::Rel(3 + 11 + 3));
        for anchor in left.anchors.iter() {
            let x = match anchor.offset {
                100 => 0,
                101 => 3,
                105 => 14,
                _ => panic!("anchor inside a character"),
            };
            assert_eq!(anchor.x(), PosX::Rel(x));
        }
        assert_eq!(left.first_bytes_buf[..], text[..4]);
        assert_eq!(left.last_bytes_buf[..], text[2..]);
    }
}

#[test]
fn lines_go_on_after_a_seam() {
    let map = map_with_gap(1);
    let mut left = map.create_segment(5, b"aa\na\na");
    let right = map.create_segment(11, b"a\na");
    map.merge_segments(&mut left, &right);
    let anchors: Vec<_> = left
        .anchors
        .iter()
        .map(|a| (a.offset, a.relative_y, a.x()))
        .collect();
    assert_eq!(anchors[6..], [
        (11, 2, PosX::Abs(3)),
        (12, 2, PosX::Abs(6)),
        (13, 3, PosX::Abs(0)),
    ]);
    assert_eq!((left.end_x, left.end_y), (PosX::Abs(3), 3));
}

#[test]
fn pieces_in_any_order() {
    let mut text = "a€\néa".as_bytes().to_vec();
    text.push(0x80);
    text.extend_from_slice("😀\n\n€😀aa".as_bytes());
    text.extend_from_slice(&[0xFF, 0xE2, 0x82, b'a', 0xF0, 0x9F, 0x98, 0xC3]);
    let n = text.len();
    for gap in [1, 2, 5] {
        for step in [1usize, 2, 3, 5, 7] {
            for stride in [1usize, 3, 11] {
                let count = (n + step - 1) / step;
                let mut map = map_with_gap(gap);
                let mut seen = vec![false; count];
                let mut i = 0;
                for _ in 0..count {
                    while seen[i % count] {
                        i += 1;
                    }
                    seen[i % count] = true;
                    let lo = (i % count) * step;
                    let hi = (lo + step).min(n);
                    map.process_segment(lo as i64, &text[lo..hi]);
                    i += stride;
                }
                assert_truth(&map, &text);
            }
        }
    }
}

#[test]
fn only_holes_are_filled() {
    let text = b"aaaa\naaaa\naaaa\naaaa".to_vec();
    let mut map = map_with_gap(4);
    map.process_data(12, &text[12..14]);
    map.process_data(3, &text[3..6]);
    map.process_data(8, &text[8..9]);
    let spans: Vec<_> = map.segments.iter().map(|s| (s.start, s.end)).collect();
    assert_eq!(spans, vec![(3, 6), (8, 9), (12, 14)]);
    assert_eq!(map.next_hole(3, 19), (6, 8));
    assert_eq!(map.next_hole(13, 14), (14, 14));
    // Nothing is missing
    map.process_data(4, &text[4..6]);
    map.process_data(0, &text[0..0]);
    assert_eq!(map.segments.len(), 3);
    map.process_data(4, &text[4..13]);
    let spans: Vec<_> = map.segments.iter().map(|s| (s.start, s.end)).collect();
    assert_eq!(spans, vec![(3, 14)]);
    map.process_data(0, &text);
    assert_truth(&map, &text);
}

#[test]
fn a_segment_replaces_those_inside_it() {
    let text = b"aa\naaa\naa";
    let mut map = map_with_gap(1);
    // Empty data adds nothing
    map.process_segment(2, &text[2..2]);
    assert!(map.segments.is_empty());
    map.process_segment(3, &text[3..5]);
    map.process_segment(0, text);
    assert_truth(&map, text);
}

#[test]
fn anchors_are_spread_by_memory() {
    let map = LineMap::new(layout(), 10 * ANCHOR_SIZE, 1000);
    assert_eq!(map.bytes_per_anchor, 100);
    assert_eq!(map.file_size, 1000);
    assert_eq!(map.replacement_width, 100);
    assert_eq!(map.find_after(5), 0);
    assert_eq!(map.find_before(5), 0);
}
