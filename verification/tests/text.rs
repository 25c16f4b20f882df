//! Decoding characters, and the chunks of memory that hold them.

use gaze::demem::Demem;
use gaze::layout::CharLayout;
use gaze::utf8::{decode_utf8, decode_utf8_rev, is_utf8_cont, utf8_seq_len};

#[test]
fn decodes_each_length() {
    for c in ['a', '\u{7f}', '\u{80}', '\u{7ff}', '\u{800}', '\u{ffff}', '\u{10000}', '\u{10ffff}'] {
        let s = c.to_string();
        let b = s.as_bytes();
        assert_eq!(decode_utf8(b), (Ok(c as u32), b.len()));
        assert_eq!(decode_utf8_rev(b), (Ok(c as u32), b.len()));
        assert_eq!(utf8_seq_len(b[0]), b.len());
    }
}

#[test]
fn decodes_only_the_edge() {
    let s = "x\u{20ac}y".as_bytes();
    assert_eq!(decode_utf8(s), (Ok(0x78), 1));
    assert_eq!(decode_utf8(&s[1..]), (Ok(0x20ac), 3));
    assert_eq!(decode_utf8_rev(s), (Ok(0x79), 1));
    assert_eq!(decode_utf8_rev(&s[..4]), (Ok(0x20ac), 3));
}

#[test]
fn stray_bytes_are_read_alone() {
    // A continuation byte, a byte that starts nothing, and unfinished sequences
    assert_eq!(decode_utf8(&[0x80, 0x41]), (Err(0x80), 1));
    assert_eq!(decode_utf8(&[0xFF, 0x80, 0x80, 0x80]), (Err(0xFF), 1));
    assert_eq!(decode_utf8(&[0xE2, 0x82]), (Err(0xE2), 1));
    assert_eq!(decode_utf8(&[0xE2, 0x82, 0x41]), (Err(0xE2), 1));
    assert_eq!(decode_utf8(&[0xC3]), (Err(0xC3), 1));
    assert_eq!(decode_utf8_rev(&[0x41, 0x80]), (Err(0x80), 1));
    assert_eq!(decode_utf8_rev(&[0xC3]), (Err(0xC3), 1));
    assert_eq!(decode_utf8_rev(&[0x80, 0x80, 0x80, 0x80]), (Err(0x80), 1));
    assert_eq!(decode_utf8_rev(&[0xF8, 0x80, 0x80, 0x80]), (Err(0x80), 1));
}

#[test]
fn overlong_sequences_are_read_as_they_are() {
    assert_eq!(decode_utf8(&[0xC0, 0x8A]), (Ok(10), 2));
    assert_eq!(decode_utf8_rev(&[0xC0, 0x8A]), (Ok(10), 2));
    assert_eq!(decode_utf8(&[0xED, 0xA0, 0x80]), (Ok(0xD800), 3));
}

#[test]
fn kinds_of_bytes() {
    for b in 0..=255u8 {
        assert_eq!(is_utf8_cont(b), (0x80..0xC0).contains(&b));
    }
    assert_eq!(utf8_seq_len(0x80), 0);
    assert_eq!(utf8_seq_len(0xC2), 2);
    assert_eq!(utf8_seq_len(0xE0), 3);
    assert_eq!(utf8_seq_len(0xF0), 4);
    assert_eq!(utf8_seq_len(0xFF), 4);
}

#[test]
fn back_and_forth() {
    let s = "a\u{e9}\u{20ac}\u{1f600}\n".as_bytes();
    let mut at = 0;
    let mut starts = vec![];
    while at < s.len() {
        starts.push(at);
        at += decode_utf8(&s[at..]).1;
    }
    let mut end = s.len();
    while end > 0 {
        end -= decode_utf8_rev(&s[..end]).1;
        assert_eq!(starts.pop(), Some(end));
    }
    assert!(starts.is_empty());
}

#[test]
fn chunk_grows_at_both_ends() {
    let mut m = Demem::from(b"middle".to_vec());
    m.extend_right(b" right");
    m.extend_left(b"left ");
    assert_eq!(m.as_slice(), b"left middle right");
    assert_eq!(m.len(), 17);
    m.consume_left(5);
    m.consume_right(6);
    assert_eq!(m.as_slice(), b"middle");
    assert!(m.spare_left() >= 5);
    assert!(m.capacity() >= m.spare_left() + m.len());
    m.shrink_to_fit();
    assert_eq!(m.as_slice(), b"middle");
    assert_eq!(m.spare_left(), 0);
}

#[test]
fn chunk_edge_cases() {
    let mut m = Demem::new();
    assert!(m.is_empty());
    m.extend_left(b"");
    m.extend_left(b"ab");
    m.extend_left(b"");
    assert_eq!(m.as_slice(), b"ab");
    m.consume_left(2);
    assert!(m.is_empty());
    let mut m = Demem::with_capacity(3, 4);
    assert_eq!(m.spare_left(), 3);
    assert!(m.spare_right() >= 4);
    assert!(m.is_empty());
    m.extend_left(b"xyz");
    assert_eq!(m.spare_left(), 0);
    assert_eq!(m.as_slice(), b"xyz");
    for i in 0..1000u32 {
        m.extend_left(&i.to_le_bytes());
    }
    assert_eq!(m.len(), 4003);
    assert_eq!(&m.as_slice()[..4], &999u32.to_le_bytes());
}

#[test]
fn chunk_room_on_the_left() {
    let mut m = Demem::from(vec![7]);
    assert_eq!(m.spare_left(), 0);
    // One byte becomes two, four, eight
    let rooms: Vec<usize> = (0..9)
        .map(|i| {
            m.extend_left(&[i]);
            m.spare_left()
        })
        .collect();
    assert_eq!(rooms, vec![0, 1, 0, 3, 2, 1, 0, 7, 6]);
    assert_eq!(m.as_slice(), &[8, 7, 6, 5, 4, 3, 2, 1, 0, 7]);
    m.consume_left(3);
    assert_eq!(m.spare_left(), 9);
    m.consume_right(2);
    assert_eq!(m.spare_left(), 9);
    m.extend_left(&[1; 9]);
    assert_eq!(m.spare_left(), 0);
    m.extend_left(&[2; 100]);
    assert_eq!(m.len(), 114);
    assert_eq!(m.spare_left(), 16 * 14 - 114);
    // No memory at all becomes just as large as it must be
    let mut m = Demem::new();
    m.extend_left(b"abc");
    assert_eq!(m.spare_left(), 0);
}

/// A growth shows in the room: a byte that does not fit makes it larger or leaves none.
#[test]
fn chunk_grows_rarely() {
    let mut m = Demem::from(vec![0]);
    let mut growths = 0;
    for n in 1..=5000usize {
        if m.spare_left() == 0 {
            growths += 1;
        }
        m.extend_left(&[n as u8]);
        assert_eq!(growths, usize::BITS - n.leading_zeros());
    }
    assert_eq!(m.len(), 5001);
}

#[test]
fn layout_of_characters() {
    let l = CharLayout::new(&[(65, 10), (66, 20), (65, 30)], 7);
    assert_eq!(l.advance_for(65), 30);
    assert_eq!(l.advance_for(66), 20);
    assert_eq!(l.advance_for(67), 7);
    assert_eq!(CharLayout::new(&[], 1).advance_for(0), 1);
}
