//! Loading a file piece by piece, in various orders.

use gaze::layout::{CharLayout, NEWLINE, REPLACEMENT_CHAR};
use gaze::linemapper::LineMapper;
use gaze::loaded::{Job, LoadedData};
use gaze::loading::{Load, Loading};
use gaze::mapping::Mapping;
use gaze::storing::{Cleaning, Next, Storing};
use gaze::utf8::decode_utf8;
use rand::{seq::SliceRandom, Rng, SeedableRng};
use std::ops::Range;

type TestRng = rand_xoshiro::Xoshiro256StarStar;

struct TestInst {
    loaded: LoadedData,
    linemapper: LineMapper,
}

/// Advances that tell all ASCII characters apart.
fn layout() -> CharLayout {
    let mut pairs = vec![];
    for c in 0..128u32 {
        pairs.push((c, 0x40_0000 + c * 0x1357));
    }
    pairs.push((REPLACEMENT_CHAR, 0x91_2345));
    CharLayout::new(&pairs, 0x80_0001)
}

fn init(fsize: i64, max_mem: usize) -> TestInst {
    let mut loaded = LoadedData::new(usize::MAX, 1024, 1024);
    loaded.set_file_size(fsize);
    TestInst { loaded, linemapper: LineMapper::new(layout(), fsize, max_mem, 1024) }
}

struct SegSpec {
    start: i64,
    end: i64,
    abs_x_since: i64,
    start_x: i128,
    end_x: i128,
    abs_y: bool,
    start_y: i64,
    end_y: i64,
    widest: i128,
    rel_width: i128,
}

fn assert_linemap_segs_eq(t: &TestInst, segs: Vec<SegSpec>) {
    let lm = &t.loaded.linemap;
    assert_eq!(lm.segments.len(), segs.len());
    for (got, ex) in lm.segments.iter().zip(segs.iter()) {
        assert_eq!(got.start, ex.start);
        assert_eq!(got.end, ex.end);
        assert_eq!(got.anchors.front().unwrap().offset, ex.start);
        assert_eq!(got.anchors.back().unwrap().offset, ex.end);
        assert_eq!(got.start == 0, ex.abs_y);
        if ex.abs_x_since > ex.end {
            assert_eq!(got.first_absolute, got.anchors.len());
        } else {
            assert!(got.anchors[got.first_absolute].offset >= ex.abs_x_since);
            if got.first_absolute > 0 {
                assert!(got.anchors[got.first_absolute - 1].offset < ex.abs_x_since);
            }
        }
        assert_eq!(got.widest_line, ex.widest);
        assert_eq!(got.rel_width, ex.rel_width);
        assert_eq!(got.anchors.front().unwrap().x(got), ex.start_x);
        assert_eq!(got.anchors.back().unwrap().x(got), ex.end_x);
        assert_eq!(got.anchors.front().unwrap().y(got), ex.start_y);
        assert_eq!(got.anchors.back().unwrap().y(got), ex.end_y);
    }
}

fn assert_sparse_data_eq(t: &TestInst, segs: Vec<(i64, Vec<u8>)>) {
    let sd = &t.loaded.data;
    assert_eq!(sd.segments.len(), segs.len());
    for (got, ex) in sd.segments.iter().zip(segs.iter()) {
        assert_eq!(got.offset, ex.0);
        assert_eq!(got.data.as_slice(), &ex.1[..]);
    }
}

fn assert_full_data_loaded(t: &TestInst, data: &[u8]) {
    let mut x: i128 = 0;
    let mut y = 0;
    let mut w: i128 = 0;
    let mut idx = 0;
    while idx < data.len() {
        let (c, adv) = decode_utf8(&data[idx..]);
        idx += adv;
        let c = c.unwrap_or(REPLACEMENT_CHAR);
        if c == NEWLINE {
            w = w.max(x);
            x = 0;
            y += 1;
        } else {
            x += t.linemapper.layout.advance_for(c) as i128;
        }
    }
    w = w.max(x);
    assert_linemap_segs_eq(
        t,
        vec![SegSpec {
            start: 0,
            end: data.len() as i64,
            abs_x_since: 0,
            start_x: 0,
            end_x: x,
            abs_y: true,
            start_y: 0,
            end_y: y,
            widest: w,
            rel_width: 0,
        }],
    );
    assert_sparse_data_eq(t, vec![(0, data.to_vec())]);
}

/// The ranges should cover all data.
fn test_in_order(
    data: &[u8],
    max_mem: usize,
    ranges: impl IntoIterator<Item = Range<i64>>,
) -> TestInst {
    let mut t = init(data.len() as i64, max_mem);
    for r in ranges {
        let subdata = &data[r.start as usize..r.end as usize];
        t.linemapper.process_data(&mut t.loaded.linemap, r.start, subdata);
        t.loaded.data.insert_data(r.start, subdata.to_vec());
    }
    assert_full_data_loaded(&t, data);
    t
}

fn rand_binary(seed: u64, len: usize) -> Vec<u8> {
    let mut data = vec![0; len];
    let mut rng = TestRng::seed_from_u64(seed);
    rng.fill(&mut data[..]);
    data
}

fn rand_ascii(seed: u64, len: usize) -> Vec<u8> {
    let mut data = rand_binary(seed, len);
    for b in data.iter_mut() {
        *b = *b & 0x7F;
    }
    data
}

fn rand_utf8(seed: u64, len: usize) -> Vec<u8> {
    let mut data = String::new();
    let mut rng = TestRng::seed_from_u64(seed);
    while data.len() < len {
        let c = if rng.gen_bool(0.01) { '\n' } else { rng.gen() };
        data.push(c);
        if data.len() > len {
            data.pop();
        }
    }
    data.into_bytes()
}

fn rand_utf8_blocks(mut seed: u64, block_size: usize, block_count: usize) -> Vec<u8> {
    let mut data = Vec::new();
    for _ in 0..block_count {
        data.append(&mut rand_utf8(seed, block_size));
        seed = seed.wrapping_add(0xdeadbeefdeadbeef);
    }
    data
}

#[test]
fn sequential() {
    test_in_order(
        &rand_utf8_blocks(0xdaba, 256, 16),
        2 * 1024,
        (0..16).map(|i| 256 * i..256 * (i + 1)),
    );
}

#[test]
fn sequential_rev() {
    test_in_order(
        &rand_utf8_blocks(0xdabb, 256, 16),
        2 * 1024,
        (0..16).map(|i| 256 * i..256 * (i + 1)).rev(),
    );
}

#[test]
fn checkers() {
    test_in_order(
        &rand_utf8_blocks(0xdabc, 64, 256),
        2 * 1024,
        (0..128)
            .map(|i| 64 * (2 * i)..64 * (2 * i + 1))
            .chain((0..128).map(|i| 64 * (2 * i + 1)..64 * (2 * i + 2))),
    );
}

#[test]
fn shuffled() {
    let mut rng = TestRng::seed_from_u64(0xdeadbeeeee);
    let mut blocks = vec![0; 256];
    for (i, b) in blocks.iter_mut().enumerate() {
        *b = i as i64;
    }
    blocks.shuffle(&mut rng);

    test_in_order(
        &rand_utf8_blocks(0xdabd, 64, 256),
        2 * 1024,
        blocks.iter().map(|&i| 64 * i..64 * (i + 1)),
    );
}

#[test]
fn unequal() {
    let mut rng = TestRng::seed_from_u64(0xabcdef);
    let size: i64 = 64 * 256;
    let mut splits = vec![];
    for _ in 0..255 {
        splits.push(rng.gen_range(1..size));
    }
    splits.push(0);
    splits.push(size);
    splits.sort();

    test_in_order(
        &rand_ascii(0xdabe, size as usize),
        2 * 1024,
        (0..256).map(|i| splits[i]..splits[i + 1]),
    );
}

#[test]
fn unequal_shuffled() {
    let mut rng = TestRng::seed_from_u64(0xabcdef);
    let size: i64 = 64 * 256;
    let mut splits = vec![];
    for _ in 0..255 {
        splits.push(rng.gen_range(1..size));
    }
    splits.push(0);
    splits.push(size);
    splits.sort();

    let mut order = vec![0; 256];
    for (i, b) in order.iter_mut().enumerate() {
        *b = i;
    }
    order.shuffle(&mut rng);

    test_in_order(
        &rand_ascii(0xdabf, size as usize),
        2 * 1024,
        order.iter().map(|&i| splits[i]..splits[i + 1]),
    );
}

#[test]
fn binary_babysteps() {
    let data = rand_binary(0xbadeefdab, 32 * 1024);
    let mut t = init(data.len() as i64, 2 * 1024);
    let mut rsize = 1;
    loop {
        let ((l, r), _store) = t.loaded.get_range_to_load(rsize, 100000, 0);
        if l >= r {
            break;
        }
        let old = t.loaded.linemap.segments.last().map(|s| s.end).unwrap_or(0);
        t.linemapper.process_data(&mut t.loaded.linemap, l, &data[l as usize..r as usize]);
        t.loaded.data.insert_data(l, data[l as usize..r as usize].to_vec());
        if old == t.loaded.linemap.segments.last().map(|s| s.end).unwrap_or(0) {
            rsize += 1;
        } else {
            rsize = 1;
        }
        assert!(rsize <= 4);
    }
    assert_full_data_loaded(&t, &data);
}

#[test]
fn binary_babysteps_rev() {
    let data = rand_binary(0xbadeefdab, 32 * 1024);
    let fsize = data.len() as i64;
    let mut t = init(fsize, 2 * 1024);
    t.loaded.hot.corner.base_offset = fsize - 1;
    let mut rsize = 1;
    loop {
        let ((l, r), _store) = t.loaded.get_range_to_load(rsize, 100000, 0);
        if l >= r {
            break;
        }
        let old = t.loaded.linemap.segments.first().map(|s| s.start).unwrap_or(fsize);
        t.linemapper.process_data(&mut t.loaded.linemap, l, &data[l as usize..r as usize]);
        t.loaded.data.insert_data(l, data[l as usize..r as usize].to_vec());
        if old == t.loaded.linemap.segments.first().map(|s| s.start).unwrap_or(fsize) {
            rsize += 1;
        } else {
            rsize = 1;
        }
        assert!(rsize <= 4);
    }
    assert_full_data_loaded(&t, &data);
}

/// Pieces of any length and place, which overlap and cut characters in two.
#[test]
fn overlapping_pieces() {
    let mut rng = TestRng::seed_from_u64(0x51ab);
    let data = rand_utf8(0x77, 6000);
    let size = data.len() as i64;
    let mut t = init(size, 2 * 1024);
    for _ in 0..400 {
        let l = rng.gen_range(0..size);
        let r = rng.gen_range(l..size.min(l + 200) + 1);
        let piece = &data[l as usize..r as usize];
        t.linemapper.process_data(&mut t.loaded.linemap, l, piece);
        t.loaded.data.insert_data(l, piece.to_vec());
        for pair in t.loaded.linemap.segments.windows(2) {
            assert!(pair[0].end < pair[1].start);
        }
        for s in t.loaded.data.segments.iter() {
            let at = s.offset as usize;
            assert_eq!(s.data.as_slice(), &data[at..at + s.data.len()]);
        }
    }
    t.linemapper.process_data(&mut t.loaded.linemap, 0, &data);
    t.loaded.data.insert_data(0, data.clone());
    assert_full_data_loaded(&t, &data);
}

/// A piece fills the holes that others left, and is merged with all of them.
#[test]
fn one_piece_over_many() {
    let data = rand_utf8_blocks(0x1234, 64, 16);
    let order: Vec<Range<i64>> = vec![64..128, 192..256, 320..384, 448..512, 640..704, 0..1024];
    test_in_order(&data, 2 * 1024, order);
}

/// A segment in the middle of the file has columns that count from its start up to its
/// first newline.
#[test]
fn relative_segment() {
    let mut t = init(100, 1024);
    t.linemapper.process_data(&mut t.loaded.linemap, 10, b"ab\ncd");
    let a = |c: u8| t.linemapper.layout.advance_for(c as u32) as i128;
    assert_linemap_segs_eq(
        &t,
        vec![SegSpec {
            start: 10,
            end: 15,
            abs_x_since: 13,
            start_x: 0,
            end_x: a(b'c') + a(b'd'),
            abs_y: false,
            start_y: 0,
            end_y: 1,
            widest: a(b'c') + a(b'd'),
            rel_width: a(b'a') + a(b'b'),
        }],
    );
}

/// Text before a segment makes its first line longer.
#[test]
fn merged_relative_segments() {
    let mut t = init(100, 1024);
    t.linemapper.process_data(&mut t.loaded.linemap, 13, b"cd\ne");
    t.linemapper.process_data(&mut t.loaded.linemap, 10, b"xab");
    let a = |c: u8| t.linemapper.layout.advance_for(c as u32) as i128;
    let rel: i128 = b"xabcd".iter().map(|&c| a(c)).sum();
    assert_linemap_segs_eq(
        &t,
        vec![SegSpec {
            start: 10,
            end: 17,
            abs_x_since: 16,
            start_x: 0,
            end_x: a(b'e'),
            abs_y: false,
            start_y: 0,
            end_y: 1,
            widest: a(b'e'),
            rel_width: rel,
        }],
    );
}

/// The edges of a piece are cut to characters, but for those at the edges of the file.
#[test]
fn cut_edges() {
    // "é" twice: c3 a9 c3 a9
    let data = "a\u{e9}\u{e9}b".as_bytes().to_vec();
    let mut t = init(data.len() as i64, 1024);
    t.linemapper.process_data(&mut t.loaded.linemap, 2, &data[2..4]);
    assert_eq!(t.loaded.linemap.segments.len(), 0);
    t.linemapper.process_data(&mut t.loaded.linemap, 2, &data[2..5]);
    assert_eq!(t.loaded.linemap.segments.len(), 1);
    assert_eq!(t.loaded.linemap.segments[0].start, 3);
    assert_eq!(t.loaded.linemap.segments[0].end, 5);
    t.linemapper.process_data(&mut t.loaded.linemap, 0, &data[0..3]);
    assert_eq!(t.loaded.linemap.segments.len(), 1);
    assert_eq!(t.loaded.linemap.segments[0].start, 0);
    assert_eq!(t.loaded.linemap.segments[0].end, 5);
}

/// Stray continuation bytes at the very start of the file are kept.
#[test]
fn rigid_edges() {
    let data = [0x80u8, 0x80, b'a', 0xE2];
    let mut t = init(4, 1024);
    t.linemapper.process_data(&mut t.loaded.linemap, 0, &data);
    assert_eq!(t.loaded.linemap.segments.len(), 1);
    assert_eq!(t.loaded.linemap.segments[0].start, 0);
    assert_eq!(t.loaded.linemap.segments[0].end, 4);
    let w = t.linemapper.layout.advance_for(REPLACEMENT_CHAR) as i128;
    let a = t.linemapper.layout.advance_for(97) as i128;
    assert_eq!(t.loaded.linemap.segments[0].widest_line, 3 * w + a);
}

/// Anchors are as far apart as the memory for them allows.
#[test]
fn anchor_spread() {
    let data = rand_ascii(0x99, 4096);
    let t = test_in_order(&data, 24 * 16, vec![0..4096]);
    assert_eq!(t.linemapper.bytes_per_anchor, 256);
    let offsets: Vec<i64> =
        t.loaded.linemap.segments[0].anchors.iter().map(|a| a.offset).collect();
    let expected: Vec<i64> = (0..17).map(|i| i * 256).collect();
    assert_eq!(offsets, expected);
    let small = LineMapper::new(layout(), 100, 1 << 20, 8);
    assert_eq!(small.bytes_per_anchor, 24);
}

/// Where more is loaded than there is memory for, only the range to keep stays.
#[test]
fn memory_limit() {
    let data = rand_ascii(0x77, 400);
    let mut t = init(400, 1 << 20);
    t.loaded.data.max_loaded = 150;
    t.loaded.load_segment(&t.linemapper, 0, data[..100].to_vec(), 0..400, true);
    t.loaded.load_segment(&t.linemapper, 200, data[200..300].to_vec(), 50..250, true);
    assert_sparse_data_eq(
        &t,
        vec![(50, data[50..100].to_vec()), (200, data[200..250].to_vec())],
    );
    t.loaded.load_segment(&t.linemapper, 300, data[300..400].to_vec(), 0..0, false);
    assert_eq!(t.loaded.data.segments.len(), 2);
    // The map keeps what it knows
    assert_eq!(t.loaded.linemap.segments.len(), 2);
}

/// A piece is taken in step by step, and what is loaded can be read in between.
#[test]
fn loading_step_by_step() {
    let data = rand_utf8_blocks(0x1234, 64, 8);
    for max_loaded in [usize::MAX, 200] {
        let mut whole = init(data.len() as i64, 2 * 1024);
        let mut t = init(data.len() as i64, 2 * 1024);
        whole.loaded.data.max_loaded = max_loaded;
        t.loaded.data.max_loaded = max_loaded;
        for (lo, hi, store) in [(0usize, 64usize, true), (192, 256, false), (64, 512, true)] {
            let keep = lo as i64..hi as i64;
            let bytes = data[lo..hi].to_vec();
            whole.loaded.load_segment(
                &whole.linemapper,
                lo as i64,
                bytes.clone(),
                keep.clone(),
                store,
            );
            let load = Load { mapper: &t.linemapper, offset: lo as i64, keep, store };
            let mut task = Loading::Mapping(Mapping::Look, bytes);
            let mut stages = vec![];
            let mut rests = 0;
            loop {
                stages.push(match task {
                    Loading::Mapping(..) => 3,
                    Loading::Storing(..) => 2,
                    Loading::Cleaning(..) => 1,
                    Loading::Done => 0,
                });
                let step = task.step(&load, &mut t.loaded);
                task = step.task;
                if lo > 0 {
                    // What was there stays there on the way
                    let first = t.loaded.data.longest_prefix(0);
                    assert!(first.is_empty() || first[..1] == data[..1]);
                    assert_eq!(t.loaded.linemap.segments[0].start, 0);
                }
                match step.next {
                    Next::Release => {
                        // A hole is mapped and a buffer is made while the lock is released
                        let waited = matches!(
                            task,
                            Loading::Mapping(Mapping::Survey { .. }, _)
                                | Loading::Storing(Storing::Grow { .. } | Storing::Tail { .. })
                                | Loading::Cleaning(Cleaning::Reserve { .. })
                        );
                        task = task.rest(&load);
                        let worked = matches!(
                            task,
                            Loading::Mapping(Mapping::Insert { .. }, _)
                                | Loading::Storing(Storing::Place { .. } | Storing::Split { .. })
                                | Loading::Cleaning(Cleaning::Copy { .. })
                        );
                        assert_eq!(waited, worked);
                        rests += waited as usize;
                    }
                    Next::Done => {
                        assert!(rests > 0);
                        assert_eq!(step.bytes.is_some(), !store);
                        break;
                    }
                    _ => {}
                }
            }
            assert!(task.is_done());
            stages.dedup();
            assert_eq!(stages, if store { vec![3, 2, 1] } else { vec![3] });
        }
        let runs = |t: &TestInst| -> Vec<(i64, Vec<u8>)> {
            t.loaded.data.segments.iter().map(|s| (s.offset, s.data.as_slice().to_vec())).collect()
        };
        assert_eq!(runs(&t), runs(&whole));
        let expected = if max_loaded == 200 { 64 } else { 0 };
        assert_eq!(runs(&t), vec![(expected as i64, data[expected..512].to_vec())]);
        assert_eq!(t.loaded.linemap.segments.len(), 1);
    }
}

/// The order of the pieces does not matter.
#[test]
fn text_in_any_order() {
    let data = "l\u{ed}nea uno\n\u{20ac}uro \u{1f600}\n\nfin".as_bytes().to_vec();
    let n = data.len() as i64;
    let cuts = [0, 3, 11, 18, 23, n];
    let pieces: Vec<Range<i64>> = cuts.windows(2).map(|w| w[0]..w[1]).collect();
    let orders: [[usize; 5]; 4] =
        [[0, 1, 2, 3, 4], [4, 3, 2, 1, 0], [2, 0, 4, 1, 3], [1, 3, 0, 2, 4]];
    for order in orders {
        let t = test_in_order(&data, 1 << 20, order.iter().map(|i| pieces[*i].clone()));
        assert_full_data_loaded(&t, &data);
        let s = &t.loaded.linemap.segments[0];
        assert_eq!((s.start, s.end, s.first_absolute, s.rel_width), (0, n, 0, 0));
        let first = s.anchors.front().unwrap();
        assert_eq!((first.offset, first.y(s), first.x(s)), (0, 0, 0));
        let last = s.anchors.back().unwrap();
        assert_eq!((last.offset, last.y(s)), (n, 3));
        assert_eq!(t.loaded.data.segments[0].data.as_slice(), &data[..]);
    }
}

/// What a job asks for is loaded, until nothing is left.
#[test]
fn jobs_until_idle() {
    let data = rand_utf8_blocks(0x4242, 256, 16);
    let mut t = init(data.len() as i64, 2 * 1024);
    let mut jobs = 0;
    loop {
        match t.loaded.next_job(300, 100000, 0) {
            Job::Load { offset, len, keep, store } => {
                assert!(len <= 300);
                let piece = data[offset as usize..(offset + len) as usize].to_vec();
                t.loaded.load_segment(&t.linemapper, offset, piece, keep, store);
                jobs += 1;
                assert!(jobs < 1000);
            }
            Job::Idle => break,
        }
    }
    assert_full_data_loaded(&t, &data);
}

/// Far from the screen, the file is mapped but not stored.
#[test]
fn far_ranges_are_not_stored() {
    let mut t = init(10000, 2 * 1024);
    let data = vec![b'x'; 10000];
    t.loaded.load_segment(&t.linemapper, 0, data[0..1000].to_vec(), 0..1000, true);
    let ((l, r), store) = t.loaded.get_range_to_load(500, 100, 0);
    assert_eq!((l, r), (1000, 1500));
    assert!(!store);
    t.loaded.sel = Some(4000..4200);
    assert_eq!(t.loaded.get_range_to_load(150, 100, 1000), ((4000, 4150), true));
    assert_eq!(t.loaded.get_range_to_load(150, 100, 199), ((1000, 1150), false));
}
