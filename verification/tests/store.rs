//! The sparse store.

use gaze::demem::Demem;
use gaze::sparse::{add_up, room_for, worth_moving, SparseData};
use gaze::storing::{Cleaning, Next, Storing};
use gaze::surroundings::Surroundings;

fn store() -> SparseData {
    let mut s = SparseData::new(usize::MAX, 4, 16);
    s.file_size = 1000;
    s
}

fn segs(s: &SparseData) -> Vec<(i64, Vec<u8>)> {
    s.segments.iter().map(|s| (s.offset, s.data.as_slice().to_vec())).collect()
}

#[test]
fn inserting_merges_what_touches() {
    let mut s = store();
    s.insert_data(10, b"cde".to_vec());
    s.insert_data(20, b"xyz".to_vec());
    assert_eq!(segs(&s), vec![(10, b"cde".to_vec()), (20, b"xyz".to_vec())]);
    s.insert_data(8, b"ab".to_vec());
    assert_eq!(segs(&s), vec![(8, b"abcde".to_vec()), (20, b"xyz".to_vec())]);
    s.insert_data(13, b"fghijkl".to_vec());
    assert_eq!(segs(&s), vec![(8, b"abcdefghijklxyz".to_vec())]);
    s.insert_data(100, vec![]);
    assert_eq!(s.segments.len(), 1);
}

#[test]
fn inserting_overwrites_what_overlaps() {
    let mut s = store();
    s.insert_data(0, b"0123456789".to_vec());
    s.insert_data(20, b"abcdefghij".to_vec());
    s.insert_data(5, b"XXXXXXXXXXXXXXXXXXXX".to_vec());
    assert_eq!(segs(&s), vec![(0, b"01234XXXXXXXXXXXXXXXXXXXXfghij".to_vec())]);
}

#[test]
fn new_data_wins_inside_a_segment() {
    let mut s = store();
    s.insert_data(0, b"0123456789".to_vec());
    s.insert_data(3, b"xyz".to_vec());
    assert_eq!(segs(&s), vec![(0, b"012xyz6789".to_vec())]);
    // As a fresh segment, between what is left of the old one
    assert_eq!(s.insert_segment(4, b"-".to_vec()), 1);
    assert_eq!(
        segs(&s),
        vec![(0, b"012x".to_vec()), (4, b"-".to_vec()), (5, b"z6789".to_vec())]
    );
    // At the edges of a segment, and in place of one
    assert_eq!(s.insert_segment(0, b"a".to_vec()), 0);
    assert_eq!(s.insert_segment(9, b"b".to_vec()), 4);
    assert_eq!(s.insert_segment(4, b"c".to_vec()), 2);
    assert_eq!(
        segs(&s),
        vec![
            (0, b"a".to_vec()),
            (1, b"12x".to_vec()),
            (4, b"c".to_vec()),
            (5, b"z678".to_vec()),
            (9, b"b".to_vec())
        ]
    );
}

#[test]
fn most_of_a_neighbor_can_be_overwritten() {
    let mut s = store();
    assert_eq!(s.insert_segment(10, b"abcdefgh".to_vec()), 0);
    assert_eq!(s.insert_segment(30, b"ABCDEFGH".to_vec()), 1);
    // Only one byte of each neighbor is left
    assert_eq!(s.insert_segment(11, vec![b'.'; 26]), 1);
    assert_eq!(
        segs(&s),
        vec![(10, b"a".to_vec()), (11, vec![b'.'; 26]), (37, b"H".to_vec())]
    );
    assert!(s.touches(0));
    assert!(s.touches(1));
    assert!(!s.touches(2));
    // Nothing is left of either
    assert_eq!(s.insert_segment(10, vec![b'-'; 28]), 0);
    assert_eq!(segs(&s), vec![(10, vec![b'-'; 28])]);
}

#[test]
fn whole_segments_can_be_covered() {
    let mut s = store();
    for i in 0..5 {
        s.insert_segment(10 * i + 5, vec![b'a' + i as u8; 3]);
    }
    assert_eq!(s.insert_segment(14, vec![b'.'; 25]), 1);
    assert_eq!(
        segs(&s),
        vec![(5, b"aaa".to_vec()), (14, vec![b'.'; 25]), (45, b"eee".to_vec())]
    );
}

#[test]
fn merging_either_way_gives_the_same() {
    for into_left in [None, Some(true), Some(false)] {
        let mut s = store();
        s.insert_segment(0, b"first".to_vec());
        s.insert_segment(5, b"second and longer".to_vec());
        s.merge_segments(0, into_left);
        assert_eq!(segs(&s), vec![(0, b"firstsecond and longer".to_vec())]);
    }
}

#[test]
fn merging_step_by_step() {
    for into_left in [true, false] {
        let mut s = store();
        s.insert_segment(0, b"abcdefghij".to_vec());
        s.insert_segment(10, b"klmnopq".to_vec());
        let plan = s.plan_merge(0, Some(into_left));
        assert_eq!(plan.into_left, into_left);
        let mut steps = 0;
        while !s.merge_batch(0, into_left) {
            steps += 1;
            assert_eq!(s.segments.len(), 2);
            assert_eq!(s.longest_prefix(0).len() + s.longest_prefix(s.segments[1].offset).len(), 17);
            assert!(s.touches(0));
            // No byte is lost on the way
            let mut bytes = s.longest_prefix(0).to_vec();
            bytes.extend_from_slice(s.longest_prefix(s.segments[1].offset));
            assert_eq!(bytes, b"abcdefghijklmnopq");
        }
        assert_eq!(steps, if into_left { 1 } else { 2 });
        let empty = s.finish_merge(0, into_left);
        assert!(empty.data.is_empty());
        assert_eq!(segs(&s), vec![(0, b"abcdefghijklmnopq".to_vec())]);
    }
}

#[test]
fn merging_into_a_larger_buffer() {
    let mut s = store();
    s.insert_segment(0, b"abc".to_vec());
    s.insert_segment(3, b"de".to_vec());
    s.begin_move(0, true, Demem::with_capacity(0, 64));
    assert_eq!(s.segments.len(), 3);
    assert_eq!(s.segments[0].offset, 0);
    s.merge_segments(0, Some(true));
    s.merge_segments(0, Some(true));
    assert_eq!(segs(&s), vec![(0, b"abcde".to_vec())]);
    s.insert_segment(5, b"f".to_vec());
    s.begin_move(0, false, Demem::with_capacity(64, 0));
    assert_eq!(s.segments[2].offset, 6);
}

#[test]
fn plans() {
    assert!(worth_moving(10, 2, 6, 16));
    assert!(!worth_moving(10, 2, 5, 16));
    assert!(!worth_moving(10, 6, 6, 16));
    assert!(worth_moving(usize::MAX, 0, 1, 16));
    assert_eq!(room_for(3, 5), Some(8));
    assert_eq!(room_for(3, 6), Some(16));
    assert_eq!(room_for(0, 0), Some(1));
    assert_eq!(room_for(8, 8), Some(16));
    let half = isize::MAX as usize / 2 + 1;
    assert_eq!(room_for(half, 0), Some(half));
    assert_eq!(room_for(half - 1, 1), Some(half));
    assert_eq!(room_for(half, 1), Some(half + 1));
    assert_eq!(room_for(isize::MAX as usize, 0), Some(isize::MAX as usize));
    assert_eq!(room_for(isize::MAX as usize, 1), None);
    assert_eq!(room_for(usize::MAX, 1), None);
}

#[test]
fn surroundings_of_offsets() {
    let mut s = store();
    assert_eq!(s.find_surroundings(5), Surroundings::Out(0, 1000));
    s.insert_data(10, vec![1; 10]);
    s.insert_data(40, vec![2; 10]);
    assert_eq!(s.find_surroundings(5), Surroundings::Out(0, 10));
    assert_eq!(s.find_surroundings(10), Surroundings::In(10, 20));
    assert_eq!(s.find_surroundings(19), Surroundings::In(10, 20));
    assert_eq!(s.find_surroundings(20), Surroundings::Out(20, 40));
    assert_eq!(s.find_surroundings(45), Surroundings::In(40, 50));
    assert_eq!(s.find_surroundings(5000), Surroundings::Out(50, 1000));
    s.insert_data(990, vec![3; 10]);
    assert_eq!(s.find_surroundings(5000), Surroundings::In(990, 1000));
    assert_eq!(s.find_after(20), 0);
    assert_eq!(s.find_after(21), 1);
    assert_eq!(s.find_before(9), 3);
    assert_eq!(s.find_before(39), 0);
    assert_eq!(s.find_before(40), 1);
}

#[test]
fn combined_surroundings() {
    let a = Surroundings::Out(3, 9);
    let b = Surroundings::Out(5, 12);
    let c = Surroundings::In(2, 7);
    let d = Surroundings::In(4, 11);
    assert_eq!(a.min(b), Surroundings::Out(3, 12));
    assert_eq!(c.min(d), Surroundings::In(4, 7));
    assert_eq!(a.min(c), a);
    assert_eq!(d.min(b), b);
}

#[test]
fn longest_pieces() {
    let mut s = store();
    s.insert_data(10, b"abcdef".to_vec());
    s.insert_data(30, b"ghi".to_vec());
    assert_eq!(s.longest_prefix(10), b"abcdef");
    assert_eq!(s.longest_prefix(13), b"def");
    assert_eq!(s.longest_prefix(16), b"");
    assert_eq!(s.longest_prefix(9), b"");
    assert_eq!(s.longest_prefix(31), b"hi");
    assert_eq!(s.longest_suffix(16), b"abcdef");
    assert_eq!(s.longest_suffix(12), b"ab");
    assert_eq!(s.longest_suffix(10), b"");
    assert_eq!(s.longest_suffix(17), b"");
    assert_eq!(s.longest_suffix(33), b"ghi");
    assert_eq!(s.longest_suffix(i64::MIN), b"");
    assert_eq!(s.longest_prefix(i64::MAX), b"");
}

#[test]
fn reading_gives_back_what_was_written() {
    let mut s = store();
    s.insert_data(0, vec![0; 100]);
    s.insert_data(200, vec![1; 100]);
    s.insert_data(50, vec![2; 200]);
    assert_eq!(&s.longest_prefix(50)[..200], &[2; 200][..]);
    assert_eq!(s.segments.len(), 1);
    assert_eq!(s.longest_prefix(0).len(), 300);
}

#[test]
fn cleaning_up_keeps_a_range() {
    let mut s = SparseData::new(10, 4, 16);
    s.file_size = 1000;
    s.insert_data(0, (0..50).collect());
    s.insert_data(100, (100..150).collect());
    s.insert_data(200, vec![9; 50]);
    s.cleanup(40..110);
    assert_eq!(
        segs(&s),
        vec![(40, (40..50).collect::<Vec<u8>>()), (100, (100..110).collect::<Vec<u8>>())]
    );
    assert_eq!(s.segments[0].data.spare_left(), 0);
    assert_eq!(s.segments[1].data.spare_left(), 0);
    s.cleanup(0..0);
    assert!(s.segments.is_empty());
}

#[test]
fn cleaning_up_only_when_needed() {
    let mut s = SparseData::new(1 << 20, 4, 16);
    s.insert_data(0, (0..50).collect());
    s.cleanup(40..45);
    assert_eq!(s.segments[0].data.len(), 50);
    s.cleanup_from(1 << 20, 40..45);
    assert_eq!(s.segments[0].data.len(), 50);
    s.cleanup_from((1 << 20) + 1, 40..45);
    assert_eq!(segs(&s), vec![(40, (40..45).collect::<Vec<u8>>())]);
    assert!(s.total_capacity() >= 5);
}

#[test]
fn clipping_hands_out_what_is_gone() {
    let mut s = store();
    s.insert_data(0, vec![1; 10]);
    s.insert_data(20, vec![2; 10]);
    s.insert_data(40, vec![3; 10]);
    let freed = s.clip_to(25..26);
    assert_eq!(freed.len(), 2);
    assert_eq!(segs(&s), vec![(25, vec![2])]);
    s.clip_to(i64::MIN..i64::MAX);
    assert_eq!(segs(&s), vec![(25, vec![2])]);
}

#[test]
fn copying_in_batches() {
    let mut s = store();
    s.insert_data(0, (0..10).collect());
    let mut new = Demem::with_capacity(7, 10);
    assert!(!s.copy_batch(0, &mut new));
    assert_eq!(new.as_slice(), &[0, 1, 2, 3]);
    assert!(!s.copy_batch(0, &mut new));
    assert!(s.copy_batch(0, &mut new));
    let old = s.swap_data(0, new);
    assert_eq!(old.as_slice(), s.segments[0].data.as_slice());
    // The old buffer is handed out, and the new one stays
    assert_eq!(old.spare_left(), 0);
    assert_eq!(s.segments[0].data.spare_left(), 7);
    assert_eq!(Demem::new().spare_left(), 0);
}

#[test]
fn plans_by_capacity() {
    let mut s = store();
    s.insert_segment(0, b"abcdef".to_vec());
    s.insert_segment(6, b"ghij".to_vec());
    let plan = |l_cap: usize, r_cap: usize, force: Option<bool>| {
        let plan = s.plan_merge_from(0, force, l_cap, r_cap);
        (plan.into_left, plan.room)
    };
    // Moving four bytes into the left segment
    assert_eq!(plan(11, 4, None), (true, None));
    assert_eq!(plan(12, 4, None), (true, None));
    assert_eq!(plan(6, 4, None), (true, None));
    // Moving six bytes into the right segment, which has no room on its left
    assert_eq!(plan(6, 9, Some(false)), (false, None));
    assert_eq!(plan(6, 10, Some(false)), (false, Some(16)));
    assert_eq!(plan(6, 100, Some(false)), (false, Some(16)));
    // The left segment is large, and has room or not
    s.insert_segment(6, b"ghijkl".to_vec());
    s.insert_segment(0, b"0123456789abcdef".to_vec());
    s.insert_segment(16, b"ghij".to_vec());
    let plan = |l_cap: usize| {
        let plan = s.plan_merge_from(0, None, l_cap, 4);
        (plan.into_left, plan.room)
    };
    assert_eq!(plan(16), (true, Some(32)));
    assert_eq!(plan(19), (true, Some(32)));
    assert_eq!(plan(20), (true, None));
}

#[test]
fn adding_up_capacities() {
    assert_eq!(add_up(&[]), 0);
    assert_eq!(add_up(&[3, 4, 5]), 12);
    assert_eq!(add_up(&[usize::MAX, 1]), usize::MAX);
    assert_eq!(add_up(&[usize::MAX - 1, 1, 1, 1]), usize::MAX);
    let mut s = store();
    assert_eq!(s.total_capacity(), 0);
    assert_eq!(s.capacities(), vec![]);
    s.insert_data(0, vec![1; 10]);
    s.insert_data(20, vec![2; 30]);
    let caps = s.capacities();
    assert!(caps.len() == 2 && caps[0] >= 10 && caps[1] >= 30);
    assert_eq!(s.total_capacity(), add_up(&caps));
}

/// However the lock is passed on between two steps, what comes out is the same.
#[test]
fn storing_step_by_step() {
    for threshold in [1usize, 16, 1000] {
        let mut s = SparseData::new(usize::MAX, 4, threshold);
        s.insert_data(0, b"0123456789".to_vec());
        s.insert_data(20, b"abcdefghijklmnopqrst".to_vec());
        let mut task = Storing::Insert { offset: 10, data: b"ABCDEFGHIJ".to_vec() };
        let mut seen = vec![];
        loop {
            let step = task.step(&mut s);
            task = step.task;
            if let Some(empty) = step.freed {
                assert!(empty.is_empty());
                assert!(matches!(step.next, Next::Release | Next::Done));
            }
            // No byte is lost on the way
            let bytes: Vec<u8> =
                s.segments.iter().flat_map(|s| s.data.as_slice().iter().copied()).collect();
            if !matches!(task, Storing::Put { .. }) {
                assert_eq!(bytes, b"0123456789ABCDEFGHIJabcdefghijklmnopqrst");
            }
            seen.push(step.next);
            match step.next {
                Next::Release => task = task.rest(),
                Next::Done => break,
                _ => {}
            }
        }
        assert!(task.is_done());
        assert_eq!(&seen[..3], &[Next::Go, Next::Go, Next::Release]);
        assert!(seen.contains(&Next::Yield));
        assert_eq!(segs(&s), vec![(0, b"0123456789ABCDEFGHIJabcdefghijklmnopqrst".to_vec())]);
    }
}

/// No step moves or copies more than one batch.
#[test]
fn storing_in_batches() {
    let mut s = SparseData::new(usize::MAX, 4, 1000);
    s.insert_data(100, (0..50).collect());
    // The piece lies within the segment, which goes on after it
    let mut task = Storing::Insert { offset: 110, data: vec![99; 10] };
    let mut stages = vec![];
    let mut copied = 0;
    let mut moved = vec![];
    loop {
        let lens: Vec<usize> = s.segments.iter().map(|s| s.data.len()).collect();
        let step = task.step(&mut s);
        task = step.task;
        stages.push(match &task {
            Storing::Insert { .. } => 'i',
            Storing::Tail { i, size, .. } => {
                assert_eq!((*i, *size, step.next), (0, 30, Next::Release));
                't'
            }
            Storing::Split { tail, .. } => {
                assert!(tail.len() <= copied + 4);
                copied = tail.len();
                's'
            }
            Storing::Put { .. } => 'p',
            Storing::Left { .. } => 'l',
            Storing::Right { .. } => 'r',
            Storing::Grow { .. } => 'g',
            Storing::Place { .. } => 'n',
            Storing::Move { .. } => 'v',
            Storing::Merge { i, .. } => {
                let now: Vec<usize> = s.segments.iter().map(|s| s.data.len()).collect();
                if now.len() == lens.len() {
                    moved.push(now[*i].abs_diff(lens[*i]));
                }
                'm'
            }
            Storing::Done => 'd',
        });
        match step.next {
            Next::Release => {
                task = task.rest();
            }
            Next::Done => break,
            _ => {}
        }
    }
    assert_eq!(copied, 28);
    assert!(moved.iter().all(|n| *n <= 4) && moved.contains(&4));
    stages.dedup();
    assert_eq!(stages.iter().collect::<String>(), "tsplmrmd");
    let mut expected: Vec<u8> = (0..50).collect();
    expected[10..20].fill(99);
    assert_eq!(segs(&s), vec![(100, expected)]);
}

/// Less than the threshold is moved before the lock is released.
#[test]
fn cleaning_by_the_threshold() {
    let mut s = SparseData::new(0, 1000, 100);
    for i in 0..6 {
        s.insert_data(100 * i, vec![i as u8; 40]);
        s.segments[i as usize].data.shrink_to_fit();
    }
    let mut task = Cleaning::Clip { total_cap: 1, keep: 0..1000 };
    let mut reserved = vec![];
    loop {
        let step = task.step(&mut s);
        task = step.task;
        match (&task, step.next) {
            (Cleaning::Reserve { i, size }, next) => {
                assert_eq!((*size, next), (40, Next::Release));
                reserved.push(*i);
            }
            (Cleaning::Shrink { acc, .. }, _) => assert!(*acc < 100),
            _ => {}
        }
        if step.next == Next::Release {
            task = task.rest();
        }
        if step.next == Next::Done {
            break;
        }
    }
    // Every third segment, as far as the allocator gives what is asked for
    assert!(reserved.len() >= 2);
    assert_eq!(s.segments.len(), 6);
}

#[test]
fn cleaning_step_by_step() {
    for threshold in [1usize, 1000] {
        let mut s = SparseData::new(10, 4, threshold);
        s.insert_data(0, (0..50).collect());
        s.insert_data(100, (100..150).collect());
        s.insert_data(200, vec![9; 50]);
        let mut task = Cleaning::Clip { total_cap: 150, keep: 40..110 };
        let mut freed = vec![];
        let mut made = 0;
        loop {
            let step = task.step(&mut s);
            task = step.task;
            freed.extend(step.freed);
            match step.next {
                Next::Go => {}
                Next::Yield => assert!(matches!(task, Cleaning::Copy { .. })),
                Next::Release => {
                    task = task.rest();
                    made += 1;
                }
                Next::Done => break,
            }
        }
        assert_eq!(
            segs(&s),
            vec![(40, (40..50).collect::<Vec<u8>>()), (100, (100..110).collect::<Vec<u8>>())]
        );
        assert!(s.segments.iter().all(|s| s.data.spare_left() == 0));
        // The buffer of the segment that is gone, and those that were copied
        assert_eq!(made, if threshold == 1 { 2 } else { 0 });
        assert_eq!(freed.len(), 1 + made);
        // Once is enough
        let before = segs(&s);
        s.cleanup_from(usize::MAX, 40..110);
        assert_eq!(segs(&s), before);
        s.cleanup_from(10, 0..0);
        assert_eq!(segs(&s), before);
    }
}
