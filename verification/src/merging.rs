//! Merging adjacent segments of the line map, in small batches.

use crate::filling::{
    compatible, ends_before, lemma_ends_before, lemma_placed, lemma_starts_upto, placed,
    settled_map, starts_upto,
};
use crate::layout::max_int;
use crate::linemap::{Anchor, LineMap, Mapped, MappedSegment, MAX_BASE_X, MAX_BASE_Y};
use crate::marks::{
    even, join_marks, lawful, lemma_join, lemma_move_left, lemma_move_right, lemma_pinned,
    lemma_rebased, lemma_take, pinnable, pinned, precedes, rebase, rebased, regular, seam, shift,
    shifted, sound, width, Mark, LIMIT,
};
use std::collections::VecDeque;
use vstd::prelude::*;

verus! {

/// Whether an anchor of a segment with the given bases stands for a mark.
pub open spec fn stands_for(anchor: Anchor, m: Mark, base_y: int, base_x: int) -> bool {
    &&& anchor.offset == m.offset
    &&& anchor.y_offset + base_y == m.y
    &&& anchor.x_offset + (if m.abs {
        0
    } else {
        base_x
    }) == m.x
}

/// Wraps `IndexMut` of `std::collections::VecDeque`: replaces the element at `i`.
#[verifier::external_body]
fn set_anchor(anchors: &mut VecDeque<Anchor>, i: usize, anchor: Anchor)
    requires
        i < old(anchors)@.len(),
    ensures
        final(anchors)@ == old(anchors)@.update(i as int, anchor),
{
    anchors[i] = anchor;
}

/// How many marks a batch moves out of a list of `len`: all but one, up to the size
/// of the batch.
pub open spec fn batch_of(len: int, batch: int) -> int {
    if batch <= len - 1 {
        batch
    } else {
        len - 1
    }
}

/// Whether only the anchors of a segment and its bounds may differ.
pub open spec fn same_widths(a: MappedSegment, b: MappedSegment) -> bool {
    a.widest_line == b.widest_line && a.rel_width == b.rel_width
}

/// Copies the anchors of the right segment up to the one at `n` to the end of the
/// left segment.
fn append_front(l: &mut MappedSegment, r: &MappedSegment, n: usize)
    requires
        old(l).readable(),
        r.readable(),
        even(r.marks()),
        seam(old(l).marks().last(), r.marks()),
        n < r.anchors@.len(),
    ensures
        final(l).readable(),
        same_widths(*final(l), *old(l)),
        final(l).base_y == old(l).base_y,
        final(l).base_x_relative == old(l).base_x_relative,
        final(l).marks() == join_marks(old(l).marks(), r.marks().take(n + 1)),
{
    let ghost lm = l.marks();
    let ghost rm = r.marks();
    let ghost e = lm.last();
    let ghost target = shifted(rm.take(n + 1), e);
    let og_len: usize = l.anchors.len();
    proof {
        lemma_move_left(lm, rm, n as int);
        l.lemma_small(og_len - 1);
        r.lemma_small(n as int);
        r.lemma_small(0);
    }
    let (end_y, end_x): (i64, i128) = l.position(og_len - 1);
    let end_abs: bool = og_len - 1 >= l.first_absolute;
    // Remove the end anchor because it is duplicated with the
    // start anchor of the next segment
    let _ = l.anchors.pop_back();
    let ghost kept = l.anchors@;
    assert(kept =~= old(l).anchors@.drop_last());
    assert(n < r.anchors.len());
    let mut i: usize = 0;
    while i <= n
        invariant
            r.readable(),
            rm == r.marks(),
            e == (Mark { offset: r.start as int, y: end_y as int, x: end_x as int, abs: end_abs }),
            sound(e),
            e.y <= e.offset - l.start,
            !e.abs ==> e.x <= width(e.offset - l.start),
            0 <= l.start,
            n < r.anchors.len(),
            i <= n + 1,
            target == shifted(rm.take(n + 1), e),
            -l.start <= l.base_y <= MAX_BASE_Y + LIMIT,
            -width(l.start as int) <= l.base_x_relative <= MAX_BASE_X + width(LIMIT as int),
            l.base_y == old(l).base_y,
            l.base_x_relative == old(l).base_x_relative,
            l.start == old(l).start,
            l.first_absolute == old(l).first_absolute,
            same_widths(*l, *old(l)),
            l.anchors@.len() == kept.len() + i,
            forall|k: int| 0 <= k < kept.len() ==> l.anchors@[k] == kept[k],
            forall|k: int|
                0 <= k < i ==> stands_for(
                    #[trigger] l.anchors@[kept.len() + k],
                    target[k],
                    l.base_y as int,
                    l.base_x_relative as int,
                ),
        decreases n + 1 - i,
    {
        proof {
            r.lemma_small(i as int);
        }
        let (y, x): (i64, i128) = r.position(i);
        let offset: i64 = r.anchors[i].offset;
        let src_abs: bool = i >= r.first_absolute;
        let x: i128 = if src_abs {
            x
        } else {
            // Nudge by the end x
            x + end_x
        };
        let ghost was = l.anchors@;
        l.anchors.push_back(
            Anchor {
                offset,
                y_offset: y + end_y - l.base_y,
                x_offset: if src_abs || end_abs {
                    x
                } else {
                    x - l.base_x_relative
                },
            },
        );
        proof {
            assert(target[i as int] == shift(rm[i as int], e));
            assert forall|k: int| 0 <= k < i + 1 implies stands_for(
                #[trigger] l.anchors@[kept.len() + k],
                target[k],
                l.base_y as int,
                l.base_x_relative as int,
            ) by {
                if k < i {
                    assert(l.anchors@[kept.len() + k] == was[kept.len() + k]);
                }
            }
        }
        i = i + 1;
    }
    // Map the absolute index from the right segment to the left segment
    if !end_abs {
        l.first_absolute = if r.first_absolute <= n {
            l.anchors.len() - (n + 1 - r.first_absolute)
        } else {
            l.anchors.len()
        };
    }
    l.end = r.anchors[n].offset;
    proof {
        let l1 = join_marks(lm, rm.take(n + 1));
        assert(l.marks().len() == l1.len());
        assert forall|k: int| 0 <= k < l1.len() implies l.marks()[k] == #[trigger] l1[k] by {
            if k < kept.len() {
                assert(l1[k] == lm[k]);
                assert(lm[k] == old(l).mark(k));
                assert(l.anchors@[k] == kept[k]);
            } else {
                let j = k - kept.len();
                assert(l1[k] == target[j]);
                assert(target[j] == shift(rm[j], e));
                assert(stands_for(
                    l.anchors@[kept.len() + j],
                    target[j],
                    l.base_y as int,
                    l.base_x_relative as int,
                ));
                assert(rm[j].abs == (j >= r.first_absolute));
            }
        }
        assert(l.marks() =~= l1);
        assert(l1.last() == target[n as int]);
        if kept.len() > 0 {
            assert(l1[0] == lm[0]);
        } else {
            assert(l1[0] == target[0]);
        }
    }
}

/// Drops the first `n` anchors of a segment, and lets it start at the next one.
fn drop_front(r: &mut MappedSegment, n: usize)
    requires
        old(r).readable(),
        n < old(r).anchors@.len(),
    ensures
        final(r).readable(),
        same_widths(*final(r), *old(r)),
        final(r).marks() == rebased(old(r).marks().skip(n as int), old(r).marks()[n as int]),
{
    let ghost rm = r.marks();
    let ghost rold = r.anchors@;
    proof {
        r.lemma_small(n as int);
        lemma_rebased(rm, n as int);
    }
    let (new_y, new_x): (i64, i128) = r.position(n);
    let new_abs: bool = n >= r.first_absolute;
    let new_start: i64 = r.anchors[n].offset;
    let mut i: usize = 0;
    while i < n
        invariant
            i <= n,
            n < rold.len(),
            r.anchors@ == rold.skip(i as int),
            r.start == old(r).start,
            r.end == old(r).end,
            r.base_y == old(r).base_y,
            r.base_x_relative == old(r).base_x_relative,
            r.first_absolute == old(r).first_absolute,
            same_widths(*r, *old(r)),
        decreases n - i,
    {
        let _ = r.anchors.pop_front();
        proof {
            assert(r.anchors@ =~= rold.skip(i + 1));
        }
        i = i + 1;
    }
    r.first_absolute = if r.first_absolute >= n {
        r.first_absolute - n
    } else {
        0
    };
    // Shift the right segment down by whatever was removed
    r.base_y = r.base_y - new_y;
    if !new_abs {
        r.base_x_relative = r.base_x_relative - new_x;
    }
    // Keep the start offset in sync with the start anchor
    r.start = new_start;
    proof {
        let r1 = rebased(rm.skip(n as int), rm[n as int]);
        assert forall|k: int| 0 <= k < r1.len() implies r.marks()[k] == #[trigger] r1[k] by {
            assert(r1[k] == rebase(rm[k + n], rm[n as int]));
            assert(rm[k + n] == old(r).mark(k + n));
            assert(r.anchors@[k] == rold[k + n]);
        }
        assert(r.marks() =~= r1);
        assert(r1.last() == rebase(rm.last(), rm[n as int]));
        assert(r1[0] == rebase(rm[n as int], rm[n as int]));
    }
}

/// Move a batch of anchors from the right segment to the left segment.
/// Returns whether there are none left to move.
fn migrate_left(l: &mut MappedSegment, r: &mut MappedSegment, batch: usize) -> (done: bool)
    requires
        old(l).readable(),
        old(r).readable(),
        even(old(r).marks()),
        seam(old(l).marks().last(), old(r).marks()),
    ensures
        final(l).readable(),
        final(r).readable(),
        same_widths(*final(l), *old(l)),
        same_widths(*final(r), *old(r)),
        final(l).base_y == old(l).base_y,
        final(l).base_x_relative == old(l).base_x_relative,
        ({
            let n = batch_of(old(r).marks().len() as int, batch as int);
            &&& final(l).marks() == join_marks(old(l).marks(), old(r).marks().take(n + 1))
            &&& final(r).marks() == rebased(old(r).marks().skip(n), old(r).marks()[n])
            &&& done == (n == old(r).marks().len() - 1)
        }),
{
    let n: usize = if batch <= r.anchors.len() - 1 {
        batch
    } else {
        r.anchors.len() - 1
    };
    let done: bool = n == r.anchors.len() - 1;
    append_front(l, r, n);
    drop_front(r, n);
    done
}

/// Whether the bases of a segment have grown no more than the segment itself.
pub open spec fn tight(s: MappedSegment) -> bool {
    &&& 0 <= s.base_y <= MAX_BASE_Y + (s.end - s.start)
    &&& 0 <= s.base_x_relative <= MAX_BASE_X + width(s.end - s.start)
}

/// Copies the anchors of the left segment from the one at `n` on to the start of the
/// right segment.
fn prepend_back(l: &MappedSegment, r: &mut MappedSegment, n: usize)
    requires
        l.readable(),
        old(r).readable(),
        tight(*old(r)),
        even(l.marks()),
        even(old(r).marks()),
        seam(l.marks().last(), old(r).marks()),
        l.marks().last().abs ==> old(r).marks()[0].abs,
        n < l.anchors@.len(),
    ensures
        final(r).readable(),
        tight(*final(r)),
        same_widths(*final(r), *old(r)),
        final(r).marks() == join_marks(
            rebased(l.marks().skip(n as int), l.marks()[n as int]),
            old(r).marks(),
        ),
{
    let ghost lm = l.marks();
    let ghost rm = r.marks();
    let ghost ranchors = r.anchors@;
    let ghost s = lm[n as int];
    let last: usize = l.anchors.len() - 1;
    let ghost moved = rebased(lm.skip(n as int), s);
    let ghost e1 = moved.last();
    proof {
        lemma_move_right(lm, rm, n as int);
        l.lemma_small(n as int);
        l.lemma_small(last as int);
        r.lemma_small(0);
        r.lemma_small(ranchors.len() - 1);
        if n < last {
            assert(precedes(s, lm[last as int]));
        }
        assert(e1 == rebase(lm[last as int], s));
        assert(rm[0].offset == r.start);
    }
    let (cap_y, cap_x): (i64, i128) = l.position(last);
    let cap_abs: bool = last >= l.first_absolute;
    let (src_y, src_x): (i64, i128) = l.position(n);
    // Shift all Y coordinates in the right segment by the height that is migrated
    r.base_y = r.base_y + (cap_y - src_y);
    // Shift all relative X coordinates in the right segment by the width that is
    // migrated
    if !cap_abs {
        r.base_x_relative = r.base_x_relative + (cap_x - src_x);
    }
    let ghost base_y = r.base_y as int;
    let ghost base_x = r.base_x_relative as int;
    let mut i: usize = last;
    while i > n
        invariant
            l.readable(),
            lm == l.marks(),
            n <= i <= last,
            last < l.anchors@.len(),
            s == lm[n as int],
            s == (Mark {
                offset: l.anchors@[n as int].offset as int,
                y: src_y as int,
                x: src_x as int,
                abs: n >= l.first_absolute,
            }),
            sound(s),
            moved == rebased(lm.skip(n as int), s),
            moved.len() == last + 1 - n,
            0 <= base_y <= MAX_BASE_Y + LIMIT,
            0 <= base_x <= MAX_BASE_X + width(LIMIT as int),
            r.base_y == base_y,
            r.base_x_relative == base_x,
            r.start == old(r).start,
            r.end == old(r).end,
            r.first_absolute == old(r).first_absolute,
            same_widths(*r, *old(r)),
            r.anchors@.len() == ranchors.len() + (last - i),
            forall|k: int|
                0 <= k < ranchors.len() ==> #[trigger] r.anchors@[k + (last - i)] == ranchors[k],
            forall|k: int|
                0 <= k < last - i ==> stands_for(
                    #[trigger] r.anchors@[k],
                    moved[k + (i - n)],
                    base_y,
                    base_x,
                ),
        decreases i,
    {
        i = i - 1;
        proof {
            l.lemma_small(i as int);
            assert(sound(lm[i as int]));
            if i > n {
                assert(precedes(s, lm[i as int]));
            }
        }
        let (y, x): (i64, i128) = l.position(i);
        let offset: i64 = l.anchors[i].offset;
        let ghost was = r.anchors@;
        // The position was relative to the start of the left segment, and needs to
        // be relative to the new start of the right segment
        r.anchors.push_front(
            Anchor {
                offset,
                y_offset: (y - src_y) - r.base_y,
                x_offset: if i >= l.first_absolute {
                    x
                } else {
                    (x - src_x) - r.base_x_relative
                },
            },
        );
        proof {
            assert(moved[i - n] == rebase(lm[i as int], s));
            assert forall|k: int| 0 <= k < ranchors.len() implies #[trigger] r.anchors@[k + (last
                - i)] == ranchors[k] by {
                assert(r.anchors@[k + (last - i)] == was[k + (last - i) - 1]);
                assert(was[k + (last - (i + 1))] == ranchors[k]);
            }
            assert forall|k: int| 0 <= k < last - i implies stands_for(
                #[trigger] r.anchors@[k],
                moved[k + (i - n)],
                base_y,
                base_x,
            ) by {
                if k > 0 {
                    assert(r.anchors@[k] == was[k - 1]);
                    assert(stands_for(was[k - 1], moved[(k - 1) + (i + 1 - n)], base_y, base_x));
                }
            }
        }
    }
    let b: usize = last - n;
    // Map the absolute index from the left segment to the right segment
    r.first_absolute = if !cap_abs {
        assert(r.first_absolute + b <= r.anchors.len());
        r.first_absolute + b
    } else if l.first_absolute >= n {
        l.first_absolute - n
    } else {
        0
    };
    // Keep the start offset in sync with the start anchor
    r.start = l.anchors[n].offset;
    proof {
        let r1 = join_marks(moved, rm);
        assert(r.marks().len() == r1.len());
        assert forall|k: int| 0 <= k < r1.len() implies r.marks()[k] == #[trigger] r1[k] by {
            if k < b {
                assert(r1[k] == moved[k]);
                assert(moved[k] == rebase(lm[k + n], s));
                assert(stands_for(r.anchors@[k], moved[k + (n - n)], base_y, base_x));
                assert(lm[k + n].abs == (k + n >= l.first_absolute));
            } else {
                let j = k - b;
                assert(r1[k] == shift(rm[j], e1));
                assert(r.anchors@[j + (last - n)] == ranchors[j]);
                assert(rm[j] == old(r).mark(j));
                if cap_abs && j > 0 {
                    assert(precedes(rm[0], rm[j]));
                }
            }
        }
        assert(r.marks() =~= r1);
        assert(r1.last() == shift(rm.last(), e1));
        assert(r1[0] == moved[0]);
    }
}

/// Drops the last anchors of a segment, and lets it end at the one at `n`.
fn drop_back(l: &mut MappedSegment, n: usize)
    requires
        old(l).readable(),
        n < old(l).anchors@.len(),
    ensures
        final(l).readable(),
        same_widths(*final(l), *old(l)),
        final(l).marks() == old(l).marks().take(n + 1),
{
    let ghost lm = l.marks();
    assert(n < l.anchors.len());
    l.end = l.anchors[n].offset;
    l.anchors.truncate(n + 1);
    if l.first_absolute > n + 1 {
        l.first_absolute = n + 1;
    }
    proof {
        lemma_take(lm, n + 1);
        assert forall|k: int| 0 <= k < n + 1 implies l.marks()[k] == #[trigger] lm[k] by {
            assert(lm[k] == old(l).mark(k));
        }
        assert(l.marks() =~= lm.take(n + 1));
        assert(l.marks().last() == lm[n as int]);
        assert(l.marks()[0] == lm[0]);
    }
}

/// Move a batch of anchors from the left segment to the right segment.
/// Returns whether there are none left to move.
fn migrate_right(l: &mut MappedSegment, r: &mut MappedSegment, batch: usize) -> (done: bool)
    requires
        old(l).readable(),
        old(r).readable(),
        tight(*old(r)),
        even(old(l).marks()),
        even(old(r).marks()),
        seam(old(l).marks().last(), old(r).marks()),
        old(l).marks().last().abs ==> old(r).marks()[0].abs,
    ensures
        final(l).readable(),
        final(r).readable(),
        tight(*final(r)),
        same_widths(*final(l), *old(l)),
        same_widths(*final(r), *old(r)),
        ({
            let n = old(l).marks().len() - 1 - batch_of(
                old(l).marks().len() as int,
                batch as int,
            );
            &&& final(l).marks() == old(l).marks().take(n + 1)
            &&& final(r).marks() == join_marks(
                rebased(old(l).marks().skip(n), old(l).marks()[n]),
                old(r).marks(),
            )
            &&& done == (n == 0)
        }),
{
    let last: usize = l.anchors.len() - 1;
    let n: usize = if batch <= last {
        last - batch
    } else {
        0
    };
    prepend_back(l, r, n);
    drop_back(l, n);
    n == 0
}

/// Whether two segments have the same anchors, but for those from `lo` up to `hi`.
pub open spec fn same_anchors_but(a: MappedSegment, b: MappedSegment, lo: int, hi: int) -> bool {
    &&& a.anchors@.len() == b.anchors@.len()
    &&& forall|k: int|
        0 <= k < a.anchors@.len() && !(lo <= k < hi) ==> #[trigger] a.anchors@[k] == b.anchors@[k]
}

/// Give the last relative anchors of the right segment absolute coordinates, where
/// the left segment ends with an absolute one.
/// Returns whether all of them are absolute.
fn pin(l: &MappedSegment, r: &mut MappedSegment, batch: usize) -> (done: bool)
    requires
        l.readable(),
        old(r).readable(),
        l.marks().last().abs,
        old(r).start == l.end,
        pinnable(old(r).marks(), l.marks().last().x),
        old(r).marks()[0].abs ==> old(r).marks()[0].x == l.marks().last().x,
    ensures
        final(r).readable(),
        same_widths(*final(r), *old(r)),
        final(r).base_y == old(r).base_y,
        final(r).base_x_relative == old(r).base_x_relative,
        ({
            let lo = if batch <= old(r).first_absolute {
                old(r).first_absolute - batch
            } else {
                0
            };
            &&& final(r).marks() == pinned(old(r).marks(), lo, l.marks().last().x)
            &&& final(r).first_absolute == lo
            &&& done == (lo == 0)
            &&& same_anchors_but(*final(r), *old(r), lo, old(r).first_absolute as int)
        }),
{
    let ghost rm = r.marks();
    let ghost e = l.marks().last();
    let last: usize = l.anchors.len() - 1;
    proof {
        l.lemma_small(last as int);
    }
    let (_end_y, end_x): (i64, i128) = l.position(last);
    let lo: usize = if batch <= r.first_absolute {
        r.first_absolute - batch
    } else {
        0
    };
    let ghost was = r.anchors@;
    let ghost fa = r.first_absolute as int;
    proof {
        lemma_pinned(rm, lo as int, e);
    }
    let mut i: usize = lo;
    while i < r.first_absolute
        invariant
            old(r).readable(),
            rm == old(r).marks(),
            was == old(r).anchors@,
            fa == old(r).first_absolute,
            r.first_absolute == fa,
            fa <= was.len(),
            lo <= i <= fa,
            0 <= end_x <= width(LIMIT as int),
            r.start == old(r).start,
            r.end == old(r).end,
            r.base_y == old(r).base_y,
            r.base_x_relative == old(r).base_x_relative,
            same_widths(*r, *old(r)),
            r.anchors@.len() == was.len(),
            forall|k: int| 0 <= k < lo || i <= k < was.len() ==> #[trigger] r.anchors@[k] == was[k],
            forall|k: int|
                lo <= k < i ==> (#[trigger] r.anchors@[k]).offset == was[k].offset
                    && r.anchors@[k].y_offset == was[k].y_offset && r.anchors@[k].x_offset
                    == rm[k].x + end_x,
        decreases fa - i,
    {
        proof {
            old(r).lemma_small(i as int);
        }
        let a: Anchor = r.anchors[i];
        set_anchor(
            &mut r.anchors,
            i,
            Anchor {
                offset: a.offset,
                y_offset: a.y_offset,
                x_offset: (a.x_offset + r.base_x_relative) + end_x,
            },
        );
        i = i + 1;
    }
    r.first_absolute = lo;
    proof {
        let out = pinned(rm, lo as int, e.x);
        assert forall|k: int| 0 <= k < out.len() implies r.marks()[k] == #[trigger] out[k] by {
            assert(rm[k] == old(r).mark(k));
            if k < lo || k >= fa {
                assert(r.anchors@[k] == was[k]);
            } else {
                assert(r.anchors@[k].offset == was[k].offset);
            }
        }
        assert(r.marks() =~= out);
    }
    lo == 0
}

/// What two adjacent segments know together.
pub open spec fn joined(l: Mapped, r: Mapped) -> Mapped {
    let e = l.marks.last();
    Mapped {
        marks: join_marks(l.marks, r.marks),
        widest: if e.abs {
            // Factor the absolute line that is created by tacking the relative
            // line onto an absolute line
            max_int(max_int(l.widest, r.widest), e.x + r.rel_width)
        } else {
            max_int(l.widest, r.widest)
        },
        rel_width: if e.abs {
            l.rel_width
        } else {
            l.rel_width + r.rel_width
        },
    }
}

/// Whether the segment at `i` ends where the next one starts.
pub open spec fn adjacent(map: Seq<Mapped>, i: int) -> bool {
    0 <= i && i + 1 < map.len() && map[i].end() == map[i + 1].start()
}

/// The segments with the two at `i` and `i + 1` replaced by one.
pub open spec fn with_pair(map: Seq<Mapped>, i: int, seg: Mapped) -> Seq<Mapped> {
    map.take(i) + seq![seg] + map.skip(i + 2)
}

/// The segments after those at `i` and `i + 1` were merged.
pub open spec fn merged(map: Seq<Mapped>, i: int) -> Seq<Mapped> {
    with_pair(map, i, joined(map[i], map[i + 1]))
}

/// Whether two maps differ in the segments at `i` and `i + 1` at most.
pub open spec fn same_but_pair(a: Seq<Mapped>, b: Seq<Mapped>, i: int) -> bool {
    &&& a.len() == b.len()
    &&& forall|k: int| 0 <= k < a.len() && k != i && k != i + 1 ==> #[trigger] a[k] == b[k]
}

impl LineMap {
    /// What holds of a map in which segments may touch, but none are being merged.
    pub open spec fn loose(self) -> bool {
        &&& forall|i: int| 0 <= i < self.segments@.len() ==> (#[trigger] self.segments@[i]).wf()
        &&& forall|i: int, j: int|
            0 <= i < j < self.segments@.len() ==> (#[trigger] self.segments@[i]).end <= (
            #[trigger] self.segments@[j]).start
        &&& self.file_size >= 0
    }

    /// What holds while the segments at `i` and `i + 1` are being merged.
    pub open spec fn merging(self, i: int, into_left: bool) -> bool {
        let l = self.segments@[i];
        let r = self.segments@[i + 1];
        let dst = if into_left {
            l
        } else {
            r
        };
        &&& self.readable()
        &&& 0 <= i
        &&& i + 1 < self.segments@.len()
        &&& forall|k: int|
            0 <= k < self.segments@.len() && k != i && k != i + 1 ==> (
            #[trigger] self.segments@[k]).wf()
        &&& even(l.marks())
        &&& tight(dst)
        &&& l.start < r.end
        &&& dst.widest_line <= width(r.end as int)
        &&& dst.rel_width <= width(r.end - l.start)
        &&& regular(join_marks(l.marks(), r.marks()))
    }

    /// What holds while anchors are being moved.
    pub open spec fn migrating(self, i: int, into_left: bool) -> bool {
        let l = self.segments@[i].marks();
        let r = self.segments@[i + 1].marks();
        &&& self.merging(i, into_left)
        &&& even(r)
        &&& seam(l.last(), r)
        &&& !into_left && l.last().abs ==> r[0].abs
    }

    /// What holds while the right segment is being prepared to move anchors to it.
    pub open spec fn pinning(self, i: int) -> bool {
        let l = self.segments@[i].marks();
        let r = self.segments@[i + 1].marks();
        &&& self.merging(i, false)
        &&& r[0].offset == l.last().offset
        &&& r[0].abs ==> l.last().abs && r[0].x == l.last().x
        &&& if l.last().abs {
            pinnable(r, l.last().x)
        } else {
            even(r)
        }
    }

    /// What the segments at `i` and `i + 1` are going to be when they are merged.
    pub open spec fn outcome(self, i: int, into_left: bool) -> Mapped {
        let l = self@[i];
        let r = self@[i + 1];
        Mapped {
            marks: join_marks(l.marks, r.marks),
            widest: if into_left {
                l.widest
            } else {
                r.widest
            },
            rel_width: if into_left {
                l.rel_width
            } else {
                r.rel_width
            },
        }
    }

    /// Start merging two exactly adjacent segments. Returns whether to move the
    /// anchors of the right one into the left one, or the other way round.
    pub fn begin_merge(&mut self, i: usize) -> (into_left: bool)
        requires
            old(self).loose(),
            adjacent(old(self)@, i as int),
        ensures
            final(self).file_size == old(self).file_size,
            same_but_pair(final(self)@, old(self)@, i as int),
            into_left == (old(self)@[i as int].marks.len() >= old(self)@[i + 1].marks.len()),
            final(self).segments@[i as int].anchors == old(self).segments@[i as int].anchors,
            final(self).segments@[i + 1].anchors == old(self).segments@[i + 1].anchors,
            into_left ==> final(self).migrating(i as int, true),
            !into_left ==> final(self).pinning(i as int),
            final(self).outcome(i as int, into_left) == joined(
                old(self)@[i as int],
                old(self)@[i + 1],
            ),
    {
        let ghost map = self@;
        let ghost segs = self.segments@;
        assert(i + 1 < self.segments.len());
        proof {
            assert(map[i as int] == segs[i as int]@ && map[i + 1] == segs[i + 1]@);
            assert(segs[i as int].wf() && segs[i + 1].wf());
            lemma_regular_pair(segs[i as int].marks(), segs[i + 1].marks());
            lemma_join(segs[i as int].marks(), segs[i + 1].marks());
        }
        let (left, right) = self.segments.as_mut_slice().split_at_mut(i + 1);
        let l: &mut MappedSegment = &mut left[i as usize];
        let r: &mut MappedSegment = &mut right[0];
        let into_left: bool = l.anchors.len() >= r.anchors.len();
        let last: usize = l.anchors.len() - 1;
        proof {
            l.lemma_small(last as int);
        }
        // NOTE: The maximum width of the segments will temporarily be wrong, but
        // doing this correctly is way too expensive with the current implementation
        // The length of the relative line will also be temporarily wrong
        let mut wide: i128 = if l.widest_line >= r.widest_line {
            l.widest_line
        } else {
            r.widest_line
        };
        if l.first_absolute <= last {
            // Factor the absolute line that is created by tacking the relative
            // line onto an absolute line
            let w: i128 = l.anchors[last].x_abs() + r.rel_width;
            if w > wide {
                wide = w;
            }
        } else {
            l.rel_width = l.rel_width + r.rel_width;
        }
        if into_left {
            l.widest_line = wide;
        } else {
            r.widest_line = wide;
        }
        r.rel_width = l.rel_width;
        proof {
            assert(self.segments@.len() == segs.len());
            assert(self.segments@[i as int].marks() =~= segs[i as int].marks());
            assert(self.segments@[i + 1].marks() =~= segs[i + 1].marks());
            assert forall|k: int| 0 <= k < segs.len() && k != i && k != i + 1 implies
                #[trigger] self.segments@[k] == segs[k] by {}
        }
        into_left
    }

    /// Prepare a merge into the right segment.
    ///
    /// There is a very special case when merging a segment into the right.
    /// If the left segment ends with absolute X coordinates but the right
    /// segment has a relative-X prefix, we *must* update the entire prefix
    /// to be absolute before merging. This brings the first absolute anchor of the
    /// right segment to the left by one batch.
    /// Returns whether the merge can go on.
    pub fn pin_batch(&mut self, i: usize, batch: usize) -> (done: bool)
        requires
            old(self).pinning(i as int),
        ensures
            final(self).file_size == old(self).file_size,
            same_but_pair(final(self)@, old(self)@, i as int),
            final(self).pinning(i as int),
            done ==> final(self).migrating(i as int, false),
            final(self).outcome(i as int, false) == old(self).outcome(i as int, false),
            final(self)@[i as int] == old(self)@[i as int],
            final(self).segments@[i as int] == old(self).segments@[i as int],
            final(self).segments@[i + 1].first_absolute <= old(self).segments@[i
                + 1].first_absolute,
            old(self).segments@[i + 1].first_absolute <= final(self).segments@[i
                + 1].first_absolute + batch,
            same_anchors_but(
                final(self).segments@[i + 1],
                old(self).segments@[i + 1],
                final(self).segments@[i + 1].first_absolute as int,
                old(self).segments@[i + 1].first_absolute as int,
            ),
            !done ==> final(self).segments@[i + 1].first_absolute + batch == old(
                self,
            ).segments@[i + 1].first_absolute,
    {
        let ghost segs = self.segments@;
        let ghost lm = segs[i as int].marks();
        let ghost rm = segs[i + 1].marks();
        assert(i + 1 < self.segments.len());
        proof {
            assert(segs[i as int].readable() && segs[i + 1].readable());
            segs[i as int].lemma_small(lm.len() - 1);
        }
        if self.segments[i].first_absolute >= self.segments[i].anchors.len() {
            return true;
        }
        let (left, right) = self.segments.as_mut_slice().split_at_mut(i + 1);
        let l: &MappedSegment = &left[i as usize];
        let r: &mut MappedSegment = &mut right[0];
        let done: bool = pin(l, r, batch);
        proof {
            let lo = r.first_absolute as int;
            assert(sound(lm.last()));
            lemma_pinned(rm, lo, lm.last());
            assert(self.segments@.len() == segs.len());
            assert(self.segments@[i as int] == segs[i as int]);
            assert forall|k: int| 0 <= k < segs.len() && k != i + 1 implies
                #[trigger] self.segments@[k] == segs[k] by {}
            let out = self.segments@[i + 1].marks();
            assert(join_marks(lm, out) =~= join_marks(lm, rm));
            assert(out[0].offset == rm[0].offset);
            assert(out.last().offset == rm.last().offset);
        }
        done
    }

    /// Move one batch of anchors between the segments that are being merged.
    /// Returns whether none are left to move.
    pub fn merge_batch(&mut self, i: usize, into_left: bool, batch: usize) -> (done: bool)
        requires
            old(self).migrating(i as int, into_left),
        ensures
            final(self).file_size == old(self).file_size,
            same_but_pair(final(self)@, old(self)@, i as int),
            final(self).migrating(i as int, into_left),
            final(self).outcome(i as int, into_left) == old(self).outcome(i as int, into_left),
            into_left ==> final(self)@[i + 1].marks.len() == old(self)@[i + 1].marks.len()
                - batch_of(old(self)@[i + 1].marks.len() as int, batch as int),
            !into_left ==> final(self)@[i as int].marks.len() == old(self)@[i as int].marks.len()
                - batch_of(old(self)@[i as int].marks.len() as int, batch as int),
            done == if into_left {
                final(self)@[i + 1].marks.len() == 1
            } else {
                final(self)@[i as int].marks.len() == 1
            },
    {
        let ghost segs = self.segments@;
        let ghost lm = segs[i as int].marks();
        let ghost rm = segs[i + 1].marks();
        assert(i + 1 < self.segments.len());
        proof {
            assert(segs[i as int].readable() && segs[i + 1].readable());
        }
        let done: bool;
        let (left, right) = self.segments.as_mut_slice().split_at_mut(i + 1);
        let l: &mut MappedSegment = &mut left[i as usize];
        let r: &mut MappedSegment = &mut right[0];
        if into_left {
            done = migrate_left(l, r, batch);
        } else {
            done = migrate_right(l, r, batch);
        }
        proof {
            assert(self.segments@.len() == segs.len());
            assert forall|k: int| 0 <= k < segs.len() && k != i && k != i + 1 implies
                #[trigger] self.segments@[k] == segs[k] by {}
            let lm1 = self.segments@[i as int].marks();
            let rm1 = self.segments@[i + 1].marks();
            if into_left {
                let n = batch_of(rm.len() as int, batch as int);
                lemma_move_left(lm, rm, n);
                lemma_take(rm, n + 1);
                assert(even(rm.take(n + 1))) by {
                    assert forall|j: int|
                        0 <= j < n + 1 && (#[trigger] rm.take(n + 1)[j]).abs && rm.take(n + 1)[j].y
                            == 0 implies rm.take(n + 1)[0].abs by {
                        assert(rm[j].abs);
                    }
                }
                lemma_join(lm, rm.take(n + 1));
                assert(lm1[0] == lm[0]);
                assert(lm1.last() == shift(rm[n], lm.last()));
                assert(rm1.last() == rebase(rm.last(), rm[n]));
                assert(rm1[0] == rebase(rm[n], rm[n]));
                assert(lm.last().offset <= rm[n].offset) by {
                    if n > 0 {
                        assert(precedes(rm[0], rm[n]));
                    }
                }
            } else {
                let n = lm.len() - 1 - batch_of(lm.len() as int, batch as int);
                lemma_move_right(lm, rm, n);
                let moved = rebased(lm.skip(n), lm[n]);
                assert(lm1[0] == lm[0]);
                assert(lm1.last() == lm[n]);
                assert(rm1[0] == moved[0]) by {
                    lemma_rebased(lm, n);
                    if moved.len() == 1 {
                        assert(rm1[0] == shift(rm[0], moved.last()));
                    }
                }
                assert(rm1.last() == shift(rm.last(), moved.last()));
            }
            self.lemma_still_ordered(segs, i as int);
        }
        done
    }

    /// Moving the border between two segments keeps all segments in order.
    proof fn lemma_still_ordered(self, segs: Seq<MappedSegment>, i: int)
        requires
            0 <= i,
            i + 1 < segs.len(),
            self.segments@.len() == segs.len(),
            forall|k: int|
                0 <= k < segs.len() && k != i && k != i + 1 ==> #[trigger] self.segments@[k]
                    == segs[k],
            forall|a: int, b: int|
                0 <= a < b < segs.len() ==> (#[trigger] segs[a]).end <= (#[trigger] segs[b]).start,
            self.segments@[i].start == segs[i].start,
            self.segments@[i + 1].end == segs[i + 1].end,
            self.segments@[i].end <= self.segments@[i + 1].start,
            segs[i].start <= segs[i].end,
            segs[i + 1].start <= segs[i + 1].end,
            self.segments@[i].start <= self.segments@[i].end,
            self.segments@[i + 1].start <= self.segments@[i + 1].end,
        ensures
            forall|a: int, b: int|
                0 <= a < b < self.segments@.len() ==> (#[trigger] self.segments@[a]).end <= (
                #[trigger] self.segments@[b]).start,
    {
        let out = self.segments@;
        assert forall|a: int, b: int| 0 <= a < b < out.len() implies (#[trigger] out[a]).end <= (
        #[trigger] out[b]).start by {
            assert(segs[a].end <= segs[b].start);
            if a < i {
                assert(segs[a].end <= segs[i].start);
            }
            if b > i + 1 {
                assert(segs[i + 1].end <= segs[b].start);
            }
        }
    }

    /// How many segments start at or before `start`, and how many end before `end`.
    pub(crate) fn place_for(&self, start: i64, end: i64) -> (r: (usize, usize))
        requires
            self.wf(),
        ensures
            r.0 == starts_upto(self@, start as int),
            r.1 == ends_before(self@, end as int),
    {
        let ghost map = self@;
        proof {
            self.lemma_settled();
            lemma_starts_upto(map, start as int);
            lemma_ends_before(map, end as int);
        }
        let found: usize = self.find_before(start);
        let j: usize = self.find_after(end);
        let i: usize = if found == self.segments.len() {
            0
        } else {
            found + 1
        };
        proof {
            let n = starts_upto(map, start as int) as int;
            if n < i {
                assert(map[n].start() > start);
                if n < found {
                    assert(map[n].end() <= map[found as int].start());
                }
            } else if n > i {
                assert(map[i as int].start() <= start);
            }
            let n = ends_before(map, end as int) as int;
            if n < j {
                assert(map[n].end() >= end);
            } else if n > j {
                assert(map[j as int].end() < end);
            }
        }
        (i, j)
    }

    /// Puts a segment in the place of those from `i` up to `j`.
    fn splice(&mut self, i: usize, j: usize, seg: MappedSegment)
        requires
            i <= j <= old(self).segments@.len(),
        ensures
            final(self).file_size == old(self).file_size,
            final(self).segments@ == old(self).segments@.take(i as int) + seq![seg] + old(
                self,
            ).segments@.skip(j as int),
    {
        let ghost segs = self.segments@;
        let mut left: usize = j - i;
        proof {
            assert(segs =~= segs.take(i as int) + segs.skip(j - left));
        }
        while left > 0
            invariant
                self.file_size == old(self).file_size,
                i + left <= j,
                j <= segs.len(),
                self.segments@ == segs.take(i as int) + segs.skip(j - left),
            decreases left,
        {
            proof {
                assert(segs.take(i as int) + segs.skip(j - left + 1) =~= (segs.take(i as int)
                    + segs.skip(j - left)).remove(i as int));
            }
            let _ = self.segments.remove(i);
            left = left - 1;
        }
        self.segments.insert(i, seg);
        proof {
            assert(self.segments@ =~= segs.take(i as int) + seq![seg] + segs.skip(j as int));
        }
    }

    /// Put a segment in its place, without merging it with adjacent segments.
    /// Returns its index, and whether it is to be merged with the segments to the
    /// left and to the right of it.
    pub fn place_segment(&mut self, seg: MappedSegment) -> (r: (usize, bool, bool))
        requires
            old(self).wf(),
            seg.wf(),
            compatible(old(self)@, seg@),
        ensures
            final(self).loose(),
            final(self).file_size == old(self).file_size,
            final(self)@ == placed(old(self)@, seg@),
            r.0 == starts_upto(old(self)@, seg@.start()),
            r.1 == adjacent(final(self)@, r.0 - 1),
            r.2 == adjacent(final(self)@, r.0 as int),
    {
        let ghost map = self@;
        let ghost new = seg@;
        proof {
            self.lemma_settled();
            lemma_starts_upto(map, new.start());
            lemma_ends_before(map, new.end());
        }
        let (i, j): (usize, usize) = self.place_for(seg.start, seg.end);
        proof {
            assert(i <= j) by {
                if i > j {
                    assert(map[j as int].end() <= new.start());
                }
            }
        }
        let merge_left: bool = i > 0 && self.segments[i - 1].end == seg.start;
        let merge_right: bool = j < self.segments.len() && self.segments[j].start == seg.end;
        let ghost segs = self.segments@;
        // Replace the segments that are covered
        self.splice(i, j, seg);
        proof {
            let out = self.segments@;
            assert(self@ =~= placed(map, new));
            assert(forall|k: int| 0 <= k < i ==> #[trigger] out[k] == segs[k]);
            assert(forall|k: int| i < k < out.len() ==> #[trigger] out[k] == segs[k - i - 1 + j]);
            lemma_placed(map, new, i as int, j as int);
            assert forall|a: int, b: int| 0 <= a < b < out.len() implies (#[trigger] out[a]).end <= (
            #[trigger] out[b]).start by {
                assert(self@[a].end() <= self@[b].start());
                assert(out[a].readable() && out[b].readable());
            }
            if i > 0 {
                assert(map[i - 1] == segs[i - 1]@);
                assert(self@[i - 1] == segs[i - 1]@);
            }
            if j < segs.len() {
                assert(map[j as int] == segs[j as int]@);
                assert(self@[i + 1] == segs[j as int]@);
            }
            assert(self@[i as int] == new);
        }
        (i, merge_left, merge_right)
    }

    /// The segments of a map are in order and apart.
    pub proof fn lemma_settled(self)
        requires
            self.wf(),
        ensures
            settled_map(self@),
            self.readable(),
    {
        let map = self@;
        assert forall|i: int| 0 <= i < map.len() implies (#[trigger] map[i]).marks.len() > 1 && 0
            <= map[i].start() < map[i].end() by {
            assert(map[i] == self.segments@[i]@);
            assert(self.segments@[i].wf());
            assert(sound(self.segments@[i].marks()[0]));
        }
        assert forall|i: int, j: int| 0 <= i < j < map.len() implies (#[trigger] map[i]).end() < (
        #[trigger] map[j]).start() by {
            assert(self.segments@[i].wf() && self.segments@[j].wf());
        }
    }

    /// Segments that are apart and sound make a map.
    pub proof fn lemma_loose_settled(self)
        requires
            self.loose(),
            settled_map(self@),
        ensures
            self.wf(),
    {
        assert forall|i: int, j: int| 0 <= i < j < self.segments@.len() implies (
        #[trigger] self.segments@[i]).end < (#[trigger] self.segments@[j]).start by {
            assert(self@[i].end() < self@[j].start());
            assert(self.segments@[i].wf() && self.segments@[j].wf());
        }
    }

    /// Remove the segment that a merge has emptied. It is handed out because
    /// dropping a large buffer takes time.
    pub fn finish_merge(&mut self, i: usize, into_left: bool) -> (empty: MappedSegment)
        requires
            old(self).migrating(i as int, into_left),
            into_left ==> old(self)@[i + 1].marks.len() == 1,
            !into_left ==> old(self)@[i as int].marks.len() == 1,
        ensures
            final(self).loose(),
            final(self).file_size == old(self).file_size,
            final(self)@ == with_pair(
                old(self)@,
                i as int,
                old(self).outcome(i as int, into_left),
            ),
            empty@.marks.len() == 1,
            empty == old(self).segments@[if into_left {
                i + 1
            } else {
                i as int
            }],
    {
        let ghost map = self@;
        let ghost segs = self.segments@;
        let ghost goal = self.outcome(i as int, into_left);
        let ghost lm = segs[i as int].marks();
        let ghost rm = segs[i + 1].marks();
        assert(i + 1 < self.segments.len());
        proof {
            assert(segs[i as int].readable() && segs[i + 1].readable());
            if into_left {
                assert(shift(rm[0], lm.last()) == lm.last());
                assert(goal.marks =~= lm);
            } else {
                assert forall|k: int| 0 <= k < rm.len() implies shift(#[trigger] rm[k], lm[0])
                    == rm[k] by {
                    if lm[0].abs && k > 0 {
                        assert(precedes(rm[0], rm[k]));
                    }
                }
                assert(goal.marks =~= rm);
            }
        }
        let at: usize = if into_left {
            i + 1
        } else {
            i
        };
        let empty: MappedSegment = self.segments.remove(at);
        proof {
            let kept = if into_left {
                segs[i as int]
            } else {
                segs[i + 1]
            };
            assert(self.segments@ =~= segs.remove(at as int));
            assert(self.segments@[i as int] == kept);
            assert(kept.start == segs[i as int].start);
            assert(kept.end == segs[i + 1].end);
            assert(kept.wf());
            assert forall|k: int| 0 <= k < self.segments@.len() implies (
            #[trigger] self.segments@[k]).wf() by {
                if k > i {
                    assert(self.segments@[k] == segs[k + 1]);
                } else if k < i {
                    assert(self.segments@[k] == segs[k]);
                }
            }
            assert forall|a: int, b: int| 0 <= a < b < self.segments@.len() implies (
            #[trigger] self.segments@[a]).end <= (#[trigger] self.segments@[b]).start by {
                let a1 = if a < i {
                    a
                } else {
                    a + 1
                };
                let b1 = if b <= i {
                    b
                } else {
                    b + 1
                };
                assert(segs[a1].end <= segs[b1].start);
            }
            assert(self@ =~= with_pair(map, i as int, goal));
        }
        empty
    }
}

/// Two adjacent regular lists fit together.
pub proof fn lemma_regular_pair(l: Seq<Mark>, r: Seq<Mark>)
    requires
        lawful(l),
        lawful(r),
        regular(l),
        regular(r),
        l.len() > 1,
        l.last().offset == r[0].offset,
    ensures
        even(l),
        even(r),
        !r[0].abs,
        seam(l.last(), r),
        pinnable(r, l.last().x),
{
    let last = l.len() - 1;
    assert(precedes(l[0], l[last]));
    assert(sound(l[0]));
    assert(r[0].offset > 0);
    assert(r[0].abs == (r[0].y > 0));
    assert(even(r));
    if l[0].offset > 0 {
        assert(even(l));
    }
}

} // verus!
