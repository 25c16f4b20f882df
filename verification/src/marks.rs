//! Reference points of a text: byte offsets with the positions they have, and how
//! lists of them are put together.

use vstd::prelude::*;

verus! {

/// The largest offset that can be mapped. It leaves room for the line numbers to
/// be stored with an arbitrary base.
pub const LIMIT: i64 = 0x7FFF_FFFF_FFFE_FFFF;

/// A byte offset together with its position.
///
/// The line counts from the first mark of the list that the mark stands in. An
/// absolute column counts from the start of its line, and a relative one from the
/// first mark.
pub struct Mark {
    pub offset: int,
    pub y: int,
    pub x: int,
    pub abs: bool,
}

/// How wide some bytes of text can be at most.
pub open spec fn width(bytes: int) -> int {
    bytes * 0xFFFF_FFFF
}

/// What holds of every mark on its own.
pub open spec fn sound(m: Mark) -> bool {
    &&& 0 <= m.offset <= LIMIT
    &&& 0 <= m.y
    &&& 0 <= m.x
    &&& m.abs ==> m.x <= width(m.offset)
    &&& !m.abs ==> m.y == 0
}

/// Whether `b` can come after `a`: later in the text, at a position that is not
/// before, and not farther than the bytes between them can reach.
pub open spec fn precedes(a: Mark, b: Mark) -> bool {
    &&& a.offset < b.offset
    &&& a.y <= b.y <= a.y + (b.offset - a.offset)
    &&& a.abs ==> b.abs
    &&& a.y == b.y ==> a.x <= b.x
    &&& !b.abs ==> b.x <= a.x + width(b.offset - a.offset)
}

/// Whether a list of marks goes through a text in order, from a mark that has line
/// zero, and column zero unless it is absolute.
pub open spec fn lawful(marks: Seq<Mark>) -> bool {
    &&& marks.len() >= 1
    &&& forall|i: int| 0 <= i < marks.len() ==> sound(#[trigger] marks[i])
    &&& forall|i: int, j: int|
        0 <= i < j < marks.len() ==> precedes(#[trigger] marks[i], #[trigger] marks[j])
    &&& marks[0].y == 0
    &&& !marks[0].abs ==> marks[0].x == 0
}

/// Whether the columns of a list become absolute exactly at its first line end, or
/// are all absolute where the list starts with the text.
pub open spec fn regular(marks: Seq<Mark>) -> bool {
    &&& marks[0].offset == 0 ==> marks[0].abs
    &&& marks[0].offset > 0 ==> forall|i: int|
        0 <= i < marks.len() ==> (#[trigger] marks[i]).abs == (marks[i].y > 0)
}

/// The mark as it is seen from the start of a list that reaches `e` where the list
/// of the mark starts.
pub open spec fn shift(m: Mark, e: Mark) -> Mark {
    Mark {
        offset: m.offset,
        y: m.y + e.y,
        x: if m.abs {
            m.x
        } else {
            m.x + e.x
        },
        abs: m.abs || e.abs,
    }
}

/// The mark as it is seen from `s`, which stands before it in the same list.
pub open spec fn rebase(m: Mark, s: Mark) -> Mark {
    Mark {
        offset: m.offset,
        y: m.y - s.y,
        x: if m.abs {
            m.x
        } else {
            m.x - s.x
        },
        abs: m.abs,
    }
}

/// The marks as they are seen from the start of a list that reaches `e` where theirs
/// starts.
pub open spec fn shifted(marks: Seq<Mark>, e: Mark) -> Seq<Mark> {
    Seq::new(marks.len(), |i: int| shift(marks[i], e))
}

/// The marks as they are seen from `s`, which stands before them in the same list.
pub open spec fn rebased(marks: Seq<Mark>, s: Mark) -> Seq<Mark> {
    Seq::new(marks.len(), |i: int| rebase(marks[i], s))
}

/// The marks of two adjacent lists in one. The last mark of the first list and the
/// first mark of the second one stand for the same offset, and become one mark.
pub open spec fn join_marks(l: Seq<Mark>, r: Seq<Mark>) -> Seq<Mark> {
    l.drop_last() + shifted(r, l.last())
}

/// Whether a list can go on from the mark `e`.
pub open spec fn seam(e: Mark, r: Seq<Mark>) -> bool {
    &&& r[0].offset == e.offset
    &&& r[0].abs ==> e.abs && r[0].x == e.x
}

/// Whether the columns of the first line are all relative or all absolute.
pub open spec fn even(marks: Seq<Mark>) -> bool {
    forall|j: int|
        0 <= j < marks.len() && (#[trigger] marks[j]).abs && marks[j].y == 0 ==> marks[0].abs
}

/// The list with the relative marks from `lo` on made absolute, where the line that
/// they stand on has the width `end_x` before the first mark.
pub open spec fn pinned(r: Seq<Mark>, lo: int, end_x: int) -> Seq<Mark> {
    Seq::new(
        r.len(),
        |i: int|
            if i >= lo && !r[i].abs {
                Mark { x: r[i].x + end_x, abs: true, ..r[i] }
            } else {
                r[i]
            },
    )
}

/// Whether the absolute marks on the first line of a list, if any, already count
/// the width `end_x` that the line has before the first mark.
pub open spec fn pinnable(r: Seq<Mark>, end_x: int) -> bool {
    forall|i: int, j: int|
        0 <= i < j < r.len() && !(#[trigger] r[i]).abs && (#[trigger] r[j]).abs && r[j].y == 0
            ==> r[j].x >= r[i].x + end_x
}

/// A list joins to a list, with the mark in the middle in its place.
pub proof fn lemma_join(l: Seq<Mark>, r: Seq<Mark>)
    requires
        lawful(l),
        lawful(r),
        even(r),
        seam(l.last(), r),
    ensures
        lawful(join_marks(l, r)),
        even(l) ==> even(join_marks(l, r)),
        join_marks(l, r).len() == l.len() + r.len() - 1,
        join_marks(l, r)[l.len() - 1] == l.last(),
        join_marks(l, r)[0] == l[0],
        join_marks(l, r).last().offset == r.last().offset,
        regular(l) && regular(r) && l.len() > 1 ==> regular(join_marks(l, r)),
{
    let out = join_marks(l, r);
    let e = l.last();
    let n = l.len() - 1;
    assert(out[n] == shift(r[0], e));
    assert(shift(r[0], e) == e);
    assert forall|i: int| 0 <= i < out.len() implies sound(#[trigger] out[i]) by {
        if i < n {
            assert(out[i] == l[i]);
        } else {
            let k = i - n;
            assert(out[i] == shift(r[k], e));
            assert(sound(r[k]) && sound(e));
            if k > 0 {
                assert(precedes(r[0], r[k]));
            }
        }
    }
    assert forall|i: int, j: int| 0 <= i < j < out.len() implies precedes(
        #[trigger] out[i],
        #[trigger] out[j],
    ) by {
        if j < n {
            assert(precedes(l[i], l[j]));
        } else if i >= n {
            let a = i - n;
            let b = j - n;
            assert(out[i] == shift(r[a], e) && out[j] == shift(r[b], e));
            assert(precedes(r[a], r[b]));
            assert(sound(e) && sound(r[a]) && sound(r[b]));
            if a > 0 {
                assert(precedes(r[0], r[a]));
            }
            if r[b].abs && r[b].y == 0 {
                assert(r[0].abs);
            }
        } else {
            let b = j - n;
            assert(out[i] == l[i] && out[j] == shift(r[b], e));
            assert(precedes(l[i], e));
            assert(sound(e) && sound(l[i]) && sound(r[b]));
            if b > 0 {
                assert(precedes(r[0], r[b]));
            }
            if r[b].abs && r[b].y == 0 {
                assert(r[0].abs);
            }
        }
    }
    if n > 0 {
        assert(out[0] == l[0]);
    }
    if even(l) {
        assert forall|j: int| 0 <= j < out.len() && (#[trigger] out[j]).abs && out[j].y
            == 0 implies out[0].abs by {
            if j < n {
                assert(out[j] == l[j]);
            } else {
                let k = j - n;
                assert(out[j] == shift(r[k], e));
                assert(sound(r[k]) && sound(e));
                assert(r[k].abs ==> r[0].abs);
                assert(l[n] == e);
            }
        }
    }
    assert(out.last() == shift(r.last(), e));
    if regular(l) && regular(r) && l.len() > 1 {
        assert(precedes(l[0], e));
        assert(e.offset > 0);
        if l[0].offset > 0 {
            assert forall|i: int| 0 <= i < out.len() implies (#[trigger] out[i]).abs == (out[i].y
                > 0) by {
                if i < n {
                    assert(out[i] == l[i]);
                } else {
                    assert(out[i] == shift(r[i - n], e));
                    assert(e.abs == (e.y > 0));
                }
            }
        }
    }
}

/// A part of a lawful list from its start is lawful.
pub proof fn lemma_take(marks: Seq<Mark>, n: int)
    requires
        lawful(marks),
        1 <= n <= marks.len(),
    ensures
        lawful(marks.take(n)),
{
    let out = marks.take(n);
    assert forall|i: int, j: int| 0 <= i < j < out.len() implies precedes(
        #[trigger] out[i],
        #[trigger] out[j],
    ) by {
        assert(precedes(marks[i], marks[j]));
    }
}

/// A part of a lawful list to its end is lawful, as it is seen from its own start.
pub proof fn lemma_rebased(marks: Seq<Mark>, n: int)
    requires
        lawful(marks),
        0 <= n < marks.len(),
    ensures
        lawful(rebased(marks.skip(n), marks[n])),
        even(marks) ==> even(rebased(marks.skip(n), marks[n])),
{
    let s = marks[n];
    let out = rebased(marks.skip(n), s);
    assert forall|i: int| 0 <= i < out.len() implies sound(#[trigger] out[i]) by {
        assert(out[i] == rebase(marks[i + n], s));
        assert(sound(marks[i + n]) && sound(s));
        if i > 0 {
            assert(precedes(s, marks[i + n]));
        }
    }
    assert forall|i: int, j: int| 0 <= i < j < out.len() implies precedes(
        #[trigger] out[i],
        #[trigger] out[j],
    ) by {
        assert(out[i] == rebase(marks[i + n], s) && out[j] == rebase(marks[j + n], s));
        assert(precedes(marks[i + n], marks[j + n]));
        assert(sound(s) && sound(marks[i + n]) && sound(marks[j + n]));
        if i > 0 {
            assert(precedes(s, marks[i + n]));
        }
    }
    assert(out[0] == rebase(s, s));
    if even(marks) {
        assert forall|j: int| 0 <= j < out.len() && (#[trigger] out[j]).abs && out[j].y
            == 0 implies out[0].abs by {
            assert(out[j] == rebase(marks[j + n], s));
            assert(sound(s));
            if !s.abs {
                assert(marks[j + n].abs && marks[j + n].y == 0);
                assert(marks[0].abs);
                if n > 0 {
                    assert(precedes(marks[0], s));
                }
            }
        }
    }
}

/// Moving the first marks of the second list to the end of the first one does not
/// change what the two give together.
pub proof fn lemma_move_left(l: Seq<Mark>, r: Seq<Mark>, n: int)
    requires
        lawful(l),
        lawful(r),
        even(r),
        seam(l.last(), r),
        0 <= n < r.len(),
    ensures
        even(rebased(r.skip(n), r[n])),
        lawful(join_marks(l, r.take(n + 1))),
        lawful(rebased(r.skip(n), r[n])),
        seam(join_marks(l, r.take(n + 1)).last(), rebased(r.skip(n), r[n])),
        join_marks(join_marks(l, r.take(n + 1)), rebased(r.skip(n), r[n])) == join_marks(l, r),
{
    let e = l.last();
    let a = r.take(n + 1);
    let b = rebased(r.skip(n), r[n]);
    let l1 = join_marks(l, a);
    lemma_take(r, n + 1);
    lemma_rebased(r, n);
    assert(even(a)) by {
        assert forall|j: int| 0 <= j < a.len() && (#[trigger] a[j]).abs && a[j].y == 0 implies a[0].abs by {
            assert(a[j] == r[j]);
        }
    }
    lemma_join(l, a);
    assert(l1.last() == shift(r[n], e));
    assert(b[0] == rebase(r[n], r[n]));
    let out = join_marks(l, r);
    let out1 = join_marks(l1, b);
    assert(out1.len() == out.len());
    assert forall|i: int| 0 <= i < out.len() implies out1[i] == out[i] by {
        let m = l1.len() - 1;
        if i < m {
            assert(out1[i] == l1[i]);
            assert(l1[i] == out[i]);
        } else {
            let k = i - m;
            assert(out1[i] == shift(rebase(r[k + n], r[n]), shift(r[n], e)));
            assert(out[i] == shift(r[k + n], e));
            if k > 0 {
                assert(precedes(r[n], r[k + n]));
            }
        }
    }
    assert(out1 =~= out);
}

/// Moving the last marks of the first list to the start of the second one does not
/// change what the two give together.
pub proof fn lemma_move_right(l: Seq<Mark>, r: Seq<Mark>, n: int)
    requires
        lawful(l),
        lawful(r),
        even(l),
        even(r),
        seam(l.last(), r),
        l.last().abs ==> r[0].abs,
        0 <= n < l.len(),
    ensures
        even(l.take(n + 1)),
        even(join_marks(rebased(l.skip(n), l[n]), r)),
        lawful(l.take(n + 1)),
        lawful(join_marks(rebased(l.skip(n), l[n]), r)),
        seam(l.take(n + 1).last(), join_marks(rebased(l.skip(n), l[n]), r)),
        l[n].abs ==> join_marks(rebased(l.skip(n), l[n]), r)[0].abs,
        join_marks(l.take(n + 1), join_marks(rebased(l.skip(n), l[n]), r)) == join_marks(l, r),
{
    let s = l[n];
    let e = l.last();
    let b = rebased(l.skip(n), s);
    let e1 = b.last();
    let l1 = l.take(n + 1);
    let r1 = join_marks(b, r);
    lemma_take(l, n + 1);
    lemma_rebased(l, n);
    assert(e1 == rebase(e, s));
    assert(seam(e1, r));
    lemma_join(b, r);
    assert(b[0] == rebase(s, s));
    assert(r1[0] == b[0]);
    assert(l1.last() == s);
    assert(even(l1)) by {
        assert forall|j: int| 0 <= j < l1.len() && (#[trigger] l1[j]).abs && l1[j].y
            == 0 implies l1[0].abs by {
            assert(l1[j] == l[j]);
        }
    }
    let last = l.len() - 1;
    if n < last {
        assert(precedes(s, e));
    }
    let out = join_marks(l, r);
    let out1 = join_marks(l1, r1);
    assert(out1.len() == out.len());
    assert forall|i: int| 0 <= i < out.len() implies out1[i] == out[i] by {
        if i < n {
            assert(out1[i] == l[i]);
        } else {
            let j = i - n;
            assert(out1[i] == shift(r1[j], s));
            if j < b.len() - 1 {
                assert(r1[j] == rebase(l[i], s));
                assert(out[i] == l[i]);
                if j > 0 {
                    assert(precedes(s, l[i]));
                }
            } else {
                let k = j - (b.len() - 1);
                assert(r1[j] == shift(r[k], e1));
                assert(out[i] == shift(r[k], e));
                if e.abs && k > 0 {
                    assert(precedes(r[0], r[k]));
                }
            }
        }
    }
    assert(out1 =~= out);
}

/// Making the relative marks of a list absolute keeps it lawful, and does not
/// change what it adds to a list that ends at `e`.
pub proof fn lemma_pinned(r: Seq<Mark>, lo: int, e: Mark)
    requires
        lawful(r),
        sound(e),
        e.abs,
        r[0].offset == e.offset,
        pinnable(r, e.x),
        r[0].abs ==> r[0].x == e.x,
        0 <= lo <= r.len(),
    ensures
        pinnable(pinned(r, lo, e.x), e.x),
        lawful(pinned(r, lo, e.x)),
        shifted(pinned(r, lo, e.x), e) == shifted(r, e),
        lo == 0 ==> even(pinned(r, 0, e.x)) && seam(e, pinned(r, 0, e.x)) && pinned(
            r,
            0,
            e.x,
        )[0].abs,
{
    let out = pinned(r, lo, e.x);
    assert forall|i: int| 0 <= i < out.len() implies sound(#[trigger] out[i]) by {
        assert(sound(r[i]));
        if i > 0 {
            assert(precedes(r[0], r[i]));
        }
    }
    assert forall|i: int, j: int| 0 <= i < j < out.len() implies precedes(
        #[trigger] out[i],
        #[trigger] out[j],
    ) by {
        assert(precedes(r[i], r[j]));
        assert(sound(r[i]) && sound(r[j]));
    }
    assert forall|i: int, j: int|
        0 <= i < j < out.len() && !(#[trigger] out[i]).abs && (#[trigger] out[j]).abs && out[j].y
            == 0 implies out[j].x >= out[i].x + e.x by {
        assert(precedes(r[i], r[j]));
        assert(r[i] == out[i]);
    }
    assert(shifted(out, e) =~= shifted(r, e));
}

} // verus!
