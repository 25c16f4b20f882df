//! The line map tells the truth: the positions that it knows are the positions that
//! the text of the file has, whatever pieces of the file were processed in whatever
//! order.

use crate::filling::{
    compatible, covered, ends_before, filled_gaps, first_gap, gap_end, in_order, inserted,
    lemma_ends_before, lemma_gap, lemma_inserted, lemma_merged, lemma_next_gap, lemma_placed,
    lemma_starts_upto, placed, processed, settled_map, spans_byte, starts_upto,
};
use crate::layout::{
    lemma_walk_cut, lemma_walk_sane, lemma_walk_then, lemma_walk_window, shown, walk, Advances,
    Walk,
};
use crate::linemap::{LineMap, Mapped};
use crate::linemapper::{
    close_marks, created, left_trim, lemma_anchors_close, lemma_created, lemma_created_edges,
    lemma_surveyed, mark_at, marks_from, right_trim, surveyed, trimmed, trimmed_start,
};
use crate::marks::{join_marks, lawful, seam, shift, Mark, LIMIT};
use crate::merging::{adjacent, joined, merged};
use crate::utf8::{
    char_at, is_boundary, is_cont, is_sequence, lemma_ends_are_boundaries, lemma_lead_is_boundary,
    lemma_step_in_bounds, lemma_step_to_boundary, lemma_window, step_len,
};
use vstd::prelude::*;

verus! {

/// The position of an offset in the whole text.
pub open spec fn position_in(file: Seq<u8>, a: Advances, offset: int) -> Walk {
    walk(file, 0, offset, a, Walk::start(true))
}

/// The position of an offset, as it is seen from `start`.
pub open spec fn position_from(file: Seq<u8>, a: Advances, start: int, offset: int) -> Walk {
    walk(file, start, offset, a, Walk::start(start == 0))
}

/// Whether what a segment knows is so in the file.
pub open spec fn describes(seg: Mapped, file: Seq<u8>, a: Advances) -> bool {
    &&& seg.marks.len() >= 1
    &&& 0 <= seg.start() <= seg.end() <= file.len()
    &&& forall|k: int|
        0 <= k < seg.marks.len() ==> {
            &&& seg.start() <= (#[trigger] seg.marks[k]).offset <= seg.end()
            &&& is_boundary(file, seg.marks[k].offset)
            &&& seg.marks[k] == mark_at(
                seg.marks[k].offset,
                position_from(file, a, seg.start(), seg.marks[k].offset),
            )
        }
    &&& seg.widest == position_from(file, a, seg.start(), seg.end()).end_line().widest
    &&& seg.rel_width == position_from(file, a, seg.start(), seg.end()).end_line().rel_width
}

/// Whether what a map knows is so in the file.
pub open spec fn describes_all(map: Seq<Mapped>, file: Seq<u8>, a: Advances) -> bool {
    forall|k: int| 0 <= k < map.len() ==> describes(#[trigger] map[k], file, a)
}

/// Every mark that is placed in a piece of text stands between two characters, and
/// has the position that a walk over the text has there.
proof fn lemma_marks_truth(
    s: Seq<u8>,
    offset: int,
    p: int,
    acc: int,
    gap: int,
    a: Advances,
    w: Walk,
)
    requires
        is_boundary(s, p),
    ensures
        ({
            let out = marks_from(s, offset, p, acc, gap, a, w);
            forall|k: int|
                0 <= k < out.len() ==> {
                    let q = (#[trigger] out[k]).offset - offset;
                    &&& p <= q <= s.len()
                    &&& is_boundary(s, q)
                    &&& out[k] == mark_at(out[k].offset, walk(s, p, q, a, w))
                }
        }),
    decreases s.len() - p,
{
    let out = marks_from(s, offset, p, acc, gap, a, w);
    if p < s.len() {
        let n = step_len(s, p) as int;
        let v = w.step(shown(char_at(s, p)), a);
        let acc1 = if acc >= gap {
            acc + n - gap
        } else {
            acc + n
        };
        lemma_step_in_bounds(s, p);
        lemma_step_to_boundary(s, p);
        let rest = marks_from(s, offset, p + n, acc1, gap, a, v);
        lemma_marks_truth(s, offset, p + n, acc1, gap, a, v);
        assert forall|k: int| 0 <= k < out.len() implies {
            let q = (#[trigger] out[k]).offset - offset;
            &&& p <= q <= s.len()
            &&& is_boundary(s, q)
            &&& out[k] == mark_at(out[k].offset, walk(s, p, q, a, w))
        } by {
            if acc >= gap {
                if k > 0 {
                    assert(out[k] == rest[k - 1]);
                }
            } else {
                assert(out[k] == rest[k]);
            }
        }
    }
}

/// Mapping a part of the file between two characters tells the truth.
pub proof fn lemma_surveyed_truth(file: Seq<u8>, lo: int, hi: int, a: Advances, gap: int)
    requires
        0 <= lo <= hi,
        is_boundary(file, lo),
        is_boundary(file, hi),
        hi <= LIMIT,
    ensures
        describes(surveyed(lo, file.subrange(lo, hi), a, gap), file, a),
{
    let s = file.subrange(lo, hi);
    let seg = surveyed(lo, s, a, gap);
    let w = Walk::start(lo == 0);
    lemma_surveyed(lo, s, a, gap);
    lemma_ends_are_boundaries(s);
    lemma_marks_truth(s, lo, 0, gap, gap, a, w);
    assert forall|k: int| 0 <= k < seg.marks.len() implies {
        &&& lo <= (#[trigger] seg.marks[k]).offset <= hi
        &&& is_boundary(file, seg.marks[k].offset)
        &&& seg.marks[k] == mark_at(
            seg.marks[k].offset,
            position_from(file, a, lo, seg.marks[k].offset),
        )
    } by {
        let q = seg.marks[k].offset - lo;
        lemma_window(file, lo, hi, q);
        lemma_walk_window(file, lo, hi, 0, q, a, w);
    }
    lemma_walk_window(file, lo, hi, 0, hi - lo, a, w);
}

/// Cutting off continuation bytes leads to a place between two characters.
proof fn lemma_left_trim(file: Seq<u8>, lo: int, hi: int)
    requires
        0 <= lo <= hi <= file.len(),
        left_trim(file.subrange(lo, hi)) < hi - lo,
    ensures
        is_boundary(file, lo + left_trim(file.subrange(lo, hi))),
{
    let d = file.subrange(lo, hi);
    let t = left_trim(d);
    let m = lo + t;
    if t < 3 {
        assert(d[t] == file[m]);
        lemma_lead_is_boundary(file, m);
    } else {
        assert(is_cont(file[lo]) && is_cont(file[lo + 1]) && is_cont(file[lo + 2])) by {
            assert(d[0] == file[lo] && d[1] == file[lo + 1] && d[2] == file[lo + 2]);
        }
        assert forall|q: int, k: nat| #[trigger] is_sequence(file, q, k) && q < m implies q + k
            <= m by {
            if q + k > m {
                assert(q == lo || q == lo + 1 || q == lo + 2);
            }
        }
    }
}

/// Cutting off an unfinished character leads to a place between two characters.
proof fn lemma_right_trim(file: Seq<u8>, lo: int, hi: int)
    requires
        0 <= lo <= hi <= file.len(),
        is_boundary(file, lo),
    ensures
        is_boundary(file, lo + right_trim(file.subrange(lo, hi))),
{
    let d = file.subrange(lo, hi);
    let n = d.len() as int;
    let t = right_trim(d);
    let m = lo + t;
    if t < n {
        assert(d[t] == file[m]);
        lemma_lead_is_boundary(file, m);
    } else {
        assert forall|q: int, k: nat| #[trigger] is_sequence(file, q, k) && q < m implies q + k
            <= m by {
            if q + k > m {
                if q < lo {
                    assert(q + k <= lo);
                } else {
                    assert(d[q - lo] == file[q]);
                    assert(q == m - 1 || q == m - 2 || q == m - 3);
                }
            }
        }
    }
}

/// A created segment tells the truth, and its edges stand between two characters of
/// the file.
pub proof fn lemma_created_truth(
    file: Seq<u8>,
    lo: int,
    hi: int,
    rigid_left: bool,
    rigid_right: bool,
    a: Advances,
    gap: int,
)
    requires
        0 <= lo <= hi <= file.len(),
        hi <= LIMIT,
        rigid_left ==> is_boundary(file, lo),
        rigid_right ==> is_boundary(file, hi),
    ensures
        ({
            let seg = created(lo, file.subrange(lo, hi), rigid_left, rigid_right, a, gap);
            seg.start() < seg.end() ==> describes(seg, file, a)
        }),
{
    let d = file.subrange(lo, hi);
    let t = trimmed_start(d, rigid_left);
    let text = trimmed(d, rigid_left, rigid_right);
    let seg = created(lo, d, rigid_left, rigid_right, a, gap);
    lemma_created(lo, d, rigid_left, rigid_right, a, gap);
    assert(seg.start() == lo + t && seg.end() == lo + t + text.len()) by {
        lemma_surveyed(lo + t, text, a, gap);
    }
    if seg.start() < seg.end() {
        let l = lo + t;
        if !rigid_left {
            lemma_left_trim(file, lo, hi);
        }
        assert(is_boundary(file, l));
        let rest = file.subrange(l, hi);
        assert(d.skip(t) =~= rest);
        let h = l + text.len();
        if !rigid_right {
            lemma_right_trim(file, l, hi);
        }
        assert(is_boundary(file, h));
        assert(text =~= file.subrange(l, h));
        lemma_surveyed_truth(file, l, h, a, gap);
    }
}

/// Going on from where a walk ended.
pub proof fn lemma_go_on(file: Seq<u8>, a: Advances, start: int, mid: int, end: int)
    requires
        is_boundary(file, start),
        is_boundary(file, mid),
        is_boundary(file, end),
        0 <= start < mid <= end,
    ensures
        position_from(file, a, start, end) == position_from(file, a, start, mid).followed_by(
            position_from(file, a, mid, end),
        ),
        position_from(file, a, start, mid).sane(),
        position_from(file, a, mid, end).sane(),
{
    let w = Walk::start(start == 0);
    let l = walk(file, start, mid, a, w);
    let fresh = Walk::start(false);
    lemma_walk_cut(file, start, mid, end, a, w);
    lemma_walk_sane(file, start, mid, a, w);
    lemma_walk_sane(file, mid, end, a, fresh);
    assert(l.followed_by(fresh) == l);
    lemma_walk_then(file, mid, end, a, l, fresh);
}

/// Two adjacent segments that tell the truth still do when they are merged.
pub proof fn lemma_joined_truth(l: Mapped, r: Mapped, file: Seq<u8>, a: Advances)
    requires
        describes(l, file, a),
        describes(r, file, a),
        l.start() < l.end(),
        l.end() == r.start(),
    ensures
        describes(joined(l, r), file, a),
        joined(l, r).start() == l.start(),
        joined(l, r).end() == r.end(),
{
    let out = joined(l, r);
    let e = l.marks.last();
    let n = l.marks.len() - 1;
    assert(l.marks[n] == e);
    assert(l.marks[0].offset == l.start());
    assert(r.marks[0].offset == r.start());
    assert(n > 0);
    assert(out.marks[0] == l.marks[0]);
    let m = r.marks.len() - 1;
    assert(r.marks[m] == r.marks.last());
    assert(out.marks.last() == shift(r.marks[m], e));
    assert forall|k: int| 0 <= k < out.marks.len() implies {
        &&& out.start() <= (#[trigger] out.marks[k]).offset <= out.end()
        &&& is_boundary(file, out.marks[k].offset)
        &&& out.marks[k] == mark_at(
            out.marks[k].offset,
            position_from(file, a, out.start(), out.marks[k].offset),
        )
    } by {
        if k < n {
            assert(out.marks[k] == l.marks[k]);
        } else {
            let j = k - n;
            assert(out.marks[k] == shift(r.marks[j], e));
            lemma_go_on(file, a, l.start(), l.end(), r.marks[j].offset);
        }
    }
    lemma_go_on(file, a, l.start(), l.end(), r.end());
    let w = position_from(file, a, l.start(), l.end());
    assert(e == mark_at(l.end(), w));
}

/// Two segments of the same range that tell the truth know the same of it, but for the
/// places where they know the position.
pub proof fn lemma_describes_same(s: Mapped, t: Mapped, file: Seq<u8>, a: Advances)
    requires
        describes(s, file, a),
        describes(t, file, a),
        s.start() == t.start(),
        s.end() == t.end(),
    ensures
        s.widest == t.widest,
        s.rel_width == t.rel_width,
        s.marks[0] == t.marks[0],
        s.marks.last() == t.marks.last(),
        forall|j: int, k: int|
            0 <= j < s.marks.len() && 0 <= k < t.marks.len() && (#[trigger] s.marks[j]).offset == (
            #[trigger] t.marks[k]).offset ==> s.marks[j] == t.marks[k],
{
    assert(s.marks[s.marks.len() - 1] == s.marks.last());
    assert(t.marks[t.marks.len() - 1] == t.marks.last());
}

/// Merging the segments that were created for two adjacent parts of the file gives what is
/// created for both parts at once: the same range, the same widths and the same positions at
/// both ends. The other segments stay as they are.
pub proof fn lemma_merged_as_created(
    map: Seq<Mapped>,
    i: int,
    file: Seq<u8>,
    lo: int,
    mid: int,
    hi: int,
    a: Advances,
    gap: int,
)
    requires
        in_order(map),
        0 <= i,
        i + 1 < map.len(),
        0 <= lo < mid < hi <= file.len(),
        hi <= LIMIT,
        is_boundary(file, lo),
        is_boundary(file, mid),
        is_boundary(file, hi),
        map[i] == created(lo, file.subrange(lo, mid), true, true, a, gap),
        map[i + 1] == created(mid, file.subrange(mid, hi), true, true, a, gap),
    ensures
        ({
            let out = merged(map, i);
            let whole = created(lo, file.subrange(lo, hi), true, true, a, gap);
            &&& out.len() == map.len() - 1
            &&& out[i].start() == whole.start() == lo
            &&& out[i].end() == whole.end() == hi
            &&& out[i].widest == whole.widest
            &&& out[i].rel_width == whole.rel_width
            &&& out[i].marks[0] == whole.marks[0]
            &&& out[i].marks.last() == whole.marks.last()
            &&& describes(out[i], file, a)
            &&& forall|k: int| 0 <= k < i ==> #[trigger] out[k] == map[k]
            &&& forall|k: int| i < k < out.len() ==> #[trigger] out[k] == map[k + 1]
        }),
{
    lemma_created(lo, file.subrange(lo, mid), true, true, a, gap);
    lemma_created(mid, file.subrange(mid, hi), true, true, a, gap);
    lemma_created(lo, file.subrange(lo, hi), true, true, a, gap);
    lemma_created_truth(file, lo, mid, true, true, a, gap);
    lemma_created_truth(file, mid, hi, true, true, a, gap);
    lemma_created_truth(file, lo, hi, true, true, a, gap);
    lemma_joined_truth(map[i], map[i + 1], file, a);
    lemma_merged(map, i);
    lemma_describes_same(
        joined(map[i], map[i + 1]),
        created(lo, file.subrange(lo, hi), true, true, a, gap),
        file,
        a,
    );
}

/// Merging segments of a map that tells the truth keeps it so.
proof fn lemma_merged_truth(map: Seq<Mapped>, i: int, file: Seq<u8>, a: Advances)
    requires
        in_order(map),
        adjacent(map, i),
        describes_all(map, file, a),
    ensures
        describes_all(merged(map, i), file, a),
{
    let out = merged(map, i);
    lemma_merged(map, i);
    lemma_joined_truth(map[i], map[i + 1], file, a);
    assert forall|k: int| 0 <= k < out.len() implies describes(#[trigger] out[k], file, a) by {
        if k < i {
            assert(out[k] == map[k]);
        } else if k > i {
            assert(out[k] == map[k + 1]);
        }
    }
}

/// Adding a segment that tells the truth to a map that does gives one that does.
pub proof fn lemma_inserted_truth(map: Seq<Mapped>, seg: Mapped, file: Seq<u8>, a: Advances)
    requires
        settled_map(map),
        describes_all(map, file, a),
        seg.start() < seg.end() ==> compatible(map, seg) && seg.marks.len() > 1
            && describes(seg, file, a),
        seg.start() <= seg.end(),
    ensures
        describes_all(inserted(map, seg), file, a),
{
    if seg.start() < seg.end() {
        let i = starts_upto(map, seg.start()) as int;
        let j = ends_before(map, seg.end()) as int;
        let out = placed(map, seg);
        lemma_starts_upto(map, seg.start());
        lemma_ends_before(map, seg.end());
        assert(i <= j) by {
            if i > j {
                assert(map[j].end() <= seg.start());
            }
        }
        lemma_placed(map, seg, i, j);
        assert forall|k: int| 0 <= k < out.len() implies describes(#[trigger] out[k], file, a) by {
            if k < i {
                assert(out[k] == map[k]);
            } else if k > i {
                assert(out[k] == map[k - i - 1 + j]);
            } else {
                assert(out[k] == seg);
            }
        }
        let left = adjacent(out, i - 1);
        let mid = if left {
            merged(out, i - 1)
        } else {
            out
        };
        let m = if left {
            i - 1
        } else {
            i
        };
        if left {
            lemma_merged(out, i - 1);
            lemma_merged_truth(out, i - 1, file, a);
        }
        if adjacent(mid, m) {
            lemma_merged_truth(mid, m, file, a);
        }
    }
}

/// Whether a piece of the file starts and ends between characters, as far as it can
/// tell by itself: its first byte continues no character, and its last bytes
/// announce none that goes on.
pub open spec fn is_clean(d: Seq<u8>) -> bool {
    left_trim(d) == 0 && right_trim(d) == d.len()
}

/// Whether more gaps follow the one at `l`.
spec fn goes_on(map: Seq<Mapped>, size: int, l: int, end: int) -> bool {
    let n = starts_upto(map, l) as int;
    gap_end(map, size, l, end).0 < end && n < map.len() && l < map[n].end() < end
}

/// The segment that fills the gap at `l`.
spec fn filler(
    map: Seq<Mapped>,
    file: Seq<u8>,
    l: int,
    end: int,
    rigid_left: bool,
    a: Advances,
    gap: int,
) -> Mapped {
    let (r, rigid_right) = gap_end(map, file.len() as int, l, end);
    created(l, file.subrange(l, r), rigid_left, rigid_right, a, gap)
}

/// What one step of filling the gaps does.
#[verifier::spinoff_prover]
#[verifier::rlimit(50)]
proof fn lemma_fill_step(
    map: Seq<Mapped>,
    file: Seq<u8>,
    l: int,
    end: int,
    rigid_left: bool,
    a: Advances,
    gap: int,
)
    requires
        settled_map(map),
        describes_all(map, file, a),
        0 <= l <= end <= file.len(),
        end <= LIMIT,
        l == end || !covered(map, l),
        l < end && rigid_left ==> is_boundary(file, l),
    ensures
        ({
            let size = file.len() as int;
            let data = file.subrange(l, end);
            let n = starts_upto(map, l) as int;
            let (r, rigid_right) = gap_end(map, size, l, end);
            let seg = filler(map, file, l, end, rigid_left, a, gap);
            let map1 = inserted(map, seg);
            &&& l <= r <= end
            &&& r == end && end == size && l < end ==> rigid_right
            &&& r < end ==> rigid_right && n < map.len() && map[n].start() == r && map[n].end() > r
            &&& l <= seg.start() <= seg.end() <= r
            &&& settled_map(map1)
            &&& describes_all(map1, file, a)
            &&& forall|p: int| #[trigger]
                covered(map1, p) == (covered(map, p) || seg.start() <= p < seg.end())
            &&& goes_on(map, size, l, end) ==> {
                let next = map[n].end();
                &&& r < next
                &&& is_boundary(file, next)
                &&& !covered(map1, next)
                &&& filled_gaps(map, size, l, data, rigid_left, a, gap) == filled_gaps(
                    map1,
                    size,
                    next,
                    file.subrange(next, end),
                    true,
                    a,
                    gap,
                )
            }
            &&& !goes_on(map, size, l, end) ==> filled_gaps(
                map,
                size,
                l,
                data,
                rigid_left,
                a,
                gap,
            ) == map1
        }),
{
    let size = file.len() as int;
    let data = file.subrange(l, end);
    let n = starts_upto(map, l) as int;
    let (r, rigid_right) = gap_end(map, size, l, end);
    lemma_starts_upto(map, l);
    let piece = data.take(r - l);
    assert(piece =~= file.subrange(l, r));
    let seg = created(l, piece, rigid_left, rigid_right, a, gap);
    let map1 = inserted(map, seg);
    lemma_created(l, piece, rigid_left, rigid_right, a, gap);
    lemma_ends_are_boundaries(file);
    if n < map.len() {
        assert(describes(map[n], file, a));
        assert(map[n].marks[0].offset == map[n].start());
    }
    if l < end {
        lemma_created_truth(file, l, r, rigid_left, rigid_right, a, gap);
        if seg.start() < seg.end() {
            lemma_gap(map, size, l, end, seg);
        }
    }
    lemma_inserted_truth(map, seg, file, a);
    lemma_inserted(map, seg);
    if goes_on(map, size, l, end) {
        let next = map[n].end();
        lemma_next_gap(map, l, seg);
        let last = map[n].marks.len() - 1;
        assert(map[n].marks[last] == map[n].marks.last());
        assert(data.skip(next - l) =~= file.subrange(next, end));
    }
}

/// How many bytes may be left out at the start of a gap.
spec fn slack(rigid_left: bool) -> int {
    if rigid_left {
        0
    } else {
        3
    }
}

/// Filling the gaps of a map that tells the truth keeps it so.
proof fn lemma_filled_truth(
    map: Seq<Mapped>,
    file: Seq<u8>,
    l: int,
    end: int,
    rigid_left: bool,
    a: Advances,
    gap: int,
)
    requires
        settled_map(map),
        describes_all(map, file, a),
        0 <= l <= end <= file.len(),
        end <= LIMIT,
        l == end || !covered(map, l),
        l < end && rigid_left ==> is_boundary(file, l),
    ensures
        ({
            let out = filled_gaps(
                map,
                file.len() as int,
                l,
                file.subrange(l, end),
                rigid_left,
                a,
                gap,
            );
            &&& settled_map(out)
            &&& describes_all(out, file, a)
            &&& forall|p: int| #[trigger] covered(map, p) ==> covered(out, p)
            &&& forall|p: int| l + slack(rigid_left) <= p < end - 3 ==> #[trigger] covered(out, p)
            &&& end == file.len() ==> forall|p: int|
                l + slack(rigid_left) <= p < end ==> #[trigger] covered(out, p)
        }),
    decreases end - l,
{
    let size = file.len() as int;
    let n = starts_upto(map, l) as int;
    let (r, rigid_right) = gap_end(map, size, l, end);
    let seg = filler(map, file, l, end, rigid_left, a, gap);
    let map1 = inserted(map, seg);
    lemma_fill_step(map, file, l, end, rigid_left, a, gap);
    lemma_created(l, file.subrange(l, r), rigid_left, rigid_right, a, gap);
    let out = filled_gaps(map, size, l, file.subrange(l, end), rigid_left, a, gap);
    if goes_on(map, size, l, end) {
        let next = map[n].end();
        lemma_filled_truth(map1, file, next, end, true, a, gap);
    }
    assert forall|p: int| #[trigger] covered(map1, p) implies covered(out, p) by {}
    assert forall|p: int| #[trigger] covered(map, p) implies covered(out, p) by {
        assert(covered(map1, p));
    }
    assert forall|p: int|
        l + slack(rigid_left) <= p < end && (p < end - 3 || end == size) implies #[trigger] covered(
        out,
        p,
    ) by {
        if p < r {
            assert(covered(map1, p));
        } else if p < map[n].end() {
            assert(spans_byte(map, n, p));
            assert(covered(map, p));
        }
    }
}

/// Filling the gaps with a piece that starts and ends between characters maps all
/// of it.
proof fn lemma_filled_clean(
    map: Seq<Mapped>,
    file: Seq<u8>,
    l: int,
    end: int,
    rigid_left: bool,
    a: Advances,
    gap: int,
)
    requires
        settled_map(map),
        describes_all(map, file, a),
        0 <= l <= end <= file.len(),
        end <= LIMIT,
        l == end || !covered(map, l),
        l < end && rigid_left ==> is_boundary(file, l),
        rigid_left || left_trim(file.subrange(l, end)) == 0,
        right_trim(file.subrange(l, end)) == end - l,
    ensures
        forall|p: int|
            l <= p < end ==> #[trigger] covered(
                filled_gaps(
                    map,
                    file.len() as int,
                    l,
                    file.subrange(l, end),
                    rigid_left,
                    a,
                    gap,
                ),
                p,
            ),
    decreases end - l,
{
    let size = file.len() as int;
    let data = file.subrange(l, end);
    let n = starts_upto(map, l) as int;
    let (r, rigid_right) = gap_end(map, size, l, end);
    let piece = file.subrange(l, r);
    let seg = filler(map, file, l, end, rigid_left, a, gap);
    let map1 = inserted(map, seg);
    lemma_fill_step(map, file, l, end, rigid_left, a, gap);
    lemma_created(l, piece, rigid_left, rigid_right, a, gap);
    let out = filled_gaps(map, size, l, data, rigid_left, a, gap);
    if l < r {
        assert(piece[0] == data[0]);
        assert(trimmed_start(piece, rigid_left) == 0);
        assert(piece.skip(0) =~= piece);
        assert(r == end ==> piece =~= data);
        assert(seg.start() == l && seg.end() == r);
    }
    if goes_on(map, size, l, end) {
        let next = map[n].end();
        lemma_clean_part(file, l, next, end);
        lemma_filled_clean(map1, file, next, end, true, a, gap);
        lemma_filled_truth(map1, file, next, end, true, a, gap);
    }
    assert forall|p: int| #[trigger] covered(map1, p) implies covered(out, p) by {}
    assert forall|p: int| l <= p < end implies #[trigger] covered(out, p) by {
        if p < r {
            assert(covered(map1, p));
        } else if p < map[n].end() {
            assert(spans_byte(map, n, p));
            assert(covered(map, p));
            assert(covered(map1, p));
        }
    }
}

/// The end of a piece with no unfinished character has none either.
proof fn lemma_clean_part(file: Seq<u8>, l: int, m: int, end: int)
    requires
        0 <= l <= m <= end <= file.len(),
        right_trim(file.subrange(l, end)) == end - l,
    ensures
        right_trim(file.subrange(m, end)) == end - m,
{
    let d = file.subrange(l, end);
    let e = file.subrange(m, end);
    let n = d.len() as int;
    let k = e.len() as int;
    if k >= 1 {
        assert(e[k - 1] == d[n - 1]);
    }
    if k >= 2 {
        assert(e[k - 2] == d[n - 2]);
    }
    if k >= 3 {
        assert(e[k - 3] == d[n - 3]);
    }
}

/// Processing a piece that starts and ends between characters maps all of it.
pub proof fn lemma_processed_clean(
    map: Seq<Mapped>,
    file: Seq<u8>,
    offset: int,
    end: int,
    a: Advances,
    gap: int,
)
    requires
        settled_map(map),
        describes_all(map, file, a),
        0 <= offset <= end <= file.len(),
        end <= LIMIT,
        is_clean(file.subrange(offset, end)),
    ensures
        forall|p: int|
            offset <= p < end ==> #[trigger] covered(
                processed(map, file.len() as int, offset, file.subrange(offset, end), a, gap),
                p,
            ),
{
    let data = file.subrange(offset, end);
    let (l, rigid_left) = first_gap(map, offset, end);
    let k = ends_before(map, offset) as int;
    lemma_ends_before(map, offset);
    lemma_ends_are_boundaries(file);
    lemma_first_gap(map, file, offset, end, a);
    assert(data.skip(l - offset) =~= file.subrange(l, end));
    lemma_clean_part(file, offset, l, end);
    assert(rigid_left || l == offset);
    lemma_filled_clean(map, file, l, end, rigid_left, a, gap);
    lemma_filled_truth(map, file, l, end, rigid_left, a, gap);
    let out = processed(map, file.len() as int, offset, data, a, gap);
    assert forall|p: int| offset <= p < l implies #[trigger] covered(out, p) by {
        assert(spans_byte(map, k, p));
        assert(covered(map, p));
    }
}

/// The first gap starts where no segment is, and at a boundary if it is rigid.
proof fn lemma_first_gap(map: Seq<Mapped>, file: Seq<u8>, offset: int, end: int, a: Advances)
    requires
        settled_map(map),
        describes_all(map, file, a),
        0 <= offset <= end <= file.len(),
    ensures
        ({
            let (l, rigid_left) = first_gap(map, offset, end);
            &&& offset <= l <= end
            &&& l == end || !covered(map, l)
            &&& l < end && rigid_left ==> is_boundary(file, l)
        }),
{
    let (l, rigid_left) = first_gap(map, offset, end);
    let k = ends_before(map, offset) as int;
    lemma_ends_before(map, offset);
    lemma_ends_are_boundaries(file);
    if k < map.len() && map[k].start() <= offset {
        let last = map[k].marks.len() - 1;
        assert(map[k].marks[last] == map[k].marks.last());
        assert(describes(map[k], file, a));
        assert forall|j: int| l < end implies !spans_byte(map, j, l) by {
            if spans_byte(map, j, l) {
                if j < k {
                    assert(map[j].end() < map[k].start());
                } else if j > k {
                    assert(map[k].end() < map[j].start());
                }
            }
        }
    } else {
        assert forall|j: int| !spans_byte(map, j, offset) by {
            if spans_byte(map, j, offset) && j > k {
                assert(map[k].end() < map[j].start());
            }
        }
    }
}

/// Processing any piece of the file keeps the segments apart and the map true. What
/// was covered stays covered, and so is all of the piece but for three bytes at
/// either end, which may belong to characters that are not all there. At the start
/// and the end of the file, nothing is left out.
pub proof fn lemma_processed_truth(
    map: Seq<Mapped>,
    file: Seq<u8>,
    offset: int,
    end: int,
    a: Advances,
    gap: int,
)
    requires
        settled_map(map),
        describes_all(map, file, a),
        0 <= offset <= end <= file.len(),
        end <= LIMIT,
    ensures
        ({
            let out = processed(
                map,
                file.len() as int,
                offset,
                file.subrange(offset, end),
                a,
                gap,
            );
            &&& settled_map(out)
            &&& describes_all(out, file, a)
            &&& forall|p: int| #[trigger] covered(map, p) ==> covered(out, p)
            &&& forall|p: int| offset + 3 <= p < end - 3 ==> #[trigger] covered(out, p)
            &&& offset == 0 ==> forall|p: int| 0 <= p < end - 3 ==> #[trigger] covered(out, p)
            &&& end == file.len() ==> forall|p: int|
                offset + 3 <= p < end ==> #[trigger] covered(out, p)
            &&& offset == 0 && end == file.len() ==> forall|p: int|
                0 <= p < end ==> #[trigger] covered(out, p)
        }),
{
    let data = file.subrange(offset, end);
    let (l, rigid_left) = first_gap(map, offset, end);
    let k = ends_before(map, offset) as int;
    lemma_ends_before(map, offset);
    lemma_ends_are_boundaries(file);
    lemma_first_gap(map, file, offset, end, a);
    assert(data.skip(l - offset) =~= file.subrange(l, end));
    lemma_filled_truth(map, file, l, end, rigid_left, a, gap);
    let out = processed(map, file.len() as int, offset, data, a, gap);
    assert forall|p: int| offset <= p < l implies #[trigger] covered(out, p) by {
        assert(spans_byte(map, k, p));
        assert(covered(map, p));
    }
}

/// The columns of a true segment are those of the whole text, or differ from them by
/// the width of the text before the segment on its first line. The lines differ from
/// those of the whole text by the number of lines before the segment.
pub proof fn lemma_true_positions(seg: Mapped, file: Seq<u8>, a: Advances, k: int)
    requires
        describes(seg, file, a),
        0 <= k < seg.marks.len(),
    ensures
        ({
            let m = seg.marks[k];
            let here = position_in(file, a, m.offset);
            let from = position_in(file, a, seg.start());
            &&& here.y == m.y + from.y
            &&& m.abs ==> here.x == m.x
            &&& !m.abs ==> here.x == m.x + from.x
        }),
{
    let m = seg.marks[k];
    assert(seg.marks[0].offset == seg.start());
    lemma_ends_are_boundaries(file);
    if seg.start() > 0 {
        lemma_go_on(file, a, 0, seg.start(), m.offset);
    } else {
        lemma_walk_sane(file, 0, m.offset, a, Walk::start(true));
    }
}

/// Whether the positions of a list of marks are so in the file, as they are seen from
/// its first mark: lines and relative columns count from there, and absolute columns
/// from the line start.
pub open spec fn tells(marks: Seq<Mark>, file: Seq<u8>, a: Advances) -> bool {
    &&& marks.len() >= 1
    &&& forall|k: int|
        0 <= k < marks.len() ==> {
            let m = #[trigger] marks[k];
            let here = position_in(file, a, m.offset);
            let from = position_in(file, a, marks[0].offset);
            &&& is_boundary(file, m.offset)
            &&& here.y == m.y + from.y
            &&& m.abs ==> here.x == m.x
            &&& !m.abs ==> here.x == m.x + from.x
        }
}

/// Whether the positions that a map knows are so in the file.
pub open spec fn tells_all(map: Seq<Mapped>, file: Seq<u8>, a: Advances) -> bool {
    forall|k: int| 0 <= k < map.len() ==> tells((#[trigger] map[k]).marks, file, a)
}

/// A map that tells the truth about a file knows true positions.
pub proof fn lemma_tells(map: Seq<Mapped>, file: Seq<u8>, a: Advances)
    requires
        describes_all(map, file, a),
    ensures
        tells_all(map, file, a),
{
    assert forall|k: int| 0 <= k < map.len() implies tells((#[trigger] map[k]).marks, file, a) by {
        let seg = map[k];
        assert(describes(seg, file, a));
        assert forall|j: int| 0 <= j < seg.marks.len() implies ({
            let m = #[trigger] seg.marks[j];
            let here = position_in(file, a, m.offset);
            let from = position_in(file, a, seg.marks[0].offset);
            &&& is_boundary(file, m.offset)
            &&& here.y == m.y + from.y
            &&& m.abs ==> here.x == m.x
            &&& !m.abs ==> here.x == m.x + from.x
        }) by {
            lemma_true_positions(seg, file, a, j);
        }
    }
}

/// Where two lists of marks tell the truth together, each of them does so on its own.
proof fn lemma_parts_tell(l: Seq<Mark>, r: Seq<Mark>, file: Seq<u8>, a: Advances)
    requires
        lawful(l),
        lawful(r),
        seam(l.last(), r),
        tells(join_marks(l, r), file, a),
    ensures
        tells(l, file, a),
        tells(r, file, a),
{
    let both = join_marks(l, r);
    let n = l.len() - 1;
    let e = l.last();
    assert(both[n] == shift(r[0], e));
    assert(both[n] == e);
    if n > 0 {
        assert(both[0] == l[0]);
    }
    assert forall|k: int| 0 <= k < l.len() implies #[trigger] l[k] == both[k] by {}
    assert forall|k: int| 0 <= k < r.len() implies ({
        let m = #[trigger] r[k];
        let here = position_in(file, a, m.offset);
        let from = position_in(file, a, r[0].offset);
        &&& is_boundary(file, m.offset)
        &&& here.y == m.y + from.y
        &&& m.abs ==> here.x == m.x
        &&& !m.abs ==> here.x == m.x + from.x
    }) by {
        assert(both[n + k] == shift(r[k], e));
    }
}

/// While two segments are being merged, every position that can be looked up is true,
/// if those that they are going to have are.
pub proof fn lemma_merging_tells(map: LineMap, i: int, into_left: bool, file: Seq<u8>, a: Advances)
    requires
        map.migrating(i, into_left) || (!into_left && map.pinning(i)),
        tells(map.outcome(i, into_left).marks, file, a),
        forall|k: int|
            0 <= k < map@.len() && k != i && k != i + 1 ==> tells(
                (#[trigger] map@[k]).marks,
                file,
                a,
            ),
    ensures
        tells_all(map@, file, a),
{
    let l = map.segments@[i];
    let r = map.segments@[i + 1];
    assert(l.readable() && r.readable());
    lemma_parts_tell(l.marks(), r.marks(), file, a);
    assert forall|k: int| 0 <= k < map@.len() implies tells((#[trigger] map@[k]).marks, file, a) by {
        if k == i {
            assert(map@[k] == l@);
        } else if k == i + 1 {
            assert(map@[k] == r@);
        }
    }
}

/// When a true map covers a whole file, it is one segment, which goes from the start
/// of the file to its end and has the widest line of the text, whatever was loaded
/// in whatever order.
pub proof fn lemma_whole(map: Seq<Mapped>, file: Seq<u8>, a: Advances)
    requires
        settled_map(map),
        describes_all(map, file, a),
        file.len() > 0,
        forall|p: int| 0 <= p < file.len() ==> #[trigger] covered(map, p),
    ensures
        map.len() == 1,
        map[0].start() == 0,
        map[0].end() == file.len(),
        map[0].marks[0] == mark_at(0, Walk::start(true)),
        map[0].marks.last() == mark_at(
            file.len() as int,
            position_in(file, a, file.len() as int),
        ),
        map[0].widest == position_in(file, a, file.len() as int).end_line().widest,
        map[0].rel_width == 0,
        forall|k: int| 0 <= k < map[0].marks.len() ==> (#[trigger] map[0].marks[k]).abs,
{
    let n = file.len() as int;
    assert(covered(map, 0));
    let i = choose|i: int| spans_byte(map, i, 0);
    assert(describes(map[i], file, a));
    if i > 0 {
        assert(map[0].end() < map[i].start());
    }
    let e = map[0].end();
    if e < n {
        assert(covered(map, e));
        let j = choose|j: int| spans_byte(map, j, e);
        if j > 0 {
            assert(map[0].end() < map[j].start());
        }
    }
    if map.len() > 1 {
        assert(map[0].end() < map[1].start());
        assert(describes(map[1], file, a));
    }
    let seg = map[0];
    let last = seg.marks.len() - 1;
    assert(seg.marks[last] == seg.marks.last());
    assert(seg.marks[0].offset == 0);
    lemma_ends_are_boundaries(file);
    lemma_walk_sane(file, 0, n, a, Walk::start(true));
    lemma_rel_width_stays(file, 0, n, a, Walk::start(true));
    assert forall|k: int| 0 <= k < seg.marks.len() implies (#[trigger] seg.marks[k]).abs by {
        lemma_walk_sane(file, 0, seg.marks[k].offset, a, Walk::start(true));
    }
}

/// A walk that knows the line start never meets a line whose start is unknown.
proof fn lemma_rel_width_stays(s: Seq<u8>, p: int, q: int, a: Advances, w: Walk)
    requires
        w.abs,
    ensures
        walk(s, p, q, a, w).rel_width == w.rel_width,
        walk(s, p, q, a, w).abs,
    decreases
            if p < q {
                q - p
            } else {
                0
            },
{
    if p < q {
        lemma_rel_width_stays(
            s,
            p + step_len(s, p),
            q,
            a,
            w.step(shown(char_at(s, p)), a),
        );
    }
}

/// Whether no two neighbors among the marks of a segment are more than `most` bytes apart.
pub open spec fn all_close(map: Seq<Mapped>, most: int) -> bool {
    forall|k: int|
        0 <= k < map.len() ==> (#[trigger] map[k]).marks.len() >= 1 && close_marks(
            map[k].marks,
            most,
        )
}

/// Marks that are close stay so when two lists are put together.
proof fn lemma_joined_close(l: Seq<Mark>, r: Seq<Mark>, most: int)
    requires
        l.len() >= 1,
        r.len() >= 1,
        l.last().offset == r[0].offset,
        close_marks(l, most),
        close_marks(r, most),
    ensures
        join_marks(l, r).len() >= 1,
        close_marks(join_marks(l, r), most),
{
    let both = join_marks(l, r);
    let n = l.len() - 1;
    assert forall|k: int, j: int|
        0 <= k < both.len() && j == k + 1 && j < both.len() implies (#[trigger] both[j]).offset - (
    #[trigger] both[k]).offset <= most by {
        if j < n {
            assert(both[k] == l[k] && both[j] == l[j]);
        } else if k < n {
            assert(both[k] == l[k]);
            assert(both[j] == shift(r[0], l.last()));
            assert(l[n].offset - l[k].offset <= most);
        } else {
            assert(both[k] == shift(r[k - n], l.last()));
            assert(both[j] == shift(r[j - n], l.last()));
            assert(r[j - n].offset - r[k - n].offset <= most);
        }
    }
}

/// Merging two segments keeps the marks of a map close.
proof fn lemma_merged_close(map: Seq<Mapped>, i: int, most: int)
    requires
        adjacent(map, i),
        all_close(map, most),
    ensures
        all_close(merged(map, i), most),
{
    let out = merged(map, i);
    lemma_joined_close(map[i].marks, map[i + 1].marks, most);
    assert forall|k: int| 0 <= k < out.len() implies (#[trigger] out[k]).marks.len() >= 1
        && close_marks(out[k].marks, most) by {
        if k < i {
            assert(out[k] == map[k]);
        } else if k > i {
            assert(out[k] == map[k + 1]);
        }
    }
}

/// Adding a segment whose marks are close keeps those of a map so.
proof fn lemma_inserted_close(map: Seq<Mapped>, seg: Mapped, most: int)
    requires
        in_order(map),
        all_close(map, most),
        seg.marks.len() >= 1,
        close_marks(seg.marks, most),
    ensures
        all_close(inserted(map, seg), most),
{
    let i = starts_upto(map, seg.start()) as int;
    let j = ends_before(map, seg.end()) as int;
    lemma_starts_upto(map, seg.start());
    lemma_ends_before(map, seg.end());
    let out = placed(map, seg);
    assert forall|k: int| 0 <= k < out.len() implies (#[trigger] out[k]).marks.len() >= 1
        && close_marks(out[k].marks, most) by {
        if k < i {
            assert(out[k] == map[k]);
        } else if k > i {
            assert(out[k] == map[k - i - 1 + j]);
        }
    }
    if seg.start() != seg.end() {
        if adjacent(out, i - 1) {
            lemma_merged_close(out, i - 1, most);
            let out1 = merged(out, i - 1);
            if adjacent(out1, i - 1) {
                lemma_merged_close(out1, i - 1, most);
            }
        } else if adjacent(out, i) {
            lemma_merged_close(out, i, most);
        }
    }
}

/// Filling the gaps keeps the marks of a map close.
proof fn lemma_filled_close(
    map: Seq<Mapped>,
    file: Seq<u8>,
    l: int,
    end: int,
    rigid_left: bool,
    a: Advances,
    gap: int,
)
    requires
        settled_map(map),
        describes_all(map, file, a),
        0 <= l <= end <= file.len(),
        end <= LIMIT,
        l == end || !covered(map, l),
        l < end && rigid_left ==> is_boundary(file, l),
        1 <= gap,
        all_close(map, gap + 3),
    ensures
        all_close(
            filled_gaps(
                map,
                file.len() as int,
                l,
                file.subrange(l, end),
                rigid_left,
                a,
                gap,
            ),
            gap + 3,
        ),
    decreases end - l,
{
    let size = file.len() as int;
    let n = starts_upto(map, l) as int;
    let (r, rigid_right) = gap_end(map, size, l, end);
    let d = file.subrange(l, r);
    let seg = filler(map, file, l, end, rigid_left, a, gap);
    lemma_fill_step(map, file, l, end, rigid_left, a, gap);
    lemma_created_edges(l, d, rigid_left, rigid_right, a, gap);
    lemma_anchors_close(
        l + trimmed_start(d, rigid_left),
        trimmed(d, rigid_left, rigid_right),
        a,
        gap,
    );
    lemma_surveyed(
        l + trimmed_start(d, rigid_left),
        trimmed(d, rigid_left, rigid_right),
        a,
        gap,
    );
    lemma_inserted_close(map, seg, gap + 3);
    if goes_on(map, size, l, end) {
        lemma_filled_close(inserted(map, seg), file, map[n].end(), end, true, a, gap);
    }
}

/// Whatever pieces of a file are processed, anchors are never far apart: no part of a segment
/// that is longer than `gap` bytes, and the rest of a character, is without one.
pub proof fn lemma_processed_close(
    map: Seq<Mapped>,
    file: Seq<u8>,
    offset: int,
    end: int,
    a: Advances,
    gap: int,
)
    requires
        settled_map(map),
        describes_all(map, file, a),
        0 <= offset <= end <= file.len(),
        end <= LIMIT,
        1 <= gap,
        all_close(map, gap + 3),
    ensures
        all_close(
            processed(map, file.len() as int, offset, file.subrange(offset, end), a, gap),
            gap + 3,
        ),
{
    let data = file.subrange(offset, end);
    let (l, rigid_left) = first_gap(map, offset, end);
    lemma_first_gap(map, file, offset, end, a);
    assert(data.skip(l - offset) =~= file.subrange(l, end));
    lemma_filled_close(map, file, l, end, rigid_left, a, gap);
}

} // verus!
