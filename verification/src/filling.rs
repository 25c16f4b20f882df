//! How the segments of a line map change when pieces of the file are added, as
//! values.

use crate::layout::Advances;
use crate::linemap::Mapped;
use crate::linemapper::created;
use crate::merging::{adjacent, merged};
use vstd::prelude::*;

verus! {

/// Whether the segments are in order and not empty.
pub open spec fn in_order(map: Seq<Mapped>) -> bool {
    &&& forall|i: int|
        0 <= i < map.len() ==> (#[trigger] map[i]).marks.len() > 1 && 0 <= map[i].start()
            < map[i].end()
    &&& forall|i: int, j: int|
        0 <= i < j < map.len() ==> (#[trigger] map[i]).end() <= (#[trigger] map[j]).start()
}

/// Whether the segments are in order, not empty, and none touches another.
pub open spec fn settled_map(map: Seq<Mapped>) -> bool {
    &&& in_order(map)
    &&& forall|i: int, j: int|
        0 <= i < j < map.len() ==> (#[trigger] map[i]).end() < (#[trigger] map[j]).start()
}

/// Whether the segment at `k` covers the byte at `p`.
pub open spec fn spans_byte(map: Seq<Mapped>, k: int, p: int) -> bool {
    0 <= k < map.len() && map[k].start() <= p < map[k].end()
}

/// Whether some segment covers the byte at `p`.
pub open spec fn covered(map: Seq<Mapped>, p: int) -> bool {
    exists|k: int| spans_byte(map, k, p)
}

/// How many segments start at or before `p`.
pub open spec fn starts_upto(map: Seq<Mapped>, p: int) -> nat
    decreases map.len(),
{
    if map.len() == 0 {
        0
    } else if map.last().start() <= p {
        map.len()
    } else {
        starts_upto(map.drop_last(), p)
    }
}

/// How many segments end before `p`.
pub open spec fn ends_before(map: Seq<Mapped>, p: int) -> nat
    decreases map.len(),
{
    if map.len() == 0 {
        0
    } else if map.last().end() < p {
        map.len()
    } else {
        ends_before(map.drop_last(), p)
    }
}

/// Whether a segment overlaps no other one, or covers it all.
pub open spec fn compatible(map: Seq<Mapped>, seg: Mapped) -> bool {
    forall|k: int|
        0 <= k < map.len() ==> {
            &&& (#[trigger] map[k]).start() <= seg.start() ==> map[k].end() <= seg.start()
            &&& map[k].end() >= seg.end() ==> map[k].start() >= seg.end()
        }
}

/// The segments with a new one in place of those that it covers.
pub open spec fn placed(map: Seq<Mapped>, seg: Mapped) -> Seq<Mapped> {
    map.take(starts_upto(map, seg.start()) as int) + seq![seg] + map.skip(
        ends_before(map, seg.end()) as int,
    )
}

/// The segments after the one at `i` was merged with those that it touches.
pub open spec fn settle(map: Seq<Mapped>, i: int) -> Seq<Mapped> {
    let left = adjacent(map, i - 1);
    let map1 = if left {
        merged(map, i - 1)
    } else {
        map
    };
    let i1 = if left {
        i - 1
    } else {
        i
    };
    if adjacent(map1, i1) {
        merged(map1, i1)
    } else {
        map1
    }
}

/// The segments after a new one was added, unless it is empty.
pub open spec fn inserted(map: Seq<Mapped>, seg: Mapped) -> Seq<Mapped> {
    if seg.start() == seg.end() {
        map
    } else {
        settle(placed(map, seg), starts_upto(map, seg.start()) as int)
    }
}

/// The index of the first segment that starts after `p`, from a list without one
/// that covers `p`.
pub proof fn lemma_starts_upto(map: Seq<Mapped>, p: int)
    requires
        in_order(map),
    ensures
        starts_upto(map, p) <= map.len(),
        forall|k: int| 0 <= k < starts_upto(map, p) ==> (#[trigger] map[k]).start() <= p,
        forall|k: int| starts_upto(map, p) <= k < map.len() ==> (#[trigger] map[k]).start() > p,
    decreases map.len(),
{
    if map.len() > 0 {
        let n = map.len() - 1;
        let init = map.drop_last();
        if map.last().start() <= p {
            assert forall|k: int| 0 <= k < map.len() implies (#[trigger] map[k]).start() <= p by {
                if k < n {
                    assert(map[k].end() <= map[n].start());
                }
            }
        } else {
            lemma_starts_upto(init, p);
            assert forall|k: int| 0 <= k < starts_upto(map, p) implies (#[trigger] map[k]).start()
                <= p by {
                assert(init[k] == map[k]);
            }
            assert forall|k: int| starts_upto(map, p) <= k < map.len() implies (
            #[trigger] map[k]).start() > p by {
                if k < n {
                    assert(init[k] == map[k]);
                }
            }
        }
    }
}

/// The index of the first segment that ends at or after `p`.
pub proof fn lemma_ends_before(map: Seq<Mapped>, p: int)
    requires
        in_order(map),
    ensures
        ends_before(map, p) <= map.len(),
        forall|k: int| 0 <= k < ends_before(map, p) ==> (#[trigger] map[k]).end() < p,
        forall|k: int| ends_before(map, p) <= k < map.len() ==> (#[trigger] map[k]).end() >= p,
    decreases map.len(),
{
    if map.len() > 0 {
        let n = map.len() - 1;
        let init = map.drop_last();
        if map.last().end() < p {
            assert forall|k: int| 0 <= k < map.len() implies (#[trigger] map[k]).end() < p by {
                if k < n {
                    assert(map[k].end() <= map[n].start());
                }
            }
        } else {
            lemma_ends_before(init, p);
            assert forall|k: int| 0 <= k < ends_before(map, p) implies (#[trigger] map[k]).end()
                < p by {
                assert(init[k] == map[k]);
            }
            assert forall|k: int| ends_before(map, p) <= k < map.len() implies (
            #[trigger] map[k]).end() >= p by {
                if k < n {
                    assert(init[k] == map[k]);
                }
            }
        }
    }
}

/// Merging two segments keeps the segments in order, and covers the same bytes.
pub proof fn lemma_merged(map: Seq<Mapped>, i: int)
    requires
        in_order(map),
        adjacent(map, i),
    ensures
        in_order(merged(map, i)),
        merged(map, i).len() == map.len() - 1,
        forall|k: int| 0 <= k < i ==> #[trigger] merged(map, i)[k] == map[k],
        forall|k: int| i < k < map.len() - 1 ==> #[trigger] merged(map, i)[k] == map[k + 1],
        merged(map, i)[i].start() == map[i].start(),
        merged(map, i)[i].end() == map[i + 1].end(),
        forall|p: int| #[trigger] covered(merged(map, i), p) == covered(map, p),
{
    let out = merged(map, i);
    let l = map[i].marks;
    let r = map[i + 1].marks;
    assert(out[i].marks[0] == l[0]);
    assert(out[i].marks.last().offset == r.last().offset);
    assert(map[i].start() < map[i + 1].end()) by {
        assert(map[i].end() <= map[i + 1].start());
    }
    assert forall|a: int, b: int| 0 <= a < b < out.len() implies (#[trigger] out[a]).end() <= (
    #[trigger] out[b]).start() by {
        let a1 = if a < i {
            a
        } else {
            a + 1
        };
        let b1 = if b <= i {
            b
        } else {
            b + 1
        };
        assert(map[a1].end() <= map[b1].start());
    }
    assert forall|k: int| 0 <= k < out.len() implies (#[trigger] out[k]).marks.len() > 1 && 0
        <= out[k].start() < out[k].end() by {
        if k > i {
            assert(out[k] == map[k + 1]);
        } else if k < i {
            assert(out[k] == map[k]);
        }
    }
    assert forall|p: int| #[trigger] covered(out, p) == covered(map, p) by {
        if covered(out, p) {
            let k = choose|k: int| spans_byte(out, k, p);
            if k < i {
                assert(spans_byte(map, k, p));
            } else if k > i {
                assert(spans_byte(map, k + 1, p));
            } else if p < map[i].end() {
                assert(spans_byte(map, i, p));
            } else {
                assert(spans_byte(map, i + 1, p));
            }
        }
        if covered(map, p) {
            let k = choose|k: int| spans_byte(map, k, p);
            if k <= i {
                assert(map[k].end() <= map[i + 1].end()) by {
                    if k <= i {
                        assert(map[k].end() <= map[i + 1].start());
                    }
                }
                assert(spans_byte(out, k, p));
            } else {
                assert(map[i].start() <= map[k].start()) by {
                    assert(map[i].end() <= map[k].start());
                }
                assert(spans_byte(out, k - 1, p));
            }
        }
    }
}

/// Adding a segment keeps the segments in order and apart, and covers the bytes
/// that were covered before and those of the new segment.
pub proof fn lemma_inserted(map: Seq<Mapped>, seg: Mapped)
    requires
        settled_map(map),
        seg.start() < seg.end() ==> compatible(map, seg) && seg.marks.len() > 1 && 0 <= seg.start(),
        seg.start() <= seg.end(),
    ensures
        settled_map(inserted(map, seg)),
        forall|p: int| #[trigger]
            covered(inserted(map, seg), p) == (covered(map, p) || seg.start() <= p < seg.end()),
{
    if seg.start() < seg.end() {
        let i = starts_upto(map, seg.start()) as int;
        let j = ends_before(map, seg.end()) as int;
        let out = placed(map, seg);
        lemma_starts_upto(map, seg.start());
        lemma_ends_before(map, seg.end());
        assert(i <= j) by {
            if i > j {
                assert(map[j].end() <= seg.start());
            }
        }
        assert(forall|k: int| 0 <= k < i ==> #[trigger] out[k] == map[k]);
        assert(out[i] == seg);
        assert(forall|k: int| i < k < out.len() ==> #[trigger] out[k] == map[k - i - 1 + j]);
        lemma_placed(map, seg, i, j);
        let left = adjacent(out, i - 1);
        let mid = if left {
            merged(out, i - 1)
        } else {
            out
        };
        let m = if left {
            i - 1
        } else {
            i
        };
        if left {
            lemma_merged(out, i - 1);
        }
        assert forall|a: int, b: int|
            0 <= a < b < mid.len() && !(a == m && b == m + 1) implies (#[trigger] mid[a]).end() < (
        #[trigger] mid[b]).start() by {
            let a1 = if left && a >= m {
                a + 1
            } else {
                a
            };
            let b1 = if left && b > m {
                b + 1
            } else {
                b
            };
            if !left && a == i - 1 && b == i {
                assert(out[a].end() <= out[b].start());
            } else {
                assert(out[a1].end() < out[b1].start());
            }
        }
        if adjacent(mid, m) {
            lemma_merged(mid, m);
            let fin = merged(mid, m);
            assert forall|a: int, b: int| 0 <= a < b < fin.len() implies (#[trigger] fin[a]).end() < (
            #[trigger] fin[b]).start() by {
                let a1 = if a >= m {
                    a + 1
                } else {
                    a
                };
                let b1 = if b > m {
                    b + 1
                } else {
                    b
                };
                assert(mid[a1].end() < mid[b1].start());
            }
        } else {
            assert(m + 1 < mid.len() ==> mid[m].end() <= mid[m + 1].start());
        }
    }
}

/// Putting a segment in its place keeps the segments in order, and only the new one
/// may touch its neighbors.
pub proof fn lemma_placed(map: Seq<Mapped>, seg: Mapped, i: int, j: int)
    requires
        settled_map(map),
        compatible(map, seg),
        0 <= seg.start() < seg.end(),
        seg.marks.len() > 1,
        0 <= i <= j <= map.len(),
        forall|k: int| 0 <= k < i ==> (#[trigger] map[k]).start() <= seg.start(),
        forall|k: int| i <= k < map.len() ==> (#[trigger] map[k]).start() > seg.start(),
        forall|k: int| 0 <= k < j ==> (#[trigger] map[k]).end() < seg.end(),
        forall|k: int| j <= k < map.len() ==> (#[trigger] map[k]).end() >= seg.end(),
    ensures
        ({
            let out = map.take(i) + seq![seg] + map.skip(j);
            &&& in_order(out)
            &&& forall|a: int, b: int|
                0 <= a < b < out.len() && !(a == i - 1 && b == i) && !(a == i && b == i + 1)
                    ==> (#[trigger] out[a]).end() < (#[trigger] out[b]).start()
            &&& forall|p: int| #[trigger]
                covered(out, p) == (covered(map, p) || seg.start() <= p < seg.end())
        }),
{
    let out = map.take(i) + seq![seg] + map.skip(j);
    assert(forall|k: int| 0 <= k < i ==> #[trigger] out[k] == map[k]);
    assert(out[i] == seg);
    assert(forall|k: int| i < k < out.len() ==> #[trigger] out[k] == map[k - i - 1 + j]);
    assert forall|a: int, b: int| 0 <= a < b < out.len() implies (#[trigger] out[a]).end() <= (
    #[trigger] out[b]).start() && (!(a == i - 1 && b == i) && !(a == i && b == i + 1)
        ==> out[a].end() < out[b].start()) by {
        if b < i {
            assert(map[a].end() < map[b].start());
        } else if b == i {
            assert(map[a].end() <= seg.start());
            if a < i - 1 {
                assert(map[a].end() < map[i - 1].start());
                assert(map[i - 1].end() <= seg.start());
            }
        } else {
            let b1 = b - i - 1 + j;
            assert(map[b1].start() >= seg.end());
            if a < i {
                assert(map[a].end() < map[b1].start());
            } else if a > i {
                assert(map[a - i - 1 + j].end() < map[b1].start());
            } else if b > i + 1 {
                assert(map[j].end() < map[b1].start());
                assert(map[j].start() >= seg.end());
            }
        }
    }
    assert forall|k: int| 0 <= k < out.len() implies (#[trigger] out[k]).marks.len() > 1 && 0
        <= out[k].start() < out[k].end() by {
        if k > i {
            assert(out[k] == map[k - i - 1 + j]);
        } else if k < i {
            assert(out[k] == map[k]);
        }
    }
    assert forall|p: int| #[trigger] covered(out, p) == (covered(map, p) || seg.start() <= p
        < seg.end()) by {
        if covered(out, p) {
            let k = choose|k: int| spans_byte(out, k, p);
            if k < i {
                assert(spans_byte(map, k, p));
            } else if k > i {
                assert(spans_byte(map, k - i - 1 + j, p));
            }
        }
        if seg.start() <= p < seg.end() {
            assert(spans_byte(out, i, p));
        } else if covered(map, p) {
            let k = choose|k: int| spans_byte(map, k, p);
            if k < i {
                assert(spans_byte(out, k, p));
            } else if k >= j {
                assert(spans_byte(out, k - j + i + 1, p));
            }
        }
    }
}

/// A segment within a gap overlaps no other one.
pub proof fn lemma_gap(map: Seq<Mapped>, size: int, l: int, end: int, seg: Mapped)
    requires
        settled_map(map),
        !covered(map, l),
        l <= seg.start() < seg.end() <= gap_end(map, size, l, end).0,
    ensures
        compatible(map, seg),
{
    let n = starts_upto(map, l) as int;
    lemma_starts_upto(map, l);
    assert forall|k: int| 0 <= k < map.len() implies {
        &&& (#[trigger] map[k]).start() <= seg.start() ==> map[k].end() <= seg.start()
        &&& map[k].end() >= seg.end() ==> map[k].start() >= seg.end()
    } by {
        assert(!spans_byte(map, k, l));
        if k > n {
            assert(map[n].end() < map[k].start());
        }
    }
}

/// After a gap was filled, the end of the segment that follows it is the start of
/// the next gap.
pub proof fn lemma_next_gap(map: Seq<Mapped>, l: int, seg: Mapped)
    requires
        settled_map(map),
        starts_upto(map, l) < map.len(),
        l <= seg.start() <= seg.end() <= map[starts_upto(map, l) as int].start(),
        seg.start() < seg.end() ==> compatible(map, seg) && seg.marks.len() > 1 && 0 <= seg.start(),
    ensures
        settled_map(inserted(map, seg)),
        !covered(inserted(map, seg), map[starts_upto(map, l) as int].end()),
        map[starts_upto(map, l) as int].end() > l,
{
    let n = starts_upto(map, l) as int;
    lemma_starts_upto(map, l);
    lemma_inserted(map, seg);
    let p = map[n].end();
    assert(covered(inserted(map, seg), p) == (covered(map, p) || seg.start() <= p < seg.end()));
    if covered(map, p) {
        let k = choose|k: int| spans_byte(map, k, p);
        if k < n {
            assert(map[k].end() < map[n].start());
        } else if k > n {
            assert(map[n].end() < map[k].start());
        }
    }
}

/// Where the first gap at or after `offset` starts, and whether it starts at the
/// edge of a segment or of the file.
pub open spec fn first_gap(map: Seq<Mapped>, offset: int, end: int) -> (int, bool) {
    let k = ends_before(map, offset) as int;
    if k < map.len() && map[k].start() <= offset {
        (
            if map[k].end() <= end {
                map[k].end()
            } else {
                end
            },
            true,
        )
    } else {
        (offset, offset == 0)
    }
}

/// Where the gap at `l` ends, and whether it ends at the edge of a segment or of the
/// file, which has `size` bytes.
pub open spec fn gap_end(map: Seq<Mapped>, size: int, l: int, end: int) -> (int, bool) {
    let n = starts_upto(map, l) as int;
    if n == map.len() {
        (end, end == size)
    } else if map[n].start() <= end {
        (map[n].start(), true)
    } else {
        (end, false)
    }
}

/// The segments after `data`, which stands at `l`, was mapped in all gaps, where `l`
/// is the start of a gap.
pub open spec fn filled_gaps(
    map: Seq<Mapped>,
    size: int,
    l: int,
    data: Seq<u8>,
    rigid_left: bool,
    a: Advances,
    gap: int,
) -> Seq<Mapped>
    decreases data.len(),
{
    let end = l + data.len();
    let n = starts_upto(map, l) as int;
    let (r, rigid_right) = gap_end(map, size, l, end);
    let seg = created(l, data.take(r - l), rigid_left, rigid_right, a, gap);
    let map1 = inserted(map, seg);
    if r >= end || n >= map.len() || map[n].end() >= end || map[n].end() <= l {
        map1
    } else {
        filled_gaps(map1, size, map[n].end(), data.skip(map[n].end() - l), true, a, gap)
    }
}

/// The segments after `data`, which stands at `offset` in a file of `size` bytes, was
/// processed.
pub open spec fn processed(
    map: Seq<Mapped>,
    size: int,
    offset: int,
    data: Seq<u8>,
    a: Advances,
    gap: int,
) -> Seq<Mapped> {
    let (l, rigid_left) = first_gap(map, offset, offset + data.len());
    filled_gaps(map, size, l, data.skip(l - offset), rigid_left, a, gap)
}

} // verus!
