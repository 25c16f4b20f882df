//! Lists of patches of a text, which grow as more of the text is read.

use crate::layout::Advances;
use crate::marks::LIMIT;
use crate::seams::{describes, lemma_merged, merged, Patch};
use crate::stitched::{created, lemma_created};
use vstd::prelude::*;

verus! {

/// Whether the patches are apart and in order, and tell the truth about the texts.
pub open spec fn told(map: Seq<Patch>, texts: Seq<Seq<u8>>, a: Advances) -> bool {
    &&& texts.len() == map.len()
    &&& forall|k: int|
        0 <= k < map.len() ==> describes(#[trigger] map[k], texts[k], a) && map[k].start
            < map[k].end <= LIMIT
    &&& forall|i: int, j: int|
        0 <= i < j < map.len() ==> (#[trigger] map[i]).end < (#[trigger] map[j]).start
}

/// How many patches start at or before `x`.
pub open spec fn starts_upto(map: Seq<Patch>, x: int) -> int
    decreases map.len(),
{
    if map.len() == 0 {
        0
    } else if map.last().start <= x {
        map.len() as int
    } else {
        starts_upto(map.drop_last(), x)
    }
}

/// How many patches end before `x`.
pub open spec fn ends_before(map: Seq<Patch>, x: int) -> int
    decreases map.len(),
{
    if map.len() == 0 {
        0
    } else if map.last().end < x {
        map.len() as int
    } else {
        ends_before(map.drop_last(), x)
    }
}

/// Patches are in order of their starts.
pub proof fn lemma_starts_upto(map: Seq<Patch>, texts: Seq<Seq<u8>>, a: Advances, x: int)
    requires
        told(map, texts, a),
    ensures
        0 <= starts_upto(map, x) <= map.len(),
        forall|k: int| 0 <= k < starts_upto(map, x) ==> (#[trigger] map[k]).start <= x,
        forall|k: int| starts_upto(map, x) <= k < map.len() ==> (#[trigger] map[k]).start > x,
    decreases map.len(),
{
    if map.len() > 0 {
        let rest = map.drop_last();
        let n = map.len() - 1;
        assert forall|k: int| 0 <= k < n implies describes(
            #[trigger] rest[k],
            texts.drop_last()[k],
            a,
        ) && rest[k].start < rest[k].end <= LIMIT by {
            assert(rest[k] == map[k]);
        }
        assert(told(rest, texts.drop_last(), a));
        lemma_starts_upto(rest, texts.drop_last(), a, x);
        if map.last().start <= x {
            assert forall|k: int| 0 <= k < n implies (#[trigger] map[k]).start <= x by {
                assert(map[k].end < map[n].start);
            }
        } else {
            assert forall|k: int| 0 <= k < n implies #[trigger] map[k] == rest[k] by {}
        }
    }
}

/// Patches are in order of their ends.
pub proof fn lemma_ends_before(map: Seq<Patch>, texts: Seq<Seq<u8>>, a: Advances, x: int)
    requires
        told(map, texts, a),
    ensures
        0 <= ends_before(map, x) <= map.len(),
        forall|k: int| 0 <= k < ends_before(map, x) ==> (#[trigger] map[k]).end < x,
        forall|k: int| ends_before(map, x) <= k < map.len() ==> (#[trigger] map[k]).end >= x,
    decreases map.len(),
{
    if map.len() > 0 {
        let rest = map.drop_last();
        let n = map.len() - 1;
        assert forall|k: int| 0 <= k < n implies describes(
            #[trigger] rest[k],
            texts.drop_last()[k],
            a,
        ) && rest[k].start < rest[k].end <= LIMIT by {
            assert(rest[k] == map[k]);
        }
        assert(told(rest, texts.drop_last(), a));
        lemma_ends_before(rest, texts.drop_last(), a, x);
        if map.last().end < x {
            assert forall|k: int| 0 <= k < n implies (#[trigger] map[k]).end < x by {
                assert(map[k].end < map[n].start);
            }
        } else {
            assert forall|k: int| 0 <= k < n implies #[trigger] map[k] == rest[k] by {}
        }
    }
}

/// Whether no patch reaches over one of the ends of `[lo, hi)` into it.
pub open spec fn fits(map: Seq<Patch>, lo: int, hi: int) -> bool {
    forall|k: int|
        0 <= k < map.len() ==> {
            &&& (#[trigger] map[k]).start <= lo ==> map[k].end <= lo
            &&& map[k].end >= hi ==> map[k].start >= hi
        }
}

/// Whether a new patch that starts at `x` touches the one before it.
pub open spec fn joins_left(map: Seq<Patch>, x: int) -> bool {
    let b = starts_upto(map, x);
    b > 0 && map[b - 1].end == x
}

/// Whether a new patch that ends at `x` touches the one after it.
pub open spec fn joins_right(map: Seq<Patch>, x: int) -> bool {
    let e = ends_before(map, x);
    e < map.len() && map[e].start == x
}

/// A new patch touches its neighbors where they reach it.
pub proof fn lemma_neighbors(map: Seq<Patch>, texts: Seq<Seq<u8>>, a: Advances, lo: int, hi: int)
    requires
        told(map, texts, a),
        fits(map, lo, hi),
        lo < hi,
    ensures
        ({
            let b = starts_upto(map, lo);
            let e = ends_before(map, hi);
            &&& 0 <= b <= e <= map.len()
            &&& b > 0 ==> describes(map[b - 1], texts[b - 1], a) && map[b - 1].start < map[b
                - 1].end <= lo
            &&& e < map.len() ==> describes(map[e], texts[e], a) && hi <= map[e].start < map[e].end
                <= LIMIT
        }),
{
    lemma_starts_upto(map, texts, a, lo);
    lemma_ends_before(map, texts, a, hi);
    let b = starts_upto(map, lo);
    let e = ends_before(map, hi);
    if b > 0 {
        assert(map[b - 1].start <= lo);
    }
    if e < map.len() {
        assert(map[e].end >= hi);
    }
    if b > e {
        assert(map[e].start <= lo);
    }
}

/// The new patch, merged with those that it touches.
pub open spec fn stitched_in(map: Seq<Patch>, p: Patch, a: Advances) -> Patch {
    let left = if joins_left(map, p.start) {
        merged(map[starts_upto(map, p.start) - 1], p, a)
    } else {
        p
    };
    if joins_right(map, p.end) {
        merged(left, map[ends_before(map, p.end)], a)
    } else {
        left
    }
}

/// How many patches stay before a new one that starts at `x`.
pub open spec fn kept_left(map: Seq<Patch>, x: int) -> int {
    if joins_left(map, x) {
        starts_upto(map, x) - 1
    } else {
        starts_upto(map, x)
    }
}

/// Where the patches start that stay after a new one that ends at `x`.
pub open spec fn kept_right(map: Seq<Patch>, x: int) -> int {
    if joins_right(map, x) {
        ends_before(map, x) + 1
    } else {
        ends_before(map, x)
    }
}

/// The patches with a new one, which is merged with those that it touches, and takes the
/// place of those inside it.
pub open spec fn inserted(map: Seq<Patch>, p: Patch, a: Advances) -> Seq<Patch> {
    map.take(kept_left(map, p.start)).push(stitched_in(map, p, a)) + map.skip(
        kept_right(map, p.end),
    )
}

/// The text of a new patch, together with those of the patches that it touches.
pub open spec fn stitched_text(
    map: Seq<Patch>,
    texts: Seq<Seq<u8>>,
    lo: int,
    hi: int,
    d: Seq<u8>,
) -> Seq<u8> {
    let left = if joins_left(map, lo) {
        texts[starts_upto(map, lo) - 1] + d
    } else {
        d
    };
    if joins_right(map, hi) {
        left + texts[ends_before(map, hi)]
    } else {
        left
    }
}

/// The texts of the patches with a new one, whose text is `d`.
pub open spec fn inserted_texts(
    map: Seq<Patch>,
    texts: Seq<Seq<u8>>,
    lo: int,
    hi: int,
    d: Seq<u8>,
) -> Seq<Seq<u8>> {
    texts.take(kept_left(map, lo)).push(stitched_text(map, texts, lo, hi, d)) + texts.skip(
        kept_right(map, hi),
    )
}

/// A new patch and those that it touches together tell the truth about their texts.
proof fn lemma_stitched_in(map: Seq<Patch>, texts: Seq<Seq<u8>>, p: Patch, d: Seq<u8>, a: Advances)
    requires
        told(map, texts, a),
        describes(p, d, a),
        p.start < p.end <= LIMIT,
        fits(map, p.start, p.end),
    ensures
        ({
            let b = starts_upto(map, p.start);
            let e = ends_before(map, p.end);
            let x = stitched_in(map, p, a);
            &&& 0 <= b <= e <= map.len()
            &&& 0 <= kept_left(map, p.start) <= b
            &&& e <= kept_right(map, p.end) <= map.len()
            &&& describes(x, stitched_text(map, texts, p.start, p.end, d), a)
            &&& x.start == if joins_left(map, p.start) {
                map[b - 1].start
            } else {
                p.start
            }
            &&& x.end == if joins_right(map, p.end) {
                map[e].end
            } else {
                p.end
            }
            &&& x.start <= p.start < p.end <= x.end <= LIMIT
        }),
{
    let b = starts_upto(map, p.start);
    let e = ends_before(map, p.end);
    lemma_starts_upto(map, texts, a, p.start);
    lemma_ends_before(map, texts, a, p.end);
    if b > e {
        assert(map[e].end >= p.end);
        assert(map[e].start <= p.start);
    }
    let l = joins_left(map, p.start);
    let left = if l {
        merged(map[b - 1], p, a)
    } else {
        p
    };
    let left_text = if l {
        texts[b - 1] + d
    } else {
        d
    };
    if l {
        assert(describes(map[b - 1], texts[b - 1], a));
        lemma_merged(map[b - 1], p, texts[b - 1], d, a);
    }
    if joins_right(map, p.end) {
        assert(describes(map[e], texts[e], a));
        lemma_merged(left, map[e], left_text, texts[e], a);
    }
}

/// What stays before and after a new patch is apart from it.
proof fn lemma_apart(map: Seq<Patch>, texts: Seq<Seq<u8>>, p: Patch, d: Seq<u8>, a: Advances)
    requires
        told(map, texts, a),
        describes(p, d, a),
        p.start < p.end <= LIMIT,
        fits(map, p.start, p.end),
    ensures
        forall|k: int|
            0 <= k < kept_left(map, p.start) ==> (#[trigger] map[k]).end < stitched_in(
                map,
                p,
                a,
            ).start,
        forall|k: int|
            kept_right(map, p.end) <= k < map.len() ==> stitched_in(map, p, a).end < (
            #[trigger] map[k]).start,
{
    let b = starts_upto(map, p.start);
    let e = ends_before(map, p.end);
    lemma_starts_upto(map, texts, a, p.start);
    lemma_ends_before(map, texts, a, p.end);
    lemma_stitched_in(map, texts, p, d, a);
    let x = stitched_in(map, p, a);
    assert forall|k: int| 0 <= k < kept_left(map, p.start) implies (#[trigger] map[k]).end
        < x.start by {
        if k < b - 1 {
            assert(map[k].end < map[b - 1].start);
            assert(map[b - 1].start <= p.start);
        } else {
            assert(map[k].start <= p.start);
        }
    }
    assert forall|k: int| kept_right(map, p.end) <= k < map.len() implies x.end < (
    #[trigger] map[k]).start by {
        assert(map[k].end >= p.end);
        if k > e {
            assert(map[e].end >= p.end);
            assert(map[e].end < map[k].start);
        }
    }
}

/// Some patches that are next to each other can give way to one that is apart from the
/// rest.
proof fn lemma_replaced(
    map: Seq<Patch>,
    texts: Seq<Seq<u8>>,
    n: int,
    m: int,
    x: Patch,
    t: Seq<u8>,
    a: Advances,
)
    requires
        told(map, texts, a),
        0 <= n <= m <= map.len(),
        describes(x, t, a),
        x.start < x.end <= LIMIT,
        forall|k: int| 0 <= k < n ==> (#[trigger] map[k]).end < x.start,
        forall|k: int| m <= k < map.len() ==> x.end < (#[trigger] map[k]).start,
    ensures
        told(map.take(n).push(x) + map.skip(m), texts.take(n).push(t) + texts.skip(m), a),
{
    let new = map.take(n).push(x) + map.skip(m);
    let new_texts = texts.take(n).push(t) + texts.skip(m);
    assert forall|k: int| 0 <= k < new.len() implies describes(#[trigger] new[k], new_texts[k], a)
        && new[k].start < new[k].end <= LIMIT by {
        if k < n {
            assert(new[k] == map[k] && new_texts[k] == texts[k]);
        } else if k > n {
            let o = k - n - 1 + m;
            assert(new[k] == map[o] && new_texts[k] == texts[o]);
        }
    }
    assert forall|i: int, j: int| 0 <= i < j < new.len() implies (#[trigger] new[i]).end < (
    #[trigger] new[j]).start by {
        if i < n {
            assert(new[i] == map[i]);
            if j < n {
                assert(new[j] == map[j]);
            } else if j > n {
                let o = j - n - 1 + m;
                assert(new[j] == map[o]);
                assert(map[i].end < map[o].start);
            }
        } else {
            let o = j - n - 1 + m;
            assert(new[j] == map[o]);
            if i > n {
                let q = i - n - 1 + m;
                assert(new[i] == map[q]);
                assert(map[q].end < map[o].start);
            }
        }
    }
}

/// A new patch leaves the list in order, and true.
pub proof fn lemma_inserted(
    map: Seq<Patch>,
    texts: Seq<Seq<u8>>,
    p: Patch,
    d: Seq<u8>,
    a: Advances,
)
    requires
        told(map, texts, a),
        describes(p, d, a),
        p.start < p.end <= LIMIT,
        fits(map, p.start, p.end),
    ensures
        told(inserted(map, p, a), inserted_texts(map, texts, p.start, p.end, d), a),
{
    lemma_stitched_in(map, texts, p, d, a);
    lemma_apart(map, texts, p, d, a);
    lemma_replaced(
        map,
        texts,
        kept_left(map, p.start),
        kept_right(map, p.end),
        stitched_in(map, p, a),
        stitched_text(map, texts, p.start, p.end, d),
        a,
    );
}

/// Whether a byte lies in one of the patches.
pub open spec fn covered(map: Seq<Patch>, q: int) -> bool {
    exists|k: int| 0 <= k < map.len() && (#[trigger] map[k]).start <= q < map[k].end
}

/// The first byte from `p` on that lies in no patch.
pub open spec fn hole_start(map: Seq<Patch>, p: int) -> int {
    let i = ends_before(map, p);
    if i < map.len() && map[i].start <= p {
        map[i].end
    } else {
        p
    }
}

/// Where the hole at `l` ends, but no farther than `end`.
pub open spec fn hole_end(map: Seq<Patch>, l: int, end: int) -> int {
    let i = starts_upto(map, l);
    if i < map.len() && map[i].start < end {
        map[i].start
    } else {
        end
    }
}

/// The patches once the holes from `from` on are filled with what is known of `data`,
/// which stands at `offset`.
pub open spec fn processed(
    map: Seq<Patch>,
    offset: int,
    data: Seq<u8>,
    from: int,
    n: int,
    a: Advances,
) -> Seq<Patch>
    decreases offset + data.len() - from,
{
    let end = offset + data.len();
    let l = hole_start(map, from);
    let r = hole_end(map, l, end);
    if from <= l < r <= end {
        processed(
            inserted(map, created(l, data.subrange(l - offset, r - offset), n, a), a),
            offset,
            data,
            r,
            n,
            a,
        )
    } else {
        map
    }
}

/// A hole lies between patches, and what fills it fits there.
pub proof fn lemma_hole(map: Seq<Patch>, texts: Seq<Seq<u8>>, a: Advances, from: int, end: int)
    requires
        told(map, texts, a),
    ensures
        ({
            let l = hole_start(map, from);
            let r = hole_end(map, l, end);
            &&& from <= l
            &&& forall|q: int| from <= q < l ==> #[trigger] covered(map, q)
            &&& l < end ==> l < r <= end && fits(map, l, r)
            &&& forall|q: int| l <= q < r && l < end ==> !#[trigger] covered(map, q)
        }),
{
    let i = ends_before(map, from);
    lemma_ends_before(map, texts, a, from);
    let l = hole_start(map, from);
    lemma_starts_upto(map, texts, a, l);
    let j = starts_upto(map, l);
    let r = hole_end(map, l, end);
    assert forall|q: int| from <= q < l implies #[trigger] covered(map, q) by {
        assert(map[i].start <= q < map[i].end);
    }
    // Everything that starts at or before the hole ends there
    assert forall|k: int| 0 <= k < map.len() && (#[trigger] map[k]).start <= l implies map[k].end
        <= l by {
        if i < map.len() && map[i].start <= from {
            if k > i {
                assert(map[i].end < map[k].start);
            } else if k < i {
                assert(map[k].end < map[i].start);
            }
        } else if k >= i {
            assert(map[k].end >= from);
            if k > i {
                assert(map[i].end < map[k].start);
            }
        }
    }
    if l < end {
        assert forall|k: int| 0 <= k < map.len() implies {
            &&& (#[trigger] map[k]).start <= l ==> map[k].end <= l
            &&& map[k].end >= r ==> map[k].start >= r
        } by {
            if map[k].start > l && k > j {
                assert(map[j].end < map[k].start);
            }
        }
        assert forall|q: int| l <= q < r implies !#[trigger] covered(map, q) by {
            if covered(map, q) {
                let k = choose|k: int|
                    0 <= k < map.len() && (#[trigger] map[k]).start <= q < map[k].end;
                assert(map[k].start > l);
                assert(map[k].end >= r ==> map[k].start >= r);
                assert(k >= j);
                if k > j {
                    assert(map[j].end < map[k].start);
                }
            }
        }
    }
}

/// The pieces of a file that the patches are about.
pub open spec fn pieces(map: Seq<Patch>, f: Seq<u8>) -> Seq<Seq<u8>> {
    Seq::new(map.len(), |k: int| f.subrange(map[k].start, map[k].end))
}

/// Whether the patches tell the truth about a file.
pub open spec fn true_of(map: Seq<Patch>, f: Seq<u8>, a: Advances) -> bool {
    &&& told(map, pieces(map, f), a)
    &&& forall|k: int| 0 <= k < map.len() ==> (#[trigger] map[k]).end <= f.len()
}

/// The text of a new patch and those that it touches is a piece of the file.
proof fn lemma_stitched_piece(map: Seq<Patch>, p: Patch, f: Seq<u8>, a: Advances)
    requires
        true_of(map, f, a),
        p.start < p.end <= f.len(),
        p.end <= LIMIT,
        describes(p, f.subrange(p.start, p.end), a),
        fits(map, p.start, p.end),
    ensures
        ({
            let x = stitched_in(map, p, a);
            &&& 0 <= x.start < x.end <= f.len()
            &&& f.subrange(x.start, x.end) == stitched_text(
                map,
                pieces(map, f),
                p.start,
                p.end,
                f.subrange(p.start, p.end),
            )
        }),
{
    let texts = pieces(map, f);
    let d = f.subrange(p.start, p.end);
    let b = starts_upto(map, p.start);
    let e = ends_before(map, p.end);
    let x = stitched_in(map, p, a);
    lemma_stitched_in(map, texts, p, d, a);
    if joins_left(map, p.start) {
        assert(map[b - 1].end <= f.len());
        assert(describes(map[b - 1], texts[b - 1], a));
    }
    if joins_right(map, p.end) {
        assert(map[e].end <= f.len());
    }
    assert(f.subrange(x.start, x.end) =~= stitched_text(map, texts, p.start, p.end, d));
}

/// Which bytes are covered once a new patch is there.
proof fn lemma_inserted_covers(
    map: Seq<Patch>,
    texts: Seq<Seq<u8>>,
    p: Patch,
    d: Seq<u8>,
    a: Advances,
    q: int,
)
    requires
        told(map, texts, a),
        describes(p, d, a),
        p.start < p.end <= LIMIT,
        fits(map, p.start, p.end),
    ensures
        covered(inserted(map, p, a), q) == (covered(map, q) || p.start <= q < p.end),
{
    let b = starts_upto(map, p.start);
    let e = ends_before(map, p.end);
    let n = kept_left(map, p.start);
    let m = kept_right(map, p.end);
    let x = stitched_in(map, p, a);
    let new = inserted(map, p, a);
    lemma_starts_upto(map, texts, a, p.start);
    lemma_ends_before(map, texts, a, p.end);
    lemma_stitched_in(map, texts, p, d, a);
    assert(new[n] == x);
    if covered(new, q) {
        let k = choose|k: int| 0 <= k < new.len() && (#[trigger] new[k]).start <= q < new[k].end;
        if k < n {
            assert(new[k] == map[k]);
        } else if k > n {
            assert(new[k] == map[k - n - 1 + m]);
        } else if q < p.start {
            assert(map[b - 1].start <= q < map[b - 1].end);
        } else if q >= p.end {
            assert(map[e].start <= q < map[e].end);
        }
    }
    if p.start <= q < p.end {
        assert(new[n].start <= q < new[n].end);
    }
    if covered(map, q) {
        let k = choose|k: int| 0 <= k < map.len() && (#[trigger] map[k]).start <= q < map[k].end;
        if k < n {
            assert(new[k] == map[k]);
        } else if k >= m {
            assert(new[k + n + 1 - m] == map[k]);
        } else {
            if b <= k < e {
                assert(map[k].start > p.start && map[k].end < p.end);
            }
            assert(new[n].start <= q < new[n].end);
        }
    }
}

/// A new patch that tells the truth about a file leaves all of them true, and covers
/// the bytes that it is about besides those that were covered before.
pub proof fn lemma_inserted_true(map: Seq<Patch>, p: Patch, f: Seq<u8>, a: Advances)
    requires
        true_of(map, f, a),
        p.start < p.end <= f.len(),
        p.end <= LIMIT,
        describes(p, f.subrange(p.start, p.end), a),
        fits(map, p.start, p.end),
    ensures
        true_of(inserted(map, p, a), f, a),
        forall|q: int| #[trigger]
            covered(inserted(map, p, a), q) == (covered(map, q) || p.start <= q < p.end),
{
    let texts = pieces(map, f);
    let d = f.subrange(p.start, p.end);
    let n = kept_left(map, p.start);
    let m = kept_right(map, p.end);
    let new = inserted(map, p, a);
    let new_texts = inserted_texts(map, texts, p.start, p.end, d);
    lemma_stitched_in(map, texts, p, d, a);
    lemma_inserted(map, texts, p, d, a);
    lemma_stitched_piece(map, p, f, a);
    assert forall|k: int| 0 <= k < new.len() implies (#[trigger] new[k]).end <= f.len()
        && new_texts[k] == f.subrange(new[k].start, new[k].end) by {
        if k < n {
            assert(new[k] == map[k] && new_texts[k] == texts[k]);
        } else if k > n {
            let o = k - n - 1 + m;
            assert(new[k] == map[o] && new_texts[k] == texts[o]);
        }
    }
    assert(new_texts =~= pieces(new, f));
    assert forall|q: int| #[trigger] covered(new, q) == (covered(map, q) || p.start <= q < p.end) by {
        lemma_inserted_covers(map, texts, p, d, a, q);
    }
}

/// Processing a piece of a file keeps the patches true of it. Afterwards they cover the
/// whole piece, and nothing besides but what they covered before.
pub proof fn lemma_processed_true(
    map: Seq<Patch>,
    f: Seq<u8>,
    offset: int,
    data: Seq<u8>,
    from: int,
    n: int,
    a: Advances,
)
    requires
        true_of(map, f, a),
        0 <= offset <= from,
        from <= offset + data.len() <= f.len(),
        offset + data.len() <= LIMIT,
        data == f.subrange(offset, offset + data.len()),
    ensures
        ({
            let new = processed(map, offset, data, from, n, a);
            &&& true_of(new, f, a)
            &&& forall|q: int| #[trigger]
                covered(new, q) == (covered(map, q) || from <= q < offset + data.len())
        }),
    decreases offset + data.len() - from,
{
    let end = offset + data.len();
    let l = hole_start(map, from);
    let r = hole_end(map, l, end);
    lemma_hole(map, pieces(map, f), a, from, end);
    if l < end {
        let s = data.subrange(l - offset, r - offset);
        assert(s =~= f.subrange(l, r));
        lemma_created(l, s, n, a);
        let p = created(l, s, n, a);
        lemma_inserted_true(map, p, f, a);
        lemma_processed_true(inserted(map, p, a), f, offset, data, r, n, a);
        let new = processed(map, offset, data, from, n, a);
        assert forall|q: int| #[trigger] covered(new, q) == (covered(map, q) || from <= q < end) by {
            assert(covered(inserted(map, p, a), q) == (covered(map, q) || l <= q < r));
            if from <= q < l {
                assert(covered(map, q));
            }
        }
    } else {
        assert forall|q: int| #[trigger] covered(map, q) == (covered(map, q) || from <= q < end) by {
            if from <= q < end {
                assert(covered(map, q));
            }
        }
    }
}

} // verus!
