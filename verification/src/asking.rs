//! What is asked for next: which bytes of the file are loaded, and in what order.

use crate::filling::{covered, spans_byte};
use crate::linemap::{mapped_spans, Mapped};
use crate::loaded::{is_job, next_range, range_to_load, Job, LoadedData};
use crate::runs::{covers, held, spans, Run};
use crate::surroundings::{around, first_past, inside, Surroundings};
use vstd::prelude::*;

verus! {

/// Whether ranges lie in a file of `size` bytes, in order, none empty and none touching
/// another.
pub open spec fn spaced(ranges: Seq<(int, int)>, size: int) -> bool {
    &&& forall|i: int|
        0 <= i < ranges.len() ==> 0 <= (#[trigger] ranges[i]).0 < ranges[i].1 <= size
    &&& forall|i: int, j: int|
        0 <= i < j < ranges.len() ==> (#[trigger] ranges[i]).1 < (#[trigger] ranges[j]).0
}

/// Whether the range at `i` holds `p`.
pub open spec fn range_holds(ranges: Seq<(int, int)>, i: int, p: int) -> bool {
    0 <= i < ranges.len() && ranges[i].0 <= p < ranges[i].1
}

/// Whether some range holds `p`.
pub open spec fn in_ranges(ranges: Seq<(int, int)>, p: int) -> bool {
    exists|i: int| range_holds(ranges, i, p)
}

/// What lies around an offset is all loaded, or all of it is not, and it goes as far as that.
pub proof fn lemma_around(ranges: Seq<(int, int)>, size: int, offset: int, s: Surroundings)
    requires
        spaced(ranges, size),
        around(ranges, size, offset, s),
        0 < size,
        0 <= offset,
    ensures
        match s {
            Surroundings::In(l, h) => {
                &&& 0 <= l <= inside(size, offset) < h <= size
                &&& forall|p: int| l <= p < h ==> #[trigger] in_ranges(ranges, p)
                &&& !in_ranges(ranges, l - 1)
                &&& !in_ranges(ranges, h as int)
            },
            Surroundings::Out(l, h) => {
                &&& 0 <= l <= inside(size, offset) < h <= size
                &&& forall|p: int| l <= p < h ==> !#[trigger] in_ranges(ranges, p)
                &&& l > 0 ==> in_ranges(ranges, l - 1)
                &&& h < size ==> in_ranges(ranges, h as int)
            },
        },
{
    let q = inside(size, offset);
    let i = choose|i: int| #[trigger]
        first_past(ranges, i, q) && match s {
            Surroundings::In(l, h) => {
                &&& i < ranges.len()
                &&& ranges[i].0 <= q
                &&& l == ranges[i].0
                &&& h == ranges[i].1
            },
            Surroundings::Out(l, h) => {
                &&& i < ranges.len() ==> ranges[i].0 > q
                &&& l == if i == 0 {
                    0
                } else {
                    ranges[i - 1].1
                }
                &&& h == if i < ranges.len() {
                    ranges[i].0
                } else {
                    size
                }
            },
        };
    match s {
        Surroundings::In(l, h) => {
            assert forall|p: int| l <= p < h implies #[trigger] in_ranges(ranges, p) by {
                assert(range_holds(ranges, i, p));
            }
            let (before, after) = (l - 1, h as int);
            if in_ranges(ranges, before) {
                let j = choose|j: int| range_holds(ranges, j, before);
                assert(j != i);
            }
            if in_ranges(ranges, after) {
                let j = choose|j: int| range_holds(ranges, j, after);
                assert(j != i);
            }
        },
        Surroundings::Out(l, h) => {
            assert forall|p: int| l <= p < h implies !#[trigger] in_ranges(ranges, p) by {
                if in_ranges(ranges, p) {
                    let j = choose|j: int| range_holds(ranges, j, p);
                    if 0 < i && j < i - 1 {
                        assert(ranges[j].1 < ranges[i - 1].0);
                    } else if i < j && i < ranges.len() {
                        assert(ranges[i].1 < ranges[j].0);
                    }
                }
            }
            if l > 0 {
                assert(range_holds(ranges, i - 1, l - 1));
            }
            if h < size {
                assert(range_holds(ranges, i, h as int));
            }
        },
    }
}

/// What the ranges of a store hold is what is held.
proof fn lemma_spans_held(runs: Seq<Run>, p: int)
    ensures
        in_ranges(spans(runs), p) <==> held(runs, p),
{
    if in_ranges(spans(runs), p) {
        let i = choose|i: int| range_holds(spans(runs), i, p);
        assert(covers(runs, i, p));
    }
    if held(runs, p) {
        let i = choose|i: int| covers(runs, i, p);
        assert(range_holds(spans(runs), i, p));
    }
}

/// What the ranges of a map hold is what is covered.
proof fn lemma_spans_covered(map: Seq<Mapped>, p: int)
    ensures
        in_ranges(mapped_spans(map), p) <==> covered(map, p),
{
    if in_ranges(mapped_spans(map), p) {
        let i = choose|i: int| range_holds(mapped_spans(map), i, p);
        assert(spans_byte(map, i, p));
    }
    if covered(map, p) {
        let i = choose|i: int| spans_byte(map, i, p);
        assert(range_holds(mapped_spans(map), i, p));
    }
}

impl LoadedData {
    /// Whether all that is loaded lies in the file, and the screen and the selection do too.
    pub open spec fn in_file(self, hot: (i64, i64, i64)) -> bool {
        let size = self.linemap.file_size as int;
        &&& self.wf()
        &&& self.data.file_size == size
        &&& spaced(mapped_spans(self.linemap@), size)
        &&& spaced(spans(self.data@), size)
        &&& 0 <= hot.0 <= hot.1 <= hot.2
        &&& hot.1 < size
        &&& self.sel matches Some(sel) ==> 0 <= sel.start && sel.end <= size
    }
}

/// What is around the middle of the screen and the start of the selection, in the store and
/// in the map.
proof fn lemma_informs(
    d: LoadedData,
    hot: (i64, i64, i64),
    lm: Surroundings,
    sd: Surroundings,
    sel: Surroundings,
)
    requires
        d.informs(hot, lm, sd, sel),
        d.in_file(hot),
    ensures
        ({
            let size = d.linemap.file_size as int;
            let mapped = |p: int| covered(d.linemap@, p);
            let stored = |p: int| held(d.data@, p);
            &&& surrounds(mapped, mapped, size, hot.1 as int, lm)
            &&& surrounds(stored, stored, size, hot.1 as int, sd)
            &&& d.sel matches Some(r) ==> r.start < r.end ==> surrounds(
                stored,
                stored,
                size,
                r.start as int,
                sel,
            )
        }),
{
    let size = d.linemap.file_size as int;
    assert forall|p: int| #[trigger] held(d.data@, p) == in_ranges(spans(d.data@), p) by {
        lemma_spans_held(d.data@, p);
    }
    assert forall|p: int| #[trigger]
        covered(d.linemap@, p) == in_ranges(mapped_spans(d.linemap@), p) by {
        lemma_spans_covered(d.linemap@, p);
    }
    lemma_around(mapped_spans(d.linemap@), size, hot.1 as int, lm);
    lemma_around(spans(d.data@), size, hot.1 as int, sd);
    if let Some(r) = d.sel {
        if r.start < r.end {
            lemma_around(spans(d.data@), size, r.start as int, sel);
        }
    }
}

/// Whether `s` tells what lies around the byte at `q`: a range of bytes that are there, up to
/// ones that are not, or a range of bytes that are not, up to ones that are there in part.
pub open spec fn surrounds(
    there: spec_fn(int) -> bool,
    partly: spec_fn(int) -> bool,
    size: int,
    q: int,
    s: Surroundings,
) -> bool {
    match s {
        Surroundings::In(l, h) => {
            &&& 0 <= l <= q < h <= size
            &&& forall|p: int| l <= p < h ==> #[trigger] there(p)
            &&& !there(l - 1)
            &&& !there(h as int)
        },
        Surroundings::Out(l, h) => {
            &&& 0 <= l <= q < h <= size
            &&& forall|p: int| l <= p < h ==> !#[trigger] there(p)
            &&& l > 0 ==> partly(l - 1)
            &&& h < size ==> partly(h as int)
        },
    }
}

/// Whether `[a, b)` is a range of at most `max_len` bytes to ask for next, where `there` tells
/// which bytes of the file there are.
///
/// Where the middle of the screen is not there, it is a range around it that is not there
/// either, as long as it may be or as what is there in part allows. Where it is there, the
/// range goes on from what is there around it, on the side on which what is missing is nearer
/// to the screen. It is empty only where nothing is missing.
pub open spec fn asks_around(
    there: spec_fn(int) -> bool,
    partly: spec_fn(int) -> bool,
    size: int,
    hot: (i64, i64, i64),
    max_len: int,
    a: int,
    b: int,
) -> bool {
    let (left, mid, right) = hot;
    &&& 0 <= a
    &&& b <= size
    &&& b - a <= max_len
    &&& !there(mid as int) ==> {
        &&& a <= mid < b
        &&& forall|p: int| a <= p < b ==> !#[trigger] there(p)
        &&& b - a == max_len || (a == 0 || partly(a - 1)) && (b == size || partly(b))
    }
    &&& there(mid as int) ==> {
        ||| a >= b && forall|p: int| 0 <= p < size ==> #[trigger] there(p)
        ||| {
            &&& a < b <= mid
            &&& a == 0 || b - a == max_len
            &&& !there(b - 1)
            &&& forall|p: int| b <= p <= mid ==> #[trigger] there(p)
            &&& forall|p: int|
                mid < p < size && !#[trigger] there(p) ==> left - b < p - right
        }
        ||| {
            &&& mid < a < b
            &&& b == size || b - a == max_len
            &&& !there(a)
            &&& forall|p: int| mid <= p < a ==> #[trigger] there(p)
            &&& forall|p: int|
                0 <= p < mid && !#[trigger] there(p) ==> left - (p + 1) >= a - right
        }
    }
}

/// The range that is made of what lies around the middle of the screen is one to ask for.
proof fn lemma_range_asks(
    there: spec_fn(int) -> bool,
    partly: spec_fn(int) -> bool,
    size: int,
    hot: (i64, i64, i64),
    max_len: int,
    s: Surroundings,
)
    requires
        surrounds(there, partly, size, hot.1 as int, s),
        !there(-1),
        !there(size),
        0 < max_len,
        0 <= hot.0 <= hot.1 <= hot.2,
    ensures
        ({
            let (a, b) = range_to_load(s, hot, max_len, size);
            asks_around(there, partly, size, hot, max_len, a, b)
        }),
{
    let (a, b) = range_to_load(s, hot, max_len, size);
    assert(s is In <==> there(hot.1 as int));
}

/// Whether a byte of the file is both stored and mapped.
pub open spec fn is_done(d: LoadedData, p: int) -> bool {
    held(d.data@, p) && covered(d.linemap@, p)
}

/// What is asked for next.
///
/// What is missing around the screen, in the store or in the map, comes first and is to be
/// stored. Else all that is closer to the screen than the radius is there, and the first byte
/// of the selection that is not stored is asked for, to be stored, with what comes after it,
/// unless the selection is too long. Else all of the selection is stored, and what is not
/// mapped around the screen is asked for, but not to be stored.
pub proof fn lemma_asks(
    d: LoadedData,
    hot: (i64, i64, i64),
    lm: Surroundings,
    sd: Surroundings,
    sel: Surroundings,
    max_len: int,
    radius: int,
    max_sel: int,
)
    requires
        d.informs(hot, lm, sd, sel),
        d.in_file(hot),
        0 < max_len,
        0 < radius,
    ensures
        ({
            let size = d.linemap.file_size as int;
            let ((a, b), store) = next_range(
                hot,
                lm,
                sd,
                d.sel,
                sel,
                max_len,
                radius,
                max_sel,
                size,
            );
            let close_is_done = forall|p: int|
                0 <= p < size && hot.0 - radius < p < hot.2 + radius ==> #[trigger] is_done(d, p);
            ||| {
                &&& store
                &&& hot.0 - b < radius
                &&& a - hot.2 <= radius
                &&& asks_around(
                    |p: int| is_done(d, p),
                    |p: int| held(d.data@, p) || covered(d.linemap@, p),
                    size,
                    hot,
                    max_len,
                    a,
                    b,
                )
            }
            ||| {
                &&& close_is_done
                &&& store
                &&& d.sel matches Some(r) && {
                    &&& r.end - r.start <= max_sel
                    &&& r.start <= a < b <= r.end
                    &&& !held(d.data@, a)
                    &&& forall|p: int| r.start <= p < a ==> #[trigger] held(d.data@, p)
                    &&& b == r.end || b - a == max_len
                }
            }
            ||| {
                &&& close_is_done
                &&& !store
                &&& d.sel matches Some(r) ==> r.end - r.start > max_sel || forall|p: int|
                    r.start <= p < r.end ==> #[trigger] held(d.data@, p)
                &&& asks_around(
                    |p: int| covered(d.linemap@, p),
                    |p: int| covered(d.linemap@, p),
                    size,
                    hot,
                    max_len,
                    a,
                    b,
                )
            }
        }),
{
    let size = d.linemap.file_size as int;
    let mapped = |p: int| covered(d.linemap@, p);
    let stored = |p: int| held(d.data@, p);
    let done = |p: int| is_done(d, p);
    let partly = |p: int| held(d.data@, p) || covered(d.linemap@, p);
    lemma_informs(d, hot, lm, sd, sel);
    let near = lm.meet(sd);
    assert(surrounds(done, partly, size, hot.1 as int, near)) by {
        match near {
            Surroundings::In(l, h) => {
                assert forall|p: int| l <= p < h implies #[trigger] done(p) by {
                    assert(mapped(p) && stored(p));
                }
            },
            Surroundings::Out(l, h) => {
                assert forall|p: int| l <= p < h implies !#[trigger] done(p) by {
                    assert(!mapped(p) || !stored(p));
                }
            },
        }
    }
    assert(!mapped(-1) && !mapped(size)) by {
        lemma_spans_covered(d.linemap@, -1);
        lemma_spans_covered(d.linemap@, size);
    }
    lemma_range_asks(done, partly, size, hot, max_len, near);
    lemma_range_asks(mapped, mapped, size, hot, max_len, lm);
    let (na, nb) = range_to_load(near, hot, max_len, size);
    if !(hot.0 - nb < radius && na - hot.2 <= radius) {
        assert forall|p: int|
            0 <= p < size && hot.0 - radius < p < hot.2 + radius implies #[trigger] is_done(d, p) by {
            assert(done(p));
        }
        if let Some(r) = d.sel {
            if r.start < r.end {
                match sel {
                    Surroundings::In(l, h) => {
                        assert forall|p: int| l <= p < h implies #[trigger] held(d.data@, p) by {
                            assert(stored(p));
                        }
                        assert(!stored(h as int));
                    },
                    Surroundings::Out(l, h) => {
                        assert(!stored(r.start as int));
                    },
                }
            }
        }
    }
}

/// Whether a byte that is asked for is missing: in the map, or for what is to be stored, in
/// the store or in the map.
pub open spec fn is_missing(d: LoadedData, store: bool, p: int) -> bool {
    if store {
        !is_done(d, p)
    } else {
        !covered(d.linemap@, p)
    }
}

/// A job asks for something that is missing, in the file and no more than may be read at once.
/// There is none only where all of the file is mapped.
pub proof fn lemma_job(
    d: LoadedData,
    hot: (i64, i64, i64),
    lm: Surroundings,
    sd: Surroundings,
    sel: Surroundings,
    max_len: int,
    radius: int,
    max_sel: int,
    job: Job,
)
    requires
        d.informs(hot, lm, sd, sel),
        d.in_file(hot),
        0 < max_len,
        0 < radius,
        is_job(
            next_range(
                hot,
                lm,
                sd,
                d.sel,
                sel,
                max_len,
                radius,
                max_sel,
                d.linemap.file_size as int,
            ),
            job,
        ),
    ensures
        match job {
            Job::Load { offset, len, store, .. } => {
                &&& 0 <= offset
                &&& 0 < len <= max_len
                &&& offset + len <= d.linemap.file_size
                &&& exists|p: int| offset <= p < offset + len && #[trigger] is_missing(d, store, p)
            },
            Job::Idle => forall|p: int|
                0 <= p < d.linemap.file_size ==> #[trigger] covered(d.linemap@, p),
        },
{
    lemma_asks(d, hot, lm, sd, sel, max_len, radius, max_sel);
    let size = d.linemap.file_size as int;
    let ((a, b), store) = next_range(hot, lm, sd, d.sel, sel, max_len, radius, max_sel, size);
    let done = |p: int| is_done(d, p);
    let mapped = |p: int| covered(d.linemap@, p);
    let mid = hot.1 as int;
    if a < b {
        assert(is_missing(d, store, a) == if store {
            !done(a)
        } else {
            !mapped(a)
        });
        assert(is_missing(d, store, mid) == if store {
            !done(mid)
        } else {
            !mapped(mid)
        });
        assert(is_missing(d, store, b - 1) == if store {
            !done(b - 1)
        } else {
            !mapped(b - 1)
        });
    } else {
        assert forall|p: int| 0 <= p < size implies #[trigger] covered(d.linemap@, p) by {
            assert(done(p) ==> mapped(p));
            assert(mapped(p) || done(p));
        }
    }
}

} // verus!
