//! What is known of a file after pieces of it were taken in does not depend on the
//! order in which they came.

use crate::filling::{covered, processed, settled_map};
use crate::layout::{Advances, Walk};
use crate::linemap::Mapped;
use crate::linemapper::mark_at;
use crate::marks::LIMIT;
use crate::runs::{
    agrees, bytes, covers, held, lemma_bytes_at, lemma_loaded, lemma_loaded_agrees, lemma_read_back,
    loaded, tidy, Run,
};
use crate::truth::{
    describes_all, is_clean, lemma_processed_clean, lemma_processed_truth, lemma_whole, position_in,
};
use crate::utf8::{announced_len, is_boundary, is_sequence, lead_len, lemma_lead_is_boundary};
use vstd::prelude::*;

verus! {

/// Whether the pieces, given by where they start and end, lie in a file of `size` bytes.
pub open spec fn within(pieces: Seq<(int, int)>, size: int) -> bool {
    forall|i: int|
        0 <= i < pieces.len() ==> 0 <= (#[trigger] pieces[i]).0 <= pieces[i].1 <= size
}

/// Whether the piece at `i` holds the byte at `p`.
pub open spec fn piece_holds(pieces: Seq<(int, int)>, i: int, p: int) -> bool {
    0 <= i < pieces.len() && pieces[i].0 <= p < pieces[i].1
}

/// Whether some piece holds the byte at `p`.
pub open spec fn given(pieces: Seq<(int, int)>, p: int) -> bool {
    exists|i: int| piece_holds(pieces, i, p)
}

/// The loaded runs after these pieces of a file were loaded, one after the other.
pub open spec fn loaded_all(file: Seq<u8>, pieces: Seq<(int, int)>) -> Seq<Run>
    decreases pieces.len(),
{
    if pieces.len() == 0 {
        Seq::empty()
    } else {
        let (lo, hi) = pieces.last();
        loaded(loaded_all(file, pieces.drop_last()), lo, file.subrange(lo, hi))
    }
}

/// Whatever pieces of a file are loaded, in whatever order: the bytes in them are held,
/// with the values that they have in the file, and no others.
pub proof fn lemma_loaded_all(file: Seq<u8>, pieces: Seq<(int, int)>)
    requires
        file.len() <= i64::MAX,
        within(pieces, file.len() as int),
    ensures
        tidy(loaded_all(file, pieces)),
        agrees(loaded_all(file, pieces), file),
        forall|p: int| #[trigger] held(loaded_all(file, pieces), p) <==> given(pieces, p),
    decreases pieces.len(),
{
    let out = loaded_all(file, pieces);
    if pieces.len() == 0 {
        assert(forall|i: int, p: int| !covers(out, i, p));
    } else {
        let n = pieces.len() - 1;
        let rest = pieces.drop_last();
        let (lo, hi) = pieces[n];
        let data = file.subrange(lo, hi);
        assert forall|i: int| 0 <= i < rest.len() implies 0 <= (#[trigger] rest[i]).0 <= rest[i].1
            <= file.len() by {
            assert(rest[i] == pieces[i]);
        }
        lemma_loaded_all(file, rest);
        let was = loaded_all(file, rest);
        lemma_loaded(was, lo, data);
        lemma_read_back(was, lo, data);
        lemma_loaded_agrees(was, lo, data, file);
        assert forall|p: int| #[trigger] held(out, p) <==> given(pieces, p) by {
            if held(out, p) {
                if lo <= p < hi {
                    assert(piece_holds(pieces, n, p));
                } else {
                    assert(held(was, p));
                    assert(given(rest, p));
                    let i = choose|i: int| piece_holds(rest, i, p);
                    assert(piece_holds(pieces, i, p));
                }
            }
            if given(pieces, p) {
                let i = choose|i: int| piece_holds(pieces, i, p);
                if i < n {
                    assert(piece_holds(rest, i, p));
                    assert(held(was, p));
                }
            }
        }
    }
}

/// When all of a file was loaded, in whatever pieces and whatever order, it is held in one
/// run.
pub proof fn lemma_loaded_whole(file: Seq<u8>, pieces: Seq<(int, int)>)
    requires
        0 < file.len() <= i64::MAX,
        within(pieces, file.len() as int),
        forall|p: int| 0 <= p < file.len() ==> #[trigger] given(pieces, p),
    ensures
        loaded_all(file, pieces) == seq![Run { at: 0, data: file }],
{
    let out = loaded_all(file, pieces);
    let n = file.len() as int;
    lemma_loaded_all(file, pieces);
    assert forall|p: int| 0 <= p < n implies #[trigger] held(out, p) by {
        assert(given(pieces, p));
    }
    assert(held(out, 0));
    let i = choose|i: int| covers(out, i, 0);
    if i > 0 {
        assert(out[0].end() < out[i].at);
    }
    let e = out[0].end();
    if e < n {
        assert(held(out, e));
        let j = choose|j: int| covers(out, j, e);
        if j > 0 {
            assert(out[0].end() < out[j].at);
        }
    }
    assert forall|j: int| 0 <= j < out.len() implies (#[trigger] out[j]).end() <= n by {
        let last = out[j].end() - 1;
        assert(covers(out, j, last));
        assert(held(out, last));
    }
    if out.len() > 1 {
        assert(out[0].end() < out[1].at);
        assert(out[1].end() <= n);
    }
    assert forall|k: int| 0 <= k < n implies out[0].data[k] == file[k] by {
        assert(covers(out, 0, k));
        assert(held(out, k));
        lemma_bytes_at(out, 0, k);
        assert(bytes(out)[k] == file[k]);
    }
    assert(out[0].data =~= file);
    assert(out =~= seq![Run { at: 0, data: file }]);
}

/// What a line map knows after these pieces of a file were processed, one after the other.
pub open spec fn processed_all(
    file: Seq<u8>,
    pieces: Seq<(int, int)>,
    a: Advances,
    gap: int,
) -> Seq<Mapped>
    decreases pieces.len(),
{
    if pieces.len() == 0 {
        Seq::empty()
    } else {
        let (lo, hi) = pieces.last();
        processed(
            processed_all(file, pieces.drop_last(), a, gap),
            file.len() as int,
            lo,
            file.subrange(lo, hi),
            a,
            gap,
        )
    }
}

/// Whether the piece at `i` shows to which character the byte at `p` belongs: all of its
/// bytes do if it starts and ends between characters, or else those that are not among the
/// three at either end, unless that is the end of the file.
pub open spec fn piece_shows(file: Seq<u8>, pieces: Seq<(int, int)>, i: int, p: int) -> bool {
    let (lo, hi) = pieces[i];
    &&& piece_holds(pieces, i, p)
    &&& is_clean(file.subrange(lo, hi)) || {
        &&& lo == 0 || lo + 3 <= p
        &&& hi == file.len() || p < hi - 3
    }
}

/// Whether some piece shows to which character the byte at `p` belongs.
pub open spec fn shown_by(file: Seq<u8>, pieces: Seq<(int, int)>, p: int) -> bool {
    exists|i: int| piece_shows(file, pieces, i, p)
}

/// Whatever pieces of a file are processed, in whatever order: the map is true, its
/// segments are apart, and every byte that some piece shows is covered.
pub proof fn lemma_processed_all(file: Seq<u8>, pieces: Seq<(int, int)>, a: Advances, gap: int)
    requires
        file.len() <= LIMIT,
        within(pieces, file.len() as int),
    ensures
        settled_map(processed_all(file, pieces, a, gap)),
        describes_all(processed_all(file, pieces, a, gap), file, a),
        forall|i: int, p: int| #[trigger]
            piece_shows(file, pieces, i, p) ==> covered(processed_all(file, pieces, a, gap), p),
    decreases pieces.len(),
{
    let out = processed_all(file, pieces, a, gap);
    if pieces.len() > 0 {
        let n = pieces.len() - 1;
        let rest = pieces.drop_last();
        let (lo, hi) = pieces[n];
        assert forall|i: int| 0 <= i < rest.len() implies 0 <= (#[trigger] rest[i]).0 <= rest[i].1
            <= file.len() by {
            assert(rest[i] == pieces[i]);
        }
        lemma_processed_all(file, rest, a, gap);
        let was = processed_all(file, rest, a, gap);
        lemma_processed_truth(was, file, lo, hi, a, gap);
        if is_clean(file.subrange(lo, hi)) {
            lemma_processed_clean(was, file, lo, hi, a, gap);
        }
        assert forall|i: int, p: int| #[trigger] piece_shows(file, pieces, i, p) implies covered(
            out,
            p,
        ) by {
            if i < n {
                assert(piece_shows(file, rest, i, p));
                assert(covered(was, p));
            }
        }
    }
}

/// When some piece shows each byte of a file, the map is one segment that goes from the
/// start of the file to its end, has the positions and the widest line of the text, and no
/// line whose start it does not know. The order of the pieces does not matter.
pub proof fn lemma_processed_whole(file: Seq<u8>, pieces: Seq<(int, int)>, a: Advances, gap: int)
    requires
        0 < file.len() <= LIMIT,
        within(pieces, file.len() as int),
        forall|p: int| 0 <= p < file.len() ==> #[trigger] shown_by(file, pieces, p),
    ensures
        ({
            let map = processed_all(file, pieces, a, gap);
            let end = position_in(file, a, file.len() as int);
            &&& map.len() == 1
            &&& describes_all(map, file, a)
            &&& map[0].start() == 0
            &&& map[0].end() == file.len()
            &&& map[0].marks[0] == mark_at(0, Walk::start(true))
            &&& map[0].marks.last() == mark_at(file.len() as int, end)
            &&& map[0].widest == end.end_line().widest
            &&& map[0].rel_width == 0
            &&& forall|k: int| 0 <= k < map[0].marks.len() ==> (#[trigger] map[0].marks[k]).abs
        }),
{
    let map = processed_all(file, pieces, a, gap);
    lemma_processed_all(file, pieces, a, gap);
    assert forall|p: int| 0 <= p < file.len() implies #[trigger] covered(map, p) by {
        assert(shown_by(file, pieces, p));
    }
    lemma_whole(map, file, a);
}

/// Whether a file is made of complete sequences only.
pub open spec fn is_text(file: Seq<u8>) -> bool {
    forall|p: int|
        #[trigger] is_boundary(file, p) && p < file.len() ==> is_sequence(file, p, lead_len(file[p]))
}

/// A piece of text that starts and ends between characters shows that it does.
pub proof fn lemma_text_is_clean(file: Seq<u8>, lo: int, hi: int)
    requires
        is_text(file),
        is_boundary(file, lo),
        is_boundary(file, hi),
        lo <= hi,
    ensures
        is_clean(file.subrange(lo, hi)),
{
    let d = file.subrange(lo, hi);
    let n = d.len() as int;
    if n >= 1 {
        assert(is_sequence(file, lo, lead_len(file[lo])));
        assert(d[0] == file[lo]);
        lemma_no_straddle(file, hi - 1, hi);
        assert(d[n - 1] == file[hi - 1]);
    }
    if n >= 2 {
        lemma_no_straddle(file, hi - 2, hi);
        assert(d[n - 2] == file[hi - 2]);
    }
    if n >= 3 {
        lemma_no_straddle(file, hi - 3, hi);
        assert(d[n - 3] == file[hi - 3]);
    }
}

/// In a text, the character that a byte announces ends at or before the next boundary.
proof fn lemma_no_straddle(file: Seq<u8>, p: int, hi: int)
    requires
        is_text(file),
        is_boundary(file, hi),
        0 <= p < hi,
    ensures
        announced_len(file[p]) <= hi - p,
{
    if announced_len(file[p]) > 1 {
        lemma_lead_is_boundary(file, p);
        assert(is_sequence(file, p, lead_len(file[p])));
    }
}

/// When a text was processed in pieces that start and end between characters and leave
/// nothing out, in whatever order, the map is one true segment.
pub proof fn lemma_text_whole(file: Seq<u8>, pieces: Seq<(int, int)>, a: Advances, gap: int)
    requires
        0 < file.len() <= LIMIT,
        is_text(file),
        within(pieces, file.len() as int),
        forall|i: int|
            0 <= i < pieces.len() ==> is_boundary(file, (#[trigger] pieces[i]).0) && is_boundary(
                file,
                pieces[i].1,
            ),
        forall|p: int| 0 <= p < file.len() ==> #[trigger] given(pieces, p),
    ensures
        ({
            let map = processed_all(file, pieces, a, gap);
            let end = position_in(file, a, file.len() as int);
            &&& map.len() == 1
            &&& describes_all(map, file, a)
            &&& map[0].start() == 0
            &&& map[0].end() == file.len()
            &&& map[0].marks[0] == mark_at(0, Walk::start(true))
            &&& map[0].marks.last() == mark_at(file.len() as int, end)
            &&& map[0].widest == end.end_line().widest
            &&& map[0].rel_width == 0
            &&& forall|k: int| 0 <= k < map[0].marks.len() ==> (#[trigger] map[0].marks[k]).abs
        }),
{
    assert forall|p: int| 0 <= p < file.len() implies #[trigger] shown_by(file, pieces, p) by {
        assert(given(pieces, p));
        let i = choose|i: int| piece_holds(pieces, i, p);
        lemma_text_is_clean(file, pieces[i].0, pieces[i].1);
        assert(piece_shows(file, pieces, i, p));
    }
    lemma_processed_whole(file, pieces, a, gap);
}

} // verus!
