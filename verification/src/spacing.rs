//! How far the anchors of a stitched line map are apart.

use crate::layout::Advances;
use crate::seams::Spot;
use crate::stitched::{created, noted};
use crate::strict::{glyph_len, is_edge, lemma_read_to_edge, place_at};
use vstd::prelude::*;

verus! {

/// Whether no two neighbors among some spots are more than `most` bytes apart.
pub open spec fn close_spots(spots: Seq<Spot>, most: int) -> bool {
    forall|i: int, j: int|
        0 <= i < spots.len() && j == i + 1 && j < spots.len() ==> (#[trigger] spots[j]).offset - (
        #[trigger] spots[i]).offset <= most
}

/// The places that are noted from `p` on are not far apart, nor is the first one from `p`, nor
/// the last one from the end.
proof fn lemma_noted_close(s: Seq<u8>, p: int, acc: int, n: int, offset: int, a: Advances)
    requires
        is_edge(s, p),
        0 <= acc,
        1 <= n,
    ensures
        ({
            let spots = noted(s, p, acc, n, offset, a);
            let end = offset + s.len();
            &&& spots.len() > 0 && acc >= n ==> spots[0].offset == offset + p
            &&& spots.len() > 0 && acc < n ==> spots[0].offset <= offset + p + (n - acc) + 3
            &&& spots.len() > 0 ==> end - spots.last().offset <= n + 3
            &&& spots.len() == 0 ==> p == s.len() || s.len() - p <= n - acc + 3
            &&& close_spots(spots, n + 3)
        }),
    decreases s.len() - p,
{
    if p < s.len() {
        let k = glyph_len(s, p) as int;
        lemma_read_to_edge(s, p);
        let spots = noted(s, p, acc, n, offset, a);
        if acc >= n {
            let rest = noted(s, p + k, acc + k - n, n, offset, a);
            lemma_noted_close(s, p + k, acc + k - n, n, offset, a);
            let spot = Spot { offset: offset + p, place: place_at(s, p, a, offset == 0) };
            assert(spots == seq![spot] + rest);
            if rest.len() > 0 {
                assert(spots.last() == rest.last());
            }
            assert forall|i: int, j: int|
                0 <= i < spots.len() && j == i + 1 && j < spots.len() implies (
            #[trigger] spots[j]).offset - (#[trigger] spots[i]).offset <= n + 3 by {
                assert(spots[j] == rest[j - 1]);
                if i > 0 {
                    assert(spots[i] == rest[i - 1]);
                }
            }
        } else {
            lemma_noted_close(s, p + k, acc + k, n, offset, a);
        }
    }
}

/// The anchors of a segment that was mapped on its own are dense enough to look positions up:
/// the first one is at its start, and no part of it that is longer than `n` bytes, and the rest
/// of a character, is without one.
pub proof fn lemma_created_close(offset: int, s: Seq<u8>, n: int, a: Advances)
    requires
        1 <= n,
        s.len() > 0,
    ensures
        ({
            let p = created(offset, s, n, a);
            &&& p.spots.len() > 0
            &&& p.spots[0].offset == p.start
            &&& p.end - p.spots.last().offset <= n + 3
            &&& close_spots(p.spots, n + 3)
        }),
{
    assert(is_edge(s, 0));
    lemma_noted_close(s, 0, n, n, offset, a);
}

} // verus!
