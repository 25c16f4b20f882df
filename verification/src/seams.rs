//! Descriptions of pieces of a text that were read without what surrounds them, and how
//! two of them are put together.
//!
//! A character that was cut in two is not recognized on either side of the cut: each of
//! its bytes is taken for a replacement character. Putting two pieces together undoes
//! that.

use crate::layout::{Advances, REPLACEMENT_CHAR};
use crate::strict::{
    is_char, is_edge, lemma_lead_is_edge, lemma_part, lemma_read_after, lemma_read_cut,
    lemma_read_extend, lemma_read_nudged, lemma_read_part, lemma_read_stray, lemma_read_to_edge,
    place_at, read, Place,
};
use crate::utf8::{code_point, is_cont, lead_len};
use vstd::prelude::*;

verus! {

/// A known place.
pub struct Spot {
    pub offset: int,
    pub place: Place,
}

/// What is known of a piece of a text.
pub struct Patch {
    pub start: int,
    pub end: int,
    /// The first four bytes, as far as there are so many.
    pub first: Seq<u8>,
    /// The last four bytes, as far as there are so many.
    pub last: Seq<u8>,
    /// Whether the piece starts where the text does.
    pub y_absolute: bool,
    /// The place of the end.
    pub tail: Place,
    pub spots: Seq<Spot>,
}

/// The first four bytes of `s`, with zeros behind them where there are fewer.
pub open spec fn head_bytes(s: Seq<u8>) -> Seq<u8> {
    Seq::new(
        4,
        |i: int|
            if i < s.len() {
                s[i]
            } else {
                0
            },
    )
}

/// The last four bytes of `s`, with zeros before them where there are fewer.
pub open spec fn tail_bytes(s: Seq<u8>) -> Seq<u8> {
    Seq::new(
        4,
        |i: int|
            if i + s.len() >= 4 {
                s[s.len() - 4 + i]
            } else {
                0
            },
    )
}

/// Whether a known place is that of its byte in `s`.
pub open spec fn is_placed(spot: Spot, s: Seq<u8>, start: int, a: Advances) -> bool {
    &&& start <= spot.offset < start + s.len()
    &&& is_edge(s, spot.offset - start)
    &&& spot.place == place_at(s, spot.offset - start, a, start == 0)
}

/// Whether a patch tells the truth about the text `s`.
pub open spec fn describes(p: Patch, s: Seq<u8>, a: Advances) -> bool {
    &&& 0 <= p.start
    &&& p.end == p.start + s.len()
    &&& p.first == head_bytes(s)
    &&& p.last == tail_bytes(s)
    &&& p.y_absolute == (p.start == 0)
    &&& p.tail == place_at(s, s.len() as int, a, p.start == 0)
    &&& s.len() > 0 ==> p.spots.len() > 0 && p.spots[0].offset == p.start
    &&& forall|k: int| 0 <= k < p.spots.len() ==> is_placed(#[trigger] p.spots[k], s, p.start, a)
    &&& forall|i: int, j: int|
        0 <= i <= j < p.spots.len() ==> (#[trigger] p.spots[i]).offset <= (
        #[trigger] p.spots[j]).offset
}

/// Whether the character at `i` of eight bytes reaches over their middle.
pub open spec fn straddles(buf: Seq<u8>, i: int) -> bool {
    is_char(buf, i, lead_len(buf[i])) && i + lead_len(buf[i]) > 4
}

/// Where the character starts that reaches over the middle of eight bytes.
pub open spec fn cut_at(buf: Seq<u8>) -> Option<int> {
    if straddles(buf, 3) {
        Some(3)
    } else if straddles(buf, 2) {
        Some(2)
    } else if straddles(buf, 1) {
        Some(1)
    } else {
        None
    }
}

/// The spot with one that is inside a character moved back to where that starts, which
/// is at `at`.
pub open spec fn pulled(spot: Spot, at: int, rep: int) -> Spot {
    if spot.offset > at {
        Spot {
            offset: at,
            place: Place { x: spot.place.x - (spot.offset - at) * rep, ..spot.place },
        }
    } else {
        spot
    }
}

/// A spot of the right one of two patches, where the left one ends at `tail` and a
/// character of `k` bytes at `at` was cut, which moves what follows it by `d`.
pub open spec fn shifted(spot: Spot, tail: Place, at: int, k: int, d: int, rep: int) -> Spot {
    if spot.offset < at + k {
        pulled(Spot { offset: spot.offset, place: tail.followed_by(spot.place) }, at, rep)
    } else {
        Spot { offset: spot.offset, place: tail.followed_by(spot.place.nudged(d)) }
    }
}

/// A spot of the right one of two patches where no character was cut.
pub open spec fn moved_behind(spot: Spot, tail: Place) -> Spot {
    Spot { offset: spot.offset, place: tail.followed_by(spot.place) }
}

/// Two patches that touch as one.
pub open spec fn merged(l: Patch, r: Patch, a: Advances) -> Patch {
    let buf = l.last + r.first;
    let ln = l.end - l.start;
    let rn = r.end - r.start;
    let rep = a.of(REPLACEMENT_CHAR) as int;
    let first = if ln < 4 {
        l.first.take(ln) + r.first.take(4 - ln)
    } else {
        l.first
    };
    let last = if rn < 4 {
        l.last.skip(rn) + r.last.skip(4 - rn)
    } else {
        r.last
    };
    match cut_at(buf) {
        Some(i) => {
            let k = lead_len(buf[i]);
            let at = l.end + i - 4;
            let d = a.of(code_point(buf, i, k) as u32) - k * rep;
            Patch {
                start: l.start,
                end: r.end,
                first,
                last,
                y_absolute: l.y_absolute,
                tail: l.tail.followed_by(r.tail.nudged(d)),
                spots: Seq::new(l.spots.len(), |n: int| pulled(l.spots[n], at, rep)) + Seq::new(
                    r.spots.len(),
                    |n: int| shifted(r.spots[n], l.tail, at, k as int, d, rep),
                ),
            }
        },
        None => Patch {
            start: l.start,
            end: r.end,
            first,
            last,
            y_absolute: l.y_absolute,
            tail: l.tail.followed_by(r.tail),
            spots: l.spots + Seq::new(r.spots.len(), |n: int| moved_behind(r.spots[n], l.tail)),
        },
    }
}

/// The bytes around a cut tell whether a character was cut, and which one.
proof fn lemma_cut(u: Seq<u8>, v: Seq<u8>)
    ensures
        ({
            let buf = tail_bytes(u) + head_bytes(v);
            let s = u + v;
            match cut_at(buf) {
                Some(i) => {
                    let k = lead_len(buf[i]);
                    let j = u.len() + i - 4;
                    &&& 1 <= i < 4
                    &&& 2 <= k <= 4
                    &&& 0 <= j < u.len() < j + k <= s.len()
                    &&& lead_len(s[j]) == k
                    &&& is_char(s, j, k)
                    &&& code_point(s, j, k) == code_point(buf, i, k)
                    &&& code_point(buf, i, k) >= 0x80
                },
                None => is_edge(s, u.len() as int),
            }
        }),
{
    let buf = tail_bytes(u) + head_bytes(v);
    let s = u + v;
    let n = u.len() as int;
    match cut_at(buf) {
        Some(i) => {
            let k = lead_len(buf[i]);
            let j = n + i - 4;
            assert(straddles(buf, i));
            assert(j >= 0);
            assert(buf[i] == s[j]);
            assert forall|t: int| i < t < i + k implies #[trigger] buf[t] == s[n + t - 4] && n + t - 4
                < s.len() by {
                assert(t == i + 1 || t == i + 2 || t == i + 3);
                assert(is_cont(buf[t]));
            }
            assert(k >= 2 ==> buf[i + 1] == s[j + 1]);
            assert(k >= 3 ==> buf[i + 2] == s[j + 2]);
            assert(k >= 4 ==> buf[i + 3] == s[j + 3]);
            assert(j + k <= s.len()) by {
                if k >= 2 {
                    assert(buf[i + k - 1] == s[n + (i + k - 1) - 4]);
                }
            }
        },
        None => {
            assert forall|q: int, k: nat| #[trigger] is_char(s, q, k) && q < n implies q + k <= n by {
                if q + k > n {
                    let i = q - n + 4;
                    assert(1 <= i < 4);
                    assert(buf[i] == s[q]);
                    assert(k >= 2 ==> buf[i + 1] == s[q + 1]);
                    assert(k >= 3 ==> buf[i + 2] == s[q + 2]);
                    assert(k >= 4 ==> buf[i + 3] == s[q + 3]);
                    assert(is_char(buf, i, k));
                    assert(straddles(buf, i));
                }
            }
        },
    }
}

/// Where no character was cut, the places of the two pieces are those of the whole.
proof fn lemma_whole_seam(u: Seq<u8>, v: Seq<u8>, a: Advances, abs: bool)
    requires
        is_edge(u + v, u.len() as int),
    ensures
        forall|p: int| #[trigger]
            is_edge(u, p) ==> is_edge(u + v, p) && place_at(u + v, p, a, abs) == place_at(
                u,
                p,
                a,
                abs,
            ),
        forall|p: int| #[trigger]
            is_edge(v, p) ==> is_edge(u + v, u.len() + p) && place_at(u + v, u.len() + p, a, abs)
                == place_at(u, u.len() as int, a, abs).followed_by(place_at(v, p, a, false)),
{
    let s = u + v;
    let n = u.len() as int;
    assert(is_edge(s, 0));
    assert(is_edge(s, s.len() as int));
    assert(s.subrange(0, n) =~= u);
    assert(s.subrange(n, s.len() as int) =~= v);
    assert forall|p: int| #[trigger] is_edge(u, p) implies is_edge(s, p) && place_at(s, p, a, abs)
        == place_at(u, p, a, abs) by {
        lemma_part(s, 0, n, p);
        lemma_read_part(s, 0, n, 0, p, a, Place::start(abs));
    }
    assert(is_edge(u, n));
    let t = place_at(u, n, a, abs);
    assert(place_at(s, n, a, abs) == t);
    assert forall|p: int| #[trigger] is_edge(v, p) implies is_edge(s, n + p) && place_at(
        s,
        n + p,
        a,
        abs,
    ) == t.followed_by(place_at(v, p, a, false)) by {
        lemma_part(s, n, s.len() as int, p);
        lemma_read_cut(s, 0, n, n + p, a, Place::start(abs));
        lemma_read_part(s, n, s.len() as int, 0, p, a, t);
        assert(is_edge(v, 0));
        assert(t.followed_by(Place::start(false)) == t);
        lemma_read_after(v, 0, p, a, t, Place::start(false));
    }
}

/// What a cut character does to the places of the left piece.
proof fn lemma_cut_left(u: Seq<u8>, v: Seq<u8>, j: int, k: nat, a: Advances, abs: bool)
    requires
        is_char(u + v, j, k),
        0 <= j < u.len() < j + k,
    ensures
        is_edge(u + v, j),
        forall|p: int| #[trigger]
            is_edge(u, p) && p <= j ==> is_edge(u + v, p) && place_at(u + v, p, a, abs) == place_at(
                u,
                p,
                a,
                abs,
            ),
        forall|p: int| #[trigger]
            is_edge(u, p) && p >= j ==> place_at(u, p, a, abs) == (Place {
                x: place_at(u + v, j, a, abs).x + (p - j) * a.of(REPLACEMENT_CHAR),
                ..place_at(u + v, j, a, abs)
            }),
{
    let s = u + v;
    let n = u.len() as int;
    assert(u[j] == s[j]);
    lemma_lead_is_edge(s, j);
    lemma_lead_is_edge(u, j);
    assert(is_edge(s, 0));
    assert(is_edge(u, 0));
    assert(s.subrange(0, j) =~= u.subrange(0, j));
    assert forall|p: int| #[trigger] is_edge(u, p) && p <= j implies is_edge(s, p) && place_at(
        s,
        p,
        a,
        abs,
    ) == place_at(u, p, a, abs) by {
        lemma_part(s, 0, j, p);
        lemma_part(u, 0, j, p);
        lemma_read_part(s, 0, j, 0, p, a, Place::start(abs));
        lemma_read_part(u, 0, j, 0, p, a, Place::start(abs));
    }
    assert forall|i: int| j <= i < n implies !is_char(u, i, #[trigger] lead_len(u[i])) by {
        assert(u[i] == s[i]);
        if i > j {
            assert(i == j + 1 || i == j + 2 || i == j + 3);
            assert(is_cont(s[i]));
        }
    }
    assert forall|p: int| #[trigger] is_edge(u, p) && p >= j implies place_at(u, p, a, abs) == (
    Place {
        x: place_at(s, j, a, abs).x + (p - j) * a.of(REPLACEMENT_CHAR),
        ..place_at(s, j, a, abs)
    }) by {
        lemma_read_cut(u, 0, j, p, a, Place::start(abs));
        lemma_read_stray(u, j, p, a, place_at(u, j, a, abs));
    }
}

/// What a cut character does to the places of the right piece.
proof fn lemma_cut_right(u: Seq<u8>, v: Seq<u8>, j: int, k: nat, a: Advances, abs: bool)
    requires
        is_char(u + v, j, k),
        0 <= j < u.len() < j + k,
    ensures
        ({
            let s = u + v;
            let n = u.len() as int;
            let rep = a.of(REPLACEMENT_CHAR) as int;
            let d = a.of(code_point(s, j, k) as u32) - k * rep;
            let tail = place_at(u, n, a, abs);
            &&& forall|p: int| #[trigger]
                is_edge(v, p) && n + p < j + k ==> {
                    let x = tail.followed_by(place_at(v, p, a, false));
                    place_at(s, j, a, abs) == (Place { x: x.x - (n + p - j) * rep, ..x })
                }
            &&& forall|p: int| #[trigger]
                is_edge(v, p) && n + p >= j + k ==> is_edge(s, n + p) && place_at(s, n + p, a, abs)
                    == tail.followed_by(place_at(v, p, a, false).nudged(d))
        }),
{
    let s = u + v;
    let n = u.len() as int;
    let rep = a.of(REPLACEMENT_CHAR) as int;
    let c = code_point(s, j, k) as u32;
    let d = a.of(c) - k * rep;
    let tail = place_at(u, n, a, abs);
    let m = j + k - n;
    lemma_cut_left(u, v, j, k, a, abs);
    assert(is_edge(u, n));
    let at = place_at(s, j, a, abs);
    assert(tail == (Place { x: at.x + (n - j) * rep, ..at }));
    assert forall|i: int| 0 <= i < m implies is_cont(#[trigger] v[i]) by {
        assert(v[i] == s[n + i]);
        assert(n + i == j + 1 || n + i == j + 2 || n + i == j + 3);
    }
    assert forall|i: int| 0 <= i < m implies !is_char(v, i, #[trigger] lead_len(v[i])) by {
        assert(is_cont(v[i]));
    }
    assert forall|p: int| #[trigger] is_edge(v, p) && n + p < j + k implies ({
        let x = tail.followed_by(place_at(v, p, a, false));
        at == (Place { x: x.x - (n + p - j) * rep, ..x })
    }) by {
        lemma_read_stray(v, 0, p, a, Place::start(false));
        assert((n + p - j) * rep == (n - j) * rep + (p - 0) * rep) by (nonlinear_arith);
    }
    // The rest starts after the character
    assert(is_edge(v, m)) by {
        assert forall|q: int, l: nat| #[trigger] is_char(v, q, l) && q < m implies q + l <= m by {
            assert(is_cont(v[q]));
        }
    }
    lemma_read_to_edge(s, j);
    let e = j + k;
    assert(is_edge(s, e));
    assert(is_edge(s, s.len() as int));
    assert(is_edge(v, v.len() as int));
    let rest = s.subrange(e, s.len() as int);
    assert(rest =~= v.subrange(m, v.len() as int));
    let p0 = place_at(v, m, a, false);
    lemma_read_stray(v, 0, m, a, Place::start(false));
    assert(is_edge(s, 0));
    lemma_read_extend(s, 0, j, a, Place::start(abs));
    let w = place_at(s, e, a, abs);
    assert(c != 10);
    assert(w == (Place { x: at.x + a.of(c), ..at }));
    assert(tail.followed_by(p0.nudged(d)) == w) by {
        assert(k * rep == (n - j) * rep + (m - 0) * rep) by (nonlinear_arith)
            requires
                k == (n - j) + m,
        ;
    }
    assert forall|p: int| #[trigger] is_edge(v, p) && n + p >= j + k implies is_edge(s, n + p)
        && place_at(s, n + p, a, abs) == tail.followed_by(place_at(v, p, a, false).nudged(d)) by {
        lemma_part(v, m, v.len() as int, p - m);
        lemma_part(s, e, s.len() as int, p - m);
        lemma_read_cut(s, 0, e, n + p, a, Place::start(abs));
        lemma_read_part(s, e, s.len() as int, 0, p - m, a, w);
        lemma_read_part(v, m, v.len() as int, 0, p - m, a, w);
        assert(read(v, m, p, a, w) == place_at(s, n + p, a, abs));
        lemma_read_after(v, m, p, a, tail, p0.nudged(d));
        lemma_read_nudged(v, m, p, a, p0, d);
        assert(is_edge(v, 0));
        lemma_read_cut(v, 0, m, p, a, Place::start(false));
    }
}

/// The first and last bytes of two pieces together.
proof fn lemma_ends(u: Seq<u8>, v: Seq<u8>)
    ensures
        u.len() < 4 ==> head_bytes(u).take(u.len() as int) + head_bytes(v).take(4 - u.len())
            == head_bytes(u + v),
        u.len() >= 4 ==> head_bytes(u) == head_bytes(u + v),
        v.len() < 4 ==> tail_bytes(u).skip(v.len() as int) + tail_bytes(v).skip(4 - v.len())
            == tail_bytes(u + v),
        v.len() >= 4 ==> tail_bytes(v) == tail_bytes(u + v),
{
    if u.len() < 4 {
        assert(head_bytes(u).take(u.len() as int) + head_bytes(v).take(4 - u.len()) =~= head_bytes(
            u + v,
        ));
    } else {
        assert(head_bytes(u) =~= head_bytes(u + v));
    }
    if v.len() < 4 {
        assert(tail_bytes(u).skip(v.len() as int) + tail_bytes(v).skip(4 - v.len()) =~= tail_bytes(
            u + v,
        ));
    } else {
        assert(tail_bytes(v) =~= tail_bytes(u + v));
    }
}

/// Two patches that describe two pieces of a text describe both of them once they are
/// put together, also where a character was cut in two.
pub proof fn lemma_merged(l: Patch, r: Patch, u: Seq<u8>, v: Seq<u8>, a: Advances)
    requires
        describes(l, u, a),
        describes(r, v, a),
        l.end == r.start,
        u.len() > 0,
    ensures
        describes(merged(l, r, a), u + v, a),
{
    let s = u + v;
    let n = u.len() as int;
    let p = merged(l, r, a);
    let abs = l.start == 0;
    let buf = l.last + r.first;
    let rep = a.of(REPLACEMENT_CHAR) as int;
    lemma_cut(u, v);
    lemma_ends(u, v);
    assert(is_edge(u, n));
    assert(is_edge(v, v.len() as int));
    match cut_at(buf) {
        Some(i) => {
            let k = lead_len(buf[i]);
            let j = n + i - 4;
            let at = l.end + i - 4;
            let d = a.of(code_point(buf, i, k) as u32) - k * rep;
            lemma_cut_left(u, v, j, k, a, abs);
            lemma_cut_right(u, v, j, k, a, abs);
            assert(n + v.len() >= j + k);
            assert(p.tail == place_at(s, s.len() as int, a, abs));
            assert forall|t: int| 0 <= t < p.spots.len() implies is_placed(
                #[trigger] p.spots[t],
                s,
                p.start,
                a,
            ) by {
                if t < l.spots.len() {
                    assert(is_placed(l.spots[t], u, l.start, a));
                    assert(p.spots[t] == pulled(l.spots[t], at, rep));
                    let q = l.spots[t].offset - l.start;
                    assert(is_edge(u, q));
                } else {
                    let g = r.spots[t - l.spots.len()];
                    assert(is_placed(g, v, r.start, a));
                    assert(p.spots[t] == shifted(g, l.tail, at, k as int, d, rep));
                    let q = g.offset - r.start;
                    assert(is_edge(v, q));
                }
            }
            assert forall|x: int, y: int| 0 <= x <= y < p.spots.len() implies (
            #[trigger] p.spots[x]).offset <= (#[trigger] p.spots[y]).offset by {
                if x < l.spots.len() {
                    assert(is_placed(l.spots[x], u, l.start, a));
                    assert(p.spots[x] == pulled(l.spots[x], at, rep));
                    if y < l.spots.len() {
                        assert(p.spots[y] == pulled(l.spots[y], at, rep));
                        assert(l.spots[x].offset <= l.spots[y].offset);
                    } else {
                        let g = r.spots[y - l.spots.len()];
                        assert(is_placed(g, v, r.start, a));
                        assert(p.spots[y] == shifted(g, l.tail, at, k as int, d, rep));
                    }
                } else {
                    let g = r.spots[x - l.spots.len()];
                    let h = r.spots[y - l.spots.len()];
                    assert(is_placed(g, v, r.start, a));
                    assert(g.offset <= h.offset);
                    assert(p.spots[x] == shifted(g, l.tail, at, k as int, d, rep));
                    assert(p.spots[y] == shifted(h, l.tail, at, k as int, d, rep));
                }
            }
            assert(p.spots[0] == pulled(l.spots[0], at, rep));
        },
        None => {
            lemma_whole_seam(u, v, a, abs);
            assert(p.tail == place_at(s, n + v.len() as int, a, abs));
            assert forall|t: int| 0 <= t < p.spots.len() implies is_placed(
                #[trigger] p.spots[t],
                s,
                p.start,
                a,
            ) by {
                if t < l.spots.len() {
                    assert(is_placed(l.spots[t], u, l.start, a));
                    assert(is_edge(u, l.spots[t].offset - l.start));
                } else {
                    let g = r.spots[t - l.spots.len()];
                    assert(is_placed(g, v, r.start, a));
                    assert(p.spots[t] == moved_behind(g, l.tail));
                    assert(is_edge(v, g.offset - r.start));
                }
            }
            assert forall|x: int, y: int| 0 <= x <= y < p.spots.len() implies (
            #[trigger] p.spots[x]).offset <= (#[trigger] p.spots[y]).offset by {
                if x < l.spots.len() {
                    assert(is_placed(l.spots[x], u, l.start, a));
                    if y < l.spots.len() {
                        assert(l.spots[x].offset <= l.spots[y].offset);
                    } else {
                        let g = r.spots[y - l.spots.len()];
                        assert(is_placed(g, v, r.start, a));
                        assert(p.spots[y] == moved_behind(g, l.tail));
                    }
                } else {
                    let g = r.spots[x - l.spots.len()];
                    let h = r.spots[y - l.spots.len()];
                    assert(g.offset <= h.offset);
                    assert(p.spots[x] == moved_behind(g, l.tail));
                    assert(p.spots[y] == moved_behind(h, l.tail));
                }
            }
        },
    }
}

/// Putting two patches together keeps all places that either of them knows. One that was taken
/// for a place inside of a character that was cut moves to where that starts, and the others
/// stay where they are.
pub proof fn lemma_merged_spots(l: Patch, r: Patch, u: Seq<u8>, v: Seq<u8>, a: Advances, t: int)
    requires
        describes(l, u, a),
        describes(r, v, a),
        l.end == r.start,
        u.len() > 0,
        0 <= t < l.spots.len() + r.spots.len(),
    ensures
        ({
            let p = merged(l, r, a);
            let was = if t < l.spots.len() {
                l.spots[t].offset
            } else {
                r.spots[t - l.spots.len()].offset
            };
            let at = p.spots[t].offset;
            &&& p.spots.len() == l.spots.len() + r.spots.len()
            &&& at <= was <= at + 3
            &&& at < was ==> l.end - 3 <= at < l.end && was < l.end + 3
        }),
{
    let buf = l.last + r.first;
    lemma_cut(u, v);
    if t < l.spots.len() {
        assert(is_placed(l.spots[t], u, l.start, a));
    } else {
        assert(is_placed(r.spots[t - l.spots.len()], v, r.start, a));
    }
}

} // verus!
