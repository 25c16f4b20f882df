//! Strict UTF-8 decoding, and the places that it gives to the bytes of a text.
//!
//! Only what encodes a Unicode scalar value in the shortest way is a character. Every
//! byte that is no part of one is shown as a replacement character.

use crate::layout::{Advances, NEWLINE, REPLACEMENT_CHAR};
use crate::utf8::{code_point, decode_utf8, encoded, is_cont, is_sequence, lead_len, lemma_decodes};
use vstd::prelude::*;

verus! {

/// The least number that is encoded in `k` bytes.
pub open spec fn least(k: nat) -> int {
    if k <= 1 {
        0
    } else if k == 2 {
        0x80
    } else if k == 3 {
        0x800
    } else {
        0x1_0000
    }
}

/// Whether `k` bytes at `p` encode a Unicode scalar value in the shortest way.
pub open spec fn is_char(s: Seq<u8>, p: int, k: nat) -> bool {
    &&& is_sequence(s, p, k)
    &&& least(k) <= code_point(s, p, k) <= 0x10_FFFF
    &&& !(0xD800 <= code_point(s, p, k) <= 0xDFFF)
}

/// The length of what is shown at `p`: that of the character there, or one byte.
pub open spec fn glyph_len(s: Seq<u8>, p: int) -> nat {
    if is_char(s, p, lead_len(s[p])) {
        lead_len(s[p])
    } else {
        1
    }
}

/// What is shown at `p`.
pub open spec fn glyph_at(s: Seq<u8>, p: int) -> u32 {
    if is_char(s, p, lead_len(s[p])) {
        code_point(s, p, lead_len(s[p])) as u32
    } else {
        REPLACEMENT_CHAR
    }
}

/// Decode a single UTF-8 character from the given non-empty byte slice.
/// Returns the character and its length.
pub fn decode_char(b: &[u8]) -> (r: Option<(u32, usize)>)
    requires
        b@.len() > 0,
    ensures
        r is Some <==> is_char(b@, 0, lead_len(b@[0])),
        r matches Some((c, k)) ==> c == code_point(b@, 0, lead_len(b@[0])) && k == lead_len(b@[0]),
{
    let (c, k): (Result<u32, u8>, usize) = decode_utf8(b);
    match c {
        Ok(c) => {
            let shortest: bool = match k {
                1 => true,
                2 => c >= 0x80,
                3 => c >= 0x800,
                _ => c >= 0x1_0000,
            };
            if shortest && c <= 0x10_FFFF && !(0xD800 <= c && c <= 0xDFFF) {
                Some((c, k))
            } else {
                None
            }
        },
        Err(_) => None,
    }
}

/// Whether no character of `s` straddles `m`.
pub open spec fn is_edge(s: Seq<u8>, m: int) -> bool {
    &&& 0 <= m <= s.len()
    &&& forall|q: int, k: nat| #[trigger] is_char(s, q, k) && q < m ==> q + k <= m
}

/// A place in a text.
pub struct Place {
    /// Line ends before it.
    pub y: int,
    /// The distance to the line start, or to the start of the text.
    pub x: int,
    /// Whether `x` counts from the line start.
    pub abs: bool,
}

impl Place {
    /// The start of a text.
    pub open spec fn start(abs: bool) -> Place {
        Place { y: 0, x: 0, abs }
    }

    /// The place after a character.
    pub open spec fn step(self, c: u32, a: Advances) -> Place {
        if c == NEWLINE {
            Place { y: self.y + 1, x: 0, abs: true }
        } else {
            Place { x: self.x + a.of(c), ..self }
        }
    }

    /// Where a place of a text is when the text comes after this place.
    pub open spec fn followed_by(self, r: Place) -> Place {
        Place {
            y: self.y + r.y,
            x: if r.abs {
                r.x
            } else {
                self.x + r.x
            },
            abs: self.abs || r.abs,
        }
    }

    /// The place `d` to the right, unless it counts from a line start of its own text.
    pub open spec fn nudged(self, d: int) -> Place {
        if self.abs {
            self
        } else {
            Place { x: self.x + d, ..self }
        }
    }
}

/// The place reached from `w` at `p` when reading `s` up to `q`.
pub open spec fn read(s: Seq<u8>, p: int, q: int, a: Advances, w: Place) -> Place
    decreases
            if p < q {
                q - p
            } else {
                0
            },
{
    if p < q {
        read(s, p + glyph_len(s, p), q, a, w.step(glyph_at(s, p), a))
    } else {
        w
    }
}

/// The place of the byte at `p`.
pub open spec fn place_at(s: Seq<u8>, p: int, a: Advances, abs: bool) -> Place {
    read(s, 0, p, a, Place::start(abs))
}

/// A byte that continues no character starts at an edge.
pub proof fn lemma_lead_is_edge(s: Seq<u8>, m: int)
    requires
        0 <= m < s.len(),
        !is_cont(s[m]),
    ensures
        is_edge(s, m),
{
    assert forall|q: int, k: nat| #[trigger] is_char(s, q, k) && q < m implies q + k <= m by {
        if q + k > m {
            assert(m == q + 1 || m == q + 2 || m == q + 3);
        }
    }
}

/// Reading on from an edge leads to an edge.
pub proof fn lemma_read_to_edge(s: Seq<u8>, p: int)
    requires
        is_edge(s, p),
        p < s.len(),
    ensures
        is_edge(s, p + glyph_len(s, p)),
{
    let e = p + glyph_len(s, p);
    assert forall|q: int, k: nat| #[trigger] is_char(s, q, k) && q < e implies q + k <= e by {
        if q > p {
            assert(q == p + 1 || q == p + 2 || q == p + 3);
            assert(is_cont(s[q]));
        }
    }
}

/// Reading on never jumps over an edge.
pub proof fn lemma_read_stops_at_edge(s: Seq<u8>, p: int, q: int)
    requires
        0 <= p < q,
        is_edge(s, q),
    ensures
        p + glyph_len(s, p) <= q,
{
    if is_char(s, p, lead_len(s[p])) {
    }
}

/// Reading can be interrupted at any edge.
pub proof fn lemma_read_cut(s: Seq<u8>, p: int, m: int, q: int, a: Advances, w: Place)
    requires
        is_edge(s, p),
        is_edge(s, m),
        is_edge(s, q),
        p <= m <= q,
    ensures
        read(s, p, q, a, w) == read(s, m, q, a, read(s, p, m, a, w)),
    decreases m - p,
{
    if p < m {
        lemma_read_to_edge(s, p);
        lemma_read_stops_at_edge(s, p, m);
        lemma_read_cut(s, p + glyph_len(s, p), m, q, a, w.step(glyph_at(s, p), a));
    }
}

/// The place after one more character.
pub proof fn lemma_read_extend(s: Seq<u8>, p: int, m: int, a: Advances, w: Place)
    requires
        is_edge(s, p),
        is_edge(s, m),
        p <= m < s.len(),
    ensures
        read(s, p, m + glyph_len(s, m), a, w) == read(s, p, m, a, w).step(glyph_at(s, m), a),
{
    let q = m + glyph_len(s, m);
    let v = read(s, p, m, a, w);
    lemma_read_to_edge(s, m);
    lemma_read_cut(s, p, m, q, a, w);
    assert(read(s, m, q, a, v) == read(s, q, q, a, v.step(glyph_at(s, m), a)));
}

/// What lies between two edges of a text has the edges and the characters of the text.
pub proof fn lemma_part(s: Seq<u8>, lo: int, hi: int, i: int)
    requires
        0 <= lo <= hi,
        is_edge(s, lo),
        is_edge(s, hi),
        0 <= i <= hi - lo,
    ensures
        is_edge(s.subrange(lo, hi), i) <==> is_edge(s, lo + i),
        i < hi - lo ==> glyph_len(s.subrange(lo, hi), i) == glyph_len(s, lo + i),
        i < hi - lo ==> glyph_at(s.subrange(lo, hi), i) == glyph_at(s, lo + i),
{
    let d = s.subrange(lo, hi);
    if is_edge(d, i) {
        assert forall|q: int, k: nat| #[trigger] is_char(s, q, k) && q < lo + i implies q + k <= lo
            + i by {
            if q >= lo {
                assert(is_char(d, q - lo, k));
            }
        }
    }
    if is_edge(s, lo + i) {
        assert forall|q: int, k: nat| #[trigger] is_char(d, q, k) && q < i implies q + k <= i by {
            assert(is_char(s, lo + q, k));
        }
    }
    if i < hi - lo {
        let k = lead_len(s[lo + i]);
        if is_char(s, lo + i, k) {
            assert(is_char(d, i, k));
        }
        if is_char(d, i, k) {
            assert(is_char(s, lo + i, k));
        }
    }
}

/// Reading what lies between two edges is reading the text there.
pub proof fn lemma_read_part(
    s: Seq<u8>,
    lo: int,
    hi: int,
    p: int,
    q: int,
    a: Advances,
    w: Place,
)
    requires
        0 <= lo <= hi,
        is_edge(s, lo),
        is_edge(s, hi),
        is_edge(s, lo + p),
        is_edge(s, lo + q),
        0 <= p <= q <= hi - lo,
    ensures
        read(s.subrange(lo, hi), p, q, a, w) == read(s, lo + p, lo + q, a, w),
    decreases q - p,
{
    if p < q {
        lemma_part(s, lo, hi, p);
        lemma_read_to_edge(s, lo + p);
        lemma_read_stops_at_edge(s, lo + p, lo + q);
        lemma_read_part(
            s,
            lo,
            hi,
            p + glyph_len(s, lo + p),
            q,
            a,
            w.step(glyph_at(s, lo + p), a),
        );
    }
}

/// Reading on from a place is the same as reading afresh after it.
pub proof fn lemma_read_after(s: Seq<u8>, p: int, q: int, a: Advances, l: Place, r: Place)
    requires
        is_edge(s, p),
        is_edge(s, q),
        p <= q,
    ensures
        read(s, p, q, a, l.followed_by(r)) == l.followed_by(read(s, p, q, a, r)),
    decreases q - p,
{
    if p < q {
        let c = glyph_at(s, p);
        lemma_read_to_edge(s, p);
        lemma_read_stops_at_edge(s, p, q);
        assert(l.followed_by(r).step(c, a) == l.followed_by(r.step(c, a)));
        lemma_read_after(s, p + glyph_len(s, p), q, a, l, r.step(c, a));
    }
}

/// Starting farther to the right moves every place to the right, up to the first line
/// end.
pub proof fn lemma_read_nudged(s: Seq<u8>, p: int, q: int, a: Advances, w: Place, d: int)
    requires
        is_edge(s, p),
        is_edge(s, q),
        p <= q,
        !w.abs,
    ensures
        read(s, p, q, a, w.nudged(d)) == read(s, p, q, a, w).nudged(d),
    decreases q - p,
{
    if p < q {
        let c = glyph_at(s, p);
        lemma_read_to_edge(s, p);
        lemma_read_stops_at_edge(s, p, q);
        let n = p + glyph_len(s, p);
        if c == NEWLINE {
            assert(w.nudged(d).step(c, a) == w.step(c, a));
            lemma_read_abs(s, n, q, a, w.step(c, a));
        } else {
            assert(w.nudged(d).step(c, a) == w.step(c, a).nudged(d));
            lemma_read_nudged(s, n, q, a, w.step(c, a), d);
        }
    }
}

/// Once a line start was seen, it stays known.
pub proof fn lemma_read_abs(s: Seq<u8>, p: int, q: int, a: Advances, w: Place)
    requires
        is_edge(s, p),
        is_edge(s, q),
        p <= q,
        w.abs,
    ensures
        read(s, p, q, a, w).abs,
    decreases q - p,
{
    if p < q {
        lemma_read_to_edge(s, p);
        lemma_read_stops_at_edge(s, p, q);
        lemma_read_abs(s, p + glyph_len(s, p), q, a, w.step(glyph_at(s, p), a));
    }
}

/// Places stay small.
pub proof fn lemma_read_bounds(s: Seq<u8>, p: int, q: int, a: Advances, w: Place)
    requires
        is_edge(s, p),
        is_edge(s, q),
        p <= q,
        w.x >= 0,
        w.y >= 0,
    ensures
        w.y <= read(s, p, q, a, w).y <= w.y + (q - p),
        0 <= read(s, p, q, a, w).x <= w.x + (q - p) * 0xFFFF_FFFF,
    decreases q - p,
{
    if p < q {
        let n = p + glyph_len(s, p);
        lemma_read_to_edge(s, p);
        lemma_read_stops_at_edge(s, p, q);
        lemma_read_bounds(s, n, q, a, w.step(glyph_at(s, p), a));
        assert((q - p) * 0xFFFF_FFFF == (q - n) * 0xFFFF_FFFF + (n - p) * 0xFFFF_FFFF)
            by (nonlinear_arith);
        assert((n - p) * 0xFFFF_FFFF >= 0xFFFF_FFFF) by (nonlinear_arith)
            requires
                n - p >= 1,
        ;
    }
}

/// Bytes that are no part of a character are read one by one.
pub proof fn lemma_read_stray(s: Seq<u8>, p: int, q: int, a: Advances, w: Place)
    requires
        0 <= p <= q <= s.len(),
        forall|i: int| p <= i < q ==> !is_char(s, i, #[trigger] lead_len(s[i])),
    ensures
        read(s, p, q, a, w) == (Place { x: w.x + (q - p) * a.of(REPLACEMENT_CHAR), ..w }),
    decreases q - p,
{
    let r = a.of(REPLACEMENT_CHAR) as int;
    if p < q {
        assert(!is_char(s, p, lead_len(s[p])));
        lemma_read_stray(s, p + 1, q, a, w.step(REPLACEMENT_CHAR, a));
        assert((q - p) * r == (q - (p + 1)) * r + r) by (nonlinear_arith);
    } else {
        assert((q - p) * r == 0) by (nonlinear_arith)
            requires
                q == p,
        ;
    }
}

/// Every Unicode scalar value is read from its encoding, and nothing else is read as a
/// character.
pub proof fn lemma_reads(before: Seq<u8>, c: int, after: Seq<u8>)
    requires
        0 <= c <= 0x10_FFFF,
        !(0xD800 <= c <= 0xDFFF),
    ensures
        ({
            let s = before + encoded(c) + after;
            let p = before.len() as int;
            &&& is_char(s, p, encoded(c).len())
            &&& glyph_at(s, p) == c
            &&& glyph_len(s, p) == encoded(c).len()
        }),
{
    lemma_decodes(before, c, after);
}

/// What is read as a character is the encoding of a Unicode scalar value.
pub proof fn lemma_read_encoded(s: Seq<u8>, p: int)
    requires
        0 <= p < s.len(),
        is_char(s, p, lead_len(s[p])),
    ensures
        ({
            let c = glyph_at(s, p) as int;
            &&& 0 <= c <= 0x10_FFFF
            &&& !(0xD800 <= c <= 0xDFFF)
            &&& s.subrange(p, p + glyph_len(s, p)) == encoded(c)
        }),
{
    let k = lead_len(s[p]);
    let c = code_point(s, p, k);
    if k == 1 {
        assert(s.subrange(p, p + 1) =~= encoded(c));
    } else if k == 2 {
        lemma_digits(0, 0, s[p] - 0xC0, s[p + 1] - 0x80);
        assert(s.subrange(p, p + 2) =~= encoded(c));
    } else if k == 3 {
        lemma_digits(0, s[p] - 0xE0, s[p + 1] - 0x80, s[p + 2] - 0x80);
        assert(s.subrange(p, p + 3) =~= encoded(c));
    } else {
        lemma_digits(s[p] - 0xF0, s[p + 1] - 0x80, s[p + 2] - 0x80, s[p + 3] - 0x80);
        assert(s.subrange(p, p + 4) =~= encoded(c));
    }
}

/// A number that is put together out of parts of six bits has these parts.
proof fn lemma_digits(d: int, e: int, f: int, g: int)
    requires
        0 <= d < 0x40,
        0 <= e < 0x40,
        0 <= f < 0x40,
        0 <= g < 0x40,
    ensures
        ({
            let c = d * 0x4_0000 + e * 0x1000 + f * 0x40 + g;
            &&& c / 0x4_0000 == d
            &&& c / 0x1000 % 0x40 == e
            &&& c / 0x40 % 0x40 == f
            &&& c % 0x40 == g
            &&& d == 0 ==> c / 0x1000 == e
            &&& d == 0 && e == 0 ==> c / 0x40 == f
        }),
{
}

} // verus!
