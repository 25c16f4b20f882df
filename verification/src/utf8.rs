//! Lenient UTF-8 decoding, forwards and backwards, and the character
//! boundaries that it induces on a byte stream.
//!
//! Decoding never fails as a whole: a byte that does not begin a complete
//! sequence stands for itself, one byte wide. Continuation bytes are checked,
//! which is what lets a decoder find its way from the middle of a stream.

use vstd::prelude::*;

verus! {

/// Whether `b` is a UTF-8 continuation byte (`10xx_xxxx`).
pub open spec fn is_cont(b: u8) -> bool {
    0x80 <= b < 0xC0
}

/// The length that a byte announces for the sequence it starts: zero for a
/// continuation byte, and four for every byte from `0xF0` up.
pub open spec fn announced_len(b: u8) -> nat {
    if b < 0x80 {
        1
    } else if b < 0xC0 {
        0
    } else if b < 0xE0 {
        2
    } else if b < 0xF0 {
        3
    } else {
        4
    }
}

/// The length of the sequences that `b` can start, or zero when no sequence
/// starts with `b`.
pub open spec fn lead_len(b: u8) -> nat {
    if b >= 0xF8 {
        0
    } else {
        announced_len(b)
    }
}

/// Whether a complete sequence of `k` bytes stands in `s` at `p`.
pub open spec fn is_sequence(s: Seq<u8>, p: int, k: nat) -> bool {
    &&& 1 <= k <= 4
    &&& 0 <= p
    &&& p + k <= s.len()
    &&& lead_len(s[p]) == k
    &&& k >= 2 ==> is_cont(s[p + 1])
    &&& k >= 3 ==> is_cont(s[p + 2])
    &&& k >= 4 ==> is_cont(s[p + 3])
}

/// The number carried by the `k` byte sequence at `p`.
pub open spec fn code_point(s: Seq<u8>, p: int, k: nat) -> int {
    if k == 1 {
        s[p] as int
    } else if k == 2 {
        (s[p] - 0xC0) * 0x40 + (s[p + 1] - 0x80)
    } else if k == 3 {
        (s[p] - 0xE0) * 0x1000 + (s[p + 1] - 0x80) * 0x40 + (s[p + 2] - 0x80)
    } else {
        (s[p] - 0xF0) * 0x40000 + (s[p + 1] - 0x80) * 0x1000 + (s[p + 2] - 0x80) * 0x40 + (s[p + 3]
            - 0x80)
    }
}

/// How far the decoder moves from `p`: the length of the sequence there, or one
/// byte when there is none.
pub open spec fn step_len(s: Seq<u8>, p: int) -> nat {
    if is_sequence(s, p, lead_len(s[p])) {
        lead_len(s[p])
    } else {
        1
    }
}

/// What the decoder reads at `p`: a code point, or the stray byte itself.
pub open spec fn char_at(s: Seq<u8>, p: int) -> Result<u32, u8> {
    if is_sequence(s, p, lead_len(s[p])) {
        Ok(code_point(s, p, lead_len(s[p])) as u32)
    } else {
        Err(s[p])
    }
}

/// How far the backward decoder moves from `e`: the length of the sequence that
/// ends right before `e`, or one byte when there is none.
pub open spec fn step_back_len(s: Seq<u8>, e: int) -> nat {
    if is_sequence(s, e - 1, 1) {
        1
    } else if is_sequence(s, e - 2, 2) {
        2
    } else if is_sequence(s, e - 3, 3) {
        3
    } else if is_sequence(s, e - 4, 4) {
        4
    } else {
        1
    }
}

/// What the backward decoder reads before `e`.
pub open spec fn char_before(s: Seq<u8>, e: int) -> Result<u32, u8> {
    let k = step_back_len(s, e);
    if is_sequence(s, e - k, k) {
        Ok(code_point(s, e - k, k) as u32)
    } else {
        Err(s[e - 1])
    }
}

/// Check if the given byte is a UTF-8 continuation byte.
pub fn is_utf8_cont(b: u8) -> (r: bool)
    ensures
        r == is_cont(b),
{
    assert((b & 0b1100_0000 == 0b1000_0000) == (0x80 <= b && b < 0xC0)) by (bit_vector);
    b & 0b1100_0000 == 0b1000_0000
}

/// Get the length of the byte sequence started by the `b` byte.
/// If `b` does not start a byte sequence (it is a continuation byte), returns 0.
/// Does not handle invalid UTF-8, this must be handled while parsing the
/// sequence.
pub fn utf8_seq_len(b: u8) -> (r: usize)
    ensures
        r == announced_len(b),
{
    assert((b & 0b1000_0000 == 0) == (b < 0x80)) by (bit_vector);
    assert(b >= 0x80 ==> (b & 0b0100_0000 == 0) == (b < 0xC0)) by (bit_vector);
    assert(b >= 0xC0 ==> (b & 0b0010_0000 == 0) == (b < 0xE0)) by (bit_vector);
    assert(b >= 0xE0 ==> (b & 0b0001_0000 == 0) == (b < 0xF0)) by (bit_vector);
    if b & 0b1000_0000 == 0 {
        1
    } else if b & 0b0100_0000 == 0 {
        0
    } else if b & 0b0010_0000 == 0 {
        2
    } else if b & 0b0001_0000 == 0 {
        3
    } else {
        4
    }
}

fn join2(a: u8, b: u8) -> (r: u32)
    requires
        0xC0 <= a < 0xE0,
        is_cont(b),
    ensures
        r == (a - 0xC0) * 0x40 + (b - 0x80),
{
    assert((a as u32 & 0b0001_1111) << 6 | (b as u32 & 0b0011_1111) == (a - 0xC0) * 0x40 + (b
        - 0x80)) by (bit_vector)
        requires
            0xC0 <= a < 0xE0,
            0x80 <= b < 0xC0,
    ;
    (a as u32 & 0b0001_1111) << 6 | (b as u32 & 0b0011_1111)
}

fn join3(a: u8, b: u8, c: u8) -> (r: u32)
    requires
        0xE0 <= a < 0xF0,
        is_cont(b),
        is_cont(c),
    ensures
        r == (a - 0xE0) * 0x1000 + (b - 0x80) * 0x40 + (c - 0x80),
{
    assert((a as u32 & 0b1111) << 12 | (b as u32 & 0b0011_1111) << 6 | (c as u32 & 0b0011_1111) == (
    a - 0xE0) * 0x1000 + (b - 0x80) * 0x40 + (c - 0x80)) by (bit_vector)
        requires
            0xE0 <= a < 0xF0,
            0x80 <= b < 0xC0,
            0x80 <= c < 0xC0,
    ;
    (a as u32 & 0b1111) << 12 | (b as u32 & 0b0011_1111) << 6 | (c as u32 & 0b0011_1111)
}

fn join4(a: u8, b: u8, c: u8, d: u8) -> (r: u32)
    requires
        0xF0 <= a < 0xF8,
        is_cont(b),
        is_cont(c),
        is_cont(d),
    ensures
        r == (a - 0xF0) * 0x40000 + (b - 0x80) * 0x1000 + (c - 0x80) * 0x40 + (d - 0x80),
{
    assert((a as u32 & 0b0111) << 18 | (b as u32 & 0b0011_1111) << 12 | (c as u32 & 0b0011_1111)
        << 6 | (d as u32 & 0b0011_1111) == (a - 0xF0) * 0x40000 + (b - 0x80) * 0x1000 + (c - 0x80)
        * 0x40 + (d - 0x80)) by (bit_vector)
        requires
            0xF0 <= a < 0xF8,
            0x80 <= b < 0xC0,
            0x80 <= c < 0xC0,
            0x80 <= d < 0xC0,
    ;
    (a as u32 & 0b0111) << 18 | (b as u32 & 0b0011_1111) << 12 | (c as u32 & 0b0011_1111) << 6 | (
    d as u32 & 0b0011_1111)
}

/// Decode a single UTF-8 character from the given non-empty byte slice.
/// Returns the character together with its length.
/// A byte that does not begin a complete sequence comes back as an error, one
/// byte long. Overlong and surrogate sequences are decoded as they stand.
pub fn decode_utf8(b: &[u8]) -> (r: (Result<u32, u8>, usize))
    requires
        b@.len() > 0,
    ensures
        r.0 == char_at(b@, 0),
        r.1 == step_len(b@, 0),
        1 <= r.1 <= b@.len(),
{
    let b0: u8 = b[0];
    let n: usize = b.len();
    let k: usize = utf8_seq_len(b0);
    assert(b0 >= 0xF0 ==> (b0 & 0b0000_1000 == 0) == (b0 < 0xF8)) by (bit_vector);
    if k == 1 {
        // Single byte
        return (Ok(b0 as u32), 1);
    } else if k == 0 {
        // Continuation byte
    } else if k == 2 {
        // Two bytes
        if n >= 2 && is_utf8_cont(b[1]) {
            return (Ok(join2(b0, b[1])), 2);
        }
    } else if k == 3 {
        // Three bytes
        if n >= 3 && is_utf8_cont(b[1]) && is_utf8_cont(b[2]) {
            return (Ok(join3(b0, b[1], b[2])), 3);
        }
    } else if b0 & 0b0000_1000 == 0 {
        // Four bytes
        if n >= 4 && is_utf8_cont(b[1]) && is_utf8_cont(b[2]) && is_utf8_cont(b[3]) {
            return (Ok(join4(b0, b[1], b[2], b[3])), 4);
        }
    }
    // Invalid UTF-8 character, fall back to reading a single byte
    (Err(b0), 1)
}

/// Similar to `decode_utf8` but in reverse.
/// Reads a single character from the end of the given slice.
pub fn decode_utf8_rev(b: &[u8]) -> (r: (Result<u32, u8>, usize))
    requires
        b@.len() > 0,
    ensures
        r.0 == char_before(b@, b@.len() as int),
        r.1 == step_back_len(b@, b@.len() as int),
        1 <= r.1 <= b@.len(),
{
    let n: usize = b.len();
    let last: u8 = b[n - 1];
    if utf8_seq_len(last) == 1 {
        // Single byte
        return (Ok(last as u32), 1);
    } else if is_utf8_cont(last) && n >= 2 {
        // At least two bytes
        let b2: u8 = b[n - 2];
        if utf8_seq_len(b2) == 2 {
            return (Ok(join2(b2, last)), 2);
        } else if is_utf8_cont(b2) && n >= 3 {
            // At least three bytes
            let b3: u8 = b[n - 3];
            if utf8_seq_len(b3) == 3 {
                return (Ok(join3(b3, b2, last)), 3);
            } else if is_utf8_cont(b3) && n >= 4 {
                let b4: u8 = b[n - 4];
                assert((b4 & 0b1111_1000 == 0b1111_0000) == (0xF0 <= b4 && b4 < 0xF8))
                    by (bit_vector);
                if b4 & 0b1111_1000 == 0b1111_0000 {
                    // Four bytes
                    return (Ok(join4(b4, b3, b2, last)), 4);
                }
            }
        }
    }
    // Invalid UTF-8, fall back to reading 1 byte
    (Err(last), 1)
}

/// Whether `m` lies between characters of `s`: no sequence straddles it.
pub open spec fn is_boundary(s: Seq<u8>, m: int) -> bool {
    &&& 0 <= m <= s.len()
    &&& forall|q: int, k: nat| #[trigger] is_sequence(s, q, k) && q < m ==> q + k <= m
}

/// A step of the decoder stays inside the stream.
pub proof fn lemma_step_in_bounds(s: Seq<u8>, p: int)
    requires
        0 <= p < s.len(),
    ensures
        1 <= step_len(s, p) <= 4,
        p + step_len(s, p) <= s.len(),
{
}

/// Decoding the rest of a stream is decoding the stream from there.
pub proof fn lemma_rest(s: Seq<u8>, p: int)
    requires
        0 <= p < s.len(),
    ensures
        step_len(s.skip(p), 0) == step_len(s, p),
        char_at(s.skip(p), 0) == char_at(s, p),
{
}

/// Decoding from a boundary leads to a boundary.
pub proof fn lemma_step_to_boundary(s: Seq<u8>, p: int)
    requires
        is_boundary(s, p),
        p < s.len(),
    ensures
        is_boundary(s, p + step_len(s, p)),
{
    let e = p + step_len(s, p);
    assert forall|q: int, k: nat| #[trigger] is_sequence(s, q, k) && q < e implies q + k <= e by {
        if q > p {
            assert(is_sequence(s, p, lead_len(s[p])));
            assert(q == p + 1 || q == p + 2 || q == p + 3);
            assert(is_cont(s[q]));
        }
    }
}

/// Decoding from a boundary never jumps over another one.
pub proof fn lemma_step_stops_at_boundary(s: Seq<u8>, p: int, q: int)
    requires
        0 <= p < q,
        is_boundary(s, q),
    ensures
        p + step_len(s, p) <= q,
{
    if is_sequence(s, p, lead_len(s[p])) {
    }
}

/// Both ends of a stream are boundaries.
pub proof fn lemma_ends_are_boundaries(s: Seq<u8>)
    ensures
        is_boundary(s, 0),
        is_boundary(s, s.len() as int),
{
}

/// A byte that continues no sequence starts at a boundary.
pub proof fn lemma_lead_is_boundary(s: Seq<u8>, m: int)
    requires
        0 <= m < s.len(),
        !is_cont(s[m]),
    ensures
        is_boundary(s, m),
{
    assert forall|q: int, k: nat| #[trigger] is_sequence(s, q, k) && q < m implies q + k <= m by {
        if q + k > m {
            assert(m == q + 1 || m == q + 2 || m == q + 3);
        }
    }
}

/// A window of a stream that begins and ends at boundaries has the boundaries
/// and the characters of the stream.
pub proof fn lemma_window(s: Seq<u8>, a: int, b: int, i: int)
    requires
        0 <= a <= b,
        is_boundary(s, a),
        is_boundary(s, b),
        0 <= i <= b - a,
    ensures
        is_boundary(s.subrange(a, b), i) <==> is_boundary(s, a + i),
        i < b - a ==> step_len(s.subrange(a, b), i) == step_len(s, a + i),
        i < b - a ==> char_at(s.subrange(a, b), i) == char_at(s, a + i),
{
    let d = s.subrange(a, b);
    if is_boundary(d, i) {
        assert forall|q: int, k: nat| #[trigger] is_sequence(s, q, k) && q < a + i implies q + k <= a
            + i by {
            if q >= a {
                assert(is_sequence(d, q - a, k));
            }
        }
    }
    if is_boundary(s, a + i) {
        assert forall|q: int, k: nat| #[trigger] is_sequence(d, q, k) && q < i implies q + k <= i by {
            assert(is_sequence(s, a + q, k));
        }
    }
    if i < b - a {
        let k = lead_len(s[a + i]);
        if is_sequence(s, a + i, k) {
            assert(is_sequence(d, i, k));
        }
        if is_sequence(d, i, k) {
            assert(is_sequence(s, a + i, k));
        }
    }
}

/// Decoding backwards from the end of a character finds that character again.
pub proof fn lemma_rev_undoes_decode(s: Seq<u8>, p: int)
    requires
        0 <= p < s.len(),
        char_at(s, p) is Ok,
    ensures
        step_back_len(s, p + step_len(s, p)) == step_len(s, p),
        char_before(s, p + step_len(s, p)) == char_at(s, p),
{
}

/// Decoding forwards from the start of a character that was found backwards
/// finds that character again.
pub proof fn lemma_decode_undoes_rev(s: Seq<u8>, e: int)
    requires
        0 < e <= s.len(),
        char_before(s, e) is Ok,
    ensures
        step_len(s, e - step_back_len(s, e)) == step_back_len(s, e),
        char_at(s, e - step_back_len(s, e)) == char_before(s, e),
{
}

/// The bytes that encode a number in UTF-8.
pub open spec fn encoded(c: int) -> Seq<u8> {
    if c < 0x80 {
        seq![c as u8]
    } else if c < 0x800 {
        seq![(0xC0 + c / 0x40) as u8, (0x80 + c % 0x40) as u8]
    } else if c < 0x1_0000 {
        seq![
            (0xE0 + c / 0x1000) as u8,
            (0x80 + c / 0x40 % 0x40) as u8,
            (0x80 + c % 0x40) as u8,
        ]
    } else {
        seq![
            (0xF0 + c / 0x4_0000) as u8,
            (0x80 + c / 0x1000 % 0x40) as u8,
            (0x80 + c / 0x40 % 0x40) as u8,
            (0x80 + c % 0x40) as u8,
        ]
    }
}

/// Decoding gives back what was encoded, forwards from its start and backwards from its end,
/// whatever stands before and after it.
pub proof fn lemma_decodes(before: Seq<u8>, c: int, after: Seq<u8>)
    requires
        0 <= c <= 0x10_FFFF,
    ensures
        ({
            let s = before + encoded(c) + after;
            let p = before.len() as int;
            let e = p + encoded(c).len();
            &&& char_at(s, p) == Ok::<u32, u8>(c as u32)
            &&& step_len(s, p) == encoded(c).len()
            &&& char_before(s, e) == Ok::<u32, u8>(c as u32)
            &&& step_back_len(s, e) == encoded(c).len()
        }),
{
    let s = before + encoded(c) + after;
    let p = before.len() as int;
    let n = encoded(c).len();
    assert forall|i: int| 0 <= i < n implies s[p + i] == #[trigger] encoded(c)[i] by {}
    assert(s[p] == encoded(c)[0]);
    if c >= 0x80 {
        assert(s[p + 1] == encoded(c)[1]);
    }
    if c >= 0x800 {
        assert(s[p + 2] == encoded(c)[2]);
    }
    if c >= 0x1_0000 {
        assert(s[p + 3] == encoded(c)[3]);
    }
    assert(is_sequence(s, p, n));
    assert(code_point(s, p, n) == c);
    lemma_rev_undoes_decode(s, p);
}

/// What is read as a character starts with a byte that tells how long it is, and goes on with
/// as many continuation bytes. What is not stands for itself, one byte wide.
pub proof fn lemma_decoded(s: Seq<u8>, p: int)
    requires
        0 <= p < s.len(),
    ensures
        char_at(s, p) is Ok ==> {
            &&& !(0x80 <= s[p] < 0xC0)
            &&& forall|q: int| p < q < p + step_len(s, p) ==> 0x80 <= #[trigger] s[q] < 0xC0
            &&& step_len(s, p) == 1 <==> s[p] < 0x80
            &&& step_len(s, p) == 2 <==> 0xC0 <= s[p] < 0xE0
            &&& step_len(s, p) == 3 <==> 0xE0 <= s[p] < 0xF0
            &&& step_len(s, p) == 4 <==> 0xF0 <= s[p] < 0xF8
        },
        char_at(s, p) is Err ==> char_at(s, p) == Err::<u32, u8>(s[p]) && step_len(s, p) == 1
            && s[p] >= 0x80,
{
}

} // verus!
