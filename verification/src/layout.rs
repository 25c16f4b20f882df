//! Horizontal advances of characters, and the text positions that they give to
//! the bytes of a stream.

use crate::utf8::{
    char_at, is_boundary, lemma_step_in_bounds, lemma_step_stops_at_boundary,
    lemma_step_to_boundary, lemma_window, step_len,
};
use rustc_hash::{FxHashMap, FxHasher};
use std::hash::BuildHasherDefault;
use vstd::prelude::*;

verus! {

/// How many horizontal units make one font height.
pub const UNITS: i128 = 0x100_0000;

/// The code point shown in place of a byte that is not valid UTF-8.
pub const REPLACEMENT_CHAR: u32 = 0xFFFD;

/// The code point that ends a line.
pub const NEWLINE: u32 = 10;

/// Declares the hasher behind `rustc_hash::FxHashMap`.
#[verifier::external_type_specification]
#[verifier::external_body]
pub struct ExFxHasher(FxHasher);

/// Declares the hasher factory behind `rustc_hash::FxHashMap`.
#[verifier::external_type_specification]
#[verifier::external_body]
#[verifier::reject_recursive_types(H)]
pub struct ExBuildHasherDefault<H>(BuildHasherDefault<H>);

/// Wraps the `Default` of `rustc_hash::FxHashMap`: the table starts empty.
#[verifier::external_body]
fn table_new() -> (m: FxHashMap<u32, u32>)
    ensures
        m@.dom() == Set::<u32>::empty(),
{
    FxHashMap::default()
}

/// Wraps `insert` of `rustc_hash::FxHashMap`: binds `key` to `value`, replacing
/// an earlier binding, and touches no other key.
#[verifier::external_body]
fn table_insert(m: &mut FxHashMap<u32, u32>, key: u32, value: u32)
    ensures
        final(m)@ == old(m)@.insert(key, value),
{
    m.insert(key, value);
}

/// Wraps `get` of `rustc_hash::FxHashMap`: the value bound to `key`, if any.
#[verifier::external_body]
fn table_get(m: &FxHashMap<u32, u32>, key: u32) -> (r: Option<u32>)
    ensures
        r == if m@.contains_key(key) { Some(m@[key]) } else { None },
{
    m.get(&key).copied()
}

/// The advances that a layout gives to code points.
pub struct Advances {
    pub known: Map<u32, u32>,
    pub default_adv: u32,
}

impl Advances {
    /// The advance of a code point: its own, or the default one.
    pub open spec fn of(self, c: u32) -> u32 {
        if self.known.contains_key(c) {
            self.known[c]
        } else {
            self.default_adv
        }
    }
}

/// How far each character moves the text to the right, in units of
/// `1 / UNITS` font heights.
#[derive(Clone)]
pub struct CharLayout {
    char_adv: FxHashMap<u32, u32>,
    default_adv: u32,
}

impl View for CharLayout {
    type V = Advances;

    closed spec fn view(&self) -> Advances {
        Advances { known: self.char_adv@, default_adv: self.default_adv }
    }
}

/// The advances left by a list of `(code point, advance)` pairs, where a later
/// pair replaces an earlier one.
pub open spec fn table_of(pairs: Seq<(u32, u32)>) -> Map<u32, u32>
    decreases pairs.len(),
{
    if pairs.len() == 0 {
        Map::empty()
    } else {
        table_of(pairs.drop_last()).insert(pairs.last().0, pairs.last().1)
    }
}

impl CharLayout {
    /// Builds a layout from `(code point, advance)` pairs and the advance of
    /// every code point that is not among them.
    pub fn new(pairs: &[(u32, u32)], default_adv: u32) -> (r: CharLayout)
        ensures
            r@ == (Advances { known: table_of(pairs@), default_adv }),
    {
        let mut char_adv = table_new();
        let n: usize = pairs.len();
        let mut i: usize = 0;
        proof {
            assert(pairs@.take(0) =~= Seq::<(u32, u32)>::empty());
            assert(char_adv@ =~= table_of(pairs@.take(0)));
        }
        while i < n
            invariant
                i <= n,
                n == pairs@.len(),
                char_adv@ == table_of(pairs@.take(i as int)),
            decreases n - i,
        {
            let pair: (u32, u32) = pairs[i];
            table_insert(&mut char_adv, pair.0, pair.1);
            proof {
                assert(pairs@.take(i + 1).drop_last() =~= pairs@.take(i as int));
            }
            i = i + 1;
        }
        proof {
            assert(pairs@.take(n as int) =~= pairs@);
        }
        CharLayout { char_adv, default_adv }
    }

    /// Get the horizontal advance distance for the given unicode codepoint.
    pub fn advance_for(&self, codepoint: u32) -> (r: u32)
        ensures
            r == self@.of(codepoint),
    {
        match table_get(&self.char_adv, codepoint) {
            Some(adv) => adv,
            None => self.default_adv,
        }
    }
}

/// The code point that is laid out for what the decoder read.
pub open spec fn shown(c: Result<u32, u8>) -> u32 {
    match c {
        Ok(c) => c,
        Err(_) => REPLACEMENT_CHAR,
    }
}

/// The position reached after reading some characters, starting from a given
/// byte.
///
/// While no line end was read and the walk did not begin at a line start, `x`
/// counts from the byte where the walk began; from then on it is the distance
/// to the line start.
pub struct Walk {
    /// Line ends read so far.
    pub y: int,
    /// Width read since the line start, or since the beginning of the walk.
    pub x: int,
    /// Whether `x` counts from the line start.
    pub abs: bool,
    /// The widest of the finished lines whose start was seen.
    pub widest: int,
    /// The width of the line whose start was not seen, once it is finished.
    pub rel_width: int,
}

/// The larger one of two numbers.
pub open spec fn max_int(a: int, b: int) -> int {
    if a >= b {
        a
    } else {
        b
    }
}

impl Walk {
    /// The state before anything is read.
    pub open spec fn start(abs: bool) -> Walk {
        Walk { y: 0, x: 0, abs, widest: 0, rel_width: 0 }
    }

    /// Records the width of the line being read.
    pub open spec fn end_line(self) -> Walk {
        if self.abs {
            Walk { widest: max_int(self.widest, self.x), ..self }
        } else {
            Walk { rel_width: self.x, ..self }
        }
    }

    /// Reads one code point.
    pub open spec fn step(self, c: u32, a: Advances) -> Walk {
        if c == NEWLINE {
            Walk { y: self.y + 1, x: 0, abs: true, ..self.end_line() }
        } else {
            Walk { x: self.x + a.of(c), ..self }
        }
    }

    /// What holds of every state that a walk goes through.
    pub open spec fn sane(self) -> bool {
        &&& self.y >= 0
        &&& self.x >= 0
        &&& self.widest >= 0
        &&& self.rel_width >= 0
        &&& !self.abs ==> self.y == 0 && self.widest == 0 && self.rel_width == 0
    }

    /// The state after this walk went on over the characters that `r` read on
    /// its own.
    pub open spec fn followed_by(self, r: Walk) -> Walk {
        Walk {
            y: self.y + r.y,
            x: if r.abs {
                r.x
            } else {
                self.x + r.x
            },
            abs: self.abs || r.abs,
            widest: if !r.abs {
                self.widest
            } else if self.abs {
                max_int(max_int(self.widest, self.x + r.rel_width), r.widest)
            } else {
                r.widest
            },
            rel_width: if r.abs && !self.abs {
                self.x + r.rel_width
            } else {
                self.rel_width
            },
        }
    }
}

/// The state that a walk over `s` from `p` has when it gets to `q`.
pub open spec fn walk(s: Seq<u8>, p: int, q: int, a: Advances, w: Walk) -> Walk
    decreases
            if p < q {
                q - p
            } else {
                0
            },
{
    if p < q {
        walk(s, p + step_len(s, p), q, a, w.step(shown(char_at(s, p)), a))
    } else {
        w
    }
}

/// A walk can be cut at any boundary.
pub proof fn lemma_walk_cut(s: Seq<u8>, p: int, m: int, q: int, a: Advances, w: Walk)
    requires
        is_boundary(s, p),
        is_boundary(s, m),
        is_boundary(s, q),
        p <= m <= q,
    ensures
        walk(s, p, q, a, w) == walk(s, m, q, a, walk(s, p, m, a, w)),
    decreases m - p,
{
    if p < m {
        lemma_step_to_boundary(s, p);
        lemma_step_stops_at_boundary(s, p, m);
        lemma_walk_cut(s, p + step_len(s, p), m, q, a, w.step(shown(char_at(s, p)), a));
    }
}

/// A walk reaches the boundary after the next by reading one more character.
pub proof fn lemma_walk_extend(s: Seq<u8>, p: int, m: int, a: Advances, w: Walk)
    requires
        is_boundary(s, p),
        is_boundary(s, m),
        p <= m < s.len(),
    ensures
        walk(s, p, m + step_len(s, m), a, w) == walk(s, p, m, a, w).step(shown(char_at(s, m)), a),
{
    let q = m + step_len(s, m);
    let v = walk(s, p, m, a, w);
    lemma_step_to_boundary(s, m);
    lemma_walk_cut(s, p, m, q, a, w);
    assert(walk(s, m, q, a, v) == walk(s, q, q, a, v.step(shown(char_at(s, m)), a)));
}

/// Every state of a walk is sane, and its coordinates only grow: the lines with
/// the bytes read, the width with their largest advance.
pub proof fn lemma_walk_sane(s: Seq<u8>, p: int, q: int, a: Advances, w: Walk)
    requires
        is_boundary(s, p),
        is_boundary(s, q),
        p <= q,
        w.sane(),
    ensures
        walk(s, p, q, a, w).sane(),
        w.abs ==> walk(s, p, q, a, w).abs,
        walk(s, p, q, a, w).abs <==> (w.abs || walk(s, p, q, a, w).y > w.y),
        w.y <= walk(s, p, q, a, w).y <= w.y + (q - p),
        walk(s, p, q, a, w).x <= w.x + (q - p) * 0xFFFF_FFFF,
        walk(s, p, q, a, w).y == w.y ==> walk(s, p, q, a, w).x >= w.x,
        walk(s, p, q, a, w).widest <= max_int(w.widest, w.x + (q - p) * 0xFFFF_FFFF),
        walk(s, p, q, a, w).rel_width <= max_int(w.rel_width, w.x + (q - p) * 0xFFFF_FFFF),
    decreases q - p,
{
    if p < q {
        let c = shown(char_at(s, p));
        let v = w.step(c, a);
        let n = p + step_len(s, p);
        lemma_step_in_bounds(s, p);
        lemma_step_to_boundary(s, p);
        lemma_step_stops_at_boundary(s, p, q);
        lemma_walk_sane(s, n, q, a, v);
        assert((q - p) * 0xFFFF_FFFF == (q - n) * 0xFFFF_FFFF + (n - p) * 0xFFFF_FFFF)
            by (nonlinear_arith);
        assert((n - p) * 0xFFFF_FFFF >= 0xFFFF_FFFF) by (nonlinear_arith)
            requires
                n - p >= 1,
        ;
    }
}

/// Walking on from `l` is the same as walking afresh and joining the results.
pub proof fn lemma_walk_then(s: Seq<u8>, p: int, q: int, a: Advances, l: Walk, r: Walk)
    requires
        is_boundary(s, p),
        is_boundary(s, q),
        p <= q,
        l.sane(),
        r.sane(),
    ensures
        walk(s, p, q, a, l.followed_by(r)) == l.followed_by(walk(s, p, q, a, r)),
    decreases q - p,
{
    if p < q {
        let c = shown(char_at(s, p));
        lemma_step_in_bounds(s, p);
        lemma_step_to_boundary(s, p);
        lemma_step_stops_at_boundary(s, p, q);
        assert(l.followed_by(r).step(c, a) == l.followed_by(r.step(c, a)));
        lemma_walk_then(s, p + step_len(s, p), q, a, l, r.step(c, a));
    }
}

/// A walk over a window that begins and ends at boundaries is a walk over the
/// stream.
pub proof fn lemma_walk_window(
    s: Seq<u8>,
    lo: int,
    hi: int,
    p: int,
    q: int,
    a: Advances,
    w: Walk,
)
    requires
        0 <= lo <= hi,
        is_boundary(s, lo),
        is_boundary(s, hi),
        is_boundary(s, lo + p),
        is_boundary(s, lo + q),
        0 <= p <= q <= hi - lo,
    ensures
        walk(s.subrange(lo, hi), p, q, a, w) == walk(s, lo + p, lo + q, a, w),
    decreases q - p,
{
    if p < q {
        lemma_window(s, lo, hi, p);
        lemma_step_to_boundary(s, lo + p);
        lemma_step_stops_at_boundary(s, lo + p, lo + q);
        lemma_walk_window(
            s,
            lo,
            hi,
            p + step_len(s, lo + p),
            q,
            a,
            w.step(shown(char_at(s, lo + p)), a),
        );
    }
}

/// A code point has the advance of the last pair that names it, and none of its own where no
/// pair does.
pub proof fn lemma_table_of(pairs: Seq<(u32, u32)>, c: u32)
    ensures
        table_of(pairs).contains_key(c) <==> exists|i: int|
            0 <= i < pairs.len() && (#[trigger] pairs[i]).0 == c,
        forall|i: int|
            0 <= i < pairs.len() && (#[trigger] pairs[i]).0 == c && (forall|j: int|
                i < j < pairs.len() ==> (#[trigger] pairs[j]).0 != c) ==> table_of(pairs)[c]
                == pairs[i].1,
    decreases pairs.len(),
{
    if pairs.len() > 0 {
        let n = pairs.len() - 1;
        let rest = pairs.drop_last();
        lemma_table_of(rest, c);
        assert(forall|i: int| 0 <= i < n ==> rest[i] == #[trigger] pairs[i]);
        if pairs[n].0 != c && table_of(pairs).contains_key(c) {
            let i = choose|i: int| 0 <= i < rest.len() && (#[trigger] rest[i]).0 == c;
            assert(pairs[i].0 == c);
        }
        assert forall|i: int|
            0 <= i < pairs.len() && (#[trigger] pairs[i]).0 == c && (forall|j: int|
                i < j < pairs.len() ==> (#[trigger] pairs[j]).0 != c) implies table_of(pairs)[c]
            == pairs[i].1 by {
            if i < n {
                assert(pairs[n].0 != c);
                assert(rest[i].0 == c);
            }
        }
    }
}

} // verus!
