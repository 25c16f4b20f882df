//! What lies around an offset in a list of loaded ranges.

use vstd::prelude::*;

verus! {

/// The loaded range that holds an offset, or the gap that does.
#[derive(Clone, Copy, Debug, PartialEq, Eq, Structural)]
pub enum Surroundings {
    /// The offset is loaded: the edges of the loaded range around it.
    In(i64, i64),
    /// The offset is not loaded: the edges of the gap around it.
    Out(i64, i64),
}

/// The smaller of two numbers.
pub open spec fn min_i64(a: i64, b: i64) -> i64 {
    if a <= b {
        a
    } else {
        b
    }
}

/// The larger of two numbers.
pub open spec fn max_i64(a: i64, b: i64) -> i64 {
    if a >= b {
        a
    } else {
        b
    }
}

/// The smaller of two numbers.
pub fn lesser(a: i64, b: i64) -> (r: i64)
    ensures
        r == min_i64(a, b),
{
    if a <= b {
        a
    } else {
        b
    }
}

/// The larger of two numbers.
pub fn greater(a: i64, b: i64) -> (r: i64)
    ensures
        r == max_i64(a, b),
{
    if a >= b {
        a
    } else {
        b
    }
}

/// Whether `i` is the index of the first range that reaches past `p`, or the number
/// of ranges when none does.
pub open spec fn first_past(ranges: Seq<(int, int)>, i: int, p: int) -> bool {
    &&& 0 <= i <= ranges.len()
    &&& forall|k: int| 0 <= k < i ==> (#[trigger] ranges[k]).1 <= p
    &&& i < ranges.len() ==> ranges[i].1 > p
}

/// The offset itself, or that of the last byte of a file of `size` bytes.
pub open spec fn inside(size: int, offset: int) -> int {
    if offset <= size - 1 {
        offset
    } else {
        size - 1
    }
}

/// Whether `r` tells what lies around `offset` in a file of `size` bytes, where
/// an offset past the end stands for the last byte.
pub open spec fn around(ranges: Seq<(int, int)>, size: int, offset: int, r: Surroundings) -> bool {
    exists|i: int| #[trigger]
        first_past(ranges, i, inside(size, offset)) && match r {
            Surroundings::In(l, h) => {
                &&& i < ranges.len()
                &&& ranges[i].0 <= inside(size, offset)
                &&& l == ranges[i].0
                &&& h == ranges[i].1
            },
            Surroundings::Out(l, h) => {
                &&& i < ranges.len() ==> ranges[i].0 > inside(size, offset)
                &&& l == if i == 0 {
                    0
                } else {
                    ranges[i - 1].1
                }
                &&& h == if i < ranges.len() {
                    ranges[i].0
                } else {
                    size
                }
            },
        }
}

impl Surroundings {
    /// What is loaded in both lists: two gaps give the smallest range around
    /// them, two loaded ranges their overlap, and a gap wins over a loaded range.
    pub open spec fn meet(self, b: Surroundings) -> Surroundings {
        match (self, b) {
            (Surroundings::Out(al, ar), Surroundings::Out(bl, br)) => Surroundings::Out(
                min_i64(al, bl),
                max_i64(ar, br),
            ),
            (Surroundings::In(al, ar), Surroundings::In(bl, br)) => Surroundings::In(
                max_i64(al, bl),
                min_i64(ar, br),
            ),
            (Surroundings::Out(l, r), Surroundings::In(_, _)) => Surroundings::Out(l, r),
            (Surroundings::In(_, _), Surroundings::Out(l, r)) => Surroundings::Out(l, r),
        }
    }

    /// Combine the surroundings of one offset in two lists.
    pub fn min(self, b: Surroundings) -> (r: Surroundings)
        ensures
            r == self.meet(b),
    {
        match (self, b) {
            (Surroundings::Out(al, ar), Surroundings::Out(bl, br)) => Surroundings::Out(
                lesser(al, bl),
                greater(ar, br),
            ),
            (Surroundings::In(al, ar), Surroundings::In(bl, br)) => Surroundings::In(
                greater(al, bl),
                lesser(ar, br),
            ),
            (Surroundings::Out(l, r), Surroundings::In(_, _)) => Surroundings::Out(l, r),
            (Surroundings::In(_, _), Surroundings::Out(l, r)) => Surroundings::Out(l, r),
        }
    }
}

} // verus!
