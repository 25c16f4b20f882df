//! A chunk of memory that grows at both ends.

use vstd::arithmetic::power2::{lemma2_to64, lemma_pow2_unfold, pow2};
use vstd::prelude::*;
use vstd::slice::slice_subrange;

verus! {

/// Wraps `Vec::capacity` of std: the number of elements that the vector can
/// hold without reallocating, which is never less than what it holds. How much
/// more it is depends on the allocator, so nothing else is said of it.
#[verifier::external_body]
fn vec_capacity(v: &Vec<u8>) -> (r: usize)
    ensures
        r >= v@.len(),
{
    v.capacity()
}

/// Represents a chunk of memory with amortized O(1) addition of memory
/// both to the left and to the right.
pub struct Demem {
    mem: Vec<u8>,
    start: usize,
}

/// The size of `total` bytes of memory after doubling it until `need` bytes fit in it.
/// No memory at all becomes just as large as it must be.
pub open spec fn doubled(total: int, need: int) -> int
    decreases
            if total < need {
                need - total
            } else {
                0
            },
{
    if total <= 0 {
        need
    } else if total < need {
        doubled(2 * total, need)
    } else {
        total
    }
}

/// The room that is left on the left of `live` bytes with `room` bytes before them after
/// `n` more bytes were put there. Memory that cannot be doubled any further becomes just
/// as large as it must be.
pub open spec fn room_after(room: int, live: int, n: int) -> int {
    let total = doubled(room + live, live + n);
    if total <= usize::MAX {
        total - live - n
    } else {
        0
    }
}

/// Memory that has to grow becomes at least twice as large, and less than twice as large as
/// what it must hold.
pub proof fn lemma_doubled(total: int, need: int)
    requires
        0 < total,
    ensures
        need <= doubled(total, need),
        total < need ==> 2 * total <= doubled(total, need) < 2 * need,
        need <= total ==> doubled(total, need) == total,
    decreases
            if total < need {
                need - total
            } else {
                0
            },
{
    if total < need {
        lemma_doubled(2 * total, need);
    }
}

/// The room on the left of a chunk that was made of one byte, after one byte at a time was
/// added to its left `n` times.
pub open spec fn room_after_bytes(n: nat) -> int
    decreases n,
{
    if n == 0 {
        0
    } else {
        room_after(room_after_bytes((n - 1) as nat), n as int, 1)
    }
}

/// How often such a chunk had to grow.
pub open spec fn growths(n: nat) -> nat
    decreases n,
{
    if n == 0 {
        0
    } else if room_after_bytes((n - 1) as nat) < 1 {
        growths((n - 1) as nat) + 1
    } else {
        growths((n - 1) as nat)
    }
}

/// Adding bytes to the left takes constant time on average: `n` bytes, one by one, make the
/// memory grow only once more than the logarithm of `n` to the base two, rounded down.
pub proof fn lemma_growths(n: nat)
    requires
        1 <= n,
        2 * n <= usize::MAX,
    ensures
        growths(n) >= 1,
        pow2((growths(n) - 1) as nat) <= n < pow2(growths(n)),
        room_after_bytes(n) + 1 + n == pow2(growths(n)),
    decreases n,
{
    let was = (n - 1) as nat;
    let total = room_after_bytes(was) + n;
    let need = n as int + 1;
    lemma2_to64();
    if was == 0 {
        assert(growths(was) == 0 && room_after_bytes(was) == 0);
    } else {
        lemma_growths(was);
    }
    lemma_pow2_unfold(growths(was) + 1);
    lemma_doubled(total, need);
    if total < need {
        assert(doubled(total, need) == doubled(2 * total, need));
        lemma_doubled(2 * total, need);
    }
}

impl View for Demem {
    type V = Seq<u8>;

    /// The live bytes.
    closed spec fn view(&self) -> Seq<u8> {
        self.mem@.skip(self.start as int)
    }
}

impl From<Vec<u8>> for Demem {
    /// The chunk that holds `v`.
    fn from(v: Vec<u8>) -> (r: Demem)
        ensures
            r.wf(),
            r@ == v@,
            r.left_room() == 0,
    {
        proof {
            assert(v@.skip(0) =~= v@);
        }
        Demem { mem: v, start: 0 }
    }
}

impl vstd::std_specs::convert::FromSpecImpl<Vec<u8>> for Demem {
    open spec fn obeys_from_spec() -> bool {
        true
    }

    closed spec fn from_spec(v: Vec<u8>) -> Demem {
        Demem { mem: v, start: 0 }
    }
}

impl Demem {
    /// The spare space on the left never reaches past the end of the memory.
    pub closed spec fn wf(self) -> bool {
        self.start <= self.mem@.len()
    }

    /// An empty chunk.
    pub fn new() -> (r: Demem)
        ensures
            r.wf(),
            r@ == Seq::<u8>::empty(),
            r.left_room() == 0,
    {
        let r = Demem { mem: Vec::new(), start: 0 };
        proof {
            assert(r@ =~= Seq::<u8>::empty());
        }
        r
    }

    /// An empty chunk with room for `lspare` bytes on the left and `rspare` bytes
    /// on the right.
    pub fn with_capacity(lspare: usize, rspare: usize) -> (r: Demem)
        requires
            lspare + rspare <= isize::MAX,
        ensures
            r.wf(),
            r@ == Seq::<u8>::empty(),
            r.left_room() == lspare,
    {
        let mut mem: Vec<u8> = Vec::with_capacity(lspare + rspare);
        mem.resize(lspare, 0);
        let r = Demem { mem, start: lspare };
        proof {
            assert(r@ =~= Seq::<u8>::empty());
        }
        r
    }

    /// The live bytes as a slice.
    pub fn as_slice(&self) -> (r: &[u8])
        requires
            self.wf(),
        ensures
            r@ == self@,
    {
        proof {
            assert(self.mem@.subrange(self.start as int, self.mem@.len() as int) =~= self@);
        }
        slice_subrange(self.mem.as_slice(), self.start, self.mem.len())
    }

    /// The number of live bytes.
    pub fn len(&self) -> (r: usize)
        requires
            self.wf(),
        ensures
            r == self@.len(),
    {
        self.mem.len() - self.start
    }

    /// Whether there are no live bytes.
    pub fn is_empty(&self) -> (r: bool)
        requires
            self.wf(),
        ensures
            r == (self@.len() == 0),
    {
        self.len() == 0
    }

    /// The room on the left that the chunk needs for `n` more bytes there.
    fn grown_room(&self, n: usize) -> (r: usize)
        requires
            self.wf(),
            n > self.left_room(),
        ensures
            r >= n,
            r - n == room_after(self.left_room() as int, self@.len() as int, n as int),
    {
        let live: usize = self.len();
        let mut total: usize = self.mem.len();
        let ghost want = doubled(total as int, n + live);
        if total == 0 {
            return n;
        }
        while total - live < n
            invariant
                0 < total,
                live <= total,
                live == self@.len(),
                want == doubled(total as int, n + live),
                want == doubled((self.left_room() + self@.len()) as int, self@.len() + n),
            decreases usize::MAX - total,
        {
            proof {
                lemma_doubled(total as int, n + live);
            }
            match total.checked_mul(2) {
                Some(double) => {
                    total = double;
                },
                None => {
                    return n;
                },
            }
        }
        total - live
    }

    /// Add data to the left.
    /// Where the room on the left is too small, the memory is doubled until it is not.
    pub fn extend_left(&mut self, data: &[u8])
        requires
            old(self).wf(),
        ensures
            final(self).wf(),
            final(self)@ == data@ + old(self)@,
            data@.len() <= old(self).left_room() ==> final(self).left_room() == old(
                self,
            ).left_room() - data@.len(),
            final(self).left_room() == room_after(
                old(self).left_room() as int,
                old(self)@.len() as int,
                data@.len() as int,
            ),
    {
        let n: usize = data.len();
        let ghost live = self@;
        assert(self.start + live.len() == self.mem.len());
        if n > self.start {
            let lspare: usize = self.grown_room(n);
            let mut mem: Vec<u8> = Vec::new();
            mem.resize(lspare, 0);
            mem.extend_from_slice(self.as_slice());
            self.mem = mem;
            self.start = lspare;
            proof {
                assert(self@ =~= live);
            }
        }
        let base: usize = self.start - n;
        let ghost before = self.mem@;
        let mut i: usize = 0;
        while i < n
            invariant
                i <= n,
                n == data@.len(),
                base + n == self.start,
                self.mem@.len() == before.len(),
                self.start <= before.len(),
                forall|k: int| 0 <= k < i ==> self.mem@[base + k] == data@[k],
                forall|k: int| base + i <= k < before.len() ==> self.mem@[k] == before[k],
            decreases n - i,
        {
            self.mem.set(base + i, data[i]);
            i = i + 1;
        }
        self.start = base;
        proof {
            assert(self@ =~= data@ + live);
        }
    }

    /// Add data to the right.
    pub fn extend_right(&mut self, data: &[u8])
        requires
            old(self).wf(),
        ensures
            final(self).wf(),
            final(self)@ == old(self)@ + data@,
            final(self).left_room() == old(self).left_room(),
    {
        let ghost live = self@;
        self.mem.extend_from_slice(data);
        proof {
            assert(self@ =~= live + data@);
        }
    }

    /// Remove data from the left.
    pub fn consume_left(&mut self, count: usize)
        requires
            old(self).wf(),
            count <= old(self)@.len(),
        ensures
            final(self).wf(),
            final(self)@ == old(self)@.skip(count as int),
            final(self).left_room() == old(self).left_room() + count,
    {
        let ghost live = self@;
        assert(self.start + count <= self.mem.len());
        self.start = self.start + count;
        proof {
            assert(self@ =~= live.skip(count as int));
        }
    }

    /// Remove data from the right.
    pub fn consume_right(&mut self, count: usize)
        requires
            old(self).wf(),
            count <= old(self)@.len(),
        ensures
            final(self).wf(),
            final(self)@ == old(self)@.take(old(self)@.len() - count),
            final(self).left_room() == old(self).left_room(),
    {
        let ghost live = self@;
        let len: usize = self.mem.len() - count;
        self.mem.truncate(len);
        proof {
            assert(self@ =~= live.take(live.len() - count));
        }
    }

    /// Free any unused spare capacity.
    pub fn shrink_to_fit(&mut self)
        requires
            old(self).wf(),
        ensures
            final(self).wf(),
            final(self)@ == old(self)@,
            final(self).left_room() == 0,
    {
        let ghost live = self@;
        let mut mem: Vec<u8> = Vec::with_capacity(self.len());
        mem.extend_from_slice(self.as_slice());
        self.mem = mem;
        self.start = 0;
        proof {
            assert(self@ =~= live);
        }
    }

    /// How many bytes can be added to the left without moving the live bytes.
    pub closed spec fn left_room(self) -> nat {
        self.start as nat
    }

    /// How many bytes can be added to the left without moving the live bytes.
    pub fn spare_left(&self) -> (r: usize)
        ensures
            r == self.left_room(),
    {
        self.start
    }

    /// How many bytes can be added to the right without moving the live bytes.
    /// It depends on the allocator.
    pub fn spare_right(&self) -> (r: usize)
        requires
            self.wf(),
        ensures
            r + self.left_room() + self@.len() <= usize::MAX,
    {
        vec_capacity(&self.mem) - self.mem.len()
    }

    /// How many bytes of memory are held, live or spare. It depends on the
    /// allocator.
    pub fn capacity(&self) -> (r: usize)
        requires
            self.wf(),
        ensures
            r >= self.left_room() + self@.len(),
    {
        vec_capacity(&self.mem)
    }
}

} // verus!
