//! Runs of loaded bytes: what a sparse store holds, as values.

use vstd::prelude::*;

verus! {

/// Consecutive bytes of a file, starting at the offset `at`.
pub struct Run {
    pub at: int,
    pub data: Seq<u8>,
}

impl Run {
    /// The offset right after the last byte.
    pub open spec fn end(self) -> int {
        self.at + self.data.len()
    }

    /// The part of the run that lies in `[lo, hi)`.
    pub open spec fn cut(self, lo: int, hi: int) -> Run {
        let a = if lo <= self.at {
            0
        } else if lo >= self.end() {
            self.data.len() as int
        } else {
            lo - self.at
        };
        let b = if hi <= self.at + a {
            a
        } else if hi >= self.end() {
            self.data.len() as int
        } else {
            hi - self.at
        };
        Run { at: self.at + a, data: self.data.subrange(a, b) }
    }
}

/// Whether the runs lie in the offset space in order, without overlap.
pub open spec fn ordered(runs: Seq<Run>) -> bool {
    &&& forall|i: int| 0 <= i < runs.len() ==> 0 <= (#[trigger] runs[i]).at
    &&& forall|i: int| 0 <= i < runs.len() ==> (#[trigger] runs[i]).end() <= i64::MAX
    &&& forall|i: int, j: int|
        0 <= i < j < runs.len() ==> (#[trigger] runs[i]).end() <= (#[trigger] runs[j]).at
}

/// Whether no run is empty.
pub open spec fn filled(runs: Seq<Run>) -> bool {
    forall|i: int| 0 <= i < runs.len() ==> (#[trigger] runs[i]).data.len() > 0
}

/// Whether no run touches the next one.
pub open spec fn apart(runs: Seq<Run>) -> bool {
    forall|i: int, j: int|
        0 <= i < j < runs.len() ==> (#[trigger] runs[i]).end() < (#[trigger] runs[j]).at
}

/// Whether the runs are in order, none is empty and none touches another.
pub open spec fn tidy(runs: Seq<Run>) -> bool {
    ordered(runs) && filled(runs) && apart(runs)
}

/// The ranges that the runs take up.
pub open spec fn spans(runs: Seq<Run>) -> Seq<(int, int)> {
    Seq::new(runs.len(), |i: int| (runs[i].at, runs[i].end()))
}

/// Whether the run at index `i` holds the byte at `p`.
pub open spec fn covers(runs: Seq<Run>, i: int, p: int) -> bool {
    0 <= i < runs.len() && runs[i].at <= p < runs[i].end()
}

/// Whether some run holds the byte at `p`.
pub open spec fn held(runs: Seq<Run>, p: int) -> bool {
    exists|i: int| covers(runs, i, p)
}

/// The index of a run that holds the byte at `p`.
pub open spec fn holder(runs: Seq<Run>, p: int) -> int {
    choose|i: int| covers(runs, i, p)
}

/// The loaded bytes by offset.
pub open spec fn bytes(runs: Seq<Run>) -> Map<int, u8> {
    Map::new(
        |p: int| held(runs, p),
        |p: int| runs[holder(runs, p)].data[p - runs[holder(runs, p)].at],
    )
}

/// The parts of the runs that lie in `[lo, hi)`, without the empty ones.
pub open spec fn clip(runs: Seq<Run>, lo: int, hi: int) -> Seq<Run>
    decreases runs.len(),
{
    if runs.len() == 0 {
        runs
    } else {
        let c = runs.last().cut(lo, hi);
        let rest = clip(runs.drop_last(), lo, hi);
        if c.data.len() == 0 {
            rest
        } else {
            rest.push(c)
        }
    }
}

/// The runs with the one at `i` split in two at `m`.
pub open spec fn split(runs: Seq<Run>, i: int, m: int) -> Seq<Run> {
    let k = m - runs[i].at;
    runs.take(i) + seq![
        Run { at: runs[i].at, data: runs[i].data.take(k) },
        Run { at: m, data: runs[i].data.skip(k) },
    ] + runs.skip(i + 1)
}

/// The runs after `new` took over its offsets.
pub open spec fn overwrite(runs: Seq<Run>, new: Run) -> Seq<Run> {
    clip(runs, 0, new.at) + seq![new] + clip(runs, new.end(), i64::MAX as int)
}

/// The runs with the two at `i` and `i + 1` put together.
pub open spec fn joined(runs: Seq<Run>, i: int) -> Seq<Run> {
    runs.take(i) + seq![Run { at: runs[i].at, data: runs[i].data + runs[i + 1].data }] + runs.skip(
        i + 2,
    )
}

/// Whether the run at `i` ends where the next one starts.
pub open spec fn touching(runs: Seq<Run>, i: int) -> bool {
    0 <= i && i + 1 < runs.len() && runs[i].end() == runs[i + 1].at
}

/// The runs after bytes moved between the two at `i` and `i + 1`, so that the
/// first of them holds `count` bytes.
pub open spec fn resplit(runs: Seq<Run>, i: int, count: int) -> Seq<Run> {
    let all = runs[i].data + runs[i + 1].data;
    runs.update(i, Run { at: runs[i].at, data: all.take(count) }).update(
        i + 1,
        Run { at: runs[i].at + count, data: all.skip(count) },
    )
}

/// The runs after the one at `i` was put together with the neighbors that it
/// touches.
pub open spec fn settled(runs: Seq<Run>, i: int) -> Seq<Run> {
    let left = touching(runs, i - 1);
    let runs1 = if left {
        joined(runs, i - 1)
    } else {
        runs
    };
    let i1 = if left {
        i - 1
    } else {
        i
    };
    if touching(runs1, i1) {
        joined(runs1, i1)
    } else {
        runs1
    }
}

/// The runs after `data` was loaded at `at`.
pub open spec fn loaded(runs: Seq<Run>, at: int, data: Seq<u8>) -> Seq<Run> {
    if data.len() == 0 {
        runs
    } else {
        settled(overwrite(runs, Run { at, data }), clip(runs, 0, at).len() as int)
    }
}

/// The longest part of one run that starts at `p`.
pub open spec fn prefix_at(runs: Seq<Run>, p: int) -> Seq<u8> {
    if held(runs, p) {
        runs[holder(runs, p)].data.skip(p - runs[holder(runs, p)].at)
    } else {
        Seq::empty()
    }
}

/// The longest part of one run that ends right before `p`.
pub open spec fn suffix_at(runs: Seq<Run>, p: int) -> Seq<u8> {
    if held(runs, p - 1) {
        runs[holder(runs, p - 1)].data.take(p - runs[holder(runs, p - 1)].at)
    } else {
        Seq::empty()
    }
}

/// In ordered runs, only one run holds an offset.
pub proof fn lemma_covers_unique(runs: Seq<Run>, i: int, j: int, p: int)
    requires
        ordered(runs),
        covers(runs, i, p),
        covers(runs, j, p),
    ensures
        i == j,
{
}

/// In ordered runs, the run that holds an offset is the holder.
pub proof fn lemma_holder(runs: Seq<Run>, i: int, p: int)
    requires
        ordered(runs),
        covers(runs, i, p),
    ensures
        held(runs, p),
        holder(runs, p) == i,
{
    lemma_covers_unique(runs, i, holder(runs, p), p);
}

/// What ordered runs hold at an offset of one of them.
pub proof fn lemma_bytes_at(runs: Seq<Run>, i: int, p: int)
    requires
        ordered(runs),
        covers(runs, i, p),
    ensures
        bytes(runs).contains_key(p),
        bytes(runs)[p] == runs[i].data[p - runs[i].at],
{
    lemma_holder(runs, i, p);
}

/// Moving bytes between two touching runs keeps the runs in order, keeps the two
/// touching, and does not change what they give together.
pub proof fn lemma_resplit(runs: Seq<Run>, i: int, count: int)
    requires
        ordered(runs),
        touching(runs, i),
        0 <= count <= runs[i].data.len() + runs[i + 1].data.len(),
    ensures
        ordered(resplit(runs, i, count)),
        touching(resplit(runs, i, count), i),
        joined(resplit(runs, i, count), i) == joined(runs, i),
{
    let out = resplit(runs, i, count);
    let all = runs[i].data + runs[i + 1].data;
    assert(runs[i].end() <= runs[i + 1].at);
    assert(out[i].end() == runs[i].at + count);
    assert(out[i + 1].end() == runs[i + 1].end());
    assert forall|a: int, b: int| 0 <= a < b < out.len() implies (#[trigger] out[a]).end() <= (
    #[trigger] out[b]).at by {
        assert(a != i && a != i + 1 ==> out[a] == runs[a]);
        assert(b != i && b != i + 1 ==> out[b] == runs[b]);
        if a < i {
            assert(runs[a].end() <= runs[i].at);
        }
        if b > i + 1 {
            assert(runs[i + 1].end() <= runs[b].at);
        }
    }
    assert(all.take(count) + all.skip(count) =~= all);
    assert(joined(out, i) =~= joined(runs, i));
}

/// Where one of two touching runs is empty, putting them together is dropping it.
pub proof fn lemma_joined_empty(runs: Seq<Run>, i: int)
    requires
        touching(runs, i),
    ensures
        runs[i].data.len() == 0 ==> joined(runs, i) == runs.remove(i),
        runs[i + 1].data.len() == 0 ==> joined(runs, i) == runs.remove(i + 1),
{
    if runs[i].data.len() == 0 {
        assert(runs[i].data + runs[i + 1].data =~= runs[i + 1].data);
        assert(joined(runs, i) =~= runs.remove(i));
    }
    if runs[i + 1].data.len() == 0 {
        assert(runs[i].data + runs[i + 1].data =~= runs[i].data);
        assert(joined(runs, i) =~= runs.remove(i + 1));
    }
}

/// Putting two touching runs together keeps the runs in order, and keeps every
/// byte.
pub proof fn lemma_joined(runs: Seq<Run>, i: int)
    requires
        ordered(runs),
        touching(runs, i),
    ensures
        ordered(joined(runs, i)),
        filled(runs) ==> filled(joined(runs, i)),
        bytes(joined(runs, i)) == bytes(runs),
{
    let out = joined(runs, i);
    assert(forall|k: int| 0 <= k < i ==> #[trigger] out[k] == runs[k]);
    assert(forall|k: int| i < k < out.len() ==> #[trigger] out[k] == runs[k + 1]);
    assert(out[i].end() == runs[i + 1].end());
    assert forall|a: int, b: int| 0 <= a < b < out.len() implies (#[trigger] out[a]).end() <= (
    #[trigger] out[b]).at by {
        let a1 = if a <= i {
            a
        } else {
            a + 1
        };
        let b1 = if b <= i {
            b
        } else {
            b + 1
        };
        assert(runs[a1].end() <= runs[b1].at);
        if a == i {
            assert(runs[i + 1].end() <= runs[b1].at);
        }
    }
    assert forall|k: int| 0 <= k < out.len() implies 0 <= (#[trigger] out[k]).at && out[k].end()
        <= i64::MAX by {
        if k > i {
            assert(out[k] == runs[k + 1]);
        }
    }
    assert(ordered(out));
    if filled(runs) {
        assert forall|k: int| 0 <= k < out.len() implies (#[trigger] out[k]).data.len() > 0 by {
            if k > i {
                assert(out[k] == runs[k + 1]);
            } else {
                assert(runs[k].data.len() > 0);
            }
        }
    }
    assert forall|p: int| #[trigger]
        held(out, p) == held(runs, p) && (held(runs, p) ==> bytes(out)[p] == bytes(runs)[p]) by {
        if held(runs, p) {
            let k = holder(runs, p);
            let k1 = if k <= i {
                k
            } else {
                k - 1
            };
            assert(covers(out, k1, p));
            lemma_bytes_at(out, k1, p);
            lemma_bytes_at(runs, k, p);
        }
        if held(out, p) {
            let k = holder(out, p);
            if k < i {
                assert(covers(runs, k, p));
            } else if k > i {
                assert(covers(runs, k + 1, p));
            } else if p < runs[i].end() {
                assert(covers(runs, i, p));
            } else {
                assert(covers(runs, i + 1, p));
            }
        }
    }
    assert forall|p: int| #[trigger] bytes(out).contains_key(p) == bytes(runs).contains_key(p) by {
        assert(held(out, p) == held(runs, p));
    }
    assert forall|p: int| #[trigger] bytes(out).contains_key(p) implies bytes(out)[p] == bytes(
        runs,
    )[p] by {
        assert(held(out, p) == held(runs, p));
    }
    assert(bytes(out) =~= bytes(runs));
}

/// While two touching runs are being put together, no byte is lost or changed: bytes
/// only move between the two.
pub proof fn lemma_resplit_bytes(runs: Seq<Run>, i: int, count: int)
    requires
        ordered(runs),
        touching(runs, i),
        0 <= count <= runs[i].data.len() + runs[i + 1].data.len(),
    ensures
        bytes(resplit(runs, i, count)) == bytes(runs),
{
    lemma_resplit(runs, i, count);
    lemma_joined(runs, i);
    lemma_joined(resplit(runs, i, count), i);
}

/// Recognizes a clipped list: run by run, everything before `i` and from `j` on
/// falls away, and what lies between gives `out`.
pub proof fn lemma_clip_is(runs: Seq<Run>, out: Seq<Run>, i: int, j: int, lo: int, hi: int)
    requires
        0 <= i <= j <= runs.len(),
        out.len() == j - i,
        forall|k: int| 0 <= k < i ==> (#[trigger] runs[k]).cut(lo, hi).data.len() == 0,
        forall|k: int| j <= k < runs.len() ==> (#[trigger] runs[k]).cut(lo, hi).data.len() == 0,
        forall|k: int| i <= k < j ==> (#[trigger] runs[k]).cut(lo, hi) == out[k - i],
        forall|k: int| 0 <= k < out.len() ==> (#[trigger] out[k]).data.len() > 0,
    ensures
        clip(runs, lo, hi) == out,
    decreases runs.len(),
{
    if runs.len() > 0 {
        let n = runs.len() - 1;
        if j <= n {
            lemma_clip_is(runs.drop_last(), out, i, j, lo, hi);
        } else if i <= n {
            assert(runs[n].cut(lo, hi) == out[n - i]);
            lemma_clip_is(runs.drop_last(), out.drop_last(), i, n as int, lo, hi);
            assert(out.drop_last().push(out.last()) =~= out);
        } else {
            lemma_clip_is(runs.drop_last(), out, n as int, n as int, lo, hi);
        }
    } else {
        assert(out =~= runs);
    }
}

/// A list is clipped part by part.
proof fn lemma_clip_parts(l: Seq<Run>, r: Seq<Run>, lo: int, hi: int)
    ensures
        clip(l + r, lo, hi) == clip(l, lo, hi) + clip(r, lo, hi),
    decreases r.len(),
{
    if r.len() == 0 {
        assert(l + r =~= l);
        assert(clip(l, lo, hi) + clip(r, lo, hi) =~= clip(l, lo, hi));
    } else {
        assert((l + r).drop_last() =~= l + r.drop_last());
        lemma_clip_parts(l, r.drop_last(), lo, hi);
        let c = r.last().cut(lo, hi);
        assert((clip(l, lo, hi) + clip(r.drop_last(), lo, hi)).push(c) =~= clip(l, lo, hi) + clip(
            r.drop_last(),
            lo,
            hi,
        ).push(c));
    }
}

/// Splitting a run keeps the runs in order, and does not change what lies on either
/// side of the place where it is split.
pub proof fn lemma_split(runs: Seq<Run>, i: int, m: int)
    requires
        ordered(runs),
        filled(runs),
        0 <= i < runs.len(),
        runs[i].at < m < runs[i].end(),
    ensures
        ordered(split(runs, i, m)),
        filled(split(runs, i, m)),
        forall|lo: int, hi: int|
            hi <= m || m <= lo ==> #[trigger] clip(split(runs, i, m), lo, hi) == clip(runs, lo, hi),
{
    let out = split(runs, i, m);
    assert(forall|k: int| 0 <= k < i ==> #[trigger] out[k] == runs[k]);
    assert(out[i].end() == m && out[i + 1].end() == runs[i].end());
    assert(forall|k: int| i + 1 < k < out.len() ==> #[trigger] out[k] == runs[k - 1]);
    assert forall|a: int, b: int| 0 <= a < b < out.len() implies (#[trigger] out[a]).end() <= (
    #[trigger] out[b]).at by {
        let a1 = if a <= i {
            a
        } else {
            a - 1
        };
        let b1 = if b <= i {
            b
        } else {
            b - 1
        };
        if a1 < b1 {
            assert(runs[a1].end() <= runs[b1].at);
        }
    }
    assert forall|lo: int, hi: int| hi <= m || m <= lo implies #[trigger] clip(out, lo, hi) == clip(
        runs,
        lo,
        hi,
    ) by {
        let l = runs.take(i);
        let r = runs.skip(i + 1);
        let one = seq![runs[i]];
        let two = seq![out[i], out[i + 1]];
        assert(runs =~= l + one + r);
        assert(out =~= l + two + r);
        lemma_clip_parts(l + one, r, lo, hi);
        lemma_clip_parts(l, one, lo, hi);
        lemma_clip_parts(l + two, r, lo, hi);
        lemma_clip_parts(l, two, lo, hi);
        let whole = runs[i].cut(lo, hi);
        let part = if hi <= m {
            out[i].cut(lo, hi)
        } else {
            out[i + 1].cut(lo, hi)
        };
        if whole.data.len() > 0 {
            assert(part.data =~= whole.data);
            assert(part == whole);
        }
        assert(one.drop_last() =~= Seq::<Run>::empty());
        assert(two.drop_last() =~= seq![out[i]]);
        assert(two.drop_last().drop_last() =~= Seq::<Run>::empty());
        assert(clip(Seq::<Run>::empty(), lo, hi) =~= Seq::<Run>::empty());
        reveal_with_fuel(clip, 3);
        assert(clip(two, lo, hi) =~= clip(one, lo, hi));
    }
}

/// Clipping a list to a range once more changes nothing.
pub proof fn lemma_clip_again(runs: Seq<Run>, lo: int, hi: int)
    requires
        ordered(runs),
    ensures
        clip(clip(runs, lo, hi), lo, hi) == clip(runs, lo, hi),
{
    let out = clip(runs, lo, hi);
    lemma_clip(runs, lo, hi);
    assert forall|k: int| 0 <= k < out.len() implies (#[trigger] out[k]).cut(lo, hi) == out[k - 0] by {
        assert(out[k].cut(lo, hi).data =~= out[k].data);
    }
    lemma_clip_is(out, out, 0, out.len() as int, lo, hi);
}

/// A clipped list is in order, lies in the given range, has no empty run and
/// holds exactly the bytes of the range.
pub proof fn lemma_clip(runs: Seq<Run>, lo: int, hi: int)
    requires
        ordered(runs),
    ensures
        ordered(clip(runs, lo, hi)),
        filled(clip(runs, lo, hi)),
        apart(runs) ==> apart(clip(runs, lo, hi)),
        forall|k: int|
            0 <= k < clip(runs, lo, hi).len() ==> lo <= (#[trigger] clip(runs, lo, hi)[k]).at
                && clip(runs, lo, hi)[k].end() <= hi,
        forall|k: int|
            0 <= k < clip(runs, lo, hi).len() && runs.len() > 0 ==> (#[trigger] clip(
                runs,
                lo,
                hi,
            )[k]).end() <= runs.last().end(),
        forall|p: int|
            bytes(clip(runs, lo, hi)).contains_key(p) <==> (lo <= p < hi && #[trigger] bytes(
                runs,
            ).contains_key(p)),
        forall|p: int|
            lo <= p < hi && #[trigger] bytes(runs).contains_key(p) ==> bytes(
                clip(runs, lo, hi),
            )[p] == bytes(runs)[p],
    decreases runs.len(),
{
    let out = clip(runs, lo, hi);
    if runs.len() > 0 {
        let n = runs.len() - 1;
        let init = runs.drop_last();
        let c = runs.last().cut(lo, hi);
        let rest = clip(init, lo, hi);
        assert(ordered(init));
        lemma_clip(init, lo, hi);
        assert forall|k: int| 0 <= k < rest.len() implies (#[trigger] rest[k]).end()
            <= runs.last().at by {
            assert(init.last() == runs[n - 1]);
            assert(runs[n - 1].end() <= runs[n as int].at);
        }
        assert(apart(runs) ==> apart(init));
        if apart(runs) {
            assert forall|k: int| 0 <= k < rest.len() implies (#[trigger] rest[k]).end()
                < runs.last().at by {
                assert(init.last() == runs[n - 1]);
                assert(runs[n - 1].end() < runs[n as int].at);
            }
        }
        assert forall|p: int| #[trigger]
            bytes(runs).contains_key(p) <==> (bytes(init).contains_key(p) || covers(
            runs,
            n as int,
            p,
        )) by {
            if bytes(runs).contains_key(p) {
                let i = choose|i: int| covers(runs, i, p);
                if i < n {
                    assert(covers(init, i, p));
                }
            }
            if bytes(init).contains_key(p) {
                let i = choose|i: int| covers(init, i, p);
                assert(covers(runs, i, p));
            }
        }
        assert forall|p: int| #[trigger] bytes(init).contains_key(p) implies bytes(runs)[p]
            == bytes(init)[p] by {
            let i = choose|i: int| covers(init, i, p);
            assert(covers(runs, i, p));
            lemma_bytes_at(runs, i, p);
            lemma_bytes_at(init, i, p);
        }
        if c.data.len() > 0 {
            assert(out == rest.push(c));
            let m = rest.len() as int;
            assert(ordered(out));
            assert forall|p: int| #[trigger]
                bytes(out).contains_key(p) <==> (bytes(rest).contains_key(p) || covers(out, m, p)) by {
                if bytes(out).contains_key(p) {
                    let i = choose|i: int| covers(out, i, p);
                    if i < m {
                        assert(covers(rest, i, p));
                    }
                }
                if bytes(rest).contains_key(p) {
                    let i = choose|i: int| covers(rest, i, p);
                    assert(covers(out, i, p));
                }
            }
            assert forall|p: int| lo <= p < hi && #[trigger] bytes(runs).contains_key(p) implies bytes(
                out,
            )[p] == bytes(runs)[p] by {
                if covers(runs, n as int, p) {
                    lemma_bytes_at(runs, n as int, p);
                    assert(covers(out, m, p));
                    lemma_bytes_at(out, m, p);
                } else {
                    assert(bytes(init).contains_key(p));
                    let i = choose|i: int| covers(rest, i, p);
                    assert(covers(rest, i, p));
                    assert(covers(out, i, p));
                    lemma_bytes_at(out, i, p);
                    lemma_bytes_at(rest, i, p);
                }
            }
            assert forall|p: int| bytes(out).contains_key(p) <==> (lo <= p < hi && #[trigger] bytes(
                runs,
            ).contains_key(p)) by {
                assert(bytes(out).contains_key(p) <==> (bytes(rest).contains_key(p) || covers(
                    out,
                    m,
                    p,
                )));
                assert(bytes(init).contains_key(p) || !bytes(init).contains_key(p));
                assert(covers(out, m, p) <==> (lo <= p < hi && covers(runs, n as int, p)));
            }
        } else {
            assert(out == rest);
            assert forall|p: int| bytes(out).contains_key(p) <==> (lo <= p < hi && #[trigger] bytes(
                runs,
            ).contains_key(p)) by {
                assert(bytes(init).contains_key(p) || !bytes(init).contains_key(p));
            }
            assert forall|p: int| lo <= p < hi && #[trigger] bytes(runs).contains_key(p) implies bytes(
                out,
            )[p] == bytes(runs)[p] by {
                assert(bytes(init).contains_key(p));
            }
        }
    }
}

/// Overwriting keeps the runs in order and filled, and changes nothing but the
/// bytes that the new run brings.
pub proof fn lemma_overwrite(runs: Seq<Run>, new: Run)
    requires
        ordered(runs),
        filled(runs),
        new.at >= 0,
        new.data.len() > 0,
        new.end() <= i64::MAX,
    ensures
        ordered(overwrite(runs, new)),
        filled(overwrite(runs, new)),
        bytes(overwrite(runs, new)) == bytes(runs).union_prefer_right(bytes(seq![new])),
{
    let l = clip(runs, 0, new.at);
    let r = clip(runs, new.end(), i64::MAX as int);
    let out = overwrite(runs, new);
    let n = l.len() as int;
    lemma_clip(runs, 0, new.at);
    lemma_clip(runs, new.end(), i64::MAX as int);
    assert(forall|k: int| 0 <= k < n ==> #[trigger] out[k] == l[k]);
    assert(out[n] == new);
    assert(forall|k: int| n < k < out.len() ==> #[trigger] out[k] == r[k - n - 1]);
    assert(ordered(out));
    let one = seq![new];
    assert forall|p: int| #[trigger]
        held(out, p) == (held(runs, p) || held(one, p)) && (held(out, p) ==> bytes(out)[p] == bytes(
        runs,
    ).union_prefer_right(bytes(one))[p]) by {
        assert(bytes(runs).contains_key(p) == held(runs, p));
        assert(bytes(l).contains_key(p) == held(l, p));
        assert(bytes(r).contains_key(p) == held(r, p));
        assert(covers(one, 0, p) == held(one, p));
        if held(out, p) {
            let k = holder(out, p);
            lemma_bytes_at(out, k, p);
            if k < n {
                assert(covers(l, k, p));
                lemma_bytes_at(l, k, p);
            } else if k > n {
                assert(covers(r, k - n - 1, p));
                lemma_bytes_at(r, k - n - 1, p);
            } else {
                assert(covers(one, 0, p));
                lemma_bytes_at(one, 0, p);
            }
        } else {
            if held(l, p) {
                assert(covers(out, holder(l, p), p));
            }
            if held(r, p) {
                assert(covers(out, n + 1 + holder(r, p), p));
            }
            if held(one, p) {
                assert(covers(out, n, p));
            }
            if held(runs, p) {
                assert(covers(runs, holder(runs, p), p));
            }
        }
    }
    assert(bytes(out).dom() =~= bytes(runs).union_prefer_right(bytes(one)).dom()) by {
        assert forall|p: int| #[trigger] bytes(out).contains_key(p) == bytes(runs).union_prefer_right(
            bytes(one),
        ).contains_key(p) by {
            assert(held(out, p) == (held(runs, p) || held(one, p)));
        }
    }
    assert forall|p: int| #[trigger] bytes(out).contains_key(p) implies bytes(out)[p] == bytes(
        runs,
    ).union_prefer_right(bytes(one))[p] by {
        assert(held(out, p));
    }
    assert(bytes(out) =~= bytes(runs).union_prefer_right(bytes(one)));
}

/// Whether no run touches the next one, except maybe those at `x` and `y`.
spec fn apart_but(runs: Seq<Run>, x: int, y: int) -> bool {
    forall|a: int, b: int|
        0 <= a < b < runs.len() && !(b == a + 1 && (a == x || a == y)) ==> (#[trigger] runs[a]).end()
            < (#[trigger] runs[b]).at
}

/// Putting two touching runs together closes that place.
proof fn lemma_joined_apart(runs: Seq<Run>, i: int, y: int)
    requires
        ordered(runs),
        filled(runs),
        touching(runs, i),
        y == i || y == i + 1,
        apart_but(runs, i, y),
    ensures
        y == i ==> apart(joined(runs, i)),
        y == i + 1 ==> apart_but(joined(runs, i), i, i),
{
    let out = joined(runs, i);
    assert(forall|k: int| 0 <= k < i ==> #[trigger] out[k] == runs[k]);
    assert(out[i].at == runs[i].at && out[i].end() == runs[i + 1].end());
    assert(forall|k: int| i < k < out.len() ==> #[trigger] out[k] == runs[k + 1]);
    assert forall|a: int, b: int|
        0 <= a < b < out.len() && !(y == i + 1 && a == i && b == i + 1) implies (
    #[trigger] out[a]).end() < (#[trigger] out[b]).at by {
        let a1 = if a < i {
            a
        } else {
            a + 1
        };
        let b1 = if b <= i {
            b
        } else {
            b + 1
        };
        assert(runs[a1].end() < runs[b1].at);
    }
}

/// Overwriting leaves no touching runs but the new one and its neighbors.
proof fn lemma_overwrite_apart(runs: Seq<Run>, new: Run)
    requires
        tidy(runs),
        new.at >= 0,
        new.data.len() > 0,
        new.end() <= i64::MAX,
    ensures
        apart_but(
            overwrite(runs, new),
            clip(runs, 0, new.at).len() - 1,
            clip(runs, 0, new.at).len() as int,
        ),
{
    let l = clip(runs, 0, new.at);
    let r = clip(runs, new.end(), i64::MAX as int);
    let out = overwrite(runs, new);
    let n = l.len() as int;
    lemma_clip(runs, 0, new.at);
    lemma_clip(runs, new.end(), i64::MAX as int);
    assert forall|a: int, b: int|
        0 <= a < b < out.len() && !(b == a + 1 && (a == n - 1 || a == n)) implies (
    #[trigger] out[a]).end() < (#[trigger] out[b]).at by {
        assert(a < n ==> out[a] == l[a]);
        assert(b < n ==> out[b] == l[b]);
        assert(a == n ==> out[a] == new);
        assert(b == n ==> out[b] == new);
        assert(a > n ==> out[a] == r[a - n - 1]);
        assert(b > n ==> out[b] == r[b - n - 1]);
        if a < n && b == n {
            assert(l[a].end() < l[n - 1].at);
        }
        if a == n && b > n {
            assert(r[0].end() < r[b - n - 1].at);
        }
    }
}

/// Loading keeps the runs in order, filled and apart. What is loaded afterwards is what
/// was loaded before, with the new data in its place.
pub proof fn lemma_loaded(runs: Seq<Run>, at: int, data: Seq<u8>)
    requires
        tidy(runs),
        at >= 0,
        at + data.len() <= i64::MAX,
    ensures
        tidy(loaded(runs, at, data)),
        bytes(loaded(runs, at, data)) == bytes(runs).union_prefer_right(
            bytes(seq![Run { at, data }]),
        ),
{
    let new = Run { at, data };
    if data.len() == 0 {
        assert(bytes(seq![new]) =~= Map::empty()) by {
            assert forall|p: int| !held(seq![new], p) by {
                if held(seq![new], p) {
                    assert(covers(seq![new], holder(seq![new], p), p));
                }
            }
        }
        assert(bytes(runs) =~= bytes(runs).union_prefer_right(Map::empty()));
    } else {
        let out = overwrite(runs, new);
        let n = clip(runs, 0, at).len() as int;
        lemma_overwrite(runs, new);
        lemma_overwrite_apart(runs, new);
        let left = touching(out, n - 1);
        let mid = if left {
            joined(out, n - 1)
        } else {
            out
        };
        let m = if left {
            n - 1
        } else {
            n
        };
        if left {
            lemma_joined(out, n - 1);
            lemma_joined_apart(out, n - 1, n);
        } else {
            assert(n > 0 ==> out[n - 1].end() <= out[n].at);
        }
        assert(apart_but(mid, m, m));
        if touching(mid, m) {
            lemma_joined(mid, m);
            lemma_joined_apart(mid, m, m);
        } else {
            assert(m + 1 < mid.len() ==> mid[m].end() <= mid[m + 1].at);
        }
    }
}

/// The longest prefix holds exactly the loaded bytes from `p` on, up to the first
/// one that is not loaded.
pub proof fn lemma_prefix(runs: Seq<Run>, p: int)
    requires
        tidy(runs),
    ensures
        forall|q: int| p <= q < p + prefix_at(runs, p).len() ==> #[trigger] held(runs, q),
        forall|k: int|
            0 <= k < prefix_at(runs, p).len() ==> bytes(runs)[p + k] == #[trigger] prefix_at(
                runs,
                p,
            )[k],
        !held(runs, p + prefix_at(runs, p).len()),
{
    let s = prefix_at(runs, p);
    if held(runs, p) {
        let i = holder(runs, p);
        assert forall|q: int| p <= q < p + s.len() implies #[trigger] held(runs, q) by {
            assert(covers(runs, i, q));
        }
        assert forall|k: int| 0 <= k < s.len() implies bytes(runs)[p + k] == #[trigger] s[k] by {
            lemma_bytes_at(runs, i, p + k);
        }
        let e = p + s.len();
        if held(runs, e) {
            let j = holder(runs, e);
            assert(covers(runs, j, e));
            if j < i {
                assert(runs[j].end() <= runs[i].at);
            } else if j > i {
                assert(runs[i].end() < runs[j].at);
            }
        }
    }
}

/// The longest suffix holds exactly the loaded bytes before `p`, back to the first
/// one that is not loaded.
pub proof fn lemma_suffix(runs: Seq<Run>, p: int)
    requires
        tidy(runs),
    ensures
        forall|q: int| p - suffix_at(runs, p).len() <= q < p ==> #[trigger] held(runs, q),
        forall|k: int|
            0 <= k < suffix_at(runs, p).len() ==> bytes(runs)[p - suffix_at(runs, p).len() + k]
                == #[trigger] suffix_at(runs, p)[k],
        !held(runs, p - suffix_at(runs, p).len() - 1),
{
    let s = suffix_at(runs, p);
    if held(runs, p - 1) {
        let i = holder(runs, p - 1);
        assert(covers(runs, i, p - 1));
        assert forall|q: int| p - s.len() <= q < p implies #[trigger] held(runs, q) by {
            assert(covers(runs, i, q));
        }
        assert forall|k: int| 0 <= k < s.len() implies bytes(runs)[p - s.len() + k]
            == #[trigger] s[k] by {
            lemma_bytes_at(runs, i, p - s.len() + k);
        }
        let e = p - s.len() - 1;
        if held(runs, e) {
            let j = holder(runs, e);
            assert(covers(runs, j, e));
            if j < i {
                assert(runs[j].end() < runs[i].at);
            }
        }
    }
}

/// Whether every loaded byte is the byte of `file` at its offset.
pub open spec fn agrees(runs: Seq<Run>, file: Seq<u8>) -> bool {
    forall|p: int| #[trigger]
        held(runs, p) ==> 0 <= p < file.len() && bytes(runs)[p] == file[p]
}

/// Reading gives back what was written: after data was loaded, all of it is held, the
/// longest prefix at its offset starts with it, and nothing else has changed.
pub proof fn lemma_read_back(runs: Seq<Run>, at: int, data: Seq<u8>)
    requires
        tidy(runs),
        at >= 0,
        at + data.len() <= i64::MAX,
    ensures
        forall|p: int| at <= p < at + data.len() ==> #[trigger] held(loaded(runs, at, data), p),
        forall|p: int| #[trigger] held(runs, p) ==> held(loaded(runs, at, data), p),
        forall|p: int| #[trigger]
            held(loaded(runs, at, data), p) && !(at <= p < at + data.len()) ==> held(runs, p)
                && bytes(loaded(runs, at, data))[p] == bytes(runs)[p],
        prefix_at(loaded(runs, at, data), at).len() >= data.len(),
        prefix_at(loaded(runs, at, data), at).take(data.len() as int) == data,
{
    let out = loaded(runs, at, data);
    let n = data.len() as int;
    let one = seq![Run { at, data }];
    lemma_loaded(runs, at, data);
    lemma_prefix(out, at);
    assert forall|p: int| at <= p < at + n implies #[trigger] held(out, p) && bytes(out)[p] == data[p
        - at] by {
        assert(covers(one, 0, p));
        lemma_bytes_at(one, 0, p);
        assert(bytes(out).contains_key(p));
    }
    assert forall|p: int| #[trigger] held(runs, p) implies held(out, p) by {
        assert(bytes(runs).contains_key(p));
        assert(bytes(out).contains_key(p));
    }
    assert forall|p: int| #[trigger] held(out, p) && !(at <= p < at + n) implies held(runs, p)
        && bytes(out)[p] == bytes(runs)[p] by {
        assert(bytes(out).contains_key(p));
        if bytes(one).contains_key(p) {
            assert(covers(one, holder(one, p), p));
        }
        assert(bytes(runs).contains_key(p));
    }
    let s = prefix_at(out, at);
    if s.len() < n {
        assert(held(out, at + s.len()));
    }
    assert forall|k: int| 0 <= k < n implies s.take(n)[k] == data[k] by {
        assert(s[k] == bytes(out)[at + k]);
        assert(held(out, at + k));
    }
    assert(s.take(n) =~= data);
}

/// Loading bytes of a file into a store that agrees with the file gives one that
/// agrees with it too.
pub proof fn lemma_loaded_agrees(runs: Seq<Run>, at: int, data: Seq<u8>, file: Seq<u8>)
    requires
        tidy(runs),
        agrees(runs, file),
        at >= 0,
        at + data.len() <= file.len(),
        at + data.len() <= i64::MAX,
        data == file.subrange(at, at + data.len()),
    ensures
        agrees(loaded(runs, at, data), file),
{
    let out = loaded(runs, at, data);
    let one = seq![Run { at, data }];
    lemma_loaded(runs, at, data);
    assert forall|p: int| #[trigger] held(out, p) implies 0 <= p < file.len() && bytes(out)[p]
        == file[p] by {
        assert(bytes(out).contains_key(p));
        if held(one, p) {
            assert(covers(one, 0, p));
            lemma_bytes_at(one, 0, p);
            assert(data[p - at] == file[p]);
        } else {
            assert(!bytes(one).contains_key(p));
            assert(held(runs, p));
        }
    }
}

/// Clipping a store that agrees with a file gives one that agrees with it too.
pub proof fn lemma_clip_agrees(runs: Seq<Run>, lo: int, hi: int, file: Seq<u8>)
    requires
        ordered(runs),
        agrees(runs, file),
    ensures
        agrees(clip(runs, lo, hi), file),
{
    lemma_clip(runs, lo, hi);
    assert forall|p: int| #[trigger] held(clip(runs, lo, hi), p) implies 0 <= p < file.len() && bytes(
        clip(runs, lo, hi),
    )[p] == file[p] by {
        assert(bytes(clip(runs, lo, hi)).contains_key(p));
        assert(bytes(runs).contains_key(p));
        assert(held(runs, p));
    }
}

} // verus!
