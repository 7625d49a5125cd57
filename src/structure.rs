use vstd::prelude::*;

use crate::ops::{
    block_end, closes, depth, depth_delta, in_walk, is_opener, is_opener_op, lemma_block_end,
    lemma_closes_at_depth_one, lemma_depth_split, lemma_in_walk_range, lemma_walk_chain, lemma_walk_reaches_end,
    lemma_walk_skips, lemma_walk_step, region_walk, walk_next, ModuleInfo, Op,
};
use crate::slice::{Slice, SliceResult};
use crate::error::FuelError;

verus! {

/// The state of the structural pass, as values.
pub struct IdView {
    /// Openers of the blocks that are open, innermost last.
    pub nested: Seq<usize>,
    /// For each open block, whether an opener in the slice forces keeping it.
    pub save: Seq<bool>,
    /// Whether a slice instruction was seen since the outermost block opened.
    pub has: bool,
    /// Structural instructions kept if the enclosing block is kept.
    pub support: Seq<usize>,
}

pub open spec fn id_start() -> IdView {
    IdView { nested: seq![], save: seq![], has: false, support: seq![] }
}

/// One step of the structural pass: the new state and the instructions it
/// commits to the support set (those the slice already holds are left out
/// of the support when committed).
pub open spec fn visit_spec(s: IdView, op: Op, i: usize, at_func_end: bool, in_slice: bool) -> (IdView, Seq<usize>) {
    let (t, out) = if is_opener(op) {
        (
            IdView {
                nested: s.nested.push(i),
                save: s.save.push(in_slice),
                ..s
            },
            seq![],
        )
    } else if op is Else {
        (IdView { support: s.support.push(i), ..s }, seq![])
    } else if op is End {
        let pending = s.support.push(i);
        if at_func_end || s.nested.len() == 0 {
            if s.has {
                (IdView { support: seq![], has: if s.nested.len() == 0 { false } else { s.has }, ..s }, pending)
            } else {
                (IdView { support: pending, has: if s.nested.len() == 0 { false } else { s.has }, ..s }, seq![])
            }
        } else {
            let o = s.nested.last();
            let keep = s.has || s.save.last();
            let nested = s.nested.drop_last();
            let has = if nested.len() == 0 { false } else { s.has };
            if keep {
                (IdView { nested, save: s.save.drop_last(), has, support: seq![] }, pending.push(o))
            } else {
                // the block stays a candidate as a whole, for an enclosing
                // block that is kept
                (IdView { nested, save: s.save.drop_last(), has, support: pending.push(o) }, seq![])
            }
        }
    } else {
        let has = s.has || (in_slice && s.nested.len() > 0);
        let support = if op is Br || op is Return { s.support.push(i) } else { s.support };
        (IdView { has, support, ..s }, seq![])
    };
    (t, out)
}

/// The structural pass over the owned instructions of `[start, k)`: its state
/// and the support it committed. A nested loop stands in the region as its
/// opener alone, which opens nothing there: its body has its own probe.
pub open spec fn structure_fold(ops: Seq<Op>, max: Seq<bool>, start: int, end: int, k: int) -> (IdView, Set<usize>)
    decreases k - start,
{
    if k <= start {
        (id_start(), Set::empty())
    } else {
        let (s, acc) = structure_fold(ops, max, start, end, k - 1);
        if in_walk(ops, start, end, k - 1) && !(ops[k - 1] is Loop) {
            let (t, out) = visit_spec(s, ops[k - 1], (k - 1) as usize, k - 1 == ops.len() - 1, max[k - 1]);
            (t, acc + out.to_set())
        } else {
            (s, acc)
        }
    }
}

/// The support instructions of the region `[start, end)` of `ops` whose
/// maximal slice is `max`.
pub open spec fn structure_of(ops: Seq<Op>, max: Seq<bool>, start: int, end: int) -> Set<usize> {
    structure_fold(ops, max, start, end, end).1
}

/// Opcodes the structural pass keeps: block openers other than loops,
/// `else`, `end`, unconditional branches and `return`.
pub open spec fn structural(op: Op) -> bool {
    op is If || op is Block || op is Else || op is End || op is Br || op is Return
}

/// Everything the pass holds or has committed indexes a structural opcode.
pub open spec fn kinds_ok(ops: Seq<Op>, v: IdView, acc: Set<usize>) -> bool {
    &&& forall|x: int| 0 <= x < v.support.len() ==> {
        let y = #[trigger] v.support[x] as int;
        0 <= y < ops.len() && structural(ops[y])
    }
    &&& forall|x: int| 0 <= x < v.nested.len() ==> {
        let y = #[trigger] v.nested[x] as int;
        0 <= y < ops.len() && (ops[y] is If || ops[y] is Block)
    }
    &&& forall|y: usize| #[trigger] acc.contains(y) ==> (y as int) < ops.len() && structural(ops[y as int])
}

pub proof fn lemma_fold_kinds(ops: Seq<Op>, max: Seq<bool>, start: int, end: int, k: int)
    requires
        0 <= start,
        k <= end <= ops.len() <= usize::MAX,
    ensures
        kinds_ok(ops, structure_fold(ops, max, start, end, k).0, structure_fold(ops, max, start, end, k).1),
    decreases k - start,
{
    if k > start {
        lemma_fold_kinds(ops, max, start, end, k - 1);
        let i = k - 1;
        let v = structure_fold(ops, max, start, end, i).0;
        let acc = structure_fold(ops, max, start, end, i).1;
        if in_walk(ops, start, end, i) && !(ops[i] is Loop) {
            let (t, out) = visit_spec(v, ops[i], i as usize, i == ops.len() - 1, max[i]);
            assert(structure_fold(ops, max, start, end, k) == (t, acc + out.to_set()));
            assert forall|x: int| 0 <= x < out.len() implies (#[trigger] out[x] as int) < ops.len() && structural(ops[out[x] as int]) by {
                if ops[i] is End && !(i == ops.len() - 1 || v.nested.len() == 0) {
                    assert(v.nested.last() == v.nested[v.nested.len() - 1]);
                }
            }
            assert forall|x: int| 0 <= x < t.support.len() implies {
                let y = #[trigger] t.support[x] as int;
                0 <= y < ops.len() && structural(ops[y])
            } by {
                if ops[i] is End && !(i == ops.len() - 1 || v.nested.len() == 0) && !(v.has || v.save.last()) {
                    assert(v.nested.last() == v.nested[v.nested.len() - 1]);
                    if x < v.support.len() {
                        assert(t.support[x] == v.support[x]);
                    }
                }
            }
            assert forall|x: int| 0 <= x < t.nested.len() implies {
                let y = #[trigger] t.nested[x] as int;
                0 <= y < ops.len() && (ops[y] is If || ops[y] is Block)
            } by {
                if ops[i] is End && !(i == ops.len() - 1 || v.nested.len() == 0) {
                    assert(t.nested[x] == v.nested[x]);
                }
            }
            assert forall|y: usize| #[trigger] (acc + out.to_set()).contains(y) implies (y as int) < ops.len() && structural(ops[y as int]) by {
                if !acc.contains(y) {
                    assert(out.contains(y));
                }
            }
        }
    }
}

/// Every index the state holds is below `k`.
pub open spec fn bounded(v: IdView, k: int) -> bool {
    &&& forall|x: int| 0 <= x < v.support.len() ==> (#[trigger] v.support[x]) < k
    &&& forall|x: int| 0 <= x < v.nested.len() ==> (#[trigger] v.nested[x]) < k
}

/// Every block the region `[start, end)` opens closes within it, before the
/// body's last instruction.
pub open spec fn region_closed(ops: Seq<Op>, start: int, end: int) -> bool {
    &&& 0 <= start <= end <= ops.len()
    &&& ops.len() <= usize::MAX
    &&& forall|o: int|
        #[trigger] in_walk(ops, start, end, o) && is_opener(ops[o]) ==> exists|e: int|
            closes(ops, o, e) && e < end && e + 1 < ops.len()
}

/// At walk position `k`, the open frames are exactly the region's blocks
/// (loops aside) that are open at `k`, innermost last, each marked to be
/// kept where its opener is in the slice; no pending support is an opener.
pub open spec fn frames_ok(ops: Seq<Op>, max: Seq<bool>, start: int, end: int, v: IdView, k: int) -> bool {
    &&& v.nested.len() == v.save.len()
    &&& forall|p: int|
        0 <= p < v.nested.len() ==> {
            let o = (#[trigger] v.nested[p]) as int;
            &&& start <= o < k
            &&& in_walk(ops, start, end, o)
            &&& is_opener(ops[o]) && !(ops[o] is Loop)
            &&& depth(ops, o, k) == v.nested.len() - p
            &&& forall|j: int| o < j <= k ==> #[trigger] depth(ops, o, j) > 0
            &&& v.save[p] == max[o]
        }
    &&& forall|o: int|
        start <= o < k && #[trigger] in_walk(ops, start, end, o) && is_opener(ops[o]) && !(ops[o] is Loop) && (forall|j: int|
            o < j <= k ==> #[trigger] depth(ops, o, j) > 0) ==> {
            let d = depth(ops, o, k);
            &&& 0 < d <= v.nested.len()
            &&& v.nested[v.nested.len() - d] as int == o
        }
    &&& forall|x: int| 0 <= x < v.support.len() && is_opener(ops[(#[trigger] v.support[x]) as int]) ==> pending_closed(ops, v.support, v.support[x] as int)
}

/// Pushing something other than an opener keeps every pending opener's
/// `End` pending.
proof fn lemma_pending_push(ops: Seq<Op>, sup: Seq<usize>, y: usize)
    requires
        forall|x: int| 0 <= x < sup.len() && is_opener(ops[(#[trigger] sup[x]) as int]) ==> pending_closed(ops, sup, sup[x] as int),
        !is_opener(ops[y as int]),
    ensures
        forall|x: int| 0 <= x < sup.push(y).len() && is_opener(ops[(#[trigger] sup.push(y)[x]) as int]) ==> pending_closed(ops, sup.push(y), sup.push(y)[x] as int),
{
    let t = sup.push(y);
    assert forall|x: int| 0 <= x < t.len() && is_opener(ops[(#[trigger] t[x]) as int]) implies pending_closed(ops, t, t[x] as int) by {
        assert(x < sup.len());
        assert(t[x] == sup[x]);
        assert(pending_closed(ops, sup, sup[x] as int));
        let e = block_end(ops, sup[x] as int)->0;
        let z = choose|z: int| 0 <= z < sup.len() && sup[z] == e as usize;
        assert(t[z] == e as usize);
    }
}

/// The pending opener `o` has its closing `End` pending with it.
pub open spec fn pending_closed(ops: Seq<Op>, support: Seq<usize>, o: int) -> bool {
    block_end(ops, o) matches Some(e) && closes(ops, o, e) && support.contains(e as usize)
}

proof fn lemma_depth_step(ops: Seq<Op>, o: int, i: int)
    requires
        o <= i,
    ensures
        depth(ops, o, i + 1) == depth(ops, o, i) + depth_delta(ops[i]),
{
}

/// The pass does not touch a loop the region visits, nor its body.
proof fn lemma_fold_skip(ops: Seq<Op>, max: Seq<bool>, start: int, end: int, l: int, le: int, k: int)
    requires
        in_walk(ops, start, end, l),
        ops[l] is Loop,
        closes(ops, l, le),
        l <= k <= le + 1,
    ensures
        structure_fold(ops, max, start, end, k) == structure_fold(ops, max, start, end, l),
    decreases k - l,
{
    if k > l {
        lemma_fold_skip(ops, max, start, end, l, le, k - 1);
        if k - 1 > l {
            lemma_walk_skips(ops, start, end, l, le, k - 1);
        }
        lemma_in_walk_range(ops, start, end, l);
    }
}

/// One step of the pass keeps the frames exact.
#[verifier::rlimit(40)]
proof fn lemma_frames_step(ops: Seq<Op>, max: Seq<bool>, start: int, end: int, i: int)
    requires
        region_closed(ops, start, end),
        in_walk(ops, start, end, i),
        !(ops[i] is Loop),
        i + 1 < ops.len(),
        frames_ok(ops, max, start, end, structure_fold(ops, max, start, end, i).0, i),
    ensures
        frames_ok(ops, max, start, end, structure_fold(ops, max, start, end, i + 1).0, i + 1),
{
    lemma_in_walk_range(ops, start, end, i);
    let v = structure_fold(ops, max, start, end, i).0;
    let op = ops[i];
    let t = visit_spec(v, op, i as usize, i == ops.len() - 1, max[i]).0;
    assert(structure_fold(ops, max, start, end, i + 1).0 == t);
    let len = v.nested.len();
    if op is Else || op is Br || op is Return || (op is End && len == 0 && !v.has) {
        lemma_pending_push(ops, v.support, i as usize);
    }
    assert forall|o: int| start <= o <= i implies #[trigger] depth(ops, o, i + 1) == depth(ops, o, i) + depth_delta(ops[i]) by {
        lemma_depth_step(ops, o, i);
    }
    assert(depth(ops, i, i + 1) == depth_delta(ops[i])) by {
        lemma_depth_step(ops, i, i);
    }
    if is_opener(op) {
        assert(t.nested == v.nested.push(i as usize));
        assert forall|p: int| 0 <= p < t.nested.len() implies {
            let o = (#[trigger] t.nested[p]) as int;
            &&& start <= o < i + 1
            &&& in_walk(ops, start, end, o)
            &&& is_opener(ops[o]) && !(ops[o] is Loop)
            &&& depth(ops, o, i + 1) == t.nested.len() - p
            &&& forall|j: int| o < j <= i + 1 ==> #[trigger] depth(ops, o, j) > 0
            &&& t.save[p] == max[o]
        } by {
            if p < len {
                assert(t.nested[p] == v.nested[p]);
                assert(t.save[p] == v.save[p]);
            }
        }
        assert forall|o: int|
            start <= o < i + 1 && #[trigger] in_walk(ops, start, end, o) && is_opener(ops[o]) && !(ops[o] is Loop) && (forall|j: int|
                o < j <= i + 1 ==> #[trigger] depth(ops, o, j) > 0) implies {
            let d = depth(ops, o, i + 1);
            &&& 0 < d <= t.nested.len()
            &&& t.nested[t.nested.len() - d] as int == o
        } by {
            if o < i {
                assert(depth(ops, o, i) > 0);
            }
        }
        assert(t.support == v.support);
    } else if op is End {
        if len == 0 {
            assert forall|o: int|
                start <= o < i + 1 && #[trigger] in_walk(ops, start, end, o) && is_opener(ops[o]) && !(ops[o] is Loop) && (forall|j: int|
                    o < j <= i + 1 ==> #[trigger] depth(ops, o, j) > 0) implies {
                let d = depth(ops, o, i + 1);
                &&& 0 < d <= t.nested.len()
                &&& t.nested[t.nested.len() - d] as int == o
            } by {
                if o == i {
                } else {
                    assert(depth(ops, o, i) > 0);
                }
            }
        } else {
            assert(t.nested == v.nested.drop_last());
            assert forall|p: int| 0 <= p < t.nested.len() implies {
                let o = (#[trigger] t.nested[p]) as int;
                &&& start <= o < i + 1
                &&& in_walk(ops, start, end, o)
                &&& is_opener(ops[o]) && !(ops[o] is Loop)
                &&& depth(ops, o, i + 1) == t.nested.len() - p
                &&& forall|j: int| o < j <= i + 1 ==> #[trigger] depth(ops, o, j) > 0
                &&& t.save[p] == max[o]
            } by {
                assert(t.nested[p] == v.nested[p]);
                assert(t.save[p] == v.save[p]);
            }
            assert forall|o: int|
                start <= o < i + 1 && #[trigger] in_walk(ops, start, end, o) && is_opener(ops[o]) && !(ops[o] is Loop) && (forall|j: int|
                    o < j <= i + 1 ==> #[trigger] depth(ops, o, j) > 0) implies {
                let d = depth(ops, o, i + 1);
                &&& 0 < d <= t.nested.len()
                &&& t.nested[t.nested.len() - d] as int == o
            } by {
                assert(o != i);
                assert(depth(ops, o, i) > 0);
            }
            let o_t = v.nested[len - 1] as int;
            assert(v.nested.last() == v.nested[len - 1]);
            assert(depth(ops, o_t, i) == 1);
            lemma_closes_at_depth_one(ops, o_t, i);
            lemma_block_end(ops, o_t, i);
            if !(v.has || v.save.last()) {
                assert(t.support == v.support.push(i as usize).push(o_t as usize));
                assert forall|x: int| 0 <= x < t.support.len() && is_opener(ops[(#[trigger] t.support[x]) as int]) implies pending_closed(ops, t.support, t.support[x] as int) by {
                    if x < v.support.len() {
                        assert(t.support[x] == v.support[x]);
                        assert(pending_closed(ops, v.support, v.support[x] as int));
                        let e = block_end(ops, v.support[x] as int)->0;
                        let y = choose|y: int| 0 <= y < v.support.len() && v.support[y] == e as usize;
                        assert(t.support[y] == e as usize);
                    } else if x == v.support.len() {
                    } else {
                        assert(t.support[x] == o_t as usize);
                        assert(t.support[v.support.len() as int] == i as usize);
                    }
                }
            }
        }
    } else {
        assert(t.nested == v.nested);
        assert(t.save == v.save);
        assert forall|o: int|
            start <= o < i + 1 && #[trigger] in_walk(ops, start, end, o) && is_opener(ops[o]) && !(ops[o] is Loop) && (forall|j: int|
                o < j <= i + 1 ==> #[trigger] depth(ops, o, j) > 0) implies {
            let d = depth(ops, o, i + 1);
            &&& 0 < d <= t.nested.len()
            &&& t.nested[t.nested.len() - d] as int == o
        } by {
            assert(o != i);
            assert(depth(ops, o, i) > 0);
        }
    }
}

/// Passing over a loop the region visits keeps the frames exact.
proof fn lemma_frames_loop(ops: Seq<Op>, max: Seq<bool>, start: int, end: int, l: int, le: int)
    requires
        region_closed(ops, start, end),
        in_walk(ops, start, end, l),
        ops[l] is Loop,
        closes(ops, l, le),
        frames_ok(ops, max, start, end, structure_fold(ops, max, start, end, l).0, l),
    ensures
        frames_ok(ops, max, start, end, structure_fold(ops, max, start, end, le + 1).0, le + 1),
{
    lemma_fold_skip(ops, max, start, end, l, le, le + 1);
    let v = structure_fold(ops, max, start, end, l).0;
    assert forall|o: int| o <= l implies #[trigger] depth(ops, o, le + 1) == depth(ops, o, l) by {
        lemma_depth_split(ops, o, l, le + 1);
    }
    assert forall|p: int| 0 <= p < v.nested.len() implies {
        let o = (#[trigger] v.nested[p]) as int;
        &&& start <= o < le + 1
        &&& in_walk(ops, start, end, o)
        &&& is_opener(ops[o]) && !(ops[o] is Loop)
        &&& depth(ops, o, le + 1) == v.nested.len() - p
        &&& forall|j: int| o < j <= le + 1 ==> #[trigger] depth(ops, o, j) > 0
        &&& v.save[p] == max[o]
    } by {
        let o = v.nested[p] as int;
        assert forall|j: int| o < j <= le + 1 implies #[trigger] depth(ops, o, j) > 0 by {
            if j > l {
                lemma_depth_split(ops, o, l, j);
            }
        }
    }
    assert forall|o: int|
        start <= o < le + 1 && #[trigger] in_walk(ops, start, end, o) && is_opener(ops[o]) && !(ops[o] is Loop) && (forall|j: int|
            o < j <= le + 1 ==> #[trigger] depth(ops, o, j) > 0) implies {
        let d = depth(ops, o, le + 1);
        &&& 0 < d <= v.nested.len()
        &&& v.nested[v.nested.len() - d] as int == o
    } by {
        if l < o {
            lemma_walk_skips(ops, start, end, l, le, o);
        }
        assert(o < l);
        assert(depth(ops, o, l) > 0);
    }
}

/// At every position the walk visits, the frames are exact.
proof fn lemma_frames_from(ops: Seq<Op>, max: Seq<bool>, start: int, end: int, i: int, k: int)
    requires
        region_closed(ops, start, end),
        in_walk(ops, start, end, i),
        in_walk(ops, i, end, k),
        k < ops.len(),
        frames_ok(ops, max, start, end, structure_fold(ops, max, start, end, i).0, i),
    ensures
        frames_ok(ops, max, start, end, structure_fold(ops, max, start, end, k).0, k),
    decreases k - i,
{
    if i != k {
        let nx = walk_next(ops, i);
        assert(in_walk(ops, nx, end, k));
        lemma_in_walk_range(ops, nx, end, k);
        lemma_in_walk_range(ops, start, end, i);
        if ops[i] is Loop {
            let e = choose|e: int| closes(ops, i, e) && e < end && e + 1 < ops.len();
            lemma_block_end(ops, i, e);
            assert(nx == e + 1);
            lemma_frames_loop(ops, max, start, end, i, e);
        } else {
            lemma_frames_step(ops, max, start, end, i);
        }
        lemma_walk_step(ops, start, end, i);
        lemma_frames_from(ops, max, start, end, nx, k);
    }
}

proof fn lemma_frames_at(ops: Seq<Op>, max: Seq<bool>, start: int, end: int, k: int)
    requires
        region_closed(ops, start, end),
        in_walk(ops, start, end, k),
        k < ops.len(),
    ensures
        frames_ok(ops, max, start, end, structure_fold(ops, max, start, end, k).0, k),
{
    lemma_in_walk_range(ops, start, end, k);
    assert(structure_fold(ops, max, start, end, start).0 == id_start());
    assert(in_walk(ops, start, end, start));
    lemma_frames_from(ops, max, start, end, start, k);
}

/// The committed set only grows.
proof fn lemma_fold_grows(ops: Seq<Op>, max: Seq<bool>, start: int, end: int, k1: int, k2: int)
    requires
        start <= k1 <= k2,
    ensures
        structure_fold(ops, max, start, end, k1).1.subset_of(structure_fold(ops, max, start, end, k2).1),
    decreases k2 - k1,
{
    if k1 < k2 {
        lemma_fold_grows(ops, max, start, end, k1, k2 - 1);
    }
}

/// Every opener in `set` has its closing `End` in `set` or in the slice.
pub open spec fn openers_ok(ops: Seq<Op>, max: Seq<bool>, set: Set<usize>) -> bool {
    forall|x: usize|
        (#[trigger] set.contains(x)) && is_opener(ops[x as int]) ==> (block_end(ops, x as int) matches Some(e) && closes(
            ops,
            x as int,
            e,
        ) && (set.contains(e as usize) || max[e]))
}

/// Every opener the pass commits is committed with, or after, its `End`.
proof fn lemma_fold_openers(ops: Seq<Op>, max: Seq<bool>, start: int, end: int, k: int)
    requires
        region_closed(ops, start, end),
        max.len() == ops.len(),
        start <= k <= end,
    ensures
        openers_ok(ops, max, structure_fold(ops, max, start, end, k).1),
    decreases k - start,
{
    if k > start {
        lemma_fold_openers(ops, max, start, end, k - 1);
        let i = k - 1;
        let v = structure_fold(ops, max, start, end, i).0;
        let acc = structure_fold(ops, max, start, end, i).1;
        let now = structure_fold(ops, max, start, end, k).1;
        lemma_fold_grows(ops, max, start, end, i, k);
        if in_walk(ops, start, end, i) && !(ops[i] is Loop) {
            lemma_frames_at(ops, max, start, end, i);
            let out = visit_spec(v, ops[i], i as usize, i == ops.len() - 1, max[i]).1;
            assert(now == acc + out.to_set());
            assert forall|x: usize| (#[trigger] now.contains(x)) && is_opener(ops[x as int]) implies (block_end(ops, x as int) matches Some(e)
                && closes(ops, x as int, e) && (now.contains(e as usize) || max[e])) by {
                assert(openers_ok(ops, max, acc));
                if acc.contains(x) {
                } else {
                    assert(out.contains(x));
                    let len = v.nested.len();
                    let y = choose|y: int| 0 <= y < out.len() && out[y] == x;
                    // only an End that commits yields anything: it commits the
                    // pending candidates, the End itself and, if a block
                    // closes there, its opener
                    assert(ops[i] is End);
                    assert(out.len() > v.support.len());
                    assert(forall|z: int| 0 <= z < v.support.len() ==> out[z] == v.support[z]);
                    assert(out[v.support.len() as int] == i as usize);
                    assert(out.contains(i as usize));
                    if y < v.support.len() {
                        assert(out[y] == v.support[y]);
                        assert(pending_closed(ops, v.support, v.support[y] as int));
                        let e = block_end(ops, x as int)->0;
                        let z = choose|z: int| 0 <= z < v.support.len() && v.support[z] == e as usize;
                        assert(out[z] == e as usize);
                        assert(out.contains(e as usize));
                        assert(now.contains(e as usize));
                    } else if y == v.support.len() {
                        assert(out[y] == i as usize);
                        assert(false);
                    } else {
                        assert(!(i == ops.len() - 1 || len == 0));
                        let o = v.nested[len - 1];
                        assert(out == v.support.push(i as usize).push(o));
                        assert(out[y] == o);
                        assert(x == o);
                        assert(depth(ops, o as int, i) == 1);
                        lemma_closes_at_depth_one(ops, o as int, i);
                        lemma_block_end(ops, o as int, i);
                    }
                }
            }
            assert(openers_ok(ops, max, now));
        } else {
            assert(now == acc);
        }
    }
}

/// A structural instruction the region owns.
pub open spec fn own_structural(ops: Seq<Op>, start: int, end: int, j: int) -> bool {
    in_walk(ops, start, end, j) && structural(ops[j])
}

/// What a block's inner structural instructions are, and where they stand:
/// every one processed is committed, pending or an open block; those of a
/// pending block are committed or pending; those of a committed block are
/// committed.
pub open spec fn inner_ok(ops: Seq<Op>, start: int, end: int, v: IdView, acc: Set<usize>, k: int) -> bool {
    &&& forall|j: int|
        start <= j < k && #[trigger] own_structural(ops, start, end, j) ==> acc.contains(j as usize) || v.support.contains(
            j as usize,
        ) || v.nested.contains(j as usize)
    &&& forall|y: int, j: int|
        0 <= y < v.support.len() && is_opener(ops[(#[trigger] v.support[y]) as int]) && (v.support[y] as int) < j
            && j < block_end(ops, v.support[y] as int)->0 && #[trigger] own_structural(ops, start, end, j) ==> acc.contains(
            j as usize,
        ) || v.support.contains(j as usize)
    &&& forall|x: usize, j: int|
        #[trigger] acc.contains(x) && is_opener(ops[x as int]) && (x as int) < j && j < block_end(ops, x as int)->0
            && #[trigger] own_structural(ops, start, end, j) ==> acc.contains(j as usize)
}

/// The innermost open block is the last opened.
proof fn lemma_top_is_last(ops: Seq<Op>, max: Seq<bool>, start: int, end: int, v: IdView, k: int, p: int)
    requires
        frames_ok(ops, max, start, end, v, k),
        0 <= p < v.nested.len() - 1,
    ensures
        v.nested[p] < v.nested[v.nested.len() - 1],
{
    let len = v.nested.len();
    let (a, b) = (v.nested[p] as int, v.nested[len - 1] as int);
    assert(depth(ops, a, k) == len - p);
    assert(depth(ops, b, k) == 1);
    if a > b {
        lemma_depth_split(ops, b, a, k);
        assert(depth(ops, b, a) > 0);
    } else if a == b {
    }
}

/// One step of the pass keeps inner instructions where they stand.
#[verifier::rlimit(80)]
proof fn lemma_inner_step(ops: Seq<Op>, max: Seq<bool>, start: int, end: int, i: int)
    requires
        region_closed(ops, start, end),
        in_walk(ops, start, end, i),
        !(ops[i] is Loop),
        i < ops.len(),
        frames_ok(ops, max, start, end, structure_fold(ops, max, start, end, i).0, i),
        inner_ok(ops, start, end, structure_fold(ops, max, start, end, i).0, structure_fold(ops, max, start, end, i).1, i),
    ensures
        inner_ok(ops, start, end, structure_fold(ops, max, start, end, i + 1).0, structure_fold(ops, max, start, end, i + 1).1, i + 1),
{
    lemma_in_walk_range(ops, start, end, i);
    let v = structure_fold(ops, max, start, end, i).0;
    let acc = structure_fold(ops, max, start, end, i).1;
    let (t, out) = visit_spec(v, ops[i], i as usize, i == ops.len() - 1, max[i]);
    assert(structure_fold(ops, max, start, end, i + 1) == (t, acc + out.to_set()));
    let acc2 = acc + out.to_set();
    let len = v.nested.len();
    let op = ops[i];
    // what moves where
    assert forall|z: usize| acc.contains(z) implies acc2.contains(z) by {}
    if is_opener(op) {
        assert(t.support == v.support);
        assert(out.len() == 0);
        assert(t.nested == v.nested.push(i as usize));
        assert forall|z: usize| v.nested.contains(z) implies t.nested.contains(z) by {
            let q = choose|q: int| 0 <= q < v.nested.len() && v.nested[q] == z;
            assert(t.nested[q] == z);
        }
        assert(t.nested[len as int] == i as usize);
        assert(acc2 =~= acc);
    } else if op is End && !(i == ops.len() - 1 || len == 0) {
        let o = v.nested[len - 1];
        assert(v.nested.last() == o);
        assert(depth(ops, o as int, i) == 1);
        lemma_closes_at_depth_one(ops, o as int, i);
        lemma_block_end(ops, o as int, i);
        // the inner instructions of the closing block are committed or pending
        assert forall|j: int| (o as int) < j < i && #[trigger] own_structural(ops, start, end, j) implies acc.contains(j as usize)
            || v.support.contains(j as usize) by {
            if v.nested.contains(j as usize) {
                let q = choose|q: int| 0 <= q < v.nested.len() && v.nested[q] == j as usize;
                if q < len - 1 {
                    lemma_top_is_last(ops, max, start, end, v, i, q);
                }
            }
        }
        assert forall|z: usize| v.nested.contains(z) && z != o implies t.nested.contains(z) by {
            let q = choose|q: int| 0 <= q < v.nested.len() && v.nested[q] == z;
            assert(q != len - 1);
            assert(t.nested[q] == z);
        }
        if v.has || v.save.last() {
            assert(out == v.support.push(i as usize).push(o));
            assert(t.support.len() == 0);
            assert forall|z: usize| v.support.contains(z) implies acc2.contains(z) by {
                let q = choose|q: int| 0 <= q < v.support.len() && v.support[q] == z;
                assert(out[q] == z);
            }
            assert(out[v.support.len() as int] == i as usize);
            assert(out[v.support.len() as int + 1] == o);
            assert(acc2.contains(i as usize) && acc2.contains(o));
            assert forall|x: usize, j: int|
                #[trigger] acc2.contains(x) && is_opener(ops[x as int]) && (x as int) < j && j < block_end(ops, x as int)->0
                    && #[trigger] own_structural(ops, start, end, j) implies acc2.contains(j as usize) by {
                if !acc.contains(x) {
                    let q = choose|q: int| 0 <= q < out.len() && out[q] == x;
                    if q < v.support.len() {
                        assert(out[q] == v.support[q]);
                    } else if q == v.support.len() {
                    }
                }
            }
        } else {
            assert(t.support == v.support.push(i as usize).push(o));
            assert(out.len() == 0);
            assert(acc2 =~= acc);
            assert forall|z: usize| v.support.contains(z) implies t.support.contains(z) by {
                let q = choose|q: int| 0 <= q < v.support.len() && v.support[q] == z;
                assert(t.support[q] == z);
            }
            assert(t.support[v.support.len() as int] == i as usize);
            assert(t.support[v.support.len() as int + 1] == o);
            assert forall|y: int, j: int|
                0 <= y < t.support.len() && is_opener(ops[(#[trigger] t.support[y]) as int]) && (t.support[y] as int) < j
                    && j < block_end(ops, t.support[y] as int)->0 && #[trigger] own_structural(ops, start, end, j) implies acc2.contains(
                    j as usize,
                ) || t.support.contains(j as usize) by {
                if y < v.support.len() {
                    assert(t.support[y] == v.support[y]);
                } else if y == v.support.len() {
                }
            }
        }
    } else if op is End {
        // no open block, or the body's last End: the End is pending, or
        // commits all that is
        assert(t.nested == v.nested);
        if v.has {
            assert(out == v.support.push(i as usize));
            assert forall|z: usize| v.support.contains(z) implies acc2.contains(z) by {
                let q = choose|q: int| 0 <= q < v.support.len() && v.support[q] == z;
                assert(out[q] == z);
            }
            assert(out[v.support.len() as int] == i as usize);
            assert forall|x: usize, j: int|
                #[trigger] acc2.contains(x) && is_opener(ops[x as int]) && (x as int) < j && j < block_end(ops, x as int)->0
                    && #[trigger] own_structural(ops, start, end, j) implies acc2.contains(j as usize) by {
                if !acc.contains(x) {
                    let q = choose|q: int| 0 <= q < out.len() && out[q] == x;
                    if q < v.support.len() {
                        assert(out[q] == v.support[q]);
                    }
                }
            }
        } else {
            assert(t.support == v.support.push(i as usize));
            assert(acc2 =~= acc);
            assert forall|z: usize| v.support.contains(z) implies t.support.contains(z) by {
                let q = choose|q: int| 0 <= q < v.support.len() && v.support[q] == z;
                assert(t.support[q] == z);
            }
            assert(t.support[v.support.len() as int] == i as usize);
            assert forall|y: int, j: int|
                0 <= y < t.support.len() && is_opener(ops[(#[trigger] t.support[y]) as int]) && (t.support[y] as int) < j
                    && j < block_end(ops, t.support[y] as int)->0 && #[trigger] own_structural(ops, start, end, j) implies acc2.contains(
                    j as usize,
                ) || t.support.contains(j as usize) by {
                if y < v.support.len() {
                    assert(t.support[y] == v.support[y]);
                }
            }
        }
    } else {
        assert(out.len() == 0);
        assert(acc2 =~= acc);
        assert(t.nested == v.nested);
        if op is Else || op is Br || op is Return {
            assert(t.support == v.support.push(i as usize));
            assert forall|z: usize| v.support.contains(z) implies t.support.contains(z) by {
                let q = choose|q: int| 0 <= q < v.support.len() && v.support[q] == z;
                assert(t.support[q] == z);
            }
            assert(t.support[v.support.len() as int] == i as usize);
            assert forall|y: int, j: int|
                0 <= y < t.support.len() && is_opener(ops[(#[trigger] t.support[y]) as int]) && (t.support[y] as int) < j
                    && j < block_end(ops, t.support[y] as int)->0 && #[trigger] own_structural(ops, start, end, j) implies acc2.contains(
                    j as usize,
                ) || t.support.contains(j as usize) by {
                if y < v.support.len() {
                    assert(t.support[y] == v.support[y]);
                }
            }
        } else {
            assert(t.support == v.support);
        }
    }
}

/// Passing over a loop the region visits keeps inner instructions where
/// they stand.
proof fn lemma_inner_loop(ops: Seq<Op>, max: Seq<bool>, start: int, end: int, l: int, le: int)
    requires
        in_walk(ops, start, end, l),
        ops[l] is Loop,
        closes(ops, l, le),
        inner_ok(ops, start, end, structure_fold(ops, max, start, end, l).0, structure_fold(ops, max, start, end, l).1, l),
    ensures
        inner_ok(ops, start, end, structure_fold(ops, max, start, end, le + 1).0, structure_fold(ops, max, start, end, le + 1).1, le + 1),
{
    lemma_fold_skip(ops, max, start, end, l, le, le + 1);
    let v = structure_fold(ops, max, start, end, l).0;
    let acc = structure_fold(ops, max, start, end, l).1;
    assert forall|j: int| start <= j < le + 1 && #[trigger] own_structural(ops, start, end, j) implies acc.contains(j as usize)
        || v.support.contains(j as usize) || v.nested.contains(j as usize) by {
        if j > l {
            lemma_walk_skips(ops, start, end, l, le, j);
        }
    }
}

/// At every position the walk visits, inner instructions stand where
/// `inner_ok` says.
proof fn lemma_inner_from(ops: Seq<Op>, max: Seq<bool>, start: int, end: int, i: int, k: int)
    requires
        region_closed(ops, start, end),
        in_walk(ops, start, end, i),
        in_walk(ops, i, end, k),
        k < ops.len(),
        inner_ok(ops, start, end, structure_fold(ops, max, start, end, i).0, structure_fold(ops, max, start, end, i).1, i),
    ensures
        inner_ok(ops, start, end, structure_fold(ops, max, start, end, k).0, structure_fold(ops, max, start, end, k).1, k),
    decreases k - i,
{
    if i != k {
        let nx = walk_next(ops, i);
        assert(in_walk(ops, nx, end, k));
        lemma_in_walk_range(ops, nx, end, k);
        lemma_in_walk_range(ops, start, end, i);
        if ops[i] is Loop {
            let e = choose|e: int| closes(ops, i, e) && e < end && e + 1 < ops.len();
            lemma_block_end(ops, i, e);
            lemma_inner_loop(ops, max, start, end, i, e);
        } else {
            lemma_frames_at(ops, max, start, end, i);
            lemma_inner_step(ops, max, start, end, i);
        }
        lemma_walk_step(ops, start, end, i);
        lemma_inner_from(ops, max, start, end, nx, k);
    }
}

proof fn lemma_inner_at(ops: Seq<Op>, max: Seq<bool>, start: int, end: int, k: int)
    requires
        region_closed(ops, start, end),
        in_walk(ops, start, end, k),
    ensures
        inner_ok(ops, start, end, structure_fold(ops, max, start, end, k).0, structure_fold(ops, max, start, end, k).1, k),
{
    lemma_in_walk_range(ops, start, end, k);
    assert(in_walk(ops, start, end, start));
    lemma_inner_from(ops, max, start, end, start, k);
}

/// A committed block's inner structural instructions are committed.
proof fn lemma_inner_committed(ops: Seq<Op>, max: Seq<bool>, start: int, end: int, k: int)
    requires
        region_closed(ops, start, end),
        start <= k <= end,
    ensures
        forall|x: usize, j: int|
            #[trigger] structure_fold(ops, max, start, end, k).1.contains(x) && is_opener(ops[x as int]) && (x as int) < j && j
                < block_end(ops, x as int)->0 && #[trigger] own_structural(ops, start, end, j) ==> structure_fold(
                ops,
                max,
                start,
                end,
                k,
            ).1.contains(j as usize),
    decreases k - start,
{
    if k > start {
        lemma_inner_committed(ops, max, start, end, k - 1);
        let i = k - 1;
        if in_walk(ops, start, end, i) && !(ops[i] is Loop) {
            lemma_inner_at(ops, max, start, end, i);
            lemma_frames_at(ops, max, start, end, i);
            lemma_inner_step(ops, max, start, end, i);
        } else {
            assert(structure_fold(ops, max, start, end, k) == structure_fold(ops, max, start, end, i));
        }
    }
}

/// The opener a given `End` closes.
pub open spec fn opener_of(ops: Seq<Op>, e: int) -> int {
    choose|o: int| closes(ops, o, e)
}

/// An `End` closes at most one block.
pub proof fn lemma_opener_unique(ops: Seq<Op>, o1: int, o2: int, e: int)
    requires
        closes(ops, o1, e),
        closes(ops, o2, e),
    ensures
        o1 == o2,
{
    if o1 < o2 {
        lemma_depth_split(ops, o1, o2, e + 1);
        assert(depth(ops, o1, o2) > 0);
    } else if o2 < o1 {
        lemma_depth_split(ops, o2, o1, e + 1);
        assert(depth(ops, o2, o1) > 0);
    }
}

/// Every `End` the region owns, but the body's last, closes a block the
/// region owns.
pub open spec fn ends_matched(ops: Seq<Op>, start: int, end: int) -> bool {
    forall|j: int|
        #[trigger] in_walk(ops, start, end, j) && ops[j] is End && j + 1 < ops.len() ==> exists|o: int|
            in_walk(ops, start, end, o) && !(ops[o] is Loop) && #[trigger] closes(ops, o, j)
}

/// Pending and committed `End`s have their openers with them.
pub open spec fn ends_ok(ops: Seq<Op>, v: IdView, acc: Set<usize>) -> bool {
    &&& forall|y: int|
        0 <= y < v.support.len() && ops[(#[trigger] v.support[y]) as int] is End && (v.support[y] as int) + 1 < ops.len()
            ==> closes(ops, opener_of(ops, v.support[y] as int), v.support[y] as int) && v.support.contains(
            opener_of(ops, v.support[y] as int) as usize,
        )
    &&& forall|x: usize|
        #[trigger] acc.contains(x) && ops[x as int] is End && (x as int) + 1 < ops.len() ==> closes(
            ops,
            opener_of(ops, x as int),
            x as int,
        ) && acc.contains(opener_of(ops, x as int) as usize)
}

#[verifier::rlimit(60)]
proof fn lemma_ends_step(ops: Seq<Op>, max: Seq<bool>, start: int, end: int, i: int)
    requires
        region_closed(ops, start, end),
        ends_matched(ops, start, end),
        in_walk(ops, start, end, i),
        !(ops[i] is Loop),
        i < ops.len(),
        frames_ok(ops, max, start, end, structure_fold(ops, max, start, end, i).0, i),
        ends_ok(ops, structure_fold(ops, max, start, end, i).0, structure_fold(ops, max, start, end, i).1),
    ensures
        ends_ok(ops, structure_fold(ops, max, start, end, i + 1).0, structure_fold(ops, max, start, end, i + 1).1),
{
    lemma_in_walk_range(ops, start, end, i);
    let v = structure_fold(ops, max, start, end, i).0;
    let acc = structure_fold(ops, max, start, end, i).1;
    let (t, out) = visit_spec(v, ops[i], i as usize, i == ops.len() - 1, max[i]);
    assert(structure_fold(ops, max, start, end, i + 1) == (t, acc + out.to_set()));
    let acc2 = acc + out.to_set();
    let len = v.nested.len();
    let op = ops[i];
    if op is End && i + 1 < ops.len() {
        // the End closes the innermost open block
        let o = choose|o: int| in_walk(ops, start, end, o) && !(ops[o] is Loop) && #[trigger] closes(ops, o, i);
        lemma_in_walk_range(ops, start, end, o);
        assert(forall|jj: int| o < jj <= i ==> #[trigger] depth(ops, o, jj) > 0);
        assert(depth(ops, o, i + 1) == depth(ops, o, i) + depth_delta(ops[i]));
        assert(depth(ops, o, i) == 1);
        assert(len > 0);
        assert(v.nested[len - 1] as int == o);
        let oo = opener_of(ops, i);
        lemma_opener_unique(ops, oo, o, i);
        assert(v.nested.last() == v.nested[len - 1]);
        if v.has || v.save.last() {
            assert(out == v.support.push(i as usize).push(o as usize));
            assert(out[v.support.len() as int + 1] == o as usize);
            assert forall|x: usize| #[trigger] acc2.contains(x) && ops[x as int] is End && (x as int) + 1 < ops.len() implies closes(
                ops,
                opener_of(ops, x as int),
                x as int,
            ) && acc2.contains(opener_of(ops, x as int) as usize) by {
                if !acc.contains(x) {
                    let q = choose|q: int| 0 <= q < out.len() && out[q] == x;
                    if q < v.support.len() {
                        assert(out[q] == v.support[q]);
                        let z = choose|z: int| 0 <= z < v.support.len() && v.support[z] == opener_of(ops, x as int) as usize;
                        assert(out[z] == v.support[z]);
                    } else if q == v.support.len() {
                        assert(x == i as usize);
                    }
                }
            }
        } else {
            assert(t.support == v.support.push(i as usize).push(o as usize));
            assert(acc2 =~= acc);
            assert forall|y: int|
                0 <= y < t.support.len() && ops[(#[trigger] t.support[y]) as int] is End && (t.support[y] as int) + 1 < ops.len()
                    implies closes(ops, opener_of(ops, t.support[y] as int), t.support[y] as int) && t.support.contains(
                    opener_of(ops, t.support[y] as int) as usize,
                ) by {
                if y < v.support.len() {
                    assert(t.support[y] == v.support[y]);
                    let z = choose|z: int| 0 <= z < v.support.len() && v.support[z] == opener_of(ops, v.support[y] as int) as usize;
                    assert(t.support[z] == v.support[z]);
                } else if y == v.support.len() {
                    assert(t.support[v.support.len() as int + 1] == o as usize);
                }
            }
        }
    } else if op is End {
        // the body's last End: pending, or committing all that is pending
        if v.has {
            assert(out == v.support.push(i as usize));
            assert forall|x: usize| #[trigger] acc2.contains(x) && ops[x as int] is End && (x as int) + 1 < ops.len() implies closes(
                ops,
                opener_of(ops, x as int),
                x as int,
            ) && acc2.contains(opener_of(ops, x as int) as usize) by {
                if !acc.contains(x) {
                    let q = choose|q: int| 0 <= q < out.len() && out[q] == x;
                    assert(q < v.support.len());
                    assert(out[q] == v.support[q]);
                    let z = choose|z: int| 0 <= z < v.support.len() && v.support[z] == opener_of(ops, x as int) as usize;
                    assert(out[z] == v.support[z]);
                }
            }
        } else {
            assert(t.support == v.support.push(i as usize));
            assert(acc2 =~= acc);
            assert forall|y: int|
                0 <= y < t.support.len() && ops[(#[trigger] t.support[y]) as int] is End && (t.support[y] as int) + 1 < ops.len()
                    implies closes(ops, opener_of(ops, t.support[y] as int), t.support[y] as int) && t.support.contains(
                    opener_of(ops, t.support[y] as int) as usize,
                ) by {
                assert(y < v.support.len());
                assert(t.support[y] == v.support[y]);
                let z = choose|z: int| 0 <= z < v.support.len() && v.support[z] == opener_of(ops, v.support[y] as int) as usize;
                assert(t.support[z] == v.support[z]);
            }
        }
    } else {
        assert(out.len() == 0);
        assert(acc2 =~= acc);
        if op is Else || op is Br || op is Return {
            assert(t.support == v.support.push(i as usize));
            assert forall|y: int|
                0 <= y < t.support.len() && ops[(#[trigger] t.support[y]) as int] is End && (t.support[y] as int) + 1 < ops.len()
                    implies closes(ops, opener_of(ops, t.support[y] as int), t.support[y] as int) && t.support.contains(
                    opener_of(ops, t.support[y] as int) as usize,
                ) by {
                assert(y < v.support.len());
                assert(t.support[y] == v.support[y]);
                let z = choose|z: int| 0 <= z < v.support.len() && v.support[z] == opener_of(ops, v.support[y] as int) as usize;
                assert(t.support[z] == v.support[z]);
            }
        } else {
            assert(t.support == v.support);
        }
    }
}

proof fn lemma_ends_from(ops: Seq<Op>, max: Seq<bool>, start: int, end: int, i: int, k: int)
    requires
        region_closed(ops, start, end),
        ends_matched(ops, start, end),
        in_walk(ops, start, end, i),
        in_walk(ops, i, end, k),
        k < ops.len(),
        ends_ok(ops, structure_fold(ops, max, start, end, i).0, structure_fold(ops, max, start, end, i).1),
    ensures
        ends_ok(ops, structure_fold(ops, max, start, end, k).0, structure_fold(ops, max, start, end, k).1),
    decreases k - i,
{
    if i != k {
        let nx = walk_next(ops, i);
        assert(in_walk(ops, nx, end, k));
        lemma_in_walk_range(ops, nx, end, k);
        lemma_in_walk_range(ops, start, end, i);
        if ops[i] is Loop {
            let e = choose|e: int| closes(ops, i, e) && e < end && e + 1 < ops.len();
            lemma_block_end(ops, i, e);
            lemma_fold_skip(ops, max, start, end, i, e, e + 1);
        } else {
            lemma_frames_at(ops, max, start, end, i);
            lemma_ends_step(ops, max, start, end, i);
        }
        lemma_walk_step(ops, start, end, i);
        lemma_ends_from(ops, max, start, end, nx, k);
    }
}

/// A committed `End`, but the body's last, has its opener committed.
proof fn lemma_ends_committed(ops: Seq<Op>, max: Seq<bool>, start: int, end: int, k: int)
    requires
        region_closed(ops, start, end),
        ends_matched(ops, start, end),
        start <= k <= end,
    ensures
        forall|x: usize|
            #[trigger] structure_fold(ops, max, start, end, k).1.contains(x) && ops[x as int] is End && (x as int) + 1 < ops.len()
                ==> closes(ops, opener_of(ops, x as int), x as int) && structure_fold(ops, max, start, end, k).1.contains(
                opener_of(ops, x as int) as usize,
            ),
    decreases k - start,
{
    if k > start {
        lemma_ends_committed(ops, max, start, end, k - 1);
        let i = k - 1;
        if in_walk(ops, start, end, i) && !(ops[i] is Loop) {
            lemma_in_walk_range(ops, start, end, i);
            assert(in_walk(ops, start, end, start));
            lemma_ends_from(ops, max, start, end, start, i);
            lemma_frames_at(ops, max, start, end, i);
            lemma_ends_step(ops, max, start, end, i);
        } else {
            assert(structure_fold(ops, max, start, end, k) == structure_fold(ops, max, start, end, i));
        }
    }
}

/// Committed `End`s come with their openers: where every `End` the region
/// owns, but the body's last, closes a block it owns, each such `End` the
/// pass keeps has its opener kept too.
pub proof fn lemma_ends_opened(ops: Seq<Op>, max: Seq<bool>, start: int, end: int, j: int)
    requires
        region_closed(ops, start, end),
        ends_matched(ops, start, end),
        max.len() == ops.len(),
        0 <= j,
        j + 1 < ops.len(),
        ops[j] is End,
        structure_of(ops, max, start, end).contains(j as usize),
    ensures
        closes(ops, opener_of(ops, j), j),
        structure_of(ops, max, start, end).contains(opener_of(ops, j) as usize),
{
    lemma_ends_committed(ops, max, start, end, end);
    assert((j as usize) as int == j);
}

/// Blocks are kept whole: where the region closes every block it opens,
/// a block the pass keeps, or whose opener the slice holds and the region
/// owns (a nested loop aside), keeps every structural instruction the region
/// owns inside it (`else`, `end`, `br`, `return`, inner openers) in the slice
/// or the support.
pub proof fn lemma_kept_blocks_whole(ops: Seq<Op>, max: Seq<bool>, start: int, end: int, x: int, e: int, j: int)
    requires
        region_closed(ops, start, end),
        max.len() == ops.len(),
        closes(ops, x, e),
        structure_of(ops, max, start, end).contains(x as usize) || (max[x] && in_walk(ops, start, end, x) && !(ops[x] is Loop)),
        x < j < e,
        own_structural(ops, start, end, j),
    ensures
        max[j] || structure_of(ops, max, start, end).contains(j as usize),
{
    lemma_block_end(ops, x, e);
    assert(0 <= x < ops.len() <= usize::MAX);
    assert((x as usize) as int == x);
    lemma_inner_committed(ops, max, start, end, end);
    if !structure_of(ops, max, start, end).contains(x as usize) {
        // the block's End commits it, for the slice holds its opener
        let e2 = choose|e2: int| closes(ops, x, e2) && e2 < end && e2 + 1 < ops.len();
        crate::ops::lemma_closes_unique(ops, x, e, e2);
        lemma_in_walk_range(ops, start, end, x);
        lemma_walk_reaches_end(ops, start, end, x, e, x);
        lemma_frames_at(ops, max, start, end, e);
        let v = structure_fold(ops, max, start, end, e).0;
        let acc = structure_fold(ops, max, start, end, e).1;
        assert(forall|jj: int| x < jj <= e ==> #[trigger] depth(ops, x, jj) > 0);
        assert(depth(ops, x, e + 1) == depth(ops, x, e) + depth_delta(ops[e]));
        assert(depth(ops, x, e) == 1);
        let len = v.nested.len();
        assert(v.nested[len - 1] as int == x);
        let out = visit_spec(v, ops[e], e as usize, e == ops.len() - 1, max[e]).1;
        assert(structure_fold(ops, max, start, end, e + 1).1 == acc + out.to_set());
        assert(out[v.support.len() as int + 1] == x as usize);
        lemma_in_walk_range(ops, start, end, e);
        lemma_inner_committed(ops, max, start, end, e + 1);
        lemma_fold_grows(ops, max, start, end, e + 1, end);
        assert(structure_fold(ops, max, start, end, e + 1).1.contains(x as usize));
        assert(structure_fold(ops, max, start, end, e + 1).1.contains(j as usize));
    }
}

/// The blocks the structural pass keeps are well bracketed: where the region
/// closes every block it opens, each opener it keeps, or that the slice
/// holds and the region owns (a nested loop aside), has its closing `End`
/// kept or in the slice.
pub proof fn lemma_openers_closed(ops: Seq<Op>, max: Seq<bool>, start: int, end: int, x: int)
    requires
        region_closed(ops, start, end),
        max.len() == ops.len(),
        0 <= x < ops.len(),
        is_opener(ops[x]),
        structure_of(ops, max, start, end).contains(x as usize) || (max[x] && in_walk(ops, start, end, x) && !(
        ops[x] is Loop)),
    ensures
        exists|e: int| #[trigger] closes(ops, x, e) && (max[e] || structure_of(ops, max, start, end).contains(e as usize)),
{
    if structure_of(ops, max, start, end).contains(x as usize) {
        lemma_fold_openers(ops, max, start, end, end);
        let set = structure_of(ops, max, start, end);
        assert(openers_ok(ops, max, set));
        assert(set.contains(x as usize));
        assert((x as usize) as int == x);
        let e = block_end(ops, x)->0;
        assert(closes(ops, x, e) && (max[e] || set.contains(e as usize)));
    } else {
        let e = choose|e: int| closes(ops, x, e) && e < end && e + 1 < ops.len();
        lemma_in_walk_range(ops, start, end, x);
        lemma_walk_reaches_end(ops, start, end, x, e, x);
        lemma_frames_at(ops, max, start, end, e);
        let v = structure_fold(ops, max, start, end, e).0;
        let acc = structure_fold(ops, max, start, end, e).1;
        assert(forall|j: int| x < j <= e ==> #[trigger] depth(ops, x, j) > 0);
        assert(depth(ops, x, e + 1) == depth(ops, x, e) + depth_delta(ops[e]));
        assert(depth(ops, x, e) == 1);
        let len = v.nested.len();
        assert(v.nested[len - 1] as int == x);
        assert(v.save[len - 1] == max[x]);
        let out = visit_spec(v, ops[e], e as usize, e == ops.len() - 1, max[e]).1;
        assert(structure_fold(ops, max, start, end, e + 1).1 == acc + out.to_set());
        if !max[e] {
            assert(out[v.support.len() as int] == e as usize);
            assert(out.contains(e as usize));
            lemma_in_walk_range(ops, start, end, e);
            lemma_fold_grows(ops, max, start, end, e + 1, end);
        }
        assert(closes(ops, x, e));
    }
}

/// State of the structural pass over one region.
struct IdentifyStructure {
    nested_blocks: Vec<usize>,
    block_support_instrs: Vec<usize>,
    block_has_instrs: bool,
    save_block_for_slice: Vec<bool>,
}

impl IdentifyStructure {
    spec fn view(&self) -> IdView {
        IdView {
            nested: self.nested_blocks@,
            save: self.save_block_for_slice@,
            has: self.block_has_instrs,
            support: self.block_support_instrs@,
        }
    }

    spec fn wf(&self) -> bool {
        self.nested_blocks@.len() == self.save_block_for_slice@.len()
    }

    fn new() -> (r: Self)
        ensures
            r.view() == id_start(),
            r.wf(),
    {
        IdentifyStructure {
            nested_blocks: Vec::new(),
            block_support_instrs: Vec::new(),
            block_has_instrs: false,
            save_block_for_slice: Vec::new(),
        }
    }

    fn in_block(&self) -> (r: bool)
        ensures
            r == (self.nested_blocks@.len() > 0),
    {
        self.nested_blocks.len() > 0
    }

    fn block_enter(&mut self, instr_idx: usize)
        requires
            old(self).wf(),
        ensures
            final(self).wf(),
            final(self).view() == (IdView {
                nested: old(self).view().nested.push(instr_idx),
                save: old(self).view().save.push(false),
                ..old(self).view()
            }),
    {
        self.nested_blocks.push(instr_idx);
        self.save_block_for_slice.push(false);
    }

    /// Leaves the innermost block: its opener, and whether it must be kept.
    fn block_exit(&mut self) -> (r: Option<(usize, bool)>)
        requires
            old(self).wf(),
        ensures
            final(self).wf(),
            final(self).block_support_instrs@ == old(self).block_support_instrs@,
            old(self).nested_blocks@.len() == 0 ==> r is None && final(self).view() == (IdView { has: false, ..old(self).view() }),
            old(self).nested_blocks@.len() > 0 ==> {
                &&& r == Some((old(self).nested_blocks@.last(), old(self).save_block_for_slice@.last()))
                &&& final(self).nested_blocks@ == old(self).nested_blocks@.drop_last()
                &&& final(self).save_block_for_slice@ == old(self).save_block_for_slice@.drop_last()
                &&& final(self).block_has_instrs == if final(self).nested_blocks@.len() == 0 { false } else { old(self).block_has_instrs }
            },
    {
        let block_idx = self.nested_blocks.pop();
        let should_save = self.save_block_for_slice.pop();
        if self.nested_blocks.len() == 0 {
            self.block_has_instrs = false;
        }
        match (block_idx, should_save) {
            (Some(b), Some(s)) => Some((b, s)),
            _ => None,
        }
    }

    fn save_block_for_slice(&mut self)
        requires
            old(self).wf(),
            old(self).save_block_for_slice@.len() > 0,
        ensures
            final(self).wf(),
            final(self).view() == (IdView {
                save: old(self).view().save.update(old(self).view().save.len() - 1, true),
                ..old(self).view()
            }),
    {
        let last = self.save_block_for_slice.len() - 1;
        self.save_block_for_slice.set(last, true);
    }

    fn add_block_support(&mut self, instr_idx: usize)
        ensures
            final(self).view() == (IdView { support: old(self).view().support.push(instr_idx), ..old(self).view() }),
            old(self).wf() ==> final(self).wf(),
    {
        self.block_support_instrs.push(instr_idx);
    }

    /// Takes the pending support candidates.
    fn use_block_support(&mut self) -> (r: Vec<usize>)
        ensures
            r@ == old(self).view().support,
            final(self).view() == (IdView { support: seq![], ..old(self).view() }),
            old(self).wf() ==> final(self).wf(),
    {
        let mut ret: Vec<usize> = Vec::new();
        std::mem::swap(&mut ret, &mut self.block_support_instrs);
        ret
    }
}

/// One step of the structural pass over the opcode at `instr_idx`.
fn visit_op(op: &Op, instr_idx: usize, at_func_end: bool, is_in_slice: bool, state: &mut IdentifyStructure) -> (r: Vec<usize>)
    requires
        old(state).wf(),
    ensures
        final(state).wf(),
        (final(state).view(), r@) == visit_spec(old(state).view(), *op, instr_idx, at_func_end, is_in_slice),
{
    let ghost s = state.view();
    let out: Vec<usize> = if is_opener_op(op) {
        state.block_enter(instr_idx);
        if is_in_slice {
            state.save_block_for_slice();
        }
        proof {
            assert(state.view().save =~= s.save.push(is_in_slice));
        }
        Vec::new()
    } else if matches!(op, Op::Else) {
        state.add_block_support(instr_idx);
        Vec::new()
    } else if matches!(op, Op::End) {
        state.add_block_support(instr_idx);
        let has = state.block_has_instrs;
        if at_func_end || !state.in_block() {
            if !state.in_block() {
                state.block_has_instrs = false;
            }
            if has {
                state.use_block_support()
            } else {
                Vec::new()
            }
        } else {
            match state.block_exit() {
                Some((block_idx, should_save)) => {
                    if has || should_save {
                        let mut res = state.use_block_support();
                        res.push(block_idx);
                        res
                    } else {
                        state.add_block_support(block_idx);
                        Vec::new()
                    }
                },
                None => Vec::new(),
            }
        }
    } else {
        if is_in_slice && state.in_block() {
            state.block_has_instrs = true;
        }
        if matches!(op, Op::Br(_) | Op::Return) {
            state.add_block_support(instr_idx);
        }
        Vec::new()
    };
    proof {
        let (t, o) = visit_spec(s, *op, instr_idx, at_func_end, is_in_slice);
        assert(state.view() == t);
    }
    out
}

/// Adds to the support set of `sl` what keeps its projection well formed,
/// but for what its maximal slice already holds.
fn structure_slice(ops: &Vec<Op>, fid: u32, sl: &mut Slice) -> (r: Result<(), FuelError>)
    requires
        old(sl).sized(ops@.len() as int),
    ensures
        final(sl).sized(ops@.len() as int),
        final(sl).start_instr_idx == old(sl).start_instr_idx,
        final(sl).end_instr_idx == old(sl).end_instr_idx,
        final(sl).loop_at == old(sl).loop_at,
        final(sl).spec_name@ == old(sl).spec_name@,
        final(sl).max_slice@ == old(sl).max_slice@,
        final(sl).min_slice@ == old(sl).min_slice@,
        final(sl).params@ == old(sl).params@,
        final(sl).globals@ == old(sl).globals@,
        final(sl).loads@ == old(sl).loads@,
        final(sl).calls@ == old(sl).calls@,
        final(sl).call_indirects@ == old(sl).call_indirects@,
        final(sl).taken@ == old(sl).taken@,
        r is Ok <==> crate::ops::loops_close(ops@, old(sl).start(), old(sl).end()),
        r is Err ==> final(sl).instrs_support@ == old(sl).instrs_support@,
        r is Ok ==> forall|j: int| 0 <= j < ops@.len() && #[trigger] final(sl).instrs_support@[j] && !old(sl).instrs_support@[j] ==> structural(ops@[j]),
        r is Ok ==> forall|j: int| 0 <= j < ops@.len() ==> #[trigger] final(sl).instrs_support@[j] == (old(sl).instrs_support@[j]
            || (structure_of(ops@, old(sl).max_slice@, old(sl).start(), old(sl).end()).contains(j as usize) && !old(sl).max_slice@[j])),
{
    let n = ops.len();
    let start = sl.start_instr_idx;
    let end = sl.end_instr_idx;
    let (own, _loops) = match region_walk(ops, start, end) {
        Some(w) => w,
        None => {
            return Err(FuelError::MalformedModule { fid, idx: start });
        },
    };
    let ghost old_support = sl.instrs_support@;
    let ghost max = sl.max_slice@;
    let mut state = IdentifyStructure::new();
    let mut i: usize = start;
    while i < end
        invariant
            start <= i <= end <= n == ops@.len(),
            sl.sized(n as int),
            sl.start_instr_idx == start && sl.end_instr_idx == end,
            sl.max_slice@ == max,
            sl.loop_at == old(sl).loop_at,
            sl.spec_name@ == old(sl).spec_name@,
            sl.min_slice@ == old(sl).min_slice@,
            sl.params@ == old(sl).params@,
            sl.globals@ == old(sl).globals@,
            sl.loads@ == old(sl).loads@,
            sl.calls@ == old(sl).calls@,
            sl.call_indirects@ == old(sl).call_indirects@,
            sl.taken@ == old(sl).taken@,
            old(sl).max_slice@ == max,
            old(sl).instrs_support@ == old_support,
            own@.len() == n,
            forall|j: int| 0 <= j < n ==> #[trigger] own@[j] == in_walk(ops@, start as int, end as int, j),
            state.wf(),
            state.view() == structure_fold(ops@, max, start as int, end as int, i as int).0,
            bounded(state.view(), i as int),
            forall|j: int| 0 <= j < n ==> #[trigger] sl.instrs_support@[j] == (old_support[j]
                || (structure_fold(ops@, max, start as int, end as int, i as int).1.contains(j as usize) && !max[j])),
        decreases end - i,
    {
        let ghost pre = structure_fold(ops@, max, start as int, end as int, i as int);
        if own[i] && !matches!(ops[i], Op::Loop(_)) {
            let out = visit_op(&ops[i], i, i == n - 1, sl.max_slice[i], &mut state);
            let ghost step = visit_spec(pre.0, ops@[i as int], i, i == n - 1, max[i as int]);
            proof {
                assert(structure_fold(ops@, max, start as int, end as int, i + 1) == (step.0, pre.1 + step.1.to_set()));
                assert forall|x: int| 0 <= x < out@.len() implies (#[trigger] out@[x]) <= i by {
                    let v = pre.0;
                    if is_opener(ops@[i as int]) {
                    } else if ops@[i as int] is End {
                        if !(i == n - 1 || v.nested.len() == 0) {
                            assert(v.nested.last() == v.nested[v.nested.len() - 1]);
                        }
                    }
                }
                let t = state.view();
                assert forall|x: int| 0 <= x < t.support.len() implies (#[trigger] t.support[x]) < i + 1 by {
                    let v = pre.0;
                    if ops@[i as int] is End && !(i == n - 1 || v.nested.len() == 0) && !(v.has || v.save.last()) {
                        assert(v.nested.last() == v.nested[v.nested.len() - 1]);
                        if x < v.support.len() {
                            assert(t.support[x] == v.support[x]);
                        }
                    }
                }
                assert forall|x: int| 0 <= x < t.nested.len() implies (#[trigger] t.nested[x]) < i + 1 by {
                    let v = pre.0;
                    if ops@[i as int] is End && !(i == n - 1 || v.nested.len() == 0) {
                        assert(t.nested[x] == v.nested[x]);
                    }
                }
            }
            let mut x: usize = 0;
            while x < out.len()
                invariant
                    x <= out@.len(),
                    i < n == ops@.len(),
                    forall|y: int| 0 <= y < out@.len() ==> (#[trigger] out@[y]) <= i,
                    sl.sized(n as int),
                    sl.start_instr_idx == start && sl.end_instr_idx == end,
                    sl.max_slice@ == max,
                    sl.loop_at == old(sl).loop_at,
                    sl.spec_name@ == old(sl).spec_name@,
                    sl.min_slice@ == old(sl).min_slice@,
                    sl.params@ == old(sl).params@,
                    sl.globals@ == old(sl).globals@,
                    sl.loads@ == old(sl).loads@,
                    sl.calls@ == old(sl).calls@,
                    sl.call_indirects@ == old(sl).call_indirects@,
                    sl.taken@ == old(sl).taken@,
                    forall|j: int| 0 <= j < n ==> #[trigger] sl.instrs_support@[j] == (old_support[j]
                        || ((pre.1.contains(j as usize) || out@.subrange(0, x as int).contains(j as usize)) && !max[j])),
                decreases out@.len() - x,
            {
                let y = out[x];
                let ghost before = sl.instrs_support@;
                if !sl.max_slice[y] {
                    sl.instrs_support.set(y, true);
                }
                proof {
                    assert forall|j: int| 0 <= j < n implies #[trigger] sl.instrs_support@[j] == (old_support[j]
                        || ((pre.1.contains(j as usize) || out@.subrange(0, x + 1).contains(j as usize)) && !max[j])) by {
                        assert(out@.subrange(0, x + 1) == out@.subrange(0, x as int).push(y));
                        if j == y as int {
                            assert(out@.subrange(0, x + 1)[x as int] == y);
                        } else {
                            assert(before[j] == sl.instrs_support@[j]);
                            if out@.subrange(0, x + 1).contains(j as usize) {
                                let z = choose|z: int| 0 <= z < x + 1 && #[trigger] out@.subrange(0, x + 1)[z] == j as usize;
                                assert(out@.subrange(0, x as int)[z] == j as usize);
                            }
                        }
                    }
                }
                x = x + 1;
            }
            proof {
                assert(out@.subrange(0, out@.len() as int) == out@);
                assert forall|j: int| 0 <= j < n implies #[trigger] sl.instrs_support@[j] == (old_support[j]
                    || (structure_fold(ops@, max, start as int, end as int, i + 1).1.contains(j as usize) && !max[j])) by {
                    if out@.contains(j as usize) {
                        assert(step.1.to_set().contains(j as usize));
                    }
                    if step.1.to_set().contains(j as usize) {
                        assert(out@.contains(j as usize));
                    }
                }
            }
        } else {
            proof {
                assert(structure_fold(ops@, max, start as int, end as int, i + 1) == pre);
            }
        }
        i = i + 1;
    }
    proof {
        lemma_fold_kinds(ops@, max, start as int, end as int, end as int);
        let acc = structure_of(ops@, max, start as int, end as int);
        assert forall|j: int| 0 <= j < ops@.len() && #[trigger] sl.instrs_support@[j] && !old_support[j] implies structural(ops@[j]) by {
            assert(acc.contains(j as usize));
            assert((j as usize) as int == j);
        }
    }
    Ok(())
}

/// Every slice's region closes the loops it owns.
pub open spec fn regions_close(slices: Seq<SliceResult>, funcs: Seq<crate::ops::FuncDef>) -> bool {
    forall|i: int, k: int|
        0 <= i < slices.len() && 0 <= k < slices[i].slices@.len() ==> crate::ops::loops_close(
            funcs[i].ops@,
            (#[trigger] slices[i].slices@[k]).start(),
            slices[i].slices@[k].end(),
        )
}

/// Whether every slice's region closes the loops it owns.
fn check_regions(slices: &Vec<SliceResult>, m: &ModuleInfo) -> (r: bool)
    requires
        slices@.len() == m.funcs@.len(),
        forall|i: int, k: int| 0 <= i < slices@.len() && 0 <= k < slices@[i].slices@.len()
            ==> (#[trigger] slices@[i].slices@[k]).sized(m.funcs@[i].ops@.len() as int),
    ensures
        r == regions_close(slices@, m.funcs@),
{
    let mut i: usize = 0;
    while i < slices.len()
        invariant
            i <= slices@.len() == m.funcs@.len(),
            forall|i: int, k: int| 0 <= i < slices@.len() && 0 <= k < slices@[i].slices@.len()
                ==> (#[trigger] slices@[i].slices@[k]).sized(m.funcs@[i].ops@.len() as int),
            forall|q: int, k: int| 0 <= q < i && 0 <= k < slices@[q].slices@.len() ==> crate::ops::loops_close(
                m.funcs@[q].ops@,
                (#[trigger] slices@[q].slices@[k]).start(),
                slices@[q].slices@[k].end(),
            ),
        decreases slices@.len() - i,
    {
        let mut k: usize = 0;
        while k < slices[i].slices.len()
            invariant
                i < slices@.len() == m.funcs@.len(),
                k <= slices@[i as int].slices@.len(),
                forall|i: int, k: int| 0 <= i < slices@.len() && 0 <= k < slices@[i].slices@.len()
                    ==> (#[trigger] slices@[i].slices@[k]).sized(m.funcs@[i].ops@.len() as int),
                forall|q: int, k: int| 0 <= q < i && 0 <= k < slices@[q].slices@.len() ==> crate::ops::loops_close(
                    m.funcs@[q].ops@,
                    (#[trigger] slices@[q].slices@[k]).start(),
                    slices@[q].slices@[k].end(),
                ),
                forall|kk: int| 0 <= kk < k ==> crate::ops::loops_close(
                    m.funcs@[i as int].ops@,
                    (#[trigger] slices@[i as int].slices@[kk]).start(),
                    slices@[i as int].slices@[kk].end(),
                ),
            decreases slices@[i as int].slices@.len() - k,
        {
            let sl = &slices[i].slices[k];
            assert(sl.sized(m.funcs@[i as int].ops@.len() as int));
            if region_walk(&m.funcs[i].ops, sl.start_instr_idx, sl.end_instr_idx).is_none() {
                return false;
            }
            k = k + 1;
        }
        i = i + 1;
    }
    true
}

/// Runs the structural pass over every slice of every function. It fails,
/// changing nothing, exactly where some slice's region owns a loop that does
/// not close within it.
pub fn save_structure(slices: &mut Vec<SliceResult>, m: &ModuleInfo) -> (r: Result<(), FuelError>)
    requires
        old(slices)@.len() == m.funcs@.len(),
        forall|i: int, k: int| 0 <= i < old(slices)@.len() && 0 <= k < old(slices)@[i].slices@.len()
            ==> (#[trigger] old(slices)@[i].slices@[k]).sized(m.funcs@[i].ops@.len() as int),
    ensures
        r is Ok <==> regions_close(old(slices)@, m.funcs@),
        r matches Err(e) ==> e is MalformedModule,
        r is Err ==> final(slices)@ == old(slices)@,
        final(slices)@.len() == old(slices)@.len(),
        r is Ok ==> forall|i: int| 0 <= i < final(slices)@.len() ==> {
            &&& (#[trigger] final(slices)@[i]).fid == old(slices)@[i].fid
            &&& final(slices)@[i].total_params == old(slices)@[i].total_params
            &&& final(slices)@[i].slices@.len() == old(slices)@[i].slices@.len()
            &&& forall|k: int| 0 <= k < final(slices)@[i].slices@.len() ==> structured(&old(slices)@[i].slices@[k], #[trigger] &final(slices)@[i].slices@[k], m.funcs@[i].ops@)
        },
{
    if !check_regions(slices, m) {
        return Err(FuelError::MalformedModule { fid: 0, idx: 0 });
    }
    let mut i: usize = 0;
    while i < slices.len()
        invariant
            i <= slices@.len() == old(slices)@.len() == m.funcs@.len(),
            forall|j: int| i <= j < slices@.len() ==> #[trigger] slices@[j] == old(slices)@[j],
            forall|j: int, k: int| 0 <= j < old(slices)@.len() && 0 <= k < old(slices)@[j].slices@.len()
                ==> (#[trigger] old(slices)@[j].slices@[k]).sized(m.funcs@[j].ops@.len() as int),
            regions_close(old(slices)@, m.funcs@),
            forall|j: int| 0 <= j < i ==> {
                &&& (#[trigger] slices@[j]).fid == old(slices)@[j].fid
                &&& slices@[j].total_params == old(slices)@[j].total_params
                &&& slices@[j].slices@.len() == old(slices)@[j].slices@.len()
                &&& forall|k: int| 0 <= k < slices@[j].slices@.len() ==> structured(&old(slices)@[j].slices@[k], #[trigger] &slices@[j].slices@[k], m.funcs@[j].ops@)
            },
        decreases old(slices)@.len() - i,
    {
        let ghost gi = i as int;
        let mut res = SliceResult { fid: 0, total_params: 0, slices: Vec::new() };
        slices.set_and_swap(i, &mut res);
        let ghost orig = res;
        assert(orig == old(slices)@[gi]);
        let ops = &m.funcs[i].ops;
        let fid = m.funcs[i].fid;
        let ghost snapshot = slices@;
        let mut k: usize = 0;
        while k < res.slices.len()
            invariant
                slices@ == snapshot,
                snapshot.len() == old(slices)@.len(),
                gi == i as int,
                i < slices@.len(),
                k <= res.slices@.len() == orig.slices@.len(),
                res.fid == orig.fid && res.total_params == orig.total_params,
                *ops == m.funcs@[gi].ops,
                forall|q: int| k <= q < res.slices@.len() ==> #[trigger] res.slices@[q] == orig.slices@[q],
                forall|q: int| 0 <= q < orig.slices@.len() ==> (#[trigger] orig.slices@[q]).sized(ops@.len() as int),
                forall|q: int| 0 <= q < k ==> structured(&orig.slices@[q], #[trigger] &res.slices@[q], ops@),
                regions_close(old(slices)@, m.funcs@),
                orig == old(slices)@[gi],
            decreases orig.slices@.len() - k,
        {
            let mut sl = Slice::placeholder();
            res.slices.set_and_swap(k, &mut sl);
            assert(sl == orig.slices@[k as int]);
            assert(old(slices)@[gi].slices@[k as int] == sl);
            assert(crate::ops::loops_close(ops@, sl.start(), sl.end()));
            let r = structure_slice(ops, fid, &mut sl);
            res.slices.set_and_swap(k, &mut sl);
            proof {
                assert forall|q: int| 0 <= q < k + 1 implies structured(&orig.slices@[q], #[trigger] &res.slices@[q], ops@) by {}
            }
            k = k + 1;
        }
        slices.set_and_swap(i, &mut res);
        i = i + 1;
    }
    Ok(())
}

/// `b` is `a` with the structural support of its region added.
pub open spec fn structured(a: &Slice, b: &Slice, ops: Seq<Op>) -> bool {
    &&& b.sized(ops.len() as int)
    &&& b.start_instr_idx == a.start_instr_idx
    &&& b.end_instr_idx == a.end_instr_idx
    &&& b.loop_at == a.loop_at
    &&& b.spec_name@ == a.spec_name@
    &&& b.max_slice@ == a.max_slice@
    &&& b.min_slice@ == a.min_slice@
    &&& b.params@ == a.params@
    &&& b.globals@ == a.globals@
    &&& b.loads@ == a.loads@
    &&& b.calls@ == a.calls@
    &&& b.call_indirects@ == a.call_indirects@
    &&& b.taken@ == a.taken@
    &&& forall|j: int| 0 <= j < ops.len() ==> #[trigger] b.instrs_support@[j] == (a.instrs_support@[j]
        || (structure_of(ops, a.max_slice@, a.start(), a.end()).contains(j as usize) && !a.max_slice@[j]))
    &&& forall|j: int| 0 <= j < ops.len() && #[trigger] b.instrs_support@[j] && !a.instrs_support@[j] ==> structural(ops[j])
}

/// Running the structural pass on a slice it has already run on adds nothing.
pub proof fn lemma_structure_idempotent(a: &Slice, b: &Slice, c: &Slice, ops: Seq<Op>)
    requires
        structured(a, b, ops),
        structured(b, c, ops),
    ensures
        c.instrs_support@ == b.instrs_support@,
        c.max_slice@ == b.max_slice@,
        c.min_slice@ == b.min_slice@,
{
    assert(c.instrs_support@ =~= b.instrs_support@);
}

} // verus!
