use vstd::prelude::*;

use crate::ops::{is_branching, is_branching_op, ModuleInfo, Op, ValType};
use crate::slice::{Slice, SliceResult};

verus! {

/// Opcodes that the minimal slice keeps: branches of every kind, `if`, `return`.
pub open spec fn in_min(op: Op) -> bool {
    is_branching(op) || op is If || op is Return
}

/// Opcodes whose outcome the minimal probe takes as an input token: the
/// branches that test a value at run time, and `if`.
pub open spec fn needs_taken(op: Op) -> bool {
    op is BrIf || op is BrOther || op is If
}

/// Whether the opcode belongs to the minimal slice, and the type of the token
/// it needs, if any.
fn visit_op(op: &Op) -> (r: (bool, Option<ValType>))
    ensures
        r.0 == in_min(*op),
        r.1 == (if needs_taken(*op) { Some(ValType::I32) } else { None::<ValType> }),
{
    let in_min_slice = is_branching_op(op) || matches!(op, Op::If(_) | Op::Return);
    let need_taken = if in_min_slice && is_branching_op(op) && !matches!(op, Op::Br(_)) || matches!(op, Op::If(_)) {
        Some(ValType::I32)
    } else {
        None
    };
    (in_min_slice, need_taken)
}

/// Instruction `j` joins the minimal slice of `a`: a branch decider that the
/// maximal slice holds and the support does not. The minimal slice thus stays
/// within the maximal slice and the support, which keeps the minimal probe a
/// projection of the instructions the structural pass made well bracketed.
pub open spec fn joins_min(a: &Slice, ops: Seq<Op>, j: int) -> bool {
    a.max_slice@[j] && in_min(ops[j]) && !a.instrs_support@[j]
}

/// `b` is `a` with its minimal slice and its tokens derived over the body `ops`.
pub open spec fn reduced(a: &Slice, b: &Slice, ops: Seq<Op>) -> bool {
    &&& b.sized(ops.len() as int)
    &&& b.start_instr_idx == a.start_instr_idx
    &&& b.end_instr_idx == a.end_instr_idx
    &&& b.loop_at == a.loop_at
    &&& b.spec_name@ == a.spec_name@
    &&& b.max_slice@ == a.max_slice@
    &&& b.instrs_support@ == a.instrs_support@
    &&& b.params@ == a.params@
    &&& b.globals@ == a.globals@
    &&& b.loads@ == a.loads@
    &&& b.calls@ == a.calls@
    &&& b.call_indirects@ == a.call_indirects@
    &&& forall|j: int| 0 <= j < ops.len() ==> #[trigger] b.min_slice@[j] == (a.min_slice@[j] || joins_min(a, ops, j))
    &&& forall|j: int| 0 <= j < ops.len() ==> #[trigger] b.taken@[j] == (if needs_taken(ops[j]) {
        Some(ValType::I32)
    } else {
        a.taken@[j]
    })
}

fn reduce_one(ops: &Vec<Op>, sl: &mut Slice)
    requires
        old(sl).sized(ops@.len() as int),
    ensures
        reduced(old(sl), final(sl), ops@),
{
    let n = ops.len();
    let mut i: usize = 0;
    while i < n
        invariant
            i <= n == ops@.len(),
            sl.sized(n as int),
            sl.start_instr_idx == old(sl).start_instr_idx,
            sl.end_instr_idx == old(sl).end_instr_idx,
            sl.loop_at == old(sl).loop_at,
            sl.spec_name@ == old(sl).spec_name@,
            sl.max_slice@ == old(sl).max_slice@,
            sl.instrs_support@ == old(sl).instrs_support@,
            sl.params@ == old(sl).params@,
            sl.globals@ == old(sl).globals@,
            sl.loads@ == old(sl).loads@,
            sl.calls@ == old(sl).calls@,
            sl.call_indirects@ == old(sl).call_indirects@,
            forall|j: int| 0 <= j < n ==> #[trigger] sl.min_slice@[j] == (old(sl).min_slice@[j] || (j < i
                && joins_min(old(sl), ops@, j))),
            forall|j: int| 0 <= j < n ==> #[trigger] sl.taken@[j] == (if j < i && needs_taken(ops@[j]) {
                Some(ValType::I32)
            } else {
                old(sl).taken@[j]
            }),
        decreases n - i,
    {
        let joins = sl.max_slice[i] && !sl.instrs_support[i];
        let (in_min_slice, need_taken) = visit_op(&ops[i]);
        if in_min_slice && joins {
            sl.min_slice.set(i, true);
        }
        if let Some(dt) = need_taken {
            sl.taken.set(i, Some(dt));
        }
        i = i + 1;
    }
}

/// Derives the minimal slice and its tokens for every slice of every
/// function: the minimal slice holds the branch deciders of each maximal
/// slice that are not support; a token is taken for every `if` and every
/// branch of the body that tests a value.
pub fn reduce_slice(slices: &mut Vec<SliceResult>, m: &ModuleInfo)
    requires
        old(slices)@.len() == m.funcs@.len(),
        forall|i: int, k: int| 0 <= i < old(slices)@.len() && 0 <= k < old(slices)@[i].slices@.len()
            ==> (#[trigger] old(slices)@[i].slices@[k]).sized(m.funcs@[i].ops@.len() as int),
    ensures
        final(slices)@.len() == old(slices)@.len(),
        forall|i: int| 0 <= i < final(slices)@.len() ==> {
            &&& (#[trigger] final(slices)@[i]).fid == old(slices)@[i].fid
            &&& final(slices)@[i].total_params == old(slices)@[i].total_params
            &&& final(slices)@[i].slices@.len() == old(slices)@[i].slices@.len()
            &&& forall|k: int| 0 <= k < final(slices)@[i].slices@.len() ==> reduced(&old(slices)@[i].slices@[k], #[trigger] &final(slices)@[i].slices@[k], m.funcs@[i].ops@)
        },
{
    let mut i: usize = 0;
    while i < slices.len()
        invariant
            i <= slices@.len() == old(slices)@.len() == m.funcs@.len(),
            forall|j: int| i <= j < slices@.len() ==> #[trigger] slices@[j] == old(slices)@[j],
            forall|j: int, k: int| 0 <= j < old(slices)@.len() && 0 <= k < old(slices)@[j].slices@.len()
                ==> (#[trigger] old(slices)@[j].slices@[k]).sized(m.funcs@[j].ops@.len() as int),
            forall|j: int| 0 <= j < i ==> {
                &&& (#[trigger] slices@[j]).fid == old(slices)@[j].fid
                &&& slices@[j].total_params == old(slices)@[j].total_params
                &&& slices@[j].slices@.len() == old(slices)@[j].slices@.len()
                &&& forall|k: int| 0 <= k < slices@[j].slices@.len() ==> reduced(&old(slices)@[j].slices@[k], #[trigger] &slices@[j].slices@[k], m.funcs@[j].ops@)
            },
        decreases old(slices)@.len() - i,
    {
        let ghost gi = i as int;
        let mut res = SliceResult { fid: 0, total_params: 0, slices: Vec::new() };
        slices.set_and_swap(i, &mut res);
        let ghost orig = res;
        let ops = &m.funcs[i].ops;
        let ghost snapshot = slices@;
        let mut k: usize = 0;
        while k < res.slices.len()
            invariant
                slices@ == snapshot,
                snapshot.len() == old(slices)@.len(),
                gi == i as int,
                i < slices@.len(),
                orig == old(slices)@[gi],
                k <= res.slices@.len() == orig.slices@.len(),
                res.fid == orig.fid && res.total_params == orig.total_params,
                *ops == m.funcs@[gi].ops,
                forall|q: int| k <= q < res.slices@.len() ==> #[trigger] res.slices@[q] == orig.slices@[q],
                forall|q: int| 0 <= q < orig.slices@.len() ==> (#[trigger] orig.slices@[q]).sized(ops@.len() as int),
                forall|q: int| 0 <= q < k ==> reduced(&orig.slices@[q], #[trigger] &res.slices@[q], ops@),
            decreases orig.slices@.len() - k,
        {
            let mut sl = Slice::placeholder();
            res.slices.set_and_swap(k, &mut sl);
            assert(sl == orig.slices@[k as int]);
            reduce_one(ops, &mut sl);
            res.slices.set_and_swap(k, &mut sl);
            proof {
                assert forall|q: int| 0 <= q < k + 1 implies reduced(&orig.slices@[q], #[trigger] &res.slices@[q], ops@) by {}
            }
            k = k + 1;
        }
        slices.set_and_swap(i, &mut res);
        i = i + 1;
    }
}

} // verus!
