use vstd::prelude::*;

use crate::error::FuelError;
use crate::ops::{is_control, is_control_op, BlockTy, FuncDef, ModuleInfo, Op};

verus! {

/// Where a value on the operand stack came from.
#[derive(Clone, Copy, Debug, PartialEq, Eq, Structural)]
pub enum Origin {
    /// Value produced by the instruction at this index.
    Instr { instr_idx: usize },
    /// Read of global `gid` by the instruction at `instr_idx`.
    Global { instr_idx: usize, gid: u32 },
    /// Read of parameter `lid` by the `local.get` at `instr_idx`.
    Param { instr_idx: usize, lid: u32 },
    /// Memory load at this index.
    Load { instr_idx: usize },
    /// Result `result_idx` of the direct call at `instr_idx`.
    Call { result_idx: usize, instr_idx: usize },
    /// Result `result_idx` of the indirect call at `instr_idx`.
    CallIndirect { result_idx: usize, instr_idx: usize },
    /// Unknown or untracked.
    Untracked,
}

impl Origin {
    /// The instruction this origin points at, if any.
    pub open spec fn source(self) -> Option<int> {
        match self {
            Origin::Instr { instr_idx } => Some(instr_idx as int),
            Origin::Global { instr_idx, .. } => Some(instr_idx as int),
            Origin::Param { instr_idx, .. } => Some(instr_idx as int),
            Origin::Load { instr_idx } => Some(instr_idx as int),
            Origin::Call { instr_idx, .. } => Some(instr_idx as int),
            Origin::CallIndirect { instr_idx, .. } => Some(instr_idx as int),
            Origin::Untracked => None,
        }
    }

    /// The origin points at no instruction at or after `i`.
    pub open spec fn before(self, i: int) -> bool {
        match self.source() {
            Some(j) => j < i,
            None => true,
        }
    }
}

pub proof fn lemma_before_mono(o: Origin, i: int, j: int)
    requires
        o.before(i),
        i <= j,
    ensures
        o.before(j),
{
}

/// Every origin of `s` points before `i`.
pub open spec fn all_before(s: Seq<Origin>, i: int) -> bool {
    forall|k: int| 0 <= k < s.len() ==> (#[trigger] s[k]).before(i)
}

/// Classification of an instruction for slicing.
#[derive(Clone, Copy, Debug, PartialEq, Eq, Structural)]
pub enum OpKind {
    /// Its stack input decides the control flow.
    Control,
    Other,
}

pub open spec fn kind_of(op: Op) -> OpKind {
    if is_control(op) {
        OpKind::Control
    } else {
        OpKind::Other
    }
}

/// What the analysis records of one instruction.
#[derive(Clone, Debug)]
pub struct InstrInfo {
    pub kind: OpKind,
    /// Origins of the values the instruction consumed, first operand first.
    pub inputs: Vec<Origin>,
}

/// Number of values an opcode consumes, where it does not depend on types.
pub open spec fn fixed_inputs(op: Op) -> Option<nat> {
    match op {
        Op::LocalGet(_) | Op::GlobalGet(_) | Op::Block(_) | Op::Loop(_) | Op::Else | Op::End
        | Op::Br(_) | Op::Return => Some(0),
        Op::LocalSet(_) | Op::LocalTee(_) | Op::GlobalSet(_) | Op::Load(_) | Op::BrIf(_)
        | Op::BrOther | Op::If(_) => Some(1),
        Op::Plain { pops, .. } => Some(pops as nat),
        _ => None,
    }
}

/// The record of instruction `i` agrees with its opcode.
pub open spec fn info_fits(info: InstrInfo, op: Op, i: int) -> bool {
    &&& info.kind == kind_of(op)
    &&& all_before(info.inputs@, i)
    &&& (fixed_inputs(op) matches Some(n) ==> info.inputs@.len() == n)
}

/// The state of the provenance interpreter, as values.
pub struct AState {
    pub stack: Seq<Origin>,
    pub locals: Seq<Origin>,
    /// For each open block: stack height on entry and number of results.
    pub ctrl: Seq<(usize, usize)>,
}

/// Number of results of a block of type `bt`, if its type exists.
pub open spec fn block_results_spec(m: ModuleInfo, bt: BlockTy) -> Option<usize> {
    match bt {
        BlockTy::Empty => Some(0usize),
        BlockTy::Value(_) => Some(1usize),
        BlockTy::Func(t) => if (t as int) < m.types@.len() {
            Some(m.types@[t as int].results@.len() as usize)
        } else {
            None
        },
    }
}

/// Values a call consumes beyond its arguments: an indirect call's table
/// index.
pub open spec fn call_extra(op: Op) -> nat {
    if op is CallIndirect {
        1
    } else {
        0
    }
}

/// The origins pushed for `n` results of the call at `idx`.
pub open spec fn call_results(direct: bool, idx: int, n: nat) -> Seq<Origin> {
    Seq::new(
        n,
        |r: int|
            if direct {
                Origin::Call { result_idx: r as usize, instr_idx: idx as usize }
            } else {
                Origin::CallIndirect { result_idx: r as usize, instr_idx: idx as usize }
            },
    )
}

/// One step of the interpreter on `op` at index `idx` of a body of `n`
/// instructions: the new state, the kind and the consumed origins. `None`
/// where the module is malformed there or the opcode is not modeled.
pub open spec fn step(m: ModuleInfo, nparams: nat, nres: nat, n: int, s: AState, op: Op, idx: int) -> Option<(AState, OpKind, Seq<Origin>)> {
    let len = s.stack.len();
    let top = s.stack.last();
    let popped = s.stack.drop_last();
    match op {
        Op::LocalGet(lid) => if lid < nparams {
            Some((AState { stack: s.stack.push(Origin::Param { instr_idx: idx as usize, lid }), ..s }, OpKind::Other, seq![]))
        } else if lid < s.locals.len() {
            Some((AState { stack: s.stack.push(s.locals[lid as int]), ..s }, OpKind::Other, seq![]))
        } else {
            None
        },
        Op::LocalSet(lid) => if lid < s.locals.len() && len > 0 {
            Some((AState { stack: popped, locals: s.locals.update(lid as int, top), ..s }, OpKind::Other, seq![top]))
        } else {
            None
        },
        Op::LocalTee(lid) => if lid < s.locals.len() && len > 0 {
            Some((AState { locals: s.locals.update(lid as int, top), ..s }, OpKind::Other, seq![top]))
        } else {
            None
        },
        Op::GlobalGet(gid) => if (gid as int) < m.globals@.len() {
            Some((AState { stack: s.stack.push(Origin::Global { instr_idx: idx as usize, gid }), ..s }, OpKind::Other, seq![]))
        } else {
            None
        },
        Op::GlobalSet(_) => if len > 0 {
            Some((AState { stack: popped, ..s }, OpKind::Other, seq![top]))
        } else {
            None
        },
        Op::Load(_) => if len > 0 {
            Some((AState { stack: popped.push(Origin::Load { instr_idx: idx as usize }), ..s }, OpKind::Other, seq![top]))
        } else {
            None
        },
        Op::BrIf(_) | Op::BrOther => if len > 0 {
            Some((AState { stack: popped, ..s }, OpKind::Control, seq![top]))
        } else {
            None
        },
        Op::Call(_) | Op::CallIndirect(_) => match callee_type(m, op) {
            Some(t) => if 0 <= t < m.types@.len() && m.types@[t].params@.len() + call_extra(op) <= len {
                let p = m.types@[t].params@.len() + call_extra(op);
                let r = m.types@[t].results@.len();
                Some((
                    AState { stack: s.stack.subrange(0, len - p) + call_results(op is Call, idx, r), ..s },
                    OpKind::Other,
                    s.stack.subrange(len - p, len as int),
                ))
            } else {
                None
            },
            None => None,
        },
        Op::Return => {
            let d = if len < nres { len } else { nres };
            Some((AState { stack: s.stack.subrange(0, len - d), ..s }, OpKind::Control, seq![]))
        },
        Op::If(bt) => match block_results_spec(m, bt) {
            Some(r) => if len > 0 {
                Some((AState { stack: popped, ctrl: s.ctrl.push(((len - 1) as usize, r)), ..s }, OpKind::Control, seq![top]))
            } else {
                None
            },
            None => None,
        },
        Op::Block(bt) | Op::Loop(bt) => match block_results_spec(m, bt) {
            Some(r) => Some((AState { ctrl: s.ctrl.push((len as usize, r)), ..s }, OpKind::Other, seq![])),
            None => None,
        },
        Op::End => if idx + 1 < n {
            if s.ctrl.len() > 0 && s.ctrl.last().0 + s.ctrl.last().1 <= len {
                let (h, r) = s.ctrl.last();
                Some((AState { stack: s.stack.subrange(0, h + r), ctrl: s.ctrl.drop_last(), ..s }, OpKind::Other, seq![]))
            } else {
                None
            }
        } else {
            Some((s, OpKind::Other, seq![]))
        },
        Op::Else | Op::Br(_) => Some((s, OpKind::Other, seq![])),
        Op::Plain { pops, pushes } => if pops <= len {
            Some((
                AState {
                    stack: s.stack.subrange(0, len - pops) + Seq::new(pushes as nat, |k: int| Origin::Instr { instr_idx: idx as usize }),
                    ..s
                },
                OpKind::Other,
                s.stack.subrange(len - pops, len as int),
            ))
        } else {
            None
        },
        Op::Unsupported(_) => None,
    }
}

/// The interpreter's state before the body of `f`: empty stacks, every
/// local untracked. `None` where the function's type is missing.
pub open spec fn init_state(m: ModuleInfo, f: FuncDef) -> Option<AState> {
    if (f.ty as int) < m.types@.len() && m.types@[f.ty as int].params@.len() + f.num_locals <= usize::MAX {
        Some(AState {
            stack: seq![],
            locals: Seq::new((m.types@[f.ty as int].params@.len() + f.num_locals) as nat, |k: int| Origin::Untracked),
            ctrl: seq![],
        })
    } else {
        None
    }
}

/// The interpreter after the first `k` instructions of `f`, with the kind
/// and consumed origins of each.
pub open spec fn run_spec(m: ModuleInfo, f: FuncDef, k: int) -> Option<(AState, Seq<(OpKind, Seq<Origin>)>)>
    decreases k,
{
    if k <= 0 {
        match init_state(m, f) {
            Some(s) => Some((s, seq![])),
            None => None,
        }
    } else {
        match run_spec(m, f, k - 1) {
            Some((s, log)) => {
                let sig = m.types@[f.ty as int];
                match step(m, sig.params@.len(), sig.results@.len(), f.ops@.len() as int, s, f.ops@[k - 1], k - 1) {
                    Some((t, kind, ins)) => Some((t, log.push((kind, ins)))),
                    None => None,
                }
            },
            None => None,
        }
    }
}

/// At the end of the body the stack holds the function's results, or
/// nothing, and every block is closed.
pub open spec fn ends_well(m: ModuleInfo, f: FuncDef, s: AState) -> bool {
    &&& s.stack.len() == m.types@[f.ty as int].results@.len() || s.stack.len() == 0
    &&& s.ctrl.len() == 0
}

/// The origin fits the instruction it points at: a load, a parameter or
/// global that exists, an existing result of a call.
pub open spec fn origin_ok(m: ModuleInfo, ops: Seq<Op>, nparams: nat, o: Origin) -> bool {
    match o {
        Origin::Instr { instr_idx } => instr_idx < ops.len() && ops[instr_idx as int] is Plain,
        Origin::Load { instr_idx } => instr_idx < ops.len() && ops[instr_idx as int] is Load,
        Origin::Param { instr_idx, lid } => instr_idx < ops.len() && lid < nparams && ops[instr_idx as int] == Op::LocalGet(lid),
        Origin::Global { instr_idx, gid } => instr_idx < ops.len() && (gid as int) < m.globals@.len() && ops[instr_idx as int]
            == Op::GlobalGet(gid),
        Origin::Call { result_idx, instr_idx } => instr_idx < ops.len() && ops[instr_idx as int] is Call
            && (callee_type(m, ops[instr_idx as int]) matches Some(t) && 0 <= t < m.types@.len()
            && result_idx < m.types@[t].results@.len()),
        Origin::CallIndirect { result_idx, instr_idx } => instr_idx < ops.len() && ops[instr_idx as int] is CallIndirect
            && (callee_type(m, ops[instr_idx as int]) matches Some(t) && 0 <= t < m.types@.len()
            && result_idx < m.types@[t].results@.len()),
        Origin::Untracked => true,
    }
}

pub open spec fn origins_ok(m: ModuleInfo, ops: Seq<Op>, nparams: nat, s: Seq<Origin>) -> bool {
    forall|x: int| 0 <= x < s.len() ==> origin_ok(m, ops, nparams, #[trigger] s[x])
}

/// Every origin the interpreter holds, and every one it logs, fits the
/// instruction it points at.
pub proof fn lemma_run_origins(m: ModuleInfo, f: FuncDef, k: int)
    requires
        0 <= k <= f.ops@.len(),
        run_spec(m, f, k) is Some,
    ensures
        ({
            let (s, log) = run_spec(m, f, k)->0;
            let np = m.types@[f.ty as int].params@.len();
            &&& origins_ok(m, f.ops@, np, s.stack)
            &&& origins_ok(m, f.ops@, np, s.locals)
            &&& log.len() == k
            &&& forall|i: int| 0 <= i < log.len() ==> origins_ok(m, f.ops@, np, #[trigger] log[i].1)
        }),
    decreases k,
{
    let ops = f.ops@;
    let np = m.types@[f.ty as int].params@.len();
    if k > 0 {
        lemma_run_origins(m, f, k - 1);
        let (s, log) = run_spec(m, f, k - 1)->0;
        let sig = m.types@[f.ty as int];
        let i = k - 1;
        let op = ops[i];
        let (t, kind, ins) = step(m, sig.params@.len(), sig.results@.len(), ops.len() as int, s, op, i)->0;
        assert(run_spec(m, f, k) == Some((t, log.push((kind, ins)))));
        let len = s.stack.len();
        if len > 0 {
            assert(origin_ok(m, ops, np, s.stack[len - 1]));
        }
        assert(f.ops.len() == ops.len());
        match op {
            Op::Call(_) | Op::CallIndirect(_) => {
                let tt = callee_type(m, op)->0;
                let r = m.types@[tt].results@.len();
                assert(m.types@[tt].results.len() == r);
                assert forall|x: int| 0 <= x < r implies origin_ok(m, ops, np, #[trigger] call_results(op is Call, i, r)[x]) by {}
            },
            Op::LocalGet(lid) => {
                if lid >= np {
                    assert(origin_ok(m, ops, np, s.locals[lid as int]));
                }
            },
            _ => {},
        }
        assert(origins_ok(m, ops, np, t.stack));
        assert(origins_ok(m, ops, np, t.locals));
        assert(origins_ok(m, ops, np, ins));
        assert forall|x: int| 0 <= x < log.push((kind, ins)).len() implies origins_ok(m, ops, np, #[trigger] log.push((kind, ins))[x].1) by {
            if x < log.len() {
                assert(log.push((kind, ins))[x] == log[x]);
            }
        }
    } else {
        let s = init_state(m, f)->0;
        assert(origins_ok(m, ops, np, s.locals));
    }
}

/// How many blocks the interpreter holds open after `k` instructions.
pub open spec fn ctrl_len_at(m: ModuleInfo, f: FuncDef, k: int) -> int {
    match run_spec(m, f, k) {
        Some((s, _)) => s.ctrl.len() as int,
        None => 0,
    }
}

/// The interpreter's open blocks follow the block depth of the body: the
/// function's final `End` closes nothing.
pub proof fn lemma_ctrl_depth(m: ModuleInfo, f: FuncDef, k: int)
    requires
        0 <= k <= f.ops@.len(),
        run_spec(m, f, k) is Some,
    ensures
        ctrl_len_at(m, f, k) == crate::ops::depth(f.ops@, 0, k) + if k == f.ops@.len() && k > 0 && f.ops@[k - 1] is End {
            1int
        } else {
            0int
        },
    decreases k,
{
    let ops = f.ops@;
    if k > 0 {
        lemma_run_stays_stuck_rev(m, f, k - 1, k);
        lemma_ctrl_depth(m, f, k - 1);
        let (s, _log) = run_spec(m, f, k - 1)->0;
        let sig = m.types@[f.ty as int];
        assert(crate::ops::depth(ops, 0, k) == crate::ops::depth(ops, 0, k - 1) + crate::ops::depth_delta(ops[k - 1]));
        let (t, _kind, _ins) = step(m, sig.params@.len(), sig.results@.len(), ops.len() as int, s, ops[k - 1], k - 1)->0;
        assert(ctrl_len_at(m, f, k) == t.ctrl.len());
    }
}

/// Where the interpreter runs to `k`, it runs to every earlier point.
pub proof fn lemma_run_stays_stuck_rev(m: ModuleInfo, f: FuncDef, j: int, k: int)
    requires
        0 <= j <= k,
        run_spec(m, f, k) is Some,
    ensures
        run_spec(m, f, j) is Some,
{
    if run_spec(m, f, j) is None {
        lemma_run_stays_stuck(m, f, j, k);
    }
}

proof fn lemma_first_close(ops: Seq<Op>, o: int, j: int, l: int)
    requires
        0 <= o < j <= l <= ops.len(),
        crate::ops::is_opener(ops[o]),
        crate::ops::depth(ops, o, l) <= 0,
        crate::ops::depth(ops, o, j) >= 0,
        forall|jj: int| o < jj < j ==> #[trigger] crate::ops::depth(ops, o, jj) > 0,
    ensures
        exists|e: int| #[trigger] crate::ops::closes(ops, o, e),
    decreases l - j,
{
    assert(crate::ops::depth(ops, o, o + 1) == crate::ops::depth(ops, o, o) + crate::ops::depth_delta(ops[o]));
    if crate::ops::depth(ops, o, j) == 0 {
        let e = j - 1;
        assert(e > o);
        assert(crate::ops::depth(ops, o, e) > 0);
        assert(crate::ops::depth(ops, o, e + 1) == crate::ops::depth(ops, o, e) + crate::ops::depth_delta(ops[e]));
        assert(crate::ops::closes(ops, o, e));
    } else {
        assert(j < l);
        assert(crate::ops::depth(ops, o, j + 1) == crate::ops::depth(ops, o, j) + crate::ops::depth_delta(ops[j]));
        lemma_first_close(ops, o, j + 1, l);
    }
}

/// A function the interpreter runs through closes every block it opens.
pub proof fn lemma_func_ok_closes(m: ModuleInfo, f: FuncDef)
    requires
        func_ok(m, f),
    ensures
        crate::ops::loops_closed(f.ops@),
{
    let ops = f.ops@;
    let n = ops.len() as int;
    lemma_ctrl_depth(m, f, n);
    let l = if n > 0 && ops[n - 1] is End { n - 1 } else { n };
    if n > 0 && ops[n - 1] is End {
        assert(crate::ops::depth(ops, 0, n) == crate::ops::depth(ops, 0, n - 1) + crate::ops::depth_delta(ops[n - 1]));
    }
    assert(crate::ops::depth(ops, 0, l) == 0);
    assert forall|o: int| 0 <= o < ops.len() && (#[trigger] ops[o]) is Loop implies exists|e: int| crate::ops::closes(ops, o, e) by {
        lemma_run_stays_stuck_rev(m, f, o, n);
        lemma_ctrl_depth(m, f, o);
        crate::ops::lemma_depth_split(ops, 0, o, l);
        assert(o < l);
        assert(crate::ops::depth(ops, o, o + 1) == crate::ops::depth(ops, o, o) + crate::ops::depth_delta(ops[o]));
        lemma_first_close(ops, o, o + 1, l);
    }
}

/// The interpreter runs through the body of `f` and ends well.
pub open spec fn func_ok(m: ModuleInfo, f: FuncDef) -> bool {
    run_spec(m, f, f.ops@.len() as int) matches Some((a, _)) && ends_well(m, f, a)
}

/// The interpreter on `f` stops with error `e`: unsupported where it reaches
/// an opcode the table does not model, malformed where it reaches another
/// instruction it cannot run, where the function's type is missing, or
/// where the stack ends holding neither the results nor nothing.
pub open spec fn fails_with(m: ModuleInfo, f: FuncDef, e: FuelError) -> bool {
    match e {
        FuelError::UnsupportedOpcode { fid, idx, opcode } => {
            &&& fid == f.fid
            &&& idx < f.ops@.len()
            &&& run_spec(m, f, idx as int) is Some
            &&& f.ops@[idx as int] == Op::Unsupported(opcode)
        },
        FuelError::MalformedModule { fid, idx } => {
            &&& fid == f.fid
            &&& {
                ||| idx == 0 && init_state(m, f) is None
                ||| idx < f.ops@.len() && run_spec(m, f, idx as int) is Some && run_spec(m, f, idx + 1) is None
                    && !(f.ops@[idx as int] is Unsupported)
                ||| idx == f.ops@.len() && (run_spec(m, f, idx as int) matches Some((a, _)) && !ends_well(m, f, a))
            }
        },
        _ => false,
    }
}

/// Once the interpreter stops, it stays stopped.
pub proof fn lemma_run_stays_stuck(m: ModuleInfo, f: FuncDef, k1: int, k2: int)
    requires
        run_spec(m, f, k1) is None,
        0 <= k1 <= k2,
    ensures
        run_spec(m, f, k2) is None,
    decreases k2 - k1,
{
    if k1 < k2 {
        lemma_run_stays_stuck(m, f, k1, k2 - 1);
    }
}

/// The provenance log of one function.
pub struct FuncState {
    pub fid: u32,
    pub total_params: usize,
    pub instrs: Vec<InstrInfo>,
}

impl FuncState {
    /// The log as values: kind and consumed origins of each instruction.
    pub open spec fn log_of(&self) -> Seq<(OpKind, Seq<Origin>)> {
        Seq::new(self.instrs@.len(), |i: int| (self.instrs@[i].kind, self.instrs@[i].inputs@))
    }

    /// Every logged input fits the instruction it points at.
    pub open spec fn inputs_ok(&self, m: ModuleInfo, ops: Seq<Op>) -> bool {
        forall|i: int| 0 <= i < self.instrs@.len() ==> origins_ok(m, ops, self.total_params as nat, #[trigger] self.instrs@[i].inputs@)
    }

    /// The log agrees with the body `ops`, instruction by instruction.
    pub open spec fn fits(&self, ops: Seq<Op>) -> bool {
        &&& self.instrs@.len() == ops.len()
        &&& forall|i: int| 0 <= i < ops.len() ==> info_fits(#[trigger] self.instrs@[i], ops[i], i)
    }

    fn new(taint_state: FuncTaint) -> (r: Self)
        ensures
            r.fid == taint_state.fid,
            r.total_params == taint_state.total_params,
            r.instrs@ == taint_state.instrs@,
    {
        FuncState {
            fid: taint_state.fid,
            total_params: taint_state.total_params,
            instrs: taint_state.instrs,
        }
    }
}

/// State of the symbolic interpreter within one function.
struct FuncTaint {
    fid: u32,
    /// Current origin of each local, parameters included.
    local_origin: Vec<Origin>,
    total_params: usize,
    total_results: usize,
    /// Operand stack.
    stack: Vec<Origin>,
    /// For each open block: stack height on entry and number of results.
    control_stack: Vec<(usize, usize)>,
    instrs: Vec<InstrInfo>,
}

impl FuncTaint {
    spec fn aview(&self) -> AState {
        AState { stack: self.stack@, locals: self.local_origin@, ctrl: self.control_stack@ }
    }

    spec fn log_view(&self) -> Seq<(OpKind, Seq<Origin>)> {
        Seq::new(self.instrs@.len(), |i: int| (self.instrs@[i].kind, self.instrs@[i].inputs@))
    }

    /// Everything the interpreter holds points before instruction `idx`, and
    /// the log covers exactly the instructions before it.
    spec fn inv(&self, ops: Seq<Op>, idx: int) -> bool {
        &&& all_before(self.stack@, idx)
        &&& all_before(self.local_origin@, idx)
        &&& self.instrs@.len() == idx
        &&& idx <= ops.len()
        &&& forall|i: int| 0 <= i < idx ==> info_fits(#[trigger] self.instrs@[i], ops[i], i)
    }

    fn get_local_origin(&self, i: u32, instr_idx: usize) -> (r: Origin)
        requires
            (i as int) < self.total_params || (i as int) < self.local_origin@.len(),
        ensures
            (i as int) < self.total_params ==> r == (Origin::Param { instr_idx, lid: i }),
            (i as int) >= self.total_params ==> r == self.local_origin@[i as int],
    {
        if (i as usize) < self.total_params {
            Origin::Param { instr_idx, lid: i }
        } else {
            self.local_origin[i as usize]
        }
    }

    fn set_local_origin(&mut self, i: u32, origin: Origin)
        requires
            (i as int) < old(self).local_origin@.len(),
        ensures
            final(self).local_origin@ == old(self).local_origin@.update(i as int, origin),
            final(self).stack@ == old(self).stack@,
            final(self).instrs@ == old(self).instrs@,
            final(self).control_stack@ == old(self).control_stack@,
            final(self).fid == old(self).fid,
            final(self).total_params == old(self).total_params,
            final(self).total_results == old(self).total_results,
    {
        self.local_origin.set(i as usize, origin);
    }

    fn push_control(&mut self, num_results: usize)
        ensures
            final(self).control_stack@ == old(self).control_stack@.push(
                (old(self).stack@.len() as usize, num_results),
            ),
            final(self).local_origin@ == old(self).local_origin@,
            final(self).stack@ == old(self).stack@,
            final(self).instrs@ == old(self).instrs@,
            final(self).fid == old(self).fid,
            final(self).total_params == old(self).total_params,
            final(self).total_results == old(self).total_results,
    {
        self.control_stack.push((self.stack.len(), num_results));
    }

    /// Leaves the innermost block: drops what it left on the stack beyond its
    /// results. `None` where there is no open block or too few values.
    fn pop_control(&mut self) -> (r: Option<(usize, usize)>)
        ensures
            final(self).local_origin@ == old(self).local_origin@,
            final(self).instrs@ == old(self).instrs@,
            final(self).fid == old(self).fid,
            final(self).total_params == old(self).total_params,
            final(self).total_results == old(self).total_results,
            old(self).control_stack@.len() == 0 ==> r is None,
            match r {
                Some((h, n)) => {
                    &&& old(self).control_stack@.len() > 0
                    &&& old(self).control_stack@.last() == (h, n)
                    &&& final(self).control_stack@ == old(self).control_stack@.drop_last()
                    &&& h + n <= old(self).stack@.len()
                    &&& final(self).stack@ == old(self).stack@.subrange(0, h + n)
                },
                None => {
                    &&& final(self).stack@ == old(self).stack@
                    &&& (old(self).control_stack@.len() == 0 || old(self).control_stack@.last().0
                        + old(self).control_stack@.last().1 > old(self).stack@.len())
                },
            },
    {
        if self.control_stack.len() == 0 {
            return None;
        }
        let (orig_stack_height, num_results) = self.control_stack.pop().unwrap();
        let curr_stack_height = self.stack.len();
        if curr_stack_height < orig_stack_height || curr_stack_height - orig_stack_height
            < num_results {
            return None;
        }
        self.stack.truncate(orig_stack_height + num_results);
        Some((orig_stack_height, num_results))
    }

    /// Pops the top `n` values; returns them bottom first.
    fn pop_n(&mut self, n: usize) -> (r: Option<Vec<Origin>>)
        ensures
            final(self).local_origin@ == old(self).local_origin@,
            final(self).instrs@ == old(self).instrs@,
            final(self).control_stack@ == old(self).control_stack@,
            final(self).fid == old(self).fid,
            final(self).total_params == old(self).total_params,
            final(self).total_results == old(self).total_results,
            match r {
                Some(v) => {
                    &&& n <= old(self).stack@.len()
                    &&& v@ == old(self).stack@.subrange(old(self).stack@.len() - n, old(self).stack@.len() as int)
                    &&& final(self).stack@ == old(self).stack@.subrange(0, old(self).stack@.len() - n)
                },
                None => n > old(self).stack@.len() && final(self).stack@ == old(self).stack@,
            },
    {
        let len = self.stack.len();
        if len < n {
            return None;
        }
        let start = len - n;
        let mut v: Vec<Origin> = Vec::new();
        let mut k: usize = start;
        while k < len
            invariant
                start <= k <= len,
                len == self.stack@.len(),
                v@ == self.stack@.subrange(start as int, k as int),
            decreases len - k,
        {
            v.push(self.stack[k]);
            k = k + 1;
        }
        self.stack.truncate(start);
        Some(v)
    }

    fn log(&mut self, kind: OpKind, inputs: Vec<Origin>)
        ensures
            final(self).instrs@ == old(self).instrs@.push(InstrInfo { kind, inputs }),
            final(self).local_origin@ == old(self).local_origin@,
            final(self).stack@ == old(self).stack@,
            final(self).control_stack@ == old(self).control_stack@,
            final(self).fid == old(self).fid,
            final(self).total_params == old(self).total_params,
            final(self).total_results == old(self).total_results,
    {
        self.instrs.push(InstrInfo { kind, inputs });
    }
}

/// Number of results of a block of type `bt`.
fn block_results(m: &ModuleInfo, bt: BlockTy) -> (r: Option<usize>)
    ensures
        match bt {
            BlockTy::Empty => r == Some(0usize),
            BlockTy::Value(_) => r == Some(1usize),
            BlockTy::Func(t) => if (t as int) < m.types@.len() {
                r == Some(m.types@[t as int].results@.len() as usize)
            } else {
                r is None
            },
        },
{
    match bt {
        BlockTy::Empty => Some(0),
        BlockTy::Value(_) => Some(1),
        BlockTy::Func(t) => {
            if (t as usize) < m.types.len() {
                Some(m.types[t as usize].results.len())
            } else {
                None
            }
        },
    }
}

/// The type of a call's callee: that of function `f` for a direct call, the
/// named type for an indirect one.
pub open spec fn callee_type(m: ModuleInfo, op: Op) -> Option<int> {
    match op {
        Op::Call(f) => if (f as int) < m.func_types@.len() {
            Some(m.func_types@[f as int] as int)
        } else {
            None
        },
        Op::CallIndirect(t) => Some(t as int),
        _ => None,
    }
}

fn callee_type_exec(m: &ModuleInfo, op: Op) -> (r: Option<usize>)
    requires
        op is Call || op is CallIndirect,
    ensures
        match callee_type(*m, op) {
            Some(t) => if t < m.types@.len() {
                r == Some(t as usize)
            } else {
                r is None
            },
            None => r is None,
        },
{
    let t: u32 = match op {
        Op::Call(f) => {
            if (f as usize) < m.func_types.len() {
                m.func_types[f as usize]
            } else {
                return None;
            }
        },
        Op::CallIndirect(t) => t,
        _ => {
            return None;
        },
    };
    if (t as usize) < m.types.len() {
        Some(t as usize)
    } else {
        None
    }
}

/// The interpreter's run over the body of `f`: where it stops, and why.
#[verifier::rlimit(60)]
fn interpret_func(m: &ModuleInfo, f: &FuncDef) -> (r: Result<FuncState, FuelError>)
    ensures
        match r {
            Ok(s) => {
                &&& run_spec(*m, *f, f.ops@.len() as int) matches Some((a, log)) && ends_well(*m, *f, a) && s.log_of() == log
                &&& s.fid == f.fid
                &&& (f.ty as int) < m.types@.len()
                &&& s.total_params == m.types@[f.ty as int].params@.len()
                &&& s.fits(f.ops@)
            },
            Err(FuelError::UnsupportedOpcode { fid, idx, opcode }) => {
                &&& fid == f.fid
                &&& idx < f.ops@.len()
                &&& run_spec(*m, *f, idx as int) is Some
                &&& f.ops@[idx as int] == Op::Unsupported(opcode)
            },
            Err(FuelError::MalformedModule { fid, idx }) => {
                &&& fid == f.fid
                &&& {
                    ||| idx == 0 && init_state(*m, *f) is None
                    ||| idx < f.ops@.len() && run_spec(*m, *f, idx as int) is Some && run_spec(*m, *f, idx + 1) is None
                        && !(f.ops@[idx as int] is Unsupported)
                    ||| idx == f.ops@.len() && (run_spec(*m, *f, idx as int) matches Some((a, _)) && !ends_well(*m, *f, a))
                }
            },
            Err(_) => false,
        },
{
    if f.ty as usize >= m.types.len() {
        return Err(FuelError::MalformedModule { fid: f.fid, idx: 0 });
    }
    let sig = &m.types[f.ty as usize];
    let total_params = sig.params.len();
    if total_params > usize::MAX - f.num_locals as usize {
        return Err(FuelError::MalformedModule { fid: f.fid, idx: 0 });
    }
    let total_locals = total_params + f.num_locals as usize;
    let mut local_origin: Vec<Origin> = Vec::new();
    let mut k: usize = 0;
    while k < total_locals
        invariant
            k <= total_locals,
            local_origin@.len() == k,
            forall|j: int| 0 <= j < k ==> local_origin@[j] == Origin::Untracked,
        decreases total_locals - k,
    {
        local_origin.push(Origin::Untracked);
        k = k + 1;
    }
    let ghost nparams = sig.params@.len();
    let ghost nres = sig.results@.len();
    let mut st = FuncTaint {
        fid: f.fid,
        local_origin,
        total_params,
        total_results: sig.results.len(),
        stack: Vec::new(),
        control_stack: Vec::new(),
        instrs: Vec::new(),
    };
    let n = f.ops.len();
    proof {
        assert(st.local_origin@ =~= Seq::new(total_locals as nat, |k: int| Origin::Untracked));
        assert(st.aview() == init_state(*m, *f)->0);
        assert(st.log_view() =~= Seq::<(OpKind, Seq<Origin>)>::empty());
        assert(run_spec(*m, *f, 0) == Some((st.aview(), st.log_view())));
    }
    let mut idx: usize = 0;
    while idx < n
        invariant
            n == f.ops@.len(),
            st.inv(f.ops@, idx as int),
            st.fid == f.fid,
            st.total_params == total_params,
            st.total_results == nres,
            nparams == total_params,
            total_params == m.types@[f.ty as int].params@.len(),
            nres == m.types@[f.ty as int].results@.len(),
            (f.ty as int) < m.types@.len(),
            run_spec(*m, *f, idx as int) == Some((st.aview(), st.log_view())),
            forall|i: int| 0 <= i < idx ==> !(#[trigger] f.ops@[i] is Unsupported),
        decreases n - idx,
    {
        let op = f.ops[idx];
        let bad = FuelError::MalformedModule { fid: f.fid, idx };
        let ghost old_instrs = st.instrs@;
        let ghost old_locals = st.local_origin@;
        let ghost pre = st.aview();
        let ghost pre_log = st.log_view();
        let ghost res = step(*m, nparams, nres, n as int, pre, op, idx as int);
        proof {
            assert(run_spec(*m, *f, idx + 1) == match res {
                Some((t, kind, ins)) => Some((t, pre_log.push((kind, ins)))),
                None => None::<(AState, Seq<(OpKind, Seq<Origin>)>)>,
            });
            assert forall|k: int| 0 <= k < st.stack@.len() implies (#[trigger] st.stack@[k]).before(
                idx + 1,
            ) by {
                assert(st.stack@[k].before(idx as int));
            }
            assert forall|k: int| 0 <= k < st.local_origin@.len() implies (
            #[trigger] st.local_origin@[k]).before(idx + 1) by {
                assert(st.local_origin@[k].before(idx as int));
            }
        }
        match op {
            Op::LocalGet(lid) => {
                if (lid as usize) >= total_params && (lid as usize) >= st.local_origin.len() {
                    return Err(bad);
                }
                let o = st.get_local_origin(lid, idx);
                st.stack.push(o);
                st.log(OpKind::Other, Vec::new());
            },
            Op::LocalSet(lid) | Op::LocalTee(lid) => {
                if (lid as usize) >= st.local_origin.len() {
                    return Err(bad);
                }
                let v = match st.stack.pop() {
                    Some(v) => v,
                    None => {
                        return Err(bad);
                    },
                };
                st.set_local_origin(lid, v);
                if matches!(op, Op::LocalTee(_)) {
                    st.stack.push(v);
                }
                st.log(OpKind::Other, vec![v]);
            },
            Op::GlobalGet(gid) => {
                if (gid as usize) >= m.globals.len() {
                    return Err(bad);
                }
                st.stack.push(Origin::Global { instr_idx: idx, gid });
                st.log(OpKind::Other, Vec::new());
            },
            Op::GlobalSet(_) => {
                let v = match st.stack.pop() {
                    Some(v) => v,
                    None => {
                        return Err(bad);
                    },
                };
                st.log(OpKind::Other, vec![v]);
            },
            Op::Load(_) => {
                let a = match st.stack.pop() {
                    Some(a) => a,
                    None => {
                        return Err(bad);
                    },
                };
                st.stack.push(Origin::Load { instr_idx: idx });
                st.log(OpKind::Other, vec![a]);
            },
            Op::BrIf(_) | Op::BrOther => {
                let c = match st.stack.pop() {
                    Some(c) => c,
                    None => {
                        return Err(bad);
                    },
                };
                st.log(OpKind::Control, vec![c]);
            },
            Op::Call(_) | Op::CallIndirect(_) => {
                let t = match callee_type_exec(m, op) {
                    Some(t) => t,
                    None => {
                        return Err(bad);
                    },
                };
                let args = m.types[t].params.len();
                let indirect = matches!(op, Op::CallIndirect(_));
                if indirect && args >= st.stack.len() {
                    return Err(bad);
                }
                let pops = if indirect {
                    args + 1
                } else {
                    args
                };
                let pushes = m.types[t].results.len();
                let inputs = match st.pop_n(pops) {
                    Some(v) => v,
                    None => {
                        return Err(bad);
                    },
                };
                let ghost base = st.stack@;
                let direct = matches!(op, Op::Call(_));
                let mut res_i: usize = 0;
                while res_i < pushes
                    invariant
                        res_i <= pushes,
                        all_before(st.stack@, idx + 1),
                        st.stack@ =~= base + call_results(direct, idx as int, res_i as nat),
                        st.instrs@ == old_instrs,
                        st.local_origin@ == old_locals,
                        st.control_stack@ == pre.ctrl,
                        direct == (op is Call),
                        op is Call || op is CallIndirect,
                        st.instrs@.len() == idx,
                        st.fid == f.fid,
                        st.total_params == total_params,
                        st.total_results == nres,
                    decreases pushes - res_i,
                {
                    if direct {
                        st.stack.push(Origin::Call { result_idx: res_i, instr_idx: idx });
                    } else {
                        st.stack.push(Origin::CallIndirect { result_idx: res_i, instr_idx: idx });
                    }
                    res_i = res_i + 1;
                }
                st.log(OpKind::Other, inputs);
            },
            Op::Return => {
                let len = st.stack.len();
                let drop = if len < st.total_results {
                    len
                } else {
                    st.total_results
                };
                st.stack.truncate(len - drop);
                st.log(OpKind::Control, Vec::new());
            },
            Op::If(bt) | Op::Block(bt) | Op::Loop(bt) => {
                let mut inputs: Vec<Origin> = Vec::new();
                let mut kind = OpKind::Other;
                if matches!(op, Op::If(_)) {
                    let c = match st.stack.pop() {
                        Some(c) => c,
                        None => {
                            return Err(bad);
                        },
                    };
                    inputs.push(c);
                    kind = OpKind::Control;
                }
                let results = match block_results(m, bt) {
                    Some(r) => r,
                    None => {
                        return Err(bad);
                    },
                };
                st.push_control(results);
                st.log(kind, inputs);
            },
            Op::End => {
                if idx + 1 < n {
                    if st.pop_control().is_none() {
                        return Err(bad);
                    }
                }
                st.log(OpKind::Other, Vec::new());
            },
            Op::Else | Op::Br(_) => {
                st.log(OpKind::Other, Vec::new());
            },
            Op::Plain { pops, pushes } => {
                let inputs = match st.pop_n(pops as usize) {
                    Some(v) => v,
                    None => {
                        return Err(bad);
                    },
                };
                let ghost base = st.stack@;
                let mut p: u32 = 0;
                while p < pushes
                    invariant
                        p <= pushes,
                        all_before(st.stack@, idx + 1),
                        st.stack@ =~= base + Seq::new(p as nat, |k: int| Origin::Instr { instr_idx: idx }),
                        st.instrs@ == old_instrs,
                        st.local_origin@ == old_locals,
                        st.control_stack@ == pre.ctrl,
                        st.instrs@.len() == idx,
                        st.fid == f.fid,
                        st.total_params == total_params,
                        st.total_results == nres,
                    decreases pushes - p,
                {
                    st.stack.push(Origin::Instr { instr_idx: idx });
                    p = p + 1;
                }
                st.log(OpKind::Other, inputs);
            },
            Op::Unsupported(opcode) => {
                return Err(FuelError::UnsupportedOpcode { fid: f.fid, idx, opcode });
            },
        }
        proof {
            assert(st.instrs@ == old_instrs.push(st.instrs@[idx as int]));
            assert forall|i: int| 0 <= i < idx + 1 implies info_fits(
                #[trigger] st.instrs@[i],
                f.ops@[i],
                i,
            ) by {
                if i < idx {
                    assert(st.instrs@[i] == old_instrs[i]);
                }
            }
            assert(res is Some);
            let (t, kind, ins) = res->0;
            assert(st.stack@ =~= t.stack);
            assert(st.local_origin@ =~= t.locals);
            assert(st.control_stack@ =~= t.ctrl);
            assert(st.aview() == t);
            assert(st.instrs@[idx as int].kind == kind);
            assert(st.instrs@[idx as int].inputs@ =~= ins);
            assert forall|i: int| 0 <= i < idx implies #[trigger] st.log_view()[i] == pre_log[i] by {
                assert(st.instrs@[i] == old_instrs[i]);
            }
            assert(st.log_view() =~= pre_log.push((kind, ins)));
        }
        idx = idx + 1;
    }
    if (st.stack.len() != st.total_results && st.stack.len() != 0) || st.control_stack.len() != 0 {
        return Err(FuelError::MalformedModule { fid: f.fid, idx: n });
    }
    let r = FuncState::new(st);
    proof {
        assert(r.log_of() =~= st.log_view());
    }
    Ok(r)
}

/// Runs the provenance interpreter over the body of `f`.
///
/// It succeeds exactly where the interpreter runs through the body and the
/// stack ends holding the function's results or nothing; the log is then the
/// interpreter's. Otherwise it reports the first instruction it stops at,
/// as unsupported where the opcode is not modeled, or, at the body's end,
/// the stack left over.
pub fn analyze_func(m: &ModuleInfo, f: &FuncDef) -> (r: Result<FuncState, FuelError>)
    ensures
        r is Ok <==> func_ok(*m, *f),
        r matches Err(e) ==> fails_with(*m, *f, e),
        r matches Ok(s) ==> s.inputs_ok(*m, f.ops@),
        match r {
            Ok(s) => {
                &&& run_spec(*m, *f, f.ops@.len() as int) matches Some((a, log)) && ends_well(*m, *f, a) && s.log_of() == log
                &&& s.fid == f.fid
                &&& (f.ty as int) < m.types@.len()
                &&& s.total_params == m.types@[f.ty as int].params@.len()
                &&& s.fits(f.ops@)
            },
            Err(FuelError::UnsupportedOpcode { fid, idx, opcode }) => {
                &&& fid == f.fid
                &&& idx < f.ops@.len()
                &&& run_spec(*m, *f, idx as int) is Some
                &&& f.ops@[idx as int] == Op::Unsupported(opcode)
            },
            Err(FuelError::MalformedModule { fid, idx }) => {
                &&& fid == f.fid
                &&& {
                    ||| idx == 0 && init_state(*m, *f) is None
                    ||| idx < f.ops@.len() && run_spec(*m, *f, idx as int) is Some && run_spec(*m, *f, idx + 1) is None
                        && !(f.ops@[idx as int] is Unsupported)
                    ||| idx == f.ops@.len() && (run_spec(*m, *f, idx as int) matches Some((a, _)) && !ends_well(*m, *f, a))
                }
            },
            Err(_) => false,
        },
{
    let r = interpret_func(m, f);
    proof {
        let n = f.ops@.len() as int;
        let rr = r;
        match rr {
            Ok(s) => {
                lemma_run_origins(*m, *f, n);
                let (_a, log) = run_spec(*m, *f, n)->0;
                assert(s.log_of() == log);
                assert forall|i: int| 0 <= i < s.instrs@.len() implies origins_ok(*m, f.ops@, s.total_params as nat, #[trigger] s.instrs@[i].inputs@) by {
                    assert(s.log_of()[i] == log[i]);
                    assert(origins_ok(*m, f.ops@, m.types@[f.ty as int].params@.len(), log[i].1));
                }
            },
            Err(FuelError::UnsupportedOpcode { idx, .. }) => {
                lemma_run_stays_stuck(*m, *f, idx + 1, n);
            },
            Err(FuelError::MalformedModule { idx, .. }) => {
                if idx == 0 && init_state(*m, *f) is None {
                    lemma_run_stays_stuck(*m, *f, 0, n);
                } else if idx < n {
                    lemma_run_stays_stuck(*m, *f, idx + 1, n);
                }
            },
            Err(_) => {},
        }
    }
    r
}

/// Runs the provenance interpreter over every function of the module, in
/// order. It succeeds exactly where it succeeds on every function; the logs
/// are then the interpreter's.
pub fn analyze(m: &ModuleInfo) -> (r: Result<Vec<FuncState>, FuelError>)
    ensures
        r is Ok <==> forall|i: int| 0 <= i < m.funcs@.len() ==> #[trigger] func_ok(*m, m.funcs@[i]),
        match r {
            Ok(v) => {
                &&& v@.len() == m.funcs@.len()
                &&& forall|i: int|
                    0 <= i < v@.len() ==> {
                        &&& (#[trigger] v@[i]).fid == m.funcs@[i].fid
                        &&& v@[i].fits(m.funcs@[i].ops@)
                        &&& run_spec(*m, m.funcs@[i], m.funcs@[i].ops@.len() as int) matches Some((_, log)) && v@[i].log_of() == log
                        &&& (m.funcs@[i].ty as int) < m.types@.len()
                        &&& v@[i].total_params == m.types@[m.funcs@[i].ty as int].params@.len()
                        &&& v@[i].inputs_ok(*m, m.funcs@[i].ops@)
                    }
            },
            Err(e) => exists|i: int|
                0 <= i < m.funcs@.len() && #[trigger] fails_with(*m, m.funcs@[i], e) && forall|j: int|
                    0 <= j < i ==> func_ok(*m, #[trigger] m.funcs@[j]),
        },
{
    let mut funcs: Vec<FuncState> = Vec::new();
    let mut i: usize = 0;
    while i < m.funcs.len()
        invariant
            i <= m.funcs@.len(),
            funcs@.len() == i,
            forall|j: int|
                0 <= j < i ==> {
                    &&& (#[trigger] funcs@[j]).fid == m.funcs@[j].fid
                    &&& funcs@[j].fits(m.funcs@[j].ops@)
                    &&& run_spec(*m, m.funcs@[j], m.funcs@[j].ops@.len() as int) matches Some((_, log)) && funcs@[j].log_of() == log
                    &&& (m.funcs@[j].ty as int) < m.types@.len()
                    &&& funcs@[j].total_params == m.types@[m.funcs@[j].ty as int].params@.len()
                    &&& func_ok(*m, m.funcs@[j])
                    &&& funcs@[j].inputs_ok(*m, m.funcs@[j].ops@)
                },
        decreases m.funcs@.len() - i,
    {
        match analyze_func(m, &m.funcs[i]) {
            Ok(s) => {
                let ghost gs = s;
                let ghost old_funcs = funcs@;
                funcs.push(s);
                proof {
                    assert forall|j: int| 0 <= j < i + 1 implies {
                        &&& (#[trigger] funcs@[j]).fid == m.funcs@[j].fid
                        &&& funcs@[j].fits(m.funcs@[j].ops@)
                        &&& run_spec(*m, m.funcs@[j], m.funcs@[j].ops@.len() as int) matches Some((_, log)) && funcs@[j].log_of() == log
                        &&& (m.funcs@[j].ty as int) < m.types@.len()
                        &&& funcs@[j].total_params == m.types@[m.funcs@[j].ty as int].params@.len()
                        &&& func_ok(*m, m.funcs@[j])
                        &&& funcs@[j].inputs_ok(*m, m.funcs@[j].ops@)
                    } by {
                        if j < i {
                            assert(funcs@[j] == old_funcs[j]);
                        } else {
                            assert(funcs@[j] == gs);
                        }
                    }
                }
            },
            Err(e) => {
                proof {
                    assert(!func_ok(*m, m.funcs@[i as int]));
                    assert(fails_with(*m, m.funcs@[i as int], e));
                    assert forall|j: int| 0 <= j < i implies func_ok(*m, #[trigger] m.funcs@[j]) by {
                        assert(funcs@[j].fid == m.funcs@[j].fid);
                    }
                }
                return Err(e);
            },
        }
        i = i + 1;
    }
    proof {
        assert forall|j: int| 0 <= j < m.funcs@.len() implies #[trigger] func_ok(*m, m.funcs@[j]) by {
            assert(funcs@[j].fid == m.funcs@[j].fid);
        }
    }
    Ok(funcs)
}

} // verus!
