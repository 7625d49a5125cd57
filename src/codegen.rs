use vstd::prelude::*;
use vstd::string::StringExecFns;

use crate::error::FuelError;
use crate::names::{append_decimal, decimal};
use crate::ops::{in_walk, is_cf, is_cf_op, region_walk, ModuleInfo, Op, ValType};
use crate::run::{comp_name, CompType};
use crate::slice::{sorted_calls, CallUse, Slice, SliceResult};

verus! {

/// An instruction of a probe.
#[derive(Clone, Copy, Debug, PartialEq, Eq, Structural)]
pub enum ProbeOp {
    /// `block` with no result.
    Block,
    End,
    LocalGet(usize),
    LocalSet(usize),
    I64Const(i64),
    I64Add,
    /// The instruction of the analyzed body at this index, as it stands.
    Copy(usize),
}

/// Kinds of state a probe takes as input.
#[derive(Clone, Copy, Debug, PartialEq, Eq, Structural)]
pub enum StateType {
    Param,
    Global,
    Load,
    Call,
    CallIndirect,
    Taken,
}

/// A value a rewritten instruction pushes, read from a probe parameter.
#[derive(Clone, Copy, Debug, PartialEq, Eq, Structural)]
pub enum StackVal {
    Arg { num: usize, gen_param_id: usize },
    Res { num: usize, gen_param_id: usize },
}

impl StackVal {
    pub open spec fn param_id(self) -> usize {
        match self {
            StackVal::Arg { gen_param_id, .. } => gen_param_id,
            StackVal::Res { gen_param_id, .. } => gen_param_id,
        }
    }

    /// The probe parameter the value is read from.
    pub fn gen_param_id(&self) -> (r: usize)
        ensures
            r == self.param_id(),
    {
        match self {
            StackVal::Arg { gen_param_id, .. } => *gen_param_id,
            StackVal::Res { gen_param_id, .. } => *gen_param_id,
        }
    }
}

/// What a rewritten instruction pushes instead of running.
pub struct ReqState {
    pub req_state: Vec<StackVal>,
}

/// The state a probe parameter stands for: its kind, the instruction that
/// reads it in the analyzed body and, for calls, which result.
#[derive(Clone, Copy, Debug, PartialEq, Eq, Structural)]
pub struct ParamKey {
    pub kind: StateType,
    /// For parameters and globals, which one; otherwise zero.
    pub entity: u64,
    pub instr_idx: usize,
    pub result_idx: usize,
}

pub open spec fn rank(k: StateType) -> int {
    match k {
        StateType::Param => 0,
        StateType::Global => 1,
        StateType::Load => 2,
        StateType::Call => 3,
        StateType::CallIndirect => 4,
        StateType::Taken => 5,
    }
}

/// Order of parameter keys: by kind, then entity, then instruction, then
/// result.
pub open spec fn pk_lt(a: ParamKey, b: ParamKey) -> bool {
    rank(a.kind) < rank(b.kind) || (rank(a.kind) == rank(b.kind) && (a.entity < b.entity || (a.entity == b.entity && (
    a.instr_idx < b.instr_idx || (a.instr_idx == b.instr_idx && a.result_idx < b.result_idx)))))
}

/// Keys strictly increasing: no key stands for two parameters.
pub open spec fn keys_sorted(keys: Seq<ParamKey>) -> bool {
    forall|a: int, b: int| 0 <= a < b < keys.len() ==> pk_lt(#[trigger] keys[a], #[trigger] keys[b])
}

/// One emitted probe.
pub struct GeneratedFunc {
    /// The function the probe was derived from.
    pub orig_fid: u32,
    /// The name it is exported under.
    pub fname: String,
    /// Types of its parameters.
    pub params: Vec<ValType>,
    /// The state each parameter stands for.
    pub keys: Vec<ParamKey>,
    /// The local holding the fuel count: the first after the parameters.
    pub fuel_local: usize,
    pub body: Vec<ProbeOp>,
}

/// The probes of every function, and where fuel is added in each body.
pub struct CodeGenResult {
    /// Per function: the instruction indices before which fuel is added, with
    /// the amount.
    pub cost_maps: Vec<Vec<(usize, u64)>>,
    /// Per function: its probes, whole body first.
    pub func_map: Vec<Vec<GeneratedFunc>>,
}

/// Which probe variant is built.
#[derive(Clone, Copy, Debug, PartialEq, Eq, Structural)]
pub enum Variant {
    /// Replays the maximal slice, fed with the state it reads.
    Max,
    /// Replays the branch deciders, fed with their outcomes.
    Min,
}

/// Cost of one opcode.
pub open spec fn cost_of(op: Op) -> nat {
    1
}

pub fn op_cost(_op: &Op) -> (r: u64)
    ensures
        r == cost_of(*_op),
{
    1
}

/// Cost of the instructions that `[start, k)` owns.
pub open spec fn region_cost(ops: Seq<Op>, start: int, end: int, k: int) -> nat
    decreases k - start,
{
    if k <= start {
        0
    } else {
        region_cost(ops, start, end, k - 1) + if in_walk(ops, start, end, k - 1) {
            cost_of(ops[k - 1])
        } else {
            0
        }
    }
}

/// Sum of the constants a probe body adds.
pub open spec fn body_fuel(body: Seq<ProbeOp>) -> int
    decreases body.len(),
{
    if body.len() == 0 {
        0
    } else {
        body_fuel(body.drop_last()) + match body.last() {
            ProbeOp::I64Const(c) => c as int,
            _ => 0,
        }
    }
}

/// Every constant in the body is positive.
pub open spec fn adds_positive(body: Seq<ProbeOp>) -> bool {
    forall|x: int| 0 <= x < body.len() ==> (#[trigger] body[x] matches ProbeOp::I64Const(c) ==> c > 0)
}

/// Every parameter the body reads has a key; the fuel local is the one
/// after the parameters.
pub open spec fn reads_keyed(body: Seq<ProbeOp>, nkeys: int, fuel: usize) -> bool {
    forall|x: int| 0 <= x < body.len() ==> (#[trigger] body[x] matches ProbeOp::LocalGet(p) ==> p == fuel || p < nkeys)
}

pub open spec fn probe_name(ty: CompType, fid: u32, spec_name: Seq<char>) -> Seq<char> {
    comp_name(ty) + decimal(fid as nat) + spec_name
}

/// Per-probe emission state.
pub(crate) struct CodeGenState {
    /// For each instruction, what it pushes instead of running, if rewritten.
    pub(crate) lookup: Vec<Option<ReqState>>,
    /// Cost of the run since the last fuel addition.
    curr_cost: u64,
}

/// The rewrite table is consistent with the keys: each parameter read at
/// instruction `i` stands for state read by `i`.
pub open spec fn lookup_ok(lookup: Seq<Option<ReqState>>, keys: Seq<ParamKey>) -> bool {
    forall|i: int, y: int|
        0 <= i < lookup.len() && lookup[i] is Some && 0 <= y < lookup[i]->0.req_state@.len() ==> {
            let p = (#[trigger] lookup[i]->0.req_state@[y]).param_id();
            &&& p < keys.len()
            &&& keys[p as int].instr_idx == i
        }
}

impl CodeGenState {
    fn add_cost(&mut self, cost: u64)
        requires
            old(self).curr_cost + cost <= u64::MAX,
        ensures
            final(self).curr_cost == old(self).curr_cost + cost,
            final(self).lookup@ == old(self).lookup@,
    {
        self.curr_cost = self.curr_cost + cost;
    }

    fn reset_cost(&mut self)
        ensures
            final(self).curr_cost == 0,
            final(self).lookup@ == old(self).lookup@,
    {
        self.curr_cost = 0;
    }
}

/// Appends a parameter of type `ty` standing for `key`; `None` where the
/// parameter count no longer fits.
fn add_param(types: &mut Vec<ValType>, keys: &mut Vec<ParamKey>, key: ParamKey, ty: ValType) -> (r: Option<usize>)
    requires
        old(types)@.len() == old(keys)@.len(),
    ensures
        r matches Some(p) && {
            &&& p == old(keys)@.len()
            &&& old(keys)@.len() < usize::MAX
            &&& final(keys)@ == old(keys)@.push(key)
            &&& final(types)@ == old(types)@.push(ty)
        },
{
    let p = keys.len();
    keys.push(key);
    types.push(ty);
    assert(keys.len() == keys@.len());
    Some(p)
}

/// Sets the rewrite of instruction `i` to push parameter `p`, after what is
/// already there.
fn add_read(lookup: &mut Vec<Option<ReqState>>, i: usize, v: StackVal, Ghost(keys): Ghost<Seq<ParamKey>>)
    requires
        i < old(lookup)@.len(),
        lookup_ok(old(lookup)@, keys),
        v.param_id() < keys.len(),
        keys[v.param_id() as int].instr_idx == i,
    ensures
        final(lookup)@.len() == old(lookup)@.len(),
        lookup_ok(final(lookup)@, keys),
        final(lookup)@[i as int] is Some,
        forall|j: int| 0 <= j < old(lookup)@.len() && (#[trigger] old(lookup)@[j]) is Some ==> final(lookup)@[j] is Some,
        final(lookup)@[i as int]->0.req_state@ == (match old(lookup)@[i as int] {
            Some(r0) => r0.req_state@,
            None => Seq::<StackVal>::empty(),
        }).push(v),
        forall|j: int| 0 <= j < old(lookup)@.len() && j != i ==> #[trigger] final(lookup)@[j] == old(lookup)@[j],
{
    let mut cur: Option<ReqState> = None;
    lookup.set_and_swap(i, &mut cur);
    let ghost mid = lookup@;
    let rs = match cur {
        Some(mut rs) => {
            let ghost before = rs.req_state@;
            rs.req_state.push(v);
            proof {
                assert forall|y: int| 0 <= y < rs.req_state@.len() implies {
                    let p = (#[trigger] rs.req_state@[y]).param_id();
                    &&& p < keys.len()
                    &&& keys[p as int].instr_idx == i
                } by {
                    if y < before.len() {
                        assert(rs.req_state@[y] == before[y]);
                        assert(old(lookup)@[i as int]->0.req_state@[y] == before[y]);
                    }
                }
            }
            rs
        },
        None => ReqState { req_state: vec![v] },
    };
    lookup.set(i, Some(rs));
    proof {
        assert forall|j: int, y: int|
            0 <= j < lookup@.len() && lookup@[j] is Some && 0 <= y < lookup@[j]->0.req_state@.len() implies {
                let p = (#[trigger] lookup@[j]->0.req_state@[y]).param_id();
                &&& p < keys.len()
                &&& keys[p as int].instr_idx == j
            } by {
            if j != i {
                assert(lookup@[j] == old(lookup)@[j]);
            }
        }
    }
}

/// Keys of the parameters taken for the entries of `t[0..k)`, in index order.
pub open spec fn table_keys(t: Seq<Option<ValType>>, kind: StateType, entity: u64, k: int) -> Seq<ParamKey>
    decreases k,
{
    if k <= 0 {
        seq![]
    } else {
        table_keys(t, kind, entity, k - 1) + if t[k - 1] is Some {
            seq![ParamKey { kind, entity, instr_idx: (k - 1) as usize, result_idx: 0 }]
        } else {
            Seq::<ParamKey>::empty()
        }
    }
}

/// Types of the parameters taken for the entries of `t[0..k)`.
pub open spec fn table_types(t: Seq<Option<ValType>>, k: int) -> Seq<ValType>
    decreases k,
{
    if k <= 0 {
        seq![]
    } else {
        table_types(t, k - 1) + if t[k - 1] is Some {
            seq![t[k - 1]->0]
        } else {
            Seq::<ValType>::empty()
        }
    }
}

pub open spec fn call_keys(c: Seq<CallUse>, kind: StateType, k: int) -> Seq<ParamKey> {
    Seq::new(k as nat, |a: int| ParamKey { kind, entity: 0, instr_idx: c[a].instr_idx, result_idx: c[a].result_idx })
}

pub open spec fn call_types(c: Seq<CallUse>, k: int) -> Seq<ValType> {
    Seq::new(k as nat, |a: int| c[a].ty)
}

/// The entries of `t` that read entity `g`, with their types.
pub open spec fn only_id(t: Seq<Option<(u32, ValType)>>, g: int) -> Seq<Option<ValType>> {
    Seq::new(
        t.len(),
        |j: int|
            match t[j] {
                Some((x, ty)) => if x as int == g {
                    Some(ty)
                } else {
                    None
                },
                None => None,
            },
    )
}

/// One more than the largest entity `t[0..k)` reads, or zero.
pub open spec fn max_id(t: Seq<Option<(u32, ValType)>>, k: int) -> nat
    decreases k,
{
    if k <= 0 {
        0
    } else {
        let m = max_id(t, k - 1);
        match t[k - 1] {
            Some((x, _)) => if x as nat + 1 > m {
                x as nat + 1
            } else {
                m
            },
            None => m,
        }
    }
}

/// Keys of the reads of entities `0..g` in `t`, by entity, then index.
pub open spec fn id_keys(t: Seq<Option<(u32, ValType)>>, kind: StateType, g: int) -> Seq<ParamKey>
    decreases g,
{
    if g <= 0 {
        seq![]
    } else {
        id_keys(t, kind, g - 1) + table_keys(only_id(t, g - 1), kind, (g - 1) as u64, t.len() as int)
    }
}

pub open spec fn id_types(t: Seq<Option<(u32, ValType)>>, g: int) -> Seq<ValType>
    decreases g,
{
    if g <= 0 {
        seq![]
    } else {
        id_types(t, g - 1) + table_types(only_id(t, g - 1), t.len() as int)
    }
}

/// The keys of a probe's parameters: for the maximal variant the parameters,
/// globals, loads, direct-call and indirect-call results the slice reads,
/// each kind in key order (parameters and globals by their id, then by the
/// reading instruction); for the minimal variant the branch tokens.
pub open spec fn keys_of(sl: Slice, variant: Variant) -> Seq<ParamKey> {
    match variant {
        Variant::Max => id_keys(sl.params@, StateType::Param, max_id(sl.params@, sl.params@.len() as int) as int) + id_keys(
            sl.globals@,
            StateType::Global,
            max_id(sl.globals@, sl.globals@.len() as int) as int,
        ) + table_keys(sl.loads@, StateType::Load, 0, sl.loads@.len() as int) + call_keys(
            sl.calls@,
            StateType::Call,
            sl.calls@.len() as int,
        ) + call_keys(sl.call_indirects@, StateType::CallIndirect, sl.call_indirects@.len() as int),
        Variant::Min => table_keys(sl.taken@, StateType::Taken, 0, sl.taken@.len() as int),
    }
}

/// The types of a probe's parameters, in the order of `keys_of`.
pub open spec fn types_of_probe(sl: Slice, variant: Variant) -> Seq<ValType> {
    match variant {
        Variant::Max => id_types(sl.params@, max_id(sl.params@, sl.params@.len() as int) as int) + id_types(
            sl.globals@,
            max_id(sl.globals@, sl.globals@.len() as int) as int,
        ) + table_types(sl.loads@, sl.loads@.len() as int) + call_types(sl.calls@, sl.calls@.len() as int)
            + call_types(sl.call_indirects@, sl.call_indirects@.len() as int),
        Variant::Min => table_types(sl.taken@, sl.taken@.len() as int),
    }
}

/// What instruction `i` pushes from the parameters with keys `keys[0..p)`.
pub open spec fn reads(keys: Seq<ParamKey>, i: int, p: int) -> Seq<StackVal>
    decreases p,
{
    if p <= 0 {
        seq![]
    } else {
        reads(keys, i, p - 1) + if keys[p - 1].instr_idx == i {
            seq![StackVal::Res { num: keys[p - 1].result_idx, gen_param_id: (p - 1) as usize }]
        } else {
            Seq::<StackVal>::empty()
        }
    }
}

/// The rewrite table is exactly what the keys say.
pub open spec fn lookup_exact(lookup: Seq<Option<ReqState>>, keys: Seq<ParamKey>) -> bool {
    &&& forall|i: int|
        0 <= i < lookup.len() ==> match #[trigger] lookup[i] {
            Some(rs) => rs.req_state@ == reads(keys, i, keys.len() as int) && rs.req_state@.len() > 0,
            None => reads(keys, i, keys.len() as int).len() == 0,
        }
}

pub proof fn lemma_reads_prefix(a: Seq<ParamKey>, b: Seq<ParamKey>, i: int, p: int)
    requires
        0 <= p <= a.len(),
        p <= b.len(),
        a.subrange(0, p) == b.subrange(0, p),
    ensures
        reads(a, i, p) == reads(b, i, p),
    decreases p,
{
    if p > 0 {
        assert(a.subrange(0, p - 1) =~= b.subrange(0, p - 1)) by {
            assert forall|x: int| 0 <= x < p - 1 implies #[trigger] a.subrange(0, p - 1)[x] == b.subrange(0, p - 1)[x] by {
                assert(a.subrange(0, p)[x] == b.subrange(0, p)[x]);
            }
        }
        assert(a[p - 1] == a.subrange(0, p)[p - 1]);
        assert(b[p - 1] == b.subrange(0, p)[p - 1]);
        lemma_reads_prefix(a, b, i, p - 1);
    }
}

/// Pushing a key for instruction `j` at position `p` adds one read to `j`
/// and none elsewhere.
pub proof fn lemma_reads_push(keys: Seq<ParamKey>, key: ParamKey, i: int)
    requires
        keys.len() < usize::MAX,
    ensures
        reads(keys.push(key), i, keys.len() as int + 1) == reads(keys, i, keys.len() as int) + if key.instr_idx == i {
            seq![StackVal::Res { num: key.result_idx, gen_param_id: keys.len() as usize }]
        } else {
            Seq::<StackVal>::empty()
        },
{
    let k2 = keys.push(key);
    assert(k2.subrange(0, keys.len() as int) =~= keys.subrange(0, keys.len() as int));
    lemma_reads_prefix(k2, keys, i, keys.len() as int);
}

/// Keys so far are sorted and below (`r`, `e`, `i`) in the key order.
pub open spec fn keys_below(keys: Seq<ParamKey>, r: int, e: int, i: int) -> bool {
    &&& keys_sorted(keys)
    &&& forall|x: int| 0 <= x < keys.len() ==> rank((#[trigger] keys[x]).kind) < r || (rank(keys[x].kind) == r
        && (keys[x].entity < e || (keys[x].entity == e && keys[x].instr_idx < i)))
}

/// Adds one parameter for each entry of `table`, in index order.
fn add_table(
    lookup: &mut Vec<Option<ReqState>>,
    types: &mut Vec<ValType>,
    keys: &mut Vec<ParamKey>,
    table: &Vec<Option<ValType>>,
    kind: StateType,
    entity: u64,
) -> (r: bool)
    requires
        old(lookup)@.len() == table@.len(),
        old(types)@.len() == old(keys)@.len(),
        keys_below(old(keys)@, rank(kind), entity as int, 0),
        lookup_ok(old(lookup)@, old(keys)@),
    ensures
        r,
        final(lookup)@.len() == old(lookup)@.len(),
        final(types)@.len() == final(keys)@.len(),
        r ==> keys_below(final(keys)@, rank(kind), entity as int + 1, 0),
        r ==> lookup_ok(final(lookup)@, final(keys)@),
        r ==> forall|x: int| 0 <= x < old(keys)@.len() ==> final(keys)@[x] == old(keys)@[x],
        r ==> final(keys)@ == old(keys)@ + table_keys(table@, kind, entity, table@.len() as int),
        r ==> final(types)@ == old(types)@ + table_types(table@, table@.len() as int),
        lookup_exact(old(lookup)@, old(keys)@) && r ==> lookup_exact(final(lookup)@, final(keys)@),
{
    let n = table.len();
    let mut i: usize = 0;
    while i < n
        invariant
            i <= n == table@.len() == lookup@.len() == old(lookup)@.len(),
            types@.len() == keys@.len(),
            old(keys)@.len() <= keys@.len(),
            forall|x: int| 0 <= x < old(keys)@.len() ==> keys@[x] == old(keys)@[x],
            keys_below(keys@, rank(kind), entity as int, i as int),
            lookup_ok(lookup@, keys@),
            keys@ == old(keys)@ + table_keys(table@, kind, entity, i as int),
            types@ == old(types)@ + table_types(table@, i as int),
            lookup_exact(old(lookup)@, old(keys)@) ==> lookup_exact(lookup@, keys@),
        decreases n - i,
    {
        if let Some(t) = table[i] {
            let key = ParamKey { kind, entity, instr_idx: i, result_idx: 0 };
            let ghost before = keys@;
            let ghost before_types = types@;
            let ghost before_lookup = lookup@;
            match add_param(types, keys, key, t) {
                Some(p) => {
                    proof {
                        assert forall|a: int, b: int| 0 <= a < b < keys@.len() implies pk_lt(#[trigger] keys@[a], #[trigger] keys@[b]) by {
                            if b == before.len() {
                                assert(keys@[a] == before[a]);
                            } else {
                                assert(keys@[a] == before[a]);
                                assert(keys@[b] == before[b]);
                            }
                        }
                        assert forall|ii: int, y: int|
                            0 <= ii < lookup@.len() && lookup@[ii] is Some && 0 <= y < lookup@[ii]->0.req_state@.len() implies {
                                let q = (#[trigger] lookup@[ii]->0.req_state@[y]).param_id();
                                &&& q < keys@.len()
                                &&& keys@[q as int].instr_idx == ii
                            } by {
                            let q = lookup@[ii]->0.req_state@[y].param_id();
                            assert(keys@[q as int] == before[q as int]);
                        }
                    }
                    add_read(lookup, i, StackVal::Res { num: 0, gen_param_id: p }, Ghost(keys@));
                    proof {
                        assert(keys@ =~= old(keys)@ + table_keys(table@, kind, entity, i + 1));
                        assert(types@ =~= old(types)@ + table_types(table@, i + 1));
                        if lookup_exact(old(lookup)@, old(keys)@) {
                            assert forall|j: int| 0 <= j < lookup@.len() implies match #[trigger] lookup@[j] {
                                Some(rs) => rs.req_state@ == reads(keys@, j, keys@.len() as int) && rs.req_state@.len() > 0,
                                None => reads(keys@, j, keys@.len() as int).len() == 0,
                            } by {
                                lemma_reads_push(before, key, j);
                                assert(before_lookup[j] == before_lookup[j]);
                            }
                        }
                    }
                },
                None => {
                    return false;
                },
            }
        } else {
            proof {
                assert(keys@ =~= old(keys)@ + table_keys(table@, kind, entity, i + 1));
                assert(types@ =~= old(types)@ + table_types(table@, i + 1));
            }
        }
        i = i + 1;
    }
    proof {
        assert forall|x: int| 0 <= x < keys@.len() implies rank((#[trigger] keys@[x]).kind) < rank(kind) || (rank(keys@[x].kind) == rank(kind)
            && (keys@[x].entity < entity as int + 1 || (keys@[x].entity == entity as int + 1 && keys@[x].instr_idx < 0))) by {}
    }
    true
}

/// Adds one parameter for each used call result, in key order.
fn add_calls(
    lookup: &mut Vec<Option<ReqState>>,
    types: &mut Vec<ValType>,
    keys: &mut Vec<ParamKey>,
    calls: &Vec<CallUse>,
    kind: StateType,
) -> (r: bool)
    requires
        old(types)@.len() == old(keys)@.len(),
        keys_below(old(keys)@, rank(kind), 0, 0),
        lookup_ok(old(lookup)@, old(keys)@),
        sorted_calls(calls@),
        forall|a: int| 0 <= a < calls@.len() ==> (#[trigger] calls@[a]).instr_idx < old(lookup)@.len(),
    ensures
        r,
        final(lookup)@.len() == old(lookup)@.len(),
        final(types)@.len() == final(keys)@.len(),
        r ==> keys_below(final(keys)@, rank(kind) + 1, 0, 0),
        r ==> lookup_ok(final(lookup)@, final(keys)@),
        r ==> final(keys)@ == old(keys)@ + call_keys(calls@, kind, calls@.len() as int),
        r ==> final(types)@ == old(types)@ + call_types(calls@, calls@.len() as int),
        lookup_exact(old(lookup)@, old(keys)@) && r ==> lookup_exact(final(lookup)@, final(keys)@),
{
    let mut a: usize = 0;
    while a < calls.len()
        invariant
            a <= calls@.len(),
            sorted_calls(calls@),
            forall|z: int| 0 <= z < calls@.len() ==> (#[trigger] calls@[z]).instr_idx < lookup@.len(),
            lookup@.len() == old(lookup)@.len(),
            types@.len() == keys@.len(),
            keys_sorted(keys@),
            forall|x: int| 0 <= x < keys@.len() ==> rank((#[trigger] keys@[x]).kind) <= rank(kind) && (rank(keys@[x].kind) == rank(kind)
                ==> (a < calls@.len() ==> pk_lt(keys@[x], ParamKey { kind, entity: 0, instr_idx: calls@[a as int].instr_idx, result_idx: calls@[a as int].result_idx }))),
            lookup_ok(lookup@, keys@),
            keys@ == old(keys)@ + call_keys(calls@, kind, a as int),
            types@ == old(types)@ + call_types(calls@, a as int),
            lookup_exact(old(lookup)@, old(keys)@) ==> lookup_exact(lookup@, keys@),
        decreases calls@.len() - a,
    {
        let c = calls[a];
        let key = ParamKey { kind, entity: 0, instr_idx: c.instr_idx, result_idx: c.result_idx };
        let ghost before = keys@;
        let ghost before_lookup = lookup@;
        match add_param(types, keys, key, c.ty) {
            Some(p) => {
                proof {
                    assert forall|x: int, y: int| 0 <= x < y < keys@.len() implies pk_lt(#[trigger] keys@[x], #[trigger] keys@[y]) by {
                        assert(keys@[x] == before[x] || x == before.len());
                        if y == before.len() {
                            assert(keys@[x] == before[x]);
                        } else {
                            assert(keys@[x] == before[x]);
                            assert(keys@[y] == before[y]);
                        }
                    }
                    assert forall|ii: int, y: int|
                        0 <= ii < lookup@.len() && lookup@[ii] is Some && 0 <= y < lookup@[ii]->0.req_state@.len() implies {
                            let q = (#[trigger] lookup@[ii]->0.req_state@[y]).param_id();
                            &&& q < keys@.len()
                            &&& keys@[q as int].instr_idx == ii
                        } by {
                        let q = lookup@[ii]->0.req_state@[y].param_id();
                        assert(keys@[q as int] == before[q as int]);
                    }
                }
                add_read(lookup, c.instr_idx, StackVal::Res { num: c.result_idx, gen_param_id: p }, Ghost(keys@));
                proof {
                    assert(keys@ =~= old(keys)@ + call_keys(calls@, kind, a + 1));
                    assert(types@ =~= old(types)@ + call_types(calls@, a + 1));
                    if lookup_exact(old(lookup)@, old(keys)@) {
                        assert forall|j: int| 0 <= j < lookup@.len() implies match #[trigger] lookup@[j] {
                            Some(rs) => rs.req_state@ == reads(keys@, j, keys@.len() as int) && rs.req_state@.len() > 0,
                            None => reads(keys@, j, keys@.len() as int).len() == 0,
                        } by {
                            lemma_reads_push(before, key, j);
                            assert(before_lookup[j] == before_lookup[j]);
                        }
                    }
                    if a + 1 < calls@.len() {
                        let nxt = calls@[a + 1];
                        assert(crate::slice::key_lt(calls@[a as int], nxt));
                        assert forall|x: int| 0 <= x < keys@.len() implies rank((#[trigger] keys@[x]).kind) <= rank(kind) && (rank(keys@[x].kind) == rank(kind)
                            ==> pk_lt(keys@[x], ParamKey { kind, entity: 0, instr_idx: nxt.instr_idx, result_idx: nxt.result_idx })) by {
                            if x < before.len() {
                                assert(keys@[x] == before[x]);
                            }
                        }
                    } else {
                        assert forall|x: int| 0 <= x < keys@.len() implies rank((#[trigger] keys@[x]).kind) <= rank(kind) by {
                            if x < before.len() {
                                assert(keys@[x] == before[x]);
                            }
                        }
                    }
                }
            },
            None => {
                return false;
            },
        }
        a = a + 1;
    }
    proof {
        assert forall|x: int| 0 <= x < keys@.len() implies rank((#[trigger] keys@[x]).kind) < rank(kind) + 1 || (rank(keys@[x].kind) == rank(kind) + 1
            && (keys@[x].entity < 0 || (keys@[x].entity == 0 && keys@[x].instr_idx < 0))) by {}
    }
    true
}

/// The entries of `t` that read entity `g`.
fn of_id(t: &Vec<Option<(u32, ValType)>>, g: u64) -> (r: Vec<Option<ValType>>)
    ensures
        r@ == only_id(t@, g as int),
{
    let mut r: Vec<Option<ValType>> = Vec::new();
    let mut i: usize = 0;
    while i < t.len()
        invariant
            i <= t@.len(),
            r@.len() == i,
            forall|j: int| 0 <= j < i ==> #[trigger] r@[j] == only_id(t@, g as int)[j],
        decreases t@.len() - i,
    {
        r.push(
            match t[i] {
                Some((x, ty)) => if x as u64 == g {
                    Some(ty)
                } else {
                    None
                },
                None => None,
            },
        );
        i = i + 1;
    }
    assert(r@ =~= only_id(t@, g as int));
    r
}

fn max_id_exec(t: &Vec<Option<(u32, ValType)>>) -> (r: u64)
    ensures
        r as nat == max_id(t@, t@.len() as int),
{
    let mut mx: u64 = 0;
    let mut i: usize = 0;
    while i < t.len()
        invariant
            i <= t@.len(),
            mx as nat == max_id(t@, i as int),
            mx <= u32::MAX as u64 + 1,
        decreases t@.len() - i,
    {
        if let Some((x, _)) = t[i] {
            if x as u64 + 1 > mx {
                mx = x as u64 + 1;
            }
        }
        i = i + 1;
    }
    mx
}

/// Adds one parameter for each entry of `t`, by entity, then by index.
fn add_ids(
    lookup: &mut Vec<Option<ReqState>>,
    types: &mut Vec<ValType>,
    keys: &mut Vec<ParamKey>,
    t: &Vec<Option<(u32, ValType)>>,
    kind: StateType,
) -> (r: bool)
    requires
        old(lookup)@.len() == t@.len(),
        old(types)@.len() == old(keys)@.len(),
        keys_below(old(keys)@, rank(kind), 0, 0),
        lookup_ok(old(lookup)@, old(keys)@),
    ensures
        r,
        final(lookup)@.len() == old(lookup)@.len(),
        final(types)@.len() == final(keys)@.len(),
        keys_below(final(keys)@, rank(kind) + 1, 0, 0),
        lookup_ok(final(lookup)@, final(keys)@),
        final(keys)@ == old(keys)@ + id_keys(t@, kind, max_id(t@, t@.len() as int) as int),
        final(types)@ == old(types)@ + id_types(t@, max_id(t@, t@.len() as int) as int),
        lookup_exact(old(lookup)@, old(keys)@) ==> lookup_exact(final(lookup)@, final(keys)@),
{
    let bound = max_id_exec(t);
    let mut g: u64 = 0;
    while g < bound
        invariant
            g <= bound,
            bound as nat == max_id(t@, t@.len() as int),
            lookup@.len() == t@.len(),
            types@.len() == keys@.len(),
            keys_below(keys@, rank(kind), g as int, 0),
            lookup_ok(lookup@, keys@),
            keys@ == old(keys)@ + id_keys(t@, kind, g as int),
            types@ == old(types)@ + id_types(t@, g as int),
            lookup_exact(old(lookup)@, old(keys)@) ==> lookup_exact(lookup@, keys@),
        decreases bound - g,
    {
        let table = of_id(t, g);
        let ghost before = keys@;
        let ghost before_types = types@;
        add_table(lookup, types, keys, &table, kind, g);
        proof {
            assert(keys@ =~= old(keys)@ + id_keys(t@, kind, g + 1));
            assert(types@ =~= old(types)@ + id_types(t@, g + 1));
        }
        g = g + 1;
    }
    proof {
        assert forall|x: int| 0 <= x < keys@.len() implies rank((#[trigger] keys@[x]).kind) < rank(kind) + 1 || (rank(keys@[x].kind) == rank(kind) + 1
            && (keys@[x].entity < 0 || (keys@[x].entity == 0 && keys@[x].instr_idx < 0))) by {}
    }
    true
}

/// The probe's parameters, their keys, and the rewrites of the instructions
/// that read them. The maximal variant takes, in this order, the parameters,
/// globals, loads, direct-call and indirect-call results the slice reads,
/// each kind sorted by its key; the minimal variant takes the branch tokens.
fn new_state(sl: &Slice, variant: Variant, n: usize) -> (r: Option<(CodeGenState, Vec<ValType>, Vec<ParamKey>)>)
    requires
        sl.sized(n as int),
        forall|a: int| 0 <= a < sl.calls@.len() ==> (#[trigger] sl.calls@[a]).instr_idx < n,
        forall|a: int| 0 <= a < sl.call_indirects@.len() ==> (#[trigger] sl.call_indirects@[a]).instr_idx < n,
    ensures
        r is Some,
        r matches Some((st, types, keys)) ==> {
            &&& st.lookup@.len() == n
            &&& st.curr_cost == 0
            &&& types@.len() == keys@.len()
            &&& keys_sorted(keys@)
            &&& lookup_ok(st.lookup@, keys@)
            &&& lookup_exact(st.lookup@, keys@)
            &&& keys@ == keys_of(*sl, variant)
            &&& types@ == types_of_probe(*sl, variant)
        },
{
    let mut lookup: Vec<Option<ReqState>> = Vec::new();
    let mut k: usize = 0;
    while k < n
        invariant
            k <= n,
            lookup@.len() == k,
            forall|j: int| 0 <= j < k ==> (#[trigger] lookup@[j]) is None,
        decreases n - k,
    {
        lookup.push(None);
        k = k + 1;
    }
    let mut types: Vec<ValType> = Vec::new();
    let mut keys: Vec<ParamKey> = Vec::new();
    proof {
        assert forall|i: int| 0 <= i < lookup@.len() implies match #[trigger] lookup@[i] {
            Some(rs) => rs.req_state@ == reads(keys@, i, keys@.len() as int) && rs.req_state@.len() > 0,
            None => reads(keys@, i, keys@.len() as int).len() == 0,
        } by {}
    }
    match variant {
        Variant::Max => {
            if !add_ids(&mut lookup, &mut types, &mut keys, &sl.params, StateType::Param) {
                return None;
            }
            if !add_ids(&mut lookup, &mut types, &mut keys, &sl.globals, StateType::Global) {
                return None;
            }
            if !add_table(&mut lookup, &mut types, &mut keys, &sl.loads, StateType::Load, 0) {
                return None;
            }
            proof {
                assert forall|x: int| 0 <= x < keys@.len() implies rank((#[trigger] keys@[x]).kind) < rank(StateType::Call) || (rank(keys@[x].kind) == rank(StateType::Call)
                    && (keys@[x].entity < 0 || (keys@[x].entity == 0 && keys@[x].instr_idx < 0))) by {}
            }
            if !add_calls(&mut lookup, &mut types, &mut keys, &sl.calls, StateType::Call) {
                return None;
            }
            if !add_calls(&mut lookup, &mut types, &mut keys, &sl.call_indirects, StateType::CallIndirect) {
                return None;
            }
            proof {
                assert(keys@ =~= keys_of(*sl, variant));
                assert(types@ =~= types_of_probe(*sl, variant));
            }
        },
        Variant::Min => {
            if !add_table(&mut lookup, &mut types, &mut keys, &sl.taken, StateType::Taken, 0) {
                return None;
            }
            proof {
                assert(keys@ =~= keys_of(*sl, variant));
                assert(types@ =~= types_of_probe(*sl, variant));
            }
        },
    }
    Some((CodeGenState { lookup, curr_cost: 0 }, types, keys))
}

/// What `gen_op` emits for instruction `i`, which pushes `rd` from the
/// parameters where it is rewritten.
pub open spec fn op_spec(i: int, op: Op, fuel: usize, rd: Seq<StackVal>, variant: Variant) -> Seq<ProbeOp> {
    if rd.len() > 0 {
        Seq::new(rd.len(), |y: int| ProbeOp::LocalGet(rd[y].param_id())) + if variant == Variant::Min {
            seq![ProbeOp::Copy(i as usize)]
        } else {
            Seq::<ProbeOp>::empty()
        }
    } else {
        (if op is Return {
            seq![ProbeOp::LocalGet(fuel)]
        } else {
            Seq::<ProbeOp>::empty()
        }) + seq![ProbeOp::Copy(i as usize)]
    }
}

/// The fuel addition of a run that cost `c`: nothing where it cost nothing.
pub open spec fn flush_spec(b: Seq<ProbeOp>, fuel: usize, c: nat) -> Seq<ProbeOp> {
    if c > 0 {
        b + seq![ProbeOp::LocalGet(fuel), ProbeOp::I64Const(c as i64), ProbeOp::I64Add, ProbeOp::LocalSet(fuel)]
    } else {
        b
    }
}

/// Whether the probe replays instruction `i`: the variant's slice or the
/// support holds it, and it is not the opener of a nested loop.
pub open spec fn keeps(sl: Slice, variant: Variant, op: Op, i: int) -> bool {
    ((match variant {
        Variant::Max => sl.max_slice@[i],
        Variant::Min => sl.min_slice@[i],
    }) || sl.instrs_support@[i]) && !(op is Loop)
}

/// The probe body emitted for the owned instructions of `[start, k)`, and
/// the cost of the run not yet added.
pub open spec fn emit_fold(ops: Seq<Op>, sl: Slice, variant: Variant, keys: Seq<ParamKey>, fuel: usize, k: int) -> (Seq<ProbeOp>, nat)
    decreases k - sl.start(),
{
    if k <= sl.start() {
        (seq![ProbeOp::Block], 0)
    } else {
        let (b, c) = emit_fold(ops, sl, variant, keys, fuel, k - 1);
        let i = k - 1;
        if in_walk(ops, sl.start(), sl.end(), i) {
            let c1 = c + cost_of(ops[i]);
            let keep = keeps(sl, variant, ops[i], i);
            let flush = (keep && is_cf(ops[i])) || i == sl.end() - 1;
            let b2 = if flush { flush_spec(b, fuel, c1) } else { b };
            let c2: nat = if flush { 0 } else { c1 };
            (if keep { b2 + op_spec(i, ops[i], fuel, reads(keys, i, keys.len() as int), variant) } else { b2 }, c2)
        } else {
            (b, c)
        }
    }
}

/// The fuel additions of the owned instructions of `[start, k)`: before
/// which instruction, and how much.
pub open spec fn cost_points(ops: Seq<Op>, sl: Slice, variant: Variant, keys: Seq<ParamKey>, fuel: usize, k: int) -> Seq<(usize, u64)>
    decreases k - sl.start(),
{
    if k <= sl.start() {
        seq![]
    } else {
        let prev = cost_points(ops, sl, variant, keys, fuel, k - 1);
        let c = emit_fold(ops, sl, variant, keys, fuel, k - 1).1;
        let i = k - 1;
        if in_walk(ops, sl.start(), sl.end(), i) {
            let c1 = c + cost_of(ops[i]);
            let keep = keeps(sl, variant, ops[i], i);
            if (keep && is_cf(ops[i])) || i == sl.end() - 1 {
                prev.push((i as usize, c1 as u64))
            } else {
                prev
            }
        } else {
            prev
        }
    }
}

/// The fuel additions of the probe of slice `sl`, in order.
pub open spec fn probe_costs(ops: Seq<Op>, sl: Slice, variant: Variant, keys: Seq<ParamKey>, fuel: usize) -> Seq<(usize, u64)> {
    let c = emit_fold(ops, sl, variant, keys, fuel, sl.end()).1;
    cost_points(ops, sl, variant, keys, fuel, sl.end()) + if c > 0 {
        seq![(sl.end() as usize, c as u64)]
    } else {
        Seq::<(usize, u64)>::empty()
    }
}

/// The fuel additions of the probes of `sls[0..k)`, one slice after another.
pub open spec fn slices_costs(ops: Seq<Op>, sls: Seq<Slice>, variant: Variant, k: int) -> Seq<(usize, u64)>
    decreases k,
{
    if k <= 0 {
        seq![]
    } else {
        let sl = sls[k - 1];
        slices_costs(ops, sls, variant, k - 1) + probe_costs(ops, sl, variant, keys_of(sl, variant), keys_of(sl, variant).len() as usize)
    }
}

/// The body of the probe of slice `sl`.
pub open spec fn probe_body(ops: Seq<Op>, sl: Slice, variant: Variant, keys: Seq<ParamKey>, fuel: usize) -> Seq<ProbeOp> {
    let (b, c) = emit_fold(ops, sl, variant, keys, fuel, sl.end());
    flush_spec(b, fuel, c) + seq![ProbeOp::End, ProbeOp::LocalGet(fuel)]
}

pub proof fn lemma_body_fuel_push(b: Seq<ProbeOp>, x: ProbeOp)
    ensures
        body_fuel(b.push(x)) == body_fuel(b) + match x {
            ProbeOp::I64Const(c) => c as int,
            _ => 0,
        },
{
    assert(b.push(x).drop_last() == b);
}

/// Emits instruction `i` of the analyzed body, rewritten where the probe
/// reads its result from a parameter; a `return` first pushes the fuel.
fn gen_op(
    i: usize,
    op: &Op,
    fuel: usize,
    state: &CodeGenState,
    variant: Variant,
    body: &mut Vec<ProbeOp>,
    Ghost(keys): Ghost<Seq<ParamKey>>,
)
    requires
        i < state.lookup@.len(),
        lookup_ok(state.lookup@, keys),
        lookup_exact(state.lookup@, keys),
    ensures
        final(body)@ == old(body)@ + op_spec(i as int, *op, fuel, reads(keys, i as int, keys.len() as int), variant),
        body_fuel(final(body)@) == body_fuel(old(body)@),
        adds_positive(old(body)@) ==> adds_positive(final(body)@),
        reads_keyed(old(body)@, keys.len() as int, fuel) ==> reads_keyed(final(body)@, keys.len() as int, fuel),
        final(body)@.len() >= old(body)@.len(),
        forall|x: int| 0 <= x < old(body)@.len() ==> final(body)@[x] == old(body)@[x],
{
    let ghost b0 = body@;
    match &state.lookup[i] {
        Some(rs) => {
            let mut y: usize = 0;
            while y < rs.req_state.len()
                invariant
                    y <= rs.req_state@.len(),
                    state.lookup@[i as int] == Some(*rs),
                    i < state.lookup@.len(),
                    lookup_ok(state.lookup@, keys),
                    body_fuel(body@) == body_fuel(b0),
                    adds_positive(b0) ==> adds_positive(body@),
                    reads_keyed(b0, keys.len() as int, fuel) ==> reads_keyed(body@, keys.len() as int, fuel),
                    body@.len() >= b0.len(),
                    forall|x: int| 0 <= x < b0.len() ==> body@[x] == b0[x],
                    body@ =~= b0 + Seq::new(y as nat, |z: int| ProbeOp::LocalGet(rs.req_state@[z].param_id())),
                decreases rs.req_state@.len() - y,
            {
                let p = rs.req_state[y].gen_param_id();
                proof {
                    lemma_body_fuel_push(body@, ProbeOp::LocalGet(p));
                    assert(state.lookup@[i as int]->0.req_state@[y as int] == rs.req_state@[y as int]);
                    assert(p < keys.len());
                }
                body.push(ProbeOp::LocalGet(p));
                y = y + 1;
            }
            proof {
                assert(state.lookup@[i as int] == Some(*rs));
                assert(rs.req_state@ == reads(keys, i as int, keys.len() as int));
            }
            if variant == Variant::Min {
                proof { lemma_body_fuel_push(body@, ProbeOp::Copy(i)); }
                body.push(ProbeOp::Copy(i));
            }
            proof {
                assert(body@ =~= b0 + op_spec(i as int, *op, fuel, reads(keys, i as int, keys.len() as int), variant));
            }
        },
        None => {
            if matches!(op, Op::Return) {
                proof { lemma_body_fuel_push(body@, ProbeOp::LocalGet(fuel)); }
                body.push(ProbeOp::LocalGet(fuel));
            }
            proof { lemma_body_fuel_push(body@, ProbeOp::Copy(i)); }
            body.push(ProbeOp::Copy(i));
            proof {
                assert(state.lookup@[i as int] is None);
                assert(body@ =~= b0 + op_spec(i as int, *op, fuel, reads(keys, i as int, keys.len() as int), variant));
            }
        },
    }
}

/// Adds the cost of the run so far to the fuel local, before instruction
/// `i`; adds nothing where the run cost nothing.
fn gen_fuel_comp_exact(i: usize, fuel: usize, state: &mut CodeGenState, body: &mut Vec<ProbeOp>, costs: &mut Vec<(usize, u64)>)
    requires
        old(state).curr_cost <= i64::MAX,
    ensures
        final(body)@ == flush_spec(old(body)@, fuel, old(state).curr_cost as nat),
        body_fuel(final(body)@) == body_fuel(old(body)@) + old(state).curr_cost,
        final(state).curr_cost == 0,
        final(state).lookup@ == old(state).lookup@,
        final(costs)@ == old(costs)@.push((i, old(state).curr_cost)),
        adds_positive(old(body)@) ==> adds_positive(final(body)@),
        forall|nk: int| reads_keyed(old(body)@, nk, fuel) ==> reads_keyed(final(body)@, nk, fuel),
        final(body)@.len() >= old(body)@.len(),
        forall|x: int| 0 <= x < old(body)@.len() ==> final(body)@[x] == old(body)@[x],
{
    let cost = state.curr_cost;
    costs.push((i, cost));
    if cost > 0 {
        let ghost b0 = body@;
        proof { lemma_body_fuel_push(body@, ProbeOp::LocalGet(fuel)); }
        body.push(ProbeOp::LocalGet(fuel));
        proof { lemma_body_fuel_push(body@, ProbeOp::I64Const(cost as i64)); }
        body.push(ProbeOp::I64Const(cost as i64));
        proof { lemma_body_fuel_push(body@, ProbeOp::I64Add); }
        body.push(ProbeOp::I64Add);
        proof { lemma_body_fuel_push(body@, ProbeOp::LocalSet(fuel)); }
        body.push(ProbeOp::LocalSet(fuel));
        proof {
            assert(body@ =~= flush_spec(b0, fuel, cost as nat));
            assert forall|x: int| 0 <= x < body@.len() && adds_positive(b0) implies (#[trigger] body@[x] matches ProbeOp::I64Const(c) ==> c > 0) by {
                if x < b0.len() {
                    assert(body@[x] == b0[x]);
                }
            }
            assert forall|nk: int| reads_keyed(b0, nk, fuel) implies reads_keyed(body@, nk, fuel) by {
                assert forall|x: int| 0 <= x < body@.len() implies (#[trigger] body@[x] matches ProbeOp::LocalGet(p) ==> p == fuel || p < nk) by {
                    if x < b0.len() {
                        assert(body@[x] == b0[x]);
                    }
                }
            }
        }
    }
    state.reset_cost();
}

/// The name a probe is exported under: variant, analyzed function, suffix.
fn gen_name(ty: CompType, fid: u32, spec_name: &String) -> (r: String)
    ensures
        r@ == probe_name(ty, fid, spec_name@),
{
    let mut s = String::from_str(ty.name());
    append_decimal(&mut s, fid as usize);
    s.append(spec_name.as_str());
    s
}

/// Emits the probe of slice `sl` of the function `orig_fid` with body `ops`.
///
/// The body is wrapped in a block, so that a branch out of the function
/// leaves the block; after it the probe pushes its fuel. A nested loop counts
/// with the cost of its opener; its body has its own probe. Each owned
/// instruction adds its cost to the running total; the total goes to the fuel
/// local before each kept control-flow instruction and before the region's
/// last instruction. The constants the probe adds are positive and sum to the
/// cost of the region.
#[verifier::rlimit(40)]
fn gen_func(ty: CompType, variant: Variant, orig_fid: u32, ops: &Vec<Op>, sl: &Slice, costs: &mut Vec<(usize, u64)>) -> (r: Result<GeneratedFunc, FuelError>)
    requires
        sl.sized(ops@.len() as int),
        ops@.len() < i64::MAX,
        forall|a: int| 0 <= a < sl.calls@.len() ==> (#[trigger] sl.calls@[a]).instr_idx < ops@.len(),
        forall|a: int| 0 <= a < sl.call_indirects@.len() ==> (#[trigger] sl.call_indirects@[a]).instr_idx < ops@.len(),
    ensures
        ty is Approx ==> r == Err::<GeneratedFunc, FuelError>(FuelError::Unimplemented { fid: orig_fid }),
        r matches Err(FuelError::Unimplemented { .. }) ==> ty is Approx,
        ty is Exact && crate::ops::loops_close(ops@, sl.start(), sl.end()) ==> r is Ok,
        r is Err ==> final(costs)@ == old(costs)@,
        r matches Ok(g) ==> final(costs)@ == old(costs)@ + probe_costs(ops@, *sl, variant, g.keys@, g.fuel_local),
        r matches Ok(g) ==> {
            &&& g.orig_fid == orig_fid
            &&& g.fname@ == probe_name(ty, orig_fid, sl.spec_name@)
            &&& g.params@.len() == g.keys@.len()
            &&& g.fuel_local == g.keys@.len()
            &&& keys_sorted(g.keys@)
            &&& body_fuel(g.body@) == region_cost(ops@, sl.start(), sl.end(), sl.end())
            &&& adds_positive(g.body@)
            &&& reads_keyed(g.body@, g.keys@.len() as int, g.fuel_local)
            &&& g.body@.len() >= 3
            &&& g.body@[0] == ProbeOp::Block
            &&& g.body@[g.body@.len() - 2] == ProbeOp::End
            &&& g.body@.last() == ProbeOp::LocalGet(g.fuel_local)
            &&& g.keys@ == keys_of(*sl, variant)
            &&& g.params@ == types_of_probe(*sl, variant)
            &&& g.body@ == probe_body(ops@, *sl, variant, g.keys@, g.fuel_local)
        },
{
    if ty == CompType::Approx {
        return Err(FuelError::Unimplemented { fid: orig_fid });
    }
    let n = ops.len();
    let (mut state, params, keys) = match new_state(sl, variant, n) {
        Some(t) => t,
        None => {
            return Err(FuelError::InvariantViolation { stage: crate::error::Stage::Synthesis, fid: orig_fid, idx: sl.start_instr_idx });
        },
    };
    let fuel = keys.len();
    let start = sl.start_instr_idx;
    let end = sl.end_instr_idx;
    let (own, _loops) = match region_walk(ops, start, end) {
        Some(w) => w,
        None => {
            return Err(FuelError::MalformedModule { fid: orig_fid, idx: start });
        },
    };
    let mut body: Vec<ProbeOp> = vec![ProbeOp::Block];
    proof {
        lemma_body_fuel_push(Seq::<ProbeOp>::empty(), ProbeOp::Block);
        assert(body@ =~= Seq::<ProbeOp>::empty().push(ProbeOp::Block));
        assert(body_fuel(Seq::<ProbeOp>::empty()) == 0);
        assert(body@ =~= seq![ProbeOp::Block]);
    }
    let mut i: usize = start;
    while i < end
        invariant
            start <= i <= end <= n == ops@.len(),
            n < i64::MAX,
            start == sl.start_instr_idx && end == sl.end_instr_idx,
            sl.sized(n as int),
            own@.len() == n,
            forall|j: int| 0 <= j < n ==> #[trigger] own@[j] == in_walk(ops@, start as int, end as int, j),
            state.lookup@.len() == n,
            lookup_ok(state.lookup@, keys@),
            fuel == keys@.len(),
            state.curr_cost <= i - start,
            body_fuel(body@) + state.curr_cost == region_cost(ops@, start as int, end as int, i as int),
            adds_positive(body@),
            reads_keyed(body@, keys@.len() as int, fuel),
            body@.len() >= 1,
            body@[0] == ProbeOp::Block,
            lookup_exact(state.lookup@, keys@),
            costs@ == old(costs)@ + cost_points(ops@, *sl, variant, keys@, fuel, i as int),
            body@ == emit_fold(ops@, *sl, variant, keys@, fuel, i as int).0,
            state.curr_cost == emit_fold(ops@, *sl, variant, keys@, fuel, i as int).1,
        decreases end - i,
    {
        if own[i] {
            let op = &ops[i];
            state.add_cost(op_cost(op));
            let in_slice = match variant {
                Variant::Max => sl.max_slice[i],
                Variant::Min => sl.min_slice[i],
            };
            let keep = (in_slice || sl.instrs_support[i]) && !matches!(op, Op::Loop(_));
            if (keep && is_cf_op(op)) || i == end - 1 {
                gen_fuel_comp_exact(i, fuel, &mut state, &mut body, costs);
            }
            if keep {
                gen_op(i, op, fuel, &state, variant, &mut body, Ghost(keys@));
            }
        }
        i = i + 1;
    }
    let ghost folded = emit_fold(ops@, *sl, variant, keys@, fuel, end as int);
    if state.curr_cost > 0 {
        gen_fuel_comp_exact(end, fuel, &mut state, &mut body, costs);
    }
    assert(body@ == flush_spec(folded.0, fuel, folded.1));
    assert(costs@ =~= old(costs)@ + probe_costs(ops@, *sl, variant, keys@, fuel));
    let ghost b0 = body@;
    proof { lemma_body_fuel_push(body@, ProbeOp::End); }
    body.push(ProbeOp::End);
    proof { lemma_body_fuel_push(body@, ProbeOp::LocalGet(fuel)); }
    body.push(ProbeOp::LocalGet(fuel));
    proof {
        assert forall|x: int| 0 <= x < body@.len() implies (#[trigger] body@[x] matches ProbeOp::I64Const(c) ==> c > 0) by {
            if x < b0.len() {
                assert(body@[x] == b0[x]);
            }
        }
        assert forall|x: int| 0 <= x < body@.len() implies (#[trigger] body@[x] matches ProbeOp::LocalGet(p) ==> p == fuel || p < keys@.len()) by {
            if x < b0.len() {
                assert(body@[x] == b0[x]);
            }
        }
    }
    assert(body@ =~= probe_body(ops@, *sl, variant, keys@, fuel));
    let fname = gen_name(ty, orig_fid, &sl.spec_name);
    Ok(GeneratedFunc { orig_fid, fname, params, keys, fuel_local: fuel, body })
}

/// The probes of every slice of one function, in the order of the slices.
fn gen_from_slices(ty: CompType, variant: Variant, ops: &Vec<Op>, func_slices: &SliceResult, costs: &mut Vec<(usize, u64)>) -> (r: Result<Vec<GeneratedFunc>, FuelError>)
    requires
        ops@.len() < i64::MAX,
        forall|k: int| 0 <= k < func_slices.slices@.len() ==> probe_ready(#[trigger] func_slices.slices@[k], ops@),
    ensures
        ty is Exact && (forall|k: int| 0 <= k < func_slices.slices@.len() ==> crate::ops::loops_close(
            ops@,
            (#[trigger] func_slices.slices@[k]).start(),
            func_slices.slices@[k].end(),
        )) ==> r is Ok,
        ty is Approx && func_slices.slices@.len() > 0 ==> r is Err,
        r matches Err(FuelError::Unimplemented { .. }) ==> ty is Approx,
        r is Ok ==> final(costs)@ == old(costs)@ + slices_costs(ops@, func_slices.slices@, variant, func_slices.slices@.len() as int),
        r matches Ok(v) ==> v@.len() == func_slices.slices@.len() && forall|k: int| 0 <= k < v@.len() ==> {
            let (g, sl) = (#[trigger] v@[k], func_slices.slices@[k]);
            &&& g.orig_fid == func_slices.fid
            &&& g.fname@ == probe_name(ty, func_slices.fid, sl.spec_name@)
            &&& g.params@.len() == g.keys@.len()
            &&& keys_sorted(g.keys@)
            &&& body_fuel(g.body@) == region_cost(ops@, sl.start(), sl.end(), sl.end())
            &&& adds_positive(g.body@)
            &&& reads_keyed(g.body@, g.keys@.len() as int, g.fuel_local)
            &&& g.keys@ == keys_of(sl, variant)
            &&& g.params@ == types_of_probe(sl, variant)
            &&& g.fuel_local == g.keys@.len()
            &&& g.body@ == probe_body(ops@, sl, variant, g.keys@, g.fuel_local)
        },
{
    let mut generated: Vec<GeneratedFunc> = Vec::new();
    let mut k: usize = 0;
    while k < func_slices.slices.len()
        invariant
            k <= func_slices.slices@.len(),
            ops@.len() < i64::MAX,
            forall|q: int| 0 <= q < func_slices.slices@.len() ==> probe_ready(#[trigger] func_slices.slices@[q], ops@),
            generated@.len() == k,
            ty is Approx ==> k == 0,
            costs@ == old(costs)@ + slices_costs(ops@, func_slices.slices@, variant, k as int),
            forall|q: int| 0 <= q < k ==> {
                let (g, sl) = (#[trigger] generated@[q], func_slices.slices@[q]);
                &&& g.orig_fid == func_slices.fid
                &&& g.fname@ == probe_name(ty, func_slices.fid, sl.spec_name@)
                &&& g.params@.len() == g.keys@.len()
                &&& keys_sorted(g.keys@)
                &&& body_fuel(g.body@) == region_cost(ops@, sl.start(), sl.end(), sl.end())
                &&& adds_positive(g.body@)
                &&& reads_keyed(g.body@, g.keys@.len() as int, g.fuel_local)
                &&& g.keys@ == keys_of(sl, variant)
                &&& g.params@ == types_of_probe(sl, variant)
                &&& g.fuel_local == g.keys@.len()
                &&& g.body@ == probe_body(ops@, sl, variant, g.keys@, g.fuel_local)
            },
        decreases func_slices.slices@.len() - k,
    {
        let sl = &func_slices.slices[k];
        let ghost costs_before = costs@;
        match gen_func(ty, variant, func_slices.fid, ops, sl, costs) {
            Ok(g) => {
                proof {
                    assert(costs@ =~= old(costs)@ + slices_costs(ops@, func_slices.slices@, variant, k + 1));
                }
                let ghost gg = g;
                let ghost before = generated@;
                generated.push(g);
                proof {
                    assert forall|q: int| 0 <= q < k + 1 implies {
                        let (g, sl) = (#[trigger] generated@[q], func_slices.slices@[q]);
                        &&& g.orig_fid == func_slices.fid
                        &&& g.fname@ == probe_name(ty, func_slices.fid, sl.spec_name@)
                        &&& g.params@.len() == g.keys@.len()
                        &&& keys_sorted(g.keys@)
                        &&& body_fuel(g.body@) == region_cost(ops@, sl.start(), sl.end(), sl.end())
                        &&& adds_positive(g.body@)
                        &&& reads_keyed(g.body@, g.keys@.len() as int, g.fuel_local)
                        &&& g.keys@ == keys_of(sl, variant)
                        &&& g.params@ == types_of_probe(sl, variant)
                        &&& g.fuel_local == g.keys@.len()
                        &&& g.body@ == probe_body(ops@, sl, variant, g.keys@, g.fuel_local)
                    } by {
                        if q < k {
                            assert(generated@[q] == before[q]);
                        } else {
                            assert(generated@[q] == gg);
                        }
                    }
                }
            },
            Err(e) => {
                return Err(e);
            },
        }
        k = k + 1;
    }
    Ok(generated)
}

/// A slice the synthesizer can work on: sized to the body, with call
/// entries inside it.
pub open spec fn probe_ready(sl: Slice, ops: Seq<Op>) -> bool {
    &&& sl.sized(ops.len() as int)
    &&& forall|a: int| 0 <= a < sl.calls@.len() ==> (#[trigger] sl.calls@[a]).instr_idx < ops.len()
    &&& forall|a: int| 0 <= a < sl.call_indirects@.len() ==> (#[trigger] sl.call_indirects@[a]).instr_idx < ops.len()
}

/// Emits the probes of `variant` for every slice of every function.
pub fn codegen(ty: CompType, variant: Variant, slices: &Vec<SliceResult>, m: &ModuleInfo) -> (r: Result<CodeGenResult, FuelError>)
    requires
        slices@.len() == m.funcs@.len(),
        forall|i: int| 0 <= i < m.funcs@.len() ==> (#[trigger] m.funcs@[i]).ops@.len() < i64::MAX,
        forall|i: int, k: int| 0 <= i < slices@.len() && 0 <= k < slices@[i].slices@.len() ==> probe_ready(
            #[trigger] slices@[i].slices@[k],
            m.funcs@[i].ops@,
        ),
    ensures
        ty is Approx && (exists|i: int| 0 <= i < slices@.len() && slices@[i].slices@.len() > 0) ==> r is Err,
        r matches Err(FuelError::Unimplemented { .. }) ==> ty is Approx,
        ty is Exact && (forall|i: int, k: int| 0 <= i < slices@.len() && 0 <= k < slices@[i].slices@.len() ==> crate::ops::loops_close(
            m.funcs@[i].ops@,
            (#[trigger] slices@[i].slices@[k]).start(),
            slices@[i].slices@[k].end(),
        )) ==> r is Ok,
        r matches Ok(res) ==> forall|i: int| 0 <= i < res.cost_maps@.len() ==> (#[trigger] res.cost_maps@[i])@ == slices_costs(
            m.funcs@[i].ops@,
            slices@[i].slices@,
            variant,
            slices@[i].slices@.len() as int,
        ),
        r matches Ok(res) ==> res.func_map@.len() == slices@.len() && res.cost_maps@.len() == slices@.len()
            && forall|i: int| 0 <= i < res.func_map@.len() ==> {
            let (gs, sr) = (#[trigger] res.func_map@[i], slices@[i]);
            &&& gs@.len() == sr.slices@.len()
            &&& forall|k: int| 0 <= k < gs@.len() ==> {
                let (g, sl) = (#[trigger] gs@[k], sr.slices@[k]);
                &&& g.orig_fid == sr.fid
                &&& g.fname@ == probe_name(ty, sr.fid, sl.spec_name@)
                &&& g.params@.len() == g.keys@.len()
                &&& keys_sorted(g.keys@)
                &&& body_fuel(g.body@) == region_cost(m.funcs@[i].ops@, sl.start(), sl.end(), sl.end())
                &&& adds_positive(g.body@)
                &&& reads_keyed(g.body@, g.keys@.len() as int, g.fuel_local)
                &&& g.keys@ == keys_of(sl, variant)
                &&& g.params@ == types_of_probe(sl, variant)
                &&& g.fuel_local == g.keys@.len()
                &&& g.body@ == probe_body(m.funcs@[i].ops@, sl, variant, g.keys@, g.fuel_local)
            }
        },
{
    let mut cost_maps: Vec<Vec<(usize, u64)>> = Vec::new();
    let mut func_map: Vec<Vec<GeneratedFunc>> = Vec::new();
    let mut i: usize = 0;
    while i < slices.len()
        invariant
            i <= slices@.len() == m.funcs@.len(),
            forall|q: int| 0 <= q < m.funcs@.len() ==> (#[trigger] m.funcs@[q]).ops@.len() < i64::MAX,
            forall|q: int, k: int| 0 <= q < slices@.len() && 0 <= k < slices@[q].slices@.len() ==> probe_ready(
                #[trigger] slices@[q].slices@[k],
                m.funcs@[q].ops@,
            ),
            func_map@.len() == i && cost_maps@.len() == i,
            forall|q: int| 0 <= q < i ==> (#[trigger] cost_maps@[q])@ == slices_costs(
                m.funcs@[q].ops@,
                slices@[q].slices@,
                variant,
                slices@[q].slices@.len() as int,
            ),
            ty is Approx ==> forall|q: int| 0 <= q < i ==> slices@[q].slices@.len() == 0,
            forall|q: int| 0 <= q < i ==> {
                let (gs, sr) = (#[trigger] func_map@[q], slices@[q]);
                &&& gs@.len() == sr.slices@.len()
                &&& forall|k: int| 0 <= k < gs@.len() ==> {
                    let (g, sl) = (#[trigger] gs@[k], sr.slices@[k]);
                    &&& g.orig_fid == sr.fid
                    &&& g.fname@ == probe_name(ty, sr.fid, sl.spec_name@)
                    &&& g.params@.len() == g.keys@.len()
                    &&& keys_sorted(g.keys@)
                    &&& body_fuel(g.body@) == region_cost(m.funcs@[q].ops@, sl.start(), sl.end(), sl.end())
                    &&& adds_positive(g.body@)
                    &&& reads_keyed(g.body@, g.keys@.len() as int, g.fuel_local)
                    &&& g.keys@ == keys_of(sl, variant)
                    &&& g.params@ == types_of_probe(sl, variant)
                    &&& g.fuel_local == g.keys@.len()
                    &&& g.body@ == probe_body(m.funcs@[q].ops@, sl, variant, g.keys@, g.fuel_local)
                }
            },
        decreases slices@.len() - i,
    {
        let mut costs: Vec<(usize, u64)> = Vec::new();
        assert(forall|k: int| 0 <= k < slices@[i as int].slices@.len() ==> probe_ready(#[trigger] slices@[i as int].slices@[k], m.funcs@[i as int].ops@));
        match gen_from_slices(ty, variant, &m.funcs[i].ops, &slices[i], &mut costs) {
            Ok(gs) => {
                proof {
                    if ty is Approx && slices@[i as int].slices@.len() > 0 {
                        // the first probe already failed
                    }
                }
                let ghost ggs = gs;
                let ghost before = func_map@;
                if ty == CompType::Approx && gs.len() > 0 {
                    return Err(FuelError::Unimplemented { fid: slices[i].fid });
                }
                let ghost gcosts = costs@;
                let ghost cbefore = cost_maps@;
                func_map.push(gs);
                cost_maps.push(costs);
                proof {
                    assert(func_map@[i as int] == ggs);
                    assert forall|q: int| 0 <= q < i + 1 implies (#[trigger] cost_maps@[q])@ == slices_costs(
                        m.funcs@[q].ops@,
                        slices@[q].slices@,
                        variant,
                        slices@[q].slices@.len() as int,
                    ) by {
                        if q < i {
                            assert(cost_maps@[q] == cbefore[q]);
                        } else {
                            assert(cost_maps@[q]@ == gcosts);
                            assert(gcosts =~= Seq::<(usize, u64)>::empty() + slices_costs(m.funcs@[q].ops@, slices@[q].slices@, variant, slices@[q].slices@.len() as int));
                        }
                    }
                    assert forall|q: int| 0 <= q < i + 1 implies {
                        let (gs, sr) = (#[trigger] func_map@[q], slices@[q]);
                        &&& gs@.len() == sr.slices@.len()
                        &&& forall|k: int| 0 <= k < gs@.len() ==> {
                            let (g, sl) = (#[trigger] gs@[k], sr.slices@[k]);
                            &&& g.orig_fid == sr.fid
                            &&& g.fname@ == probe_name(ty, sr.fid, sl.spec_name@)
                            &&& g.params@.len() == g.keys@.len()
                            &&& keys_sorted(g.keys@)
                            &&& body_fuel(g.body@) == region_cost(m.funcs@[q].ops@, sl.start(), sl.end(), sl.end())
                            &&& adds_positive(g.body@)
                            &&& reads_keyed(g.body@, g.keys@.len() as int, g.fuel_local)
                            &&& g.keys@ == keys_of(sl, variant)
                            &&& g.params@ == types_of_probe(sl, variant)
                            &&& g.fuel_local == g.keys@.len()
                            &&& g.body@ == probe_body(m.funcs@[q].ops@, sl, variant, g.keys@, g.fuel_local)
                        }
                    } by {
                        if q < i {
                            assert(func_map@[q] == before[q]);
                        }
                    }
                }
            },
            Err(e) => {
                return Err(e);
            },
        }
        i = i + 1;
    }
    Ok(CodeGenResult { cost_maps, func_map })
}

/// The probe of an empty region adds no fuel and returns zero: its body is
/// `block; end; local.get fuel`, with no fuel additions.
pub proof fn lemma_empty_region_probe(ops: Seq<Op>, sl: Slice, variant: Variant, keys: Seq<ParamKey>, fuel: usize)
    requires
        sl.start() == sl.end(),
    ensures
        probe_body(ops, sl, variant, keys, fuel) == seq![ProbeOp::Block, ProbeOp::End, ProbeOp::LocalGet(fuel)],
        probe_costs(ops, sl, variant, keys, fuel) == Seq::<(usize, u64)>::empty(),
{
    assert(probe_body(ops, sl, variant, keys, fuel) =~= seq![ProbeOp::Block, ProbeOp::End, ProbeOp::LocalGet(fuel)]);
    assert(probe_costs(ops, sl, variant, keys, fuel) =~= Seq::<(usize, u64)>::empty());
}

proof fn lemma_region_cost_bound(ops: Seq<Op>, start: int, end: int, k: int)
    requires
        start <= k,
    ensures
        region_cost(ops, start, end, k) <= k - start,
    decreases k - start,
{
    if k > start {
        lemma_region_cost_bound(ops, start, end, k - 1);
    }
}

/// Where the probe keeps nothing before `k < end`, it has emitted only its
/// opening block and carries the whole cost so far.
proof fn lemma_nothing_kept_prefix(ops: Seq<Op>, sl: Slice, variant: Variant, keys: Seq<ParamKey>, fuel: usize, k: int)
    requires
        sl.start() <= k < sl.end() <= ops.len(),
        forall|i: int| sl.start() <= i < sl.end() && in_walk(ops, sl.start(), sl.end(), i) ==> !#[trigger] keeps(sl, variant, ops[i], i),
    ensures
        emit_fold(ops, sl, variant, keys, fuel, k) == (seq![ProbeOp::Block], region_cost(ops, sl.start(), sl.end(), k)),
        cost_points(ops, sl, variant, keys, fuel, k) == Seq::<(usize, u64)>::empty(),
    decreases k - sl.start(),
{
    if k > sl.start() {
        lemma_nothing_kept_prefix(ops, sl, variant, keys, fuel, k - 1);
        if in_walk(ops, sl.start(), sl.end(), k - 1) {
            assert(!keeps(sl, variant, ops[k - 1], k - 1));
        }
    }
}

/// A probe that keeps nothing of its region adds the region's whole cost at
/// once, before the region's last instruction (or after the region, where a
/// nested loop ends it), and returns it.
pub proof fn lemma_flat_probe(ops: Seq<Op>, sl: Slice, variant: Variant, keys: Seq<ParamKey>, fuel: usize)
    requires
        sl.start() < sl.end() <= ops.len() < i64::MAX,
        forall|i: int| sl.start() <= i < sl.end() && in_walk(ops, sl.start(), sl.end(), i) ==> !#[trigger] keeps(sl, variant, ops[i], i),
    ensures
        ({
            let c = region_cost(ops, sl.start(), sl.end(), sl.end());
            &&& 0 < c <= sl.end() - sl.start()
            &&& probe_body(ops, sl, variant, keys, fuel) == seq![
                ProbeOp::Block,
                ProbeOp::LocalGet(fuel),
                ProbeOp::I64Const(c as i64),
                ProbeOp::I64Add,
                ProbeOp::LocalSet(fuel),
                ProbeOp::End,
                ProbeOp::LocalGet(fuel),
            ]
            &&& probe_costs(ops, sl, variant, keys, fuel).len() == 1
            &&& probe_costs(ops, sl, variant, keys, fuel)[0].1 == c as u64
        }),
{
    let (start, end) = (sl.start(), sl.end());
    lemma_nothing_kept_prefix(ops, sl, variant, keys, fuel, end - 1);
    lemma_region_cost_bound(ops, start, end, end);
    // the region's first instruction is its own, and costs one
    assert(in_walk(ops, start, end, start));
    lemma_region_cost_first(ops, start, end, end);
    let c = region_cost(ops, start, end, end);
    if in_walk(ops, start, end, end - 1) {
        assert(!keeps(sl, variant, ops[end - 1], end - 1));
        assert(emit_fold(ops, sl, variant, keys, fuel, end) == (flush_spec(seq![ProbeOp::Block], fuel, c), 0nat));
    } else {
        assert(emit_fold(ops, sl, variant, keys, fuel, end) == (seq![ProbeOp::Block], c));
    }
    assert(probe_body(ops, sl, variant, keys, fuel) =~= seq![
        ProbeOp::Block,
        ProbeOp::LocalGet(fuel),
        ProbeOp::I64Const(c as i64),
        ProbeOp::I64Add,
        ProbeOp::LocalSet(fuel),
        ProbeOp::End,
        ProbeOp::LocalGet(fuel),
    ]);
}

/// The cost of a region that owns its first instruction is positive.
proof fn lemma_region_cost_first(ops: Seq<Op>, start: int, end: int, k: int)
    requires
        start < k,
        in_walk(ops, start, end, start),
    ensures
        region_cost(ops, start, end, k) >= 1,
    decreases k - start,
{
    if k - 1 > start {
        lemma_region_cost_first(ops, start, end, k - 1);
    }
}

/// Where the region owns its last instruction (as the whole body owns its
/// final `End`), the probe adds the fuel due before that instruction, and no
/// cost is left to add after the region.
pub proof fn lemma_last_flush(ops: Seq<Op>, sl: Slice, variant: Variant, keys: Seq<ParamKey>, fuel: usize)
    requires
        sl.start() < sl.end() <= ops.len(),
        in_walk(ops, sl.start(), sl.end(), sl.end() - 1),
    ensures
        emit_fold(ops, sl, variant, keys, fuel, sl.end()).1 == 0,
        cost_points(ops, sl, variant, keys, fuel, sl.end()).len() > 0,
        cost_points(ops, sl, variant, keys, fuel, sl.end()).last().0 == sl.end() - 1,
        probe_costs(ops, sl, variant, keys, fuel) == cost_points(ops, sl, variant, keys, fuel, sl.end()),
{
    assert(probe_costs(ops, sl, variant, keys, fuel) =~= cost_points(ops, sl, variant, keys, fuel, sl.end()));
}

/// Opcodes that write a local.
pub open spec fn writes_local(op: Op) -> bool {
    op is LocalSet || op is LocalTee
}

/// The body writes locals only in fuel additions: each `local.set` sets the
/// fuel local to itself plus a positive constant, and no copied instruction
/// writes a local.
pub open spec fn fuel_writes_only(body: Seq<ProbeOp>, ops: Seq<Op>, fuel: usize) -> bool {
    &&& forall|x: int|
        0 <= x < body.len() && (#[trigger] body[x]) is LocalSet ==> {
            &&& body[x] == ProbeOp::LocalSet(fuel)
            &&& x >= 3
            &&& body[x - 3] == ProbeOp::LocalGet(fuel)
            &&& body[x - 2] matches ProbeOp::I64Const(c) && c > 0
            &&& body[x - 1] == ProbeOp::I64Add
        }
    &&& forall|x: int|
        0 <= x < body.len() && (#[trigger] body[x]) is Copy ==> (body[x]->Copy_0 as int) < ops.len() && !writes_local(
            ops[body[x]->Copy_0 as int],
        )
}

proof fn lemma_writes_append(b: Seq<ProbeOp>, extra: Seq<ProbeOp>, ops: Seq<Op>, fuel: usize)
    requires
        fuel_writes_only(b, ops, fuel),
        fuel_writes_only(extra, ops, fuel),
        forall|x: int| 0 <= x < extra.len() ==> !((#[trigger] extra[x]) is LocalSet),
    ensures
        fuel_writes_only(b + extra, ops, fuel),
{
    let t = b + extra;
    assert forall|x: int| 0 <= x < t.len() && (#[trigger] t[x]) is LocalSet implies {
        &&& t[x] == ProbeOp::LocalSet(fuel)
        &&& x >= 3
        &&& t[x - 3] == ProbeOp::LocalGet(fuel)
        &&& t[x - 2] matches ProbeOp::I64Const(c) && c > 0
        &&& t[x - 1] == ProbeOp::I64Add
    } by {
        if x >= b.len() {
            assert(t[x] == extra[x - b.len()]);
        } else {
            assert(t[x] == b[x]);
            assert(t[x - 1] == b[x - 1] && t[x - 2] == b[x - 2] && t[x - 3] == b[x - 3]);
        }
    }
    assert forall|x: int| 0 <= x < t.len() && (#[trigger] t[x]) is Copy implies (t[x]->Copy_0 as int) < ops.len() && !writes_local(
        ops[t[x]->Copy_0 as int],
    ) by {
        if x >= b.len() {
            assert(t[x] == extra[x - b.len()]);
        } else {
            assert(t[x] == b[x]);
        }
    }
}

proof fn lemma_flush_writes(b: Seq<ProbeOp>, ops: Seq<Op>, fuel: usize, c: nat)
    requires
        fuel_writes_only(b, ops, fuel),
        c <= i64::MAX,
    ensures
        fuel_writes_only(flush_spec(b, fuel, c), ops, fuel),
{
    if c > 0 {
        let t = flush_spec(b, fuel, c);
        let n = b.len() as int;
        assert forall|x: int| 0 <= x < t.len() && (#[trigger] t[x]) is LocalSet implies {
            &&& t[x] == ProbeOp::LocalSet(fuel)
            &&& x >= 3
            &&& t[x - 3] == ProbeOp::LocalGet(fuel)
            &&& t[x - 2] matches ProbeOp::I64Const(cc) && cc > 0
            &&& t[x - 1] == ProbeOp::I64Add
        } by {
            if x < n {
                assert(t[x] == b[x]);
                assert(t[x - 1] == b[x - 1] && t[x - 2] == b[x - 2] && t[x - 3] == b[x - 3]);
            }
        }
        assert forall|x: int| 0 <= x < t.len() && (#[trigger] t[x]) is Copy implies (t[x]->Copy_0 as int) < ops.len() && !writes_local(
            ops[t[x]->Copy_0 as int],
        ) by {
            assert(x < n);
            assert(t[x] == b[x]);
        }
    }
}

proof fn lemma_emit_writes(ops: Seq<Op>, sl: Slice, variant: Variant, keys: Seq<ParamKey>, fuel: usize, k: int)
    requires
        sl.end() <= ops.len() < i64::MAX,
        forall|i: int| sl.start() <= i < sl.end() && in_walk(ops, sl.start(), sl.end(), i) && #[trigger] keeps(sl, variant, ops[i], i)
            ==> !writes_local(ops[i]),
    ensures
        fuel_writes_only(emit_fold(ops, sl, variant, keys, fuel, k).0, ops, fuel),
        emit_fold(ops, sl, variant, keys, fuel, k).1 <= if k > sl.start() { k - sl.start() } else { 0 },
    decreases k - sl.start(),
{
    if k > sl.start() {
        lemma_emit_writes(ops, sl, variant, keys, fuel, k - 1);
        let (b, c) = emit_fold(ops, sl, variant, keys, fuel, k - 1);
        let i = k - 1;
        if in_walk(ops, sl.start(), sl.end(), i) {
            crate::ops::lemma_in_walk_range(ops, sl.start(), sl.end(), i);
            let c1 = c + cost_of(ops[i]);
            let keep = keeps(sl, variant, ops[i], i);
            let flush = (keep && is_cf(ops[i])) || i == sl.end() - 1;
            let b2 = if flush { flush_spec(b, fuel, c1) } else { b };
            if flush {
                lemma_flush_writes(b, ops, fuel, c1);
            }
            if keep {
                let extra = op_spec(i, ops[i], fuel, reads(keys, i, keys.len() as int), variant);
                assert(fuel_writes_only(extra, ops, fuel));
                lemma_writes_append(b2, extra, ops, fuel);
            }
        }
    } else {
        assert(fuel_writes_only(seq![ProbeOp::Block], ops, fuel));
    }
}

/// The probe writes locals only to add to its fuel: each `local.set` sets
/// the fuel local to itself plus a positive constant, so along any run the
/// fuel never decreases, provided the probe copies no instruction that writes
/// a local.
pub proof fn lemma_probe_fuel_writes(ops: Seq<Op>, sl: Slice, variant: Variant, keys: Seq<ParamKey>, fuel: usize)
    requires
        sl.end() <= ops.len() < i64::MAX,
        sl.start() <= sl.end(),
        forall|i: int| sl.start() <= i < sl.end() && in_walk(ops, sl.start(), sl.end(), i) && #[trigger] keeps(sl, variant, ops[i], i)
            ==> !writes_local(ops[i]),
    ensures
        fuel_writes_only(probe_body(ops, sl, variant, keys, fuel), ops, fuel),
{
    lemma_emit_writes(ops, sl, variant, keys, fuel, sl.end());
    let (b, c) = emit_fold(ops, sl, variant, keys, fuel, sl.end());
    lemma_flush_writes(b, ops, fuel, c);
    let tail = seq![ProbeOp::End, ProbeOp::LocalGet(fuel)];
    assert(fuel_writes_only(tail, ops, fuel));
    lemma_writes_append(flush_spec(b, fuel, c), tail, ops, fuel);
}

/// Two slices with the same region and the same contents.
pub open spec fn same_slice(a: Slice, b: Slice) -> bool {
    &&& a.start_instr_idx == b.start_instr_idx
    &&& a.end_instr_idx == b.end_instr_idx
    &&& a.max_slice@ == b.max_slice@
    &&& a.min_slice@ == b.min_slice@
    &&& a.instrs_support@ == b.instrs_support@
    &&& a.params@ == b.params@
    &&& a.globals@ == b.globals@
    &&& a.loads@ == b.loads@
    &&& a.calls@ == b.calls@
    &&& a.call_indirects@ == b.call_indirects@
    &&& a.taken@ == b.taken@
}

proof fn lemma_emit_same(ops: Seq<Op>, a: Slice, b: Slice, variant: Variant, keys: Seq<ParamKey>, fuel: usize, k: int)
    requires
        same_slice(a, b),
    ensures
        emit_fold(ops, a, variant, keys, fuel, k) == emit_fold(ops, b, variant, keys, fuel, k),
    decreases k - a.start(),
{
    if k > a.start() {
        lemma_emit_same(ops, a, b, variant, keys, fuel, k - 1);
        assert(keeps(a, variant, ops[k - 1], k - 1) == keeps(b, variant, ops[k - 1], k - 1));
    }
}

/// Emission is deterministic: the probes of two slices with the same region
/// and contents take the same parameters and have the same body.
pub proof fn lemma_emission_deterministic(ops: Seq<Op>, a: Slice, b: Slice, variant: Variant, ga: &GeneratedFunc, gb: &GeneratedFunc)
    requires
        same_slice(a, b),
        ga.keys@ == keys_of(a, variant),
        gb.keys@ == keys_of(b, variant),
        ga.params@ == types_of_probe(a, variant),
        gb.params@ == types_of_probe(b, variant),
        ga.fuel_local == ga.keys@.len(),
        gb.fuel_local == gb.keys@.len(),
        ga.body@ == probe_body(ops, a, variant, ga.keys@, ga.fuel_local),
        gb.body@ == probe_body(ops, b, variant, gb.keys@, gb.fuel_local),
    ensures
        ga.keys@ == gb.keys@,
        ga.params@ == gb.params@,
        ga.fuel_local == gb.fuel_local,
        ga.body@ == gb.body@,
{
    assert(keys_of(a, variant) == keys_of(b, variant));
    assert(types_of_probe(a, variant) == types_of_probe(b, variant));
    lemma_emit_same(ops, a, b, variant, ga.keys@, ga.fuel_local, a.end());
}

/// The maximal probes of every slice of every function.
pub fn codegen_max(ty: CompType, slices: &Vec<SliceResult>, m: &ModuleInfo) -> (r: Result<CodeGenResult, FuelError>)
    requires
        slices@.len() == m.funcs@.len(),
        forall|i: int| 0 <= i < m.funcs@.len() ==> (#[trigger] m.funcs@[i]).ops@.len() < i64::MAX,
        forall|i: int, k: int| 0 <= i < slices@.len() && 0 <= k < slices@[i].slices@.len() ==> probe_ready(
            #[trigger] slices@[i].slices@[k],
            m.funcs@[i].ops@,
        ),
    ensures
        ty is Approx && (exists|i: int| 0 <= i < slices@.len() && slices@[i].slices@.len() > 0) ==> r is Err,
        ty is Exact && (forall|i: int, k: int| 0 <= i < slices@.len() && 0 <= k < slices@[i].slices@.len() ==> crate::ops::loops_close(
            m.funcs@[i].ops@,
            (#[trigger] slices@[i].slices@[k]).start(),
            slices@[i].slices@[k].end(),
        )) ==> r is Ok,
        r matches Ok(res) ==> res.cost_maps@.len() == slices@.len() && forall|i: int| 0 <= i < res.cost_maps@.len() ==> (#[trigger] res.cost_maps@[i])@ == slices_costs(
            m.funcs@[i].ops@,
            slices@[i].slices@,
            Variant::Max,
            slices@[i].slices@.len() as int,
        ),
        r matches Ok(res) ==> res.func_map@.len() == slices@.len() && forall|i: int, k: int|
            0 <= i < slices@.len() && 0 <= k < slices@[i].slices@.len() ==> {
                &&& res.func_map@[i]@.len() == slices@[i].slices@.len()
                &&& (#[trigger] res.func_map@[i]@[k]).fname@ == probe_name(ty, slices@[i].fid, slices@[i].slices@[k].spec_name@)
                &&& keys_sorted(res.func_map@[i]@[k].keys@)
                &&& adds_positive(res.func_map@[i]@[k].body@)
                &&& body_fuel(res.func_map@[i]@[k].body@) == region_cost(
                    m.funcs@[i].ops@,
                    slices@[i].slices@[k].start(),
                    slices@[i].slices@[k].end(),
                    slices@[i].slices@[k].end(),
                )
            },
{
    let r = codegen(ty, Variant::Max, slices, m);
    proof {
        if r is Ok {
            let res = r->Ok_0;
            assert forall|i: int, k: int| 0 <= i < slices@.len() && 0 <= k < slices@[i].slices@.len() implies {
                &&& res.func_map@[i]@.len() == slices@[i].slices@.len()
                &&& (#[trigger] res.func_map@[i]@[k]).fname@ == probe_name(ty, slices@[i].fid, slices@[i].slices@[k].spec_name@)
                &&& keys_sorted(res.func_map@[i]@[k].keys@)
                &&& adds_positive(res.func_map@[i]@[k].body@)
                &&& body_fuel(res.func_map@[i]@[k].body@) == region_cost(
                    m.funcs@[i].ops@,
                    slices@[i].slices@[k].start(),
                    slices@[i].slices@[k].end(),
                    slices@[i].slices@[k].end(),
                )
            } by {
                assert(res.func_map@[i]@.len() == slices@[i].slices@.len());
            }
        }
    }
    r
}

} // verus!
