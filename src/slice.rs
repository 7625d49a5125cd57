use vstd::prelude::*;

use crate::analyze::{callee_type, origin_ok, origins_ok, FuncState, InstrInfo, Origin};
use crate::error::FuelError;
use crate::names::{loop_name, loop_suffix};
use crate::ops::{closes, in_walk, lemma_region_loops_close, loops_close, loops_closed, is_control, is_control_op, region_walk, FuncDef, ModuleInfo, Op, ValType};

verus! {

/// A call result that a slice reads: the call's index, which of its results,
/// and that result's type.
#[derive(Clone, Copy, Debug, PartialEq, Eq, Structural)]
pub struct CallUse {
    pub instr_idx: usize,
    pub result_idx: usize,
    pub ty: ValType,
}

/// Order of call keys: by instruction, then by result.
pub open spec fn key_lt(a: CallUse, b: CallUse) -> bool {
    a.instr_idx < b.instr_idx || (a.instr_idx == b.instr_idx && a.result_idx < b.result_idx)
}

/// Strictly increasing keys, hence no key twice.
pub open spec fn sorted_calls(v: Seq<CallUse>) -> bool {
    forall|a: int, b: int| 0 <= a < b < v.len() ==> key_lt(#[trigger] v[a], #[trigger] v[b])
}

pub open spec fn has_call(v: Seq<CallUse>, instr_idx: int, result_idx: int) -> bool {
    exists|a: int|
        0 <= a < v.len() && (#[trigger] v[a]).instr_idx == instr_idx && v[a].result_idx
            == result_idx
}

fn call_key_lt(a: &CallUse, b: &CallUse) -> (r: bool)
    ensures
        r == key_lt(*a, *b),
{
    a.instr_idx < b.instr_idx || (a.instr_idx == b.instr_idx && a.result_idx < b.result_idx)
}

/// Adds `c` to the sorted list `v` unless its key is there already.
fn insert_call(v: &mut Vec<CallUse>, c: CallUse)
    requires
        sorted_calls(old(v)@),
    ensures
        sorted_calls(final(v)@),
        forall|a: int| 0 <= a < old(v)@.len() ==> final(v)@.contains(#[trigger] old(v)@[a]),
        forall|a: int|
            0 <= a < final(v)@.len() ==> old(v)@.contains(#[trigger] final(v)@[a]) || final(v)@[a]
                == c,
        has_call(final(v)@, c.instr_idx as int, c.result_idx as int),
{
    let mut p: usize = 0;
    while p < v.len() && call_key_lt(&v[p], &c)
        invariant
            p <= v@.len(),
            v@ == old(v)@,
            sorted_calls(v@),
            forall|a: int| 0 <= a < p ==> key_lt(#[trigger] v@[a], c),
        decreases v@.len() - p,
    {
        p = p + 1;
    }
    if p < v.len() && v[p].instr_idx == c.instr_idx && v[p].result_idx == c.result_idx {
        proof {
            assert forall|a: int| 0 <= a < v@.len() implies v@.contains(#[trigger] v@[a]) by {}
        }
        return;
    }
    let ghost before = v@;
    v.insert(p, c);
    proof {
        assert(v@ == before.insert(p as int, c));
        assert forall|a: int, b: int| 0 <= a < b < v@.len() implies key_lt(
            #[trigger] v@[a],
            #[trigger] v@[b],
        ) by {
            if b < p {
            } else if b == p {
            } else if a < p {
                assert(v@[b] == before[b - 1]);
                if p < before.len() {
                    assert(key_lt(c, before[p as int]));
                    if b - 1 > p {
                        assert(key_lt(before[p as int], before[b - 1]));
                    }
                }
            } else if a == p {
                assert(v@[b] == before[b - 1]);
                assert(key_lt(c, before[p as int]));
                if b - 1 > p {
                    assert(key_lt(before[p as int], before[b - 1]));
                }
            } else {
                assert(v@[a] == before[a - 1]);
                assert(v@[b] == before[b - 1]);
            }
        }
        assert forall|a: int| 0 <= a < before.len() implies v@.contains(#[trigger] before[a]) by {
            if a < p {
                assert(v@[a] == before[a]);
            } else {
                assert(v@[a + 1] == before[a]);
            }
        }
        assert forall|a: int| 0 <= a < v@.len() implies before.contains(#[trigger] v@[a])
            || v@[a] == c by {
            if a < p {
                assert(v@[a] == before[a]);
            } else if a > p {
                assert(v@[a] == before[a - 1]);
            }
        }
        assert(v@[p as int] == c);
    }
}

/// The slice of one region of a function body.
///
/// Index sets are masks over the whole body; maps are keyed by the index of
/// the reading instruction.
pub struct Slice {
    /// First index of the region (inclusive).
    pub start_instr_idx: usize,
    /// End of the region (exclusive).
    pub end_instr_idx: usize,
    /// The index of the loop whose body the region is, if it is one.
    pub loop_at: Option<usize>,
    /// Suffix of the probes' names: empty, or `_loop_at_<index>`.
    pub spec_name: String,
    /// Instructions of the maximal backward slice.
    pub max_slice: Vec<bool>,
    /// Instructions of the minimal slice: the branch deciders.
    pub min_slice: Vec<bool>,
    /// Structural instructions kept so the projection stays well formed.
    pub instrs_support: Vec<bool>,
    /// `local.get`s of parameters that the slice reads: parameter and type.
    pub params: Vec<Option<(u32, ValType)>>,
    /// `global.get`s that the slice reads: global and type.
    pub globals: Vec<Option<(u32, ValType)>>,
    /// Loads whose value the slice reads, with the value's type.
    pub loads: Vec<Option<ValType>>,
    /// Direct-call results that the slice reads, sorted by key.
    pub calls: Vec<CallUse>,
    /// Indirect-call results that the slice reads, sorted by key.
    pub call_indirects: Vec<CallUse>,
    /// Branch deciders whose outcome the minimal variant takes as input.
    pub taken: Vec<Option<ValType>>,
}

/// Instructions whose inputs the backward slice traces: computations and
/// control sinks. Loads, calls and reads of state are sources.
pub open spec fn expands(op: Op) -> bool {
    op is Plain || is_control(op)
}

/// A control sink that the region owns.
pub open spec fn seed(ops: Seq<Op>, start: int, end: int, j: int) -> bool {
    in_walk(ops, start, end, j) && is_control(ops[j])
}

pub open spec fn uses(info: InstrInfo, o: Origin) -> bool {
    exists|k: int| 0 <= k < info.inputs@.len() && info.inputs@[k] == o
}

pub open spec fn sources_to(info: InstrInfo, j: int) -> bool {
    exists|k: int| 0 <= k < info.inputs@.len() && (#[trigger] info.inputs@[k]).source() == Some(j)
}

/// Some member of `max` in `[from, end)` that traces its inputs consumes `o`.
pub open spec fn witness(
    instrs: Seq<InstrInfo>,
    ops: Seq<Op>,
    max: Seq<bool>,
    from: int,
    end: int,
    o: Origin,
) -> bool {
    exists|i: int| from <= i < end && max[i] && expands(ops[i]) && #[trigger] uses(instrs[i], o)
}

/// Type of result `r` of the call `op`.
pub open spec fn call_result(m: ModuleInfo, op: Op, r: int) -> Option<ValType> {
    match callee_type(m, op) {
        Some(t) => if 0 <= t < m.types@.len() && 0 <= r < m.types@[t].results@.len() {
            Some(m.types@[t].results@[r])
        } else {
            None
        },
        None => None,
    }
}

impl Slice {
    pub open spec fn start(&self) -> int {
        self.start_instr_idx as int
    }

    pub open spec fn end(&self) -> int {
        self.end_instr_idx as int
    }

    /// Every table covers the body of `n` instructions.
    pub open spec fn sized(&self, n: int) -> bool {
        &&& n <= usize::MAX
        &&& self.start_instr_idx <= self.end_instr_idx <= n
        &&& self.max_slice@.len() == n
        &&& self.min_slice@.len() == n
        &&& self.instrs_support@.len() == n
        &&& self.params@.len() == n
        &&& self.globals@.len() == n
        &&& self.loads@.len() == n
        &&& self.taken@.len() == n
        &&& sorted_calls(self.calls@)
        &&& sorted_calls(self.call_indirects@)
    }

    /// The slice holds what consuming `o` requires.
    pub open spec fn recorded(&self, o: Origin) -> bool {
        let start = self.start();
        match o {
            Origin::Instr { instr_idx: j } => j < start || self.max_slice@[j as int],
            Origin::Load { instr_idx: j } => j < start || (self.max_slice@[j as int]
                && self.loads@[j as int] is Some),
            Origin::Param { instr_idx: j, .. } => j < start || (self.max_slice@[j as int]
                && self.params@[j as int] is Some),
            Origin::Global { instr_idx: j, .. } => j < start || (self.max_slice@[j as int]
                && self.globals@[j as int] is Some),
            Origin::Call { result_idx: r, instr_idx: j } => j < start || (self.max_slice@[j as int]
                && has_call(self.calls@, j as int, r as int)),
            Origin::CallIndirect { result_idx: r, instr_idx: j } => j < start || (
            self.max_slice@[j as int] && has_call(self.call_indirects@, j as int, r as int)),
            Origin::Untracked => true,
        }
    }

    /// Every entry is justified by a consumer in `[from, end)`.
    pub open spec fn sound(
        &self,
        m: ModuleInfo,
        sig: Seq<ValType>,
        instrs: Seq<InstrInfo>,
        ops: Seq<Op>,
        from: int,
    ) -> bool {
        &&& forall|j: int|
            0 <= j < self.max_slice@.len() && #[trigger] self.max_slice@[j] ==> self.start() <= j < self.end() && (seed(ops, self.start(), self.end(), j)
                || exists|i: int|
                from <= i < self.end() && self.max_slice@[i] && expands(ops[i]) && #[trigger] sources_to(
                    instrs[i],
                    j,
                ))
        &&& forall|j: int|
            0 <= j < self.loads@.len() && (#[trigger] self.loads@[j]) is Some ==> self.start() <= j && ops[j]
                == Op::Load(self.loads@[j]->0) && witness(
                instrs,
                ops,
                self.max_slice@,
                from,
                self.end(),
                Origin::Load { instr_idx: j as usize },
            )
        &&& forall|j: int|
            0 <= j < self.params@.len() && (#[trigger] self.params@[j]) is Some ==> {
                let (lid, t) = self.params@[j]->0;
                &&& self.start() <= j
                &&& lid < sig.len()
                &&& t == sig[lid as int]
                &&& witness(instrs, ops, self.max_slice@, from, self.end(), Origin::Param { instr_idx: j as usize, lid })
            }
        &&& forall|j: int|
            0 <= j < self.globals@.len() && (#[trigger] self.globals@[j]) is Some ==> {
                let (gid, t) = self.globals@[j]->0;
                &&& self.start() <= j
                &&& gid < m.globals@.len()
                &&& t == m.globals@[gid as int]
                &&& witness(instrs, ops, self.max_slice@, from, self.end(), Origin::Global { instr_idx: j as usize, gid })
            }
        &&& forall|a: int|
            0 <= a < self.calls@.len() ==> {
                let c = #[trigger] self.calls@[a];
                &&& self.start() <= c.instr_idx < ops.len()
                &&& ops[c.instr_idx as int] is Call
                &&& call_result(m, ops[c.instr_idx as int], c.result_idx as int) == Some(c.ty)
                &&& witness(
                    instrs,
                    ops,
                    self.max_slice@,
                    from,
                    self.end(),
                    Origin::Call { result_idx: c.result_idx, instr_idx: c.instr_idx },
                )
            }
        &&& forall|a: int|
            0 <= a < self.call_indirects@.len() ==> {
                let c = #[trigger] self.call_indirects@[a];
                &&& self.start() <= c.instr_idx < ops.len()
                &&& ops[c.instr_idx as int] is CallIndirect
                &&& call_result(m, ops[c.instr_idx as int], c.result_idx as int) == Some(c.ty)
                &&& witness(
                    instrs,
                    ops,
                    self.max_slice@,
                    from,
                    self.end(),
                    Origin::CallIndirect { result_idx: c.result_idx, instr_idx: c.instr_idx },
                )
            }
    }

    /// Members of `[from, end)` that trace their inputs have them recorded.
    pub open spec fn closed_from(&self, instrs: Seq<InstrInfo>, ops: Seq<Op>, from: int) -> bool {
        forall|i: int, k: int|
            from <= i < self.end() && self.max_slice@[i] && expands(ops[i]) && 0 <= k
                < instrs[i].inputs@.len() ==> self.recorded(#[trigger] instrs[i].inputs@[k])
    }

    /// `self` is the maximal backward slice of its region of `f`: it holds the
    /// region's control sinks, what the members that trace their inputs consume,
    /// and nothing else.
    pub open spec fn sliced(&self, m: ModuleInfo, f: FuncDef, st: FuncState) -> bool {
        let ops = f.ops@;
        let instrs = st.instrs@;
        let sig = m.types@[f.ty as int].params@;
        &&& self.sized(ops.len() as int)
        &&& forall|j: int| 0 <= j < ops.len() && #[trigger] seed(ops, self.start(), self.end(), j) ==> self.max_slice@[j]
        &&& self.closed_from(instrs, ops, self.start())
        &&& self.sound(m, sig, instrs, ops, self.start())
    }
}

/// `b` holds everything `a` holds, over the same region.
pub open spec fn grows(a: &Slice, b: &Slice) -> bool {
    &&& a.start_instr_idx == b.start_instr_idx
    &&& a.end_instr_idx == b.end_instr_idx
    &&& a.max_slice@.len() == b.max_slice@.len()
    &&& a.loads@.len() == b.loads@.len()
    &&& a.params@.len() == b.params@.len()
    &&& a.globals@.len() == b.globals@.len()
    &&& forall|j: int| 0 <= j < a.max_slice@.len() && #[trigger] a.max_slice@[j] ==> b.max_slice@[j]
    &&& forall|j: int| 0 <= j < a.loads@.len() && (#[trigger] a.loads@[j]) is Some ==> b.loads@[j] is Some
    &&& forall|j: int| 0 <= j < a.params@.len() && (#[trigger] a.params@[j]) is Some ==> b.params@[j] is Some
    &&& forall|j: int| 0 <= j < a.globals@.len() && (#[trigger] a.globals@[j]) is Some ==> b.globals@[j] is Some
    &&& forall|x: int| 0 <= x < a.calls@.len() ==> b.calls@.contains(#[trigger] a.calls@[x])
    &&& forall|x: int| 0 <= x < a.call_indirects@.len() ==> b.call_indirects@.contains(#[trigger] a.call_indirects@[x])
}

pub proof fn lemma_has_call_grows(a: Seq<CallUse>, b: Seq<CallUse>, j: int, r: int)
    requires
        has_call(a, j, r),
        forall|x: int| 0 <= x < a.len() ==> b.contains(#[trigger] a[x]),
    ensures
        has_call(b, j, r),
{
    let x = choose|x: int| 0 <= x < a.len() && (#[trigger] a[x]).instr_idx == j && a[x].result_idx == r;
    assert(b.contains(a[x]));
    let y = choose|y: int| 0 <= y < b.len() && b[y] == a[x];
    assert(b[y].instr_idx == j);
}

pub proof fn lemma_recorded_grows(a: &Slice, b: &Slice, o: Origin)
    requires
        grows(a, b),
        a.recorded(o),
        o.source() matches Some(j) ==> j < a.max_slice@.len() && j < a.loads@.len() && j < a.params@.len() && j < a.globals@.len(),
    ensures
        b.recorded(o),
{
    match o {
        Origin::Call { result_idx: r, instr_idx: j } => {
            if j >= a.start() {
                lemma_has_call_grows(a.calls@, b.calls@, j as int, r as int);
            }
        },
        Origin::CallIndirect { result_idx: r, instr_idx: j } => {
            if j >= a.start() {
                lemma_has_call_grows(a.call_indirects@, b.call_indirects@, j as int, r as int);
            }
        },
        _ => {},
    }
}

impl Slice {
    /// A slice of `[start, end)` of a body of `n` instructions that holds nothing.
    fn empty(n: usize, start: usize, end: usize, loop_at: Option<usize>, spec_name: String) -> (r: Slice)
        requires
            start <= end <= n,
        ensures
            r.sized(n as int),
            r.start_instr_idx == start,
            r.end_instr_idx == end,
            r.loop_at == loop_at,
            r.spec_name@ == spec_name@,
            r.calls@.len() == 0,
            r.call_indirects@.len() == 0,
            forall|j: int| 0 <= j < n ==> !(#[trigger] r.max_slice@[j]),
            forall|j: int| 0 <= j < n ==> !(#[trigger] r.min_slice@[j]),
            forall|j: int| 0 <= j < n ==> !(#[trigger] r.instrs_support@[j]),
            forall|j: int| 0 <= j < n ==> (#[trigger] r.params@[j]) is None,
            forall|j: int| 0 <= j < n ==> (#[trigger] r.globals@[j]) is None,
            forall|j: int| 0 <= j < n ==> (#[trigger] r.loads@[j]) is None,
            forall|j: int| 0 <= j < n ==> (#[trigger] r.taken@[j]) is None,
    {
        let mut max_slice: Vec<bool> = Vec::new();
        let mut min_slice: Vec<bool> = Vec::new();
        let mut instrs_support: Vec<bool> = Vec::new();
        let mut params: Vec<Option<(u32, ValType)>> = Vec::new();
        let mut globals: Vec<Option<(u32, ValType)>> = Vec::new();
        let mut loads: Vec<Option<ValType>> = Vec::new();
        let mut taken: Vec<Option<ValType>> = Vec::new();
        let mut k: usize = 0;
        while k < n
            invariant
                k <= n,
                max_slice@.len() == k && min_slice@.len() == k && instrs_support@.len() == k,
                params@.len() == k && globals@.len() == k && loads@.len() == k && taken@.len() == k,
                forall|j: int| 0 <= j < k ==> !(#[trigger] max_slice@[j]),
                forall|j: int| 0 <= j < k ==> !(#[trigger] min_slice@[j]),
                forall|j: int| 0 <= j < k ==> !(#[trigger] instrs_support@[j]),
                forall|j: int| 0 <= j < k ==> (#[trigger] params@[j]) is None,
                forall|j: int| 0 <= j < k ==> (#[trigger] globals@[j]) is None,
                forall|j: int| 0 <= j < k ==> (#[trigger] loads@[j]) is None,
                forall|j: int| 0 <= j < k ==> (#[trigger] taken@[j]) is None,
            decreases n - k,
        {
            max_slice.push(false);
            min_slice.push(false);
            instrs_support.push(false);
            params.push(None);
            globals.push(None);
            loads.push(None);
            taken.push(None);
            k = k + 1;
        }
        Slice {
            start_instr_idx: start,
            end_instr_idx: end,
            loop_at,
            spec_name,
            max_slice,
            min_slice,
            instrs_support,
            params,
            globals,
            loads,
            calls: Vec::new(),
            call_indirects: Vec::new(),
            taken,
        }
    }

    /// A slice of nothing, to stand in a vector while its slot is worked on.
    pub fn placeholder() -> (r: Slice) {
        Slice {
            start_instr_idx: 0,
            end_instr_idx: 0,
            loop_at: None,
            spec_name: String::new(),
            max_slice: Vec::new(),
            min_slice: Vec::new(),
            instrs_support: Vec::new(),
            params: Vec::new(),
            globals: Vec::new(),
            loads: Vec::new(),
            calls: Vec::new(),
            call_indirects: Vec::new(),
            taken: Vec::new(),
        }
    }

    /// Records what consuming `o` requires: the instruction it points at and,
    /// for a source of state, its entry.
    fn record(&mut self, m: &ModuleInfo, ops: &Vec<Op>, sig: &Vec<ValType>, fid: u32, o: Origin) -> (r: Result<(), FuelError>)
        requires
            old(self).sized(ops@.len() as int),
            o.before(ops@.len() as int),
            origin_ok(*m, ops@, sig@.len(), o),
        ensures
            r is Ok,
            final(self).sized(ops@.len() as int),
            grows(old(self), final(self)),
            final(self).loop_at == old(self).loop_at,
            final(self).spec_name@ == old(self).spec_name@,
            final(self).min_slice@ == old(self).min_slice@,
            final(self).instrs_support@ == old(self).instrs_support@,
            final(self).taken@ == old(self).taken@,
            r is Ok ==> final(self).recorded(o),
            forall|j: int| 0 <= j < ops@.len() && #[trigger] final(self).max_slice@[j] ==> old(self).max_slice@[j] || (o.source() == Some(j) && old(self).start() <= j),
            forall|j: int| 0 <= j < ops@.len() && #[trigger] final(self).loads@[j] != old(self).loads@[j] ==>
                o == (Origin::Load { instr_idx: j as usize }) && old(self).start() <= j && final(self).loads@[j] is Some && ops@[j] == Op::Load(final(self).loads@[j]->0),
            forall|j: int| 0 <= j < ops@.len() && #[trigger] final(self).params@[j] != old(self).params@[j] ==> {
                let (x, t) = final(self).params@[j]->0;
                &&& final(self).params@[j] is Some
                &&& old(self).start() <= j
                &&& o == (Origin::Param { instr_idx: j as usize, lid: x })
                &&& x < sig@.len()
                &&& t == sig@[x as int]
            },
            forall|j: int| 0 <= j < ops@.len() && #[trigger] final(self).globals@[j] != old(self).globals@[j] ==> {
                let (x, t) = final(self).globals@[j]->0;
                &&& final(self).globals@[j] is Some
                &&& old(self).start() <= j
                &&& o == (Origin::Global { instr_idx: j as usize, gid: x })
                &&& x < m.globals@.len()
                &&& t == m.globals@[x as int]
            },
            forall|x: int| 0 <= x < final(self).calls@.len() ==> old(self).calls@.contains(#[trigger] final(self).calls@[x]) || {
                let c = final(self).calls@[x];
                &&& o == (Origin::Call { result_idx: c.result_idx, instr_idx: c.instr_idx })
                &&& old(self).start() <= c.instr_idx < ops@.len()
                &&& ops@[c.instr_idx as int] is Call
                &&& call_result(*m, ops@[c.instr_idx as int], c.result_idx as int) == Some(c.ty)
            },
            forall|x: int| 0 <= x < final(self).call_indirects@.len() ==> old(self).call_indirects@.contains(#[trigger] final(self).call_indirects@[x]) || {
                let c = final(self).call_indirects@[x];
                &&& o == (Origin::CallIndirect { result_idx: c.result_idx, instr_idx: c.instr_idx })
                &&& old(self).start() <= c.instr_idx < ops@.len()
                &&& ops@[c.instr_idx as int] is CallIndirect
                &&& call_result(*m, ops@[c.instr_idx as int], c.result_idx as int) == Some(c.ty)
            },
    {
        let bad = FuelError::InvariantViolation { stage: crate::error::Stage::Slicing, fid, idx: self.start_instr_idx };
        match o {
            Origin::Instr { instr_idx: j } => {
                if j >= self.start_instr_idx {
                    self.max_slice.set(j, true);
                }
            },
            Origin::Load { instr_idx: j } => {
                if j >= self.start_instr_idx {
                    match ops[j] {
                        Op::Load(t) => {
                            self.loads.set(j, Some(t));
                            self.max_slice.set(j, true);
                        },
                        _ => {
                            return Err(bad);
                        },
                    }
                }
            },
            Origin::Param { instr_idx: j, lid } => {
                if j >= self.start_instr_idx {
                    if (lid as usize) < sig.len() {
                        self.params.set(j, Some((lid, sig[lid as usize])));
                        self.max_slice.set(j, true);
                    } else {
                        return Err(bad);
                    }
                }
            },
            Origin::Global { instr_idx: j, gid } => {
                if j >= self.start_instr_idx {
                    if (gid as usize) < m.globals.len() {
                        self.globals.set(j, Some((gid, m.globals[gid as usize])));
                        self.max_slice.set(j, true);
                    } else {
                        return Err(FuelError::MalformedModule { fid, idx: j });
                    }
                }
            },
            Origin::Call { result_idx: r, instr_idx: j } | Origin::CallIndirect { result_idx: r, instr_idx: j } => {
                if j >= self.start_instr_idx {
                    let direct = matches!(o, Origin::Call { .. });
                    let op = ops[j];
                    if direct != matches!(op, Op::Call(_)) || !(matches!(op, Op::Call(_)) || matches!(op, Op::CallIndirect(_))) {
                        return Err(bad);
                    }
                    let ty = match call_result_exec(m, op, r) {
                        Some(t) => t,
                        None => {
                            return Err(FuelError::MalformedModule { fid, idx: j });
                        },
                    };
                    let c = CallUse { instr_idx: j, result_idx: r, ty };
                    if direct {
                        insert_call(&mut self.calls, c);
                    } else {
                        insert_call(&mut self.call_indirects, c);
                    }
                    self.max_slice.set(j, true);
                }
            },
            Origin::Untracked => {},
        }
        Ok(())
    }
}

fn expands_op(op: &Op) -> (r: bool)
    ensures
        r == expands(*op),
{
    matches!(op, Op::Plain { .. }) || is_control_op(op)
}

/// The maximal backward slice of `[start, end)`, whose owned instructions
/// are marked in `own`.
#[verifier::rlimit(60)]
fn slice_region(
    m: &ModuleInfo,
    f: &FuncDef,
    st: &FuncState,
    start: usize,
    end: usize,
    loop_at: Option<usize>,
    own: &Vec<bool>,
    spec_name: String,
) -> (r: Result<Slice, FuelError>)
    requires
        st.fits(f.ops@),
        st.inputs_ok(*m, f.ops@),
        st.total_params == m.types@[f.ty as int].params@.len(),
        (f.ty as int) < m.types@.len(),
        start <= end <= f.ops@.len(),
        own@.len() == f.ops@.len(),
        forall|j: int| 0 <= j < f.ops@.len() ==> #[trigger] own@[j] == in_walk(f.ops@, start as int, end as int, j),
    ensures
        r is Ok,
        r matches Ok(s) ==> {
            &&& s.sliced(*m, *f, *st)
            &&& s.start_instr_idx == start
            &&& s.end_instr_idx == end
            &&& s.loop_at == loop_at
            &&& s.spec_name@ == spec_name@
            &&& forall|j: int| 0 <= j < f.ops@.len() ==> !(#[trigger] s.min_slice@[j])
            &&& forall|j: int| 0 <= j < f.ops@.len() ==> !(#[trigger] s.instrs_support@[j])
            &&& forall|j: int| 0 <= j < f.ops@.len() ==> (#[trigger] s.taken@[j]) is None
        },
{
    let n = f.ops.len();
    let sig = &m.types[f.ty as usize].params;
    let ghost ops = f.ops@;
    let ghost instrs = st.instrs@;
    let mut sl = Slice::empty(n, start, end, loop_at, spec_name);
    let mut j: usize = start;
    while j < end
        invariant
            start <= j <= end <= n == ops.len(),
            sl.sized(n as int),
            sl.start_instr_idx == start && sl.end_instr_idx == end,
            sl.loop_at == loop_at && sl.spec_name@ == spec_name@,
            sl.calls@.len() == 0 && sl.call_indirects@.len() == 0,
            ops == f.ops@,
            own@.len() == n,
            forall|x: int| 0 <= x < n ==> #[trigger] own@[x] == in_walk(ops, start as int, end as int, x),
            forall|x: int| 0 <= x < n ==> !(#[trigger] sl.min_slice@[x]),
            forall|x: int| 0 <= x < n ==> !(#[trigger] sl.instrs_support@[x]),
            forall|x: int| 0 <= x < n ==> (#[trigger] sl.params@[x]) is None,
            forall|x: int| 0 <= x < n ==> (#[trigger] sl.globals@[x]) is None,
            forall|x: int| 0 <= x < n ==> (#[trigger] sl.loads@[x]) is None,
            forall|x: int| 0 <= x < n ==> (#[trigger] sl.taken@[x]) is None,
            forall|x: int| 0 <= x < n && #[trigger] sl.max_slice@[x] ==> seed(ops, start as int, end as int, x),
            forall|x: int| start <= x < j && #[trigger] seed(ops, start as int, end as int, x) ==> sl.max_slice@[x],
        decreases end - j,
    {
        if own[j] && is_control_op(&f.ops[j]) {
            sl.max_slice.set(j, true);
        }
        j = j + 1;
    }
    proof {
        assert forall|x: int| 0 <= x < n && #[trigger] seed(ops, start as int, end as int, x) implies sl.max_slice@[x] by {
            crate::ops::lemma_in_walk_range(ops, start as int, end as int, x);
        }
        assert forall|x: int| 0 <= x < n && #[trigger] sl.max_slice@[x] implies start <= x < end by {
            crate::ops::lemma_in_walk_range(ops, start as int, end as int, x);
        }
    }
    let mut p: usize = end;
    while p > start
        invariant
            start <= p <= end <= n == ops.len(),
            ops == f.ops@,
            instrs == st.instrs@,
            st.fits(ops),
            st.inputs_ok(*m, ops),
            st.total_params == sig@.len(),
            sig@ == m.types@[f.ty as int].params@,
            sl.sized(n as int),
            sl.start_instr_idx == start && sl.end_instr_idx == end,
            sl.loop_at == loop_at && sl.spec_name@ == spec_name@,
            forall|x: int| 0 <= x < n ==> !(#[trigger] sl.min_slice@[x]),
            forall|x: int| 0 <= x < n ==> !(#[trigger] sl.instrs_support@[x]),
            forall|x: int| 0 <= x < n ==> (#[trigger] sl.taken@[x]) is None,
            forall|x: int| 0 <= x < n && #[trigger] seed(ops, start as int, end as int, x) ==> sl.max_slice@[x],
            sl.sound(*m, sig@, instrs, ops, p as int),
            sl.closed_from(instrs, ops, p as int),
        decreases p,
    {
        p = p - 1;
        let ghost gp = p as int;
        proof {
            assert(sl.sound(*m, sig@, instrs, ops, gp));
        }
        if sl.max_slice[p] && expands_op(&f.ops[p]) {
            let info = &st.instrs[p];
            assert(crate::analyze::info_fits(instrs[gp], ops[gp], gp));
            let mut k: usize = 0;
            while k < info.inputs.len()
                invariant
                    start <= p < end <= n == ops.len(),
                    gp == p as int,
                    ops == f.ops@,
                    instrs == st.instrs@,
                    st.fits(ops),
                    st.inputs_ok(*m, ops),
                    st.total_params == sig@.len(),
                    *info == instrs[gp],
                    crate::analyze::all_before(info.inputs@, gp),
                    sig@ == m.types@[f.ty as int].params@,
                    sl.sized(n as int),
                    sl.start_instr_idx == start && sl.end_instr_idx == end,
                    sl.loop_at == loop_at && sl.spec_name@ == spec_name@,
                    forall|x: int| 0 <= x < n ==> !(#[trigger] sl.min_slice@[x]),
                    forall|x: int| 0 <= x < n ==> !(#[trigger] sl.instrs_support@[x]),
                    forall|x: int| 0 <= x < n ==> (#[trigger] sl.taken@[x]) is None,
                    forall|x: int| 0 <= x < n && #[trigger] seed(ops, start as int, end as int, x) ==> sl.max_slice@[x],
                    sl.max_slice@[gp],
                    expands(ops[gp]),
                    sl.sound(*m, sig@, instrs, ops, gp),
                    sl.closed_from(instrs, ops, gp + 1),
                    forall|kk: int| 0 <= kk < k ==> sl.recorded(#[trigger] info.inputs@[kk]),
                decreases info.inputs@.len() - k,
            {
                let o = info.inputs[k];
                let ghost prev = sl;
                assert(st.instrs@[gp].inputs@[k as int] == o);
                assert(origins_ok(*m, ops, st.total_params as nat, st.instrs@[gp].inputs@));
                assert(origin_ok(*m, ops, sig@.len(), o));
                assert(o.before(gp));
                proof {
                    crate::analyze::lemma_before_mono(o, gp, n as int);
                    assert(prev.start() == start as int && prev.end() == end as int);
                }
                proof {
                    assert forall|i: int| 0 <= i < ops.len() implies crate::analyze::all_before(#[trigger] instrs[i].inputs@, i) by {
                        assert(crate::analyze::info_fits(instrs[i], ops[i], i));
                    }
                }
                match sl.record(m, &f.ops, sig, f.fid, o) {
                    Ok(()) => {},
                    Err(e) => {
                        return Err(e);
                    },
                }
                proof {
                    assert(uses(instrs[gp], o)) by {
                        assert(info.inputs@[k as int] == o);
                    }
                    lemma_record_keeps(&prev, &sl, *m, sig@, instrs, ops, gp, o);
                    assert forall|kk: int| 0 <= kk < k + 1 implies sl.recorded(#[trigger] info.inputs@[kk]) by {
                        if kk < k {
                            let q = info.inputs@[kk];
                            assert(q.before(gp));
                            lemma_recorded_grows(&prev, &sl, q);
                        }
                    }
                }
                k = k + 1;
            }
            proof {
                assert forall|i: int, kk: int|
                    gp <= i < sl.end() && sl.max_slice@[i] && expands(ops[i]) && 0 <= kk < instrs[i].inputs@.len()
                    implies sl.recorded(#[trigger] instrs[i].inputs@[kk]) by {
                    if i == gp {
                        assert(info.inputs@[kk] == instrs[i].inputs@[kk]);
                    }
                }
            }
        }
    }
    Ok(sl)
}

/// One `record` of an input of member `p` keeps the slice sound from `p`
/// and closed above `p`.
proof fn lemma_record_keeps(
    a: &Slice,
    b: &Slice,
    m: ModuleInfo,
    sig: Seq<ValType>,
    instrs: Seq<InstrInfo>,
    ops: Seq<Op>,
    p: int,
    o: Origin,
)
    requires
        a.sized(ops.len() as int),
        b.sized(ops.len() as int),
        grows(a, b),
        instrs.len() == ops.len(),
        forall|i: int| 0 <= i < ops.len() ==> crate::analyze::all_before(#[trigger] instrs[i].inputs@, i),
        a.start() <= p < a.end(),
        a.max_slice@[p],
        expands(ops[p]),
        uses(instrs[p], o),
        o.before(p),
        a.sound(m, sig, instrs, ops, p),
        a.closed_from(instrs, ops, p + 1),
        forall|j: int| 0 <= j < ops.len() && #[trigger] b.max_slice@[j] ==> a.max_slice@[j] || (o.source() == Some(j) && a.start() <= j),
        forall|j: int| 0 <= j < ops.len() && #[trigger] b.loads@[j] != a.loads@[j] ==>
            o == (Origin::Load { instr_idx: j as usize }) && a.start() <= j && b.loads@[j] is Some && ops[j] == Op::Load(b.loads@[j]->0),
        forall|j: int| 0 <= j < ops.len() && #[trigger] b.params@[j] != a.params@[j] ==> {
            let (x, t) = b.params@[j]->0;
            &&& b.params@[j] is Some
            &&& a.start() <= j
            &&& o == (Origin::Param { instr_idx: j as usize, lid: x })
            &&& x < sig.len()
            &&& t == sig[x as int]
        },
        forall|j: int| 0 <= j < ops.len() && #[trigger] b.globals@[j] != a.globals@[j] ==> {
            let (x, t) = b.globals@[j]->0;
            &&& b.globals@[j] is Some
            &&& a.start() <= j
            &&& o == (Origin::Global { instr_idx: j as usize, gid: x })
            &&& x < m.globals@.len()
            &&& t == m.globals@[x as int]
        },
        forall|x: int| 0 <= x < b.calls@.len() ==> a.calls@.contains(#[trigger] b.calls@[x]) || {
            let c = b.calls@[x];
            &&& o == (Origin::Call { result_idx: c.result_idx, instr_idx: c.instr_idx })
            &&& a.start() <= c.instr_idx < ops.len()
            &&& ops[c.instr_idx as int] is Call
            &&& call_result(m, ops[c.instr_idx as int], c.result_idx as int) == Some(c.ty)
        },
        forall|x: int| 0 <= x < b.call_indirects@.len() ==> a.call_indirects@.contains(#[trigger] b.call_indirects@[x]) || {
            let c = b.call_indirects@[x];
            &&& o == (Origin::CallIndirect { result_idx: c.result_idx, instr_idx: c.instr_idx })
            &&& a.start() <= c.instr_idx < ops.len()
            &&& ops[c.instr_idx as int] is CallIndirect
            &&& call_result(m, ops[c.instr_idx as int], c.result_idx as int) == Some(c.ty)
        },
    ensures
        b.sound(m, sig, instrs, ops, p),
        b.closed_from(instrs, ops, p + 1),
        b.max_slice@[p],
{
    let (start, end) = (a.start(), a.end());
    assert(b.max_slice@[p]);
    let k0 = choose|k: int| 0 <= k < instrs[p].inputs@.len() && instrs[p].inputs@[k] == o;
    // every old witness is still one
    assert forall|q: Origin| witness(instrs, ops, a.max_slice@, p, end, q) implies witness(instrs, ops, b.max_slice@, p, end, q) by {
        let i = choose|i: int| p <= i < end && a.max_slice@[i] && expands(ops[i]) && #[trigger] uses(instrs[i], q);
        assert(b.max_slice@[i]);
    }
    assert(witness(instrs, ops, b.max_slice@, p, end, o)) by {
        assert(uses(instrs[p], o));
    }
    assert forall|j: int| 0 <= j < b.max_slice@.len() && #[trigger] b.max_slice@[j] implies start <= j < end && (seed(ops, start, end, j)
        || exists|i: int| p <= i < end && b.max_slice@[i] && expands(ops[i]) && #[trigger] sources_to(instrs[i], j)) by {
        if a.max_slice@[j] {
            assert(start <= j < end && (seed(ops, start, end, j)
                || exists|i: int| p <= i < end && a.max_slice@[i] && expands(ops[i]) && #[trigger] sources_to(instrs[i], j)));
            if !seed(ops, start, end, j) {
                let i = choose|i: int| p <= i < end && a.max_slice@[i] && expands(ops[i]) && #[trigger] sources_to(instrs[i], j);
                assert(0 <= i < a.max_slice@.len());
                assert(b.max_slice@[i]);
            }
        } else {
            assert(instrs[p].inputs@[k0].source() == Some(j));
            assert(sources_to(instrs[p], j));
        }
    }
    assert forall|j: int| 0 <= j < b.loads@.len() && (#[trigger] b.loads@[j]) is Some implies start <= j && ops[j]
        == Op::Load(b.loads@[j]->0) && witness(instrs, ops, b.max_slice@, p, end, Origin::Load { instr_idx: j as usize }) by {
        if b.loads@[j] == a.loads@[j] {
        }
    }
    assert forall|j: int| 0 <= j < b.params@.len() && (#[trigger] b.params@[j]) is Some implies {
        let (lid, t) = b.params@[j]->0;
        &&& start <= j
        &&& lid < sig.len()
        &&& t == sig[lid as int]
        &&& witness(instrs, ops, b.max_slice@, p, end, Origin::Param { instr_idx: j as usize, lid })
    } by {
        if b.params@[j] == a.params@[j] {
        }
    }
    assert forall|j: int| 0 <= j < b.globals@.len() && (#[trigger] b.globals@[j]) is Some implies {
        let (gid, t) = b.globals@[j]->0;
        &&& start <= j
        &&& gid < m.globals@.len()
        &&& t == m.globals@[gid as int]
        &&& witness(instrs, ops, b.max_slice@, p, end, Origin::Global { instr_idx: j as usize, gid })
    } by {
        if b.globals@[j] == a.globals@[j] {
        }
    }
    assert forall|x: int| 0 <= x < b.calls@.len() implies {
        let c = #[trigger] b.calls@[x];
        &&& start <= c.instr_idx < ops.len()
        &&& ops[c.instr_idx as int] is Call
        &&& call_result(m, ops[c.instr_idx as int], c.result_idx as int) == Some(c.ty)
        &&& witness(instrs, ops, b.max_slice@, p, end, Origin::Call { result_idx: c.result_idx, instr_idx: c.instr_idx })
    } by {
        let c = b.calls@[x];
        if a.calls@.contains(c) {
            let y = choose|y: int| 0 <= y < a.calls@.len() && a.calls@[y] == c;
            assert(a.calls@[y] == c);
        }
    }
    assert forall|x: int| 0 <= x < b.call_indirects@.len() implies {
        let c = #[trigger] b.call_indirects@[x];
        &&& start <= c.instr_idx < ops.len()
        &&& ops[c.instr_idx as int] is CallIndirect
        &&& call_result(m, ops[c.instr_idx as int], c.result_idx as int) == Some(c.ty)
        &&& witness(instrs, ops, b.max_slice@, p, end, Origin::CallIndirect { result_idx: c.result_idx, instr_idx: c.instr_idx })
    } by {
        let c = b.call_indirects@[x];
        if a.call_indirects@.contains(c) {
            let y = choose|y: int| 0 <= y < a.call_indirects@.len() && a.call_indirects@[y] == c;
            assert(a.call_indirects@[y] == c);
        }
    }
    assert forall|i: int, k: int|
        p + 1 <= i < b.end() && b.max_slice@[i] && expands(ops[i]) && 0 <= k < instrs[i].inputs@.len()
        implies b.recorded(#[trigger] instrs[i].inputs@[k]) by {
        assert(a.max_slice@[i]);
        let q = instrs[i].inputs@[k];
        assert(q.before(i));
        lemma_recorded_grows(a, b, q);
    }
}

/// The slices of one function: one for the whole body, one per loop body.
pub struct SliceResult {
    pub fid: u32,
    pub total_params: usize,
    pub slices: Vec<Slice>,
}

/// `s` covers the whole body of `n` instructions, or the body of a loop.
pub open spec fn region_ok(s: &Slice, ops: Seq<Op>) -> bool {
    &&& loops_close(ops, s.start(), s.end())
    &&& match s.loop_at {
        None => s.start_instr_idx == 0 && s.end_instr_idx == ops.len() && s.spec_name@ == Seq::<char>::empty(),
        Some(o) => o + 1 == s.start_instr_idx && closes(ops, o as int, s.end_instr_idx as int) && ops[o as int] is Loop
            && s.spec_name@ == loop_suffix(o as nat),
    }
}

impl SliceResult {
    fn new(fid: u32, total_params: usize) -> (r: Self)
        ensures
            r.fid == fid,
            r.total_params == total_params,
            r.slices@.len() == 0,
    {
        SliceResult { fid, total_params, slices: Vec::new() }
    }

    fn add_slice(&mut self, slice: Slice)
        ensures
            final(self).slices@ == old(self).slices@.push(slice),
            final(self).fid == old(self).fid,
            final(self).total_params == old(self).total_params,
    {
        self.slices.push(slice);
    }

    /// No slice has support, a minimal slice or tokens yet.
    pub open spec fn fresh(&self, n: int) -> bool {
        forall|k: int, j: int| 0 <= k < self.slices@.len() && 0 <= j < n ==> {
            &&& !(#[trigger] self.slices@[k].instrs_support@[j])
            &&& !self.slices@[k].min_slice@[j]
            &&& self.slices@[k].taken@[j] is None
        }
    }

    /// Every slice is the maximal slice of a region of `f`.
    pub open spec fn sliced(&self, m: ModuleInfo, f: FuncDef, st: FuncState) -> bool {
        &&& self.fid == f.fid
        &&& forall|k: int| 0 <= k < self.slices@.len() ==> {
            &&& (#[trigger] self.slices@[k]).sliced(m, f, st)
            &&& region_ok(&self.slices@[k], f.ops@)
        }
    }
}

/// Slicedness depends only on the region, the maximal slice and the maps.
pub proof fn lemma_sliced_same(x: &Slice, z: &Slice, m: ModuleInfo, f: FuncDef, st: FuncState)
    requires
        x.sliced(m, f, st),
        z.sized(f.ops@.len() as int),
        z.start_instr_idx == x.start_instr_idx,
        z.end_instr_idx == x.end_instr_idx,
        z.max_slice@ == x.max_slice@,
        z.params@ == x.params@,
        z.globals@ == x.globals@,
        z.loads@ == x.loads@,
        z.calls@ == x.calls@,
        z.call_indirects@ == x.call_indirects@,
    ensures
        z.sliced(m, f, st),
{
    assert forall|o: Origin| x.recorded(o) == z.recorded(o) by {}
    let sig = m.types@[f.ty as int].params@;
    assert(z.sound(m, sig, st.instrs@, f.ops@, z.start()));
    assert(z.closed_from(st.instrs@, f.ops@, z.start()));
}

/// What a recorded origin points at inside the region is in the slice.
proof fn lemma_recorded_member(a: &Slice, o: Origin, j: int)
    requires
        a.recorded(o),
        o.source() == Some(j),
        j >= a.start(),
    ensures
        a.max_slice@[j],
{
}

/// If two maximal slices of a region agree above `j`, membership of `j` in
/// the first carries over to the second.
proof fn lemma_member_one_way(x: &Slice, y: &Slice, m: ModuleInfo, f: FuncDef, st: FuncState, j: int)
    requires
        x.sliced(m, f, st),
        y.sliced(m, f, st),
        st.fits(f.ops@),
        x.start_instr_idx == y.start_instr_idx,
        x.end_instr_idx == y.end_instr_idx,
        0 <= j < f.ops@.len(),
        forall|i: int| j < i < f.ops@.len() ==> x.max_slice@[i] == y.max_slice@[i],
        x.max_slice@[j],
    ensures
        y.max_slice@[j],
{
    let ops = f.ops@;
    let instrs = st.instrs@;
    let sig = m.types@[f.ty as int].params@;
    assert(x.sound(m, sig, instrs, ops, x.start()));
    if !seed(ops, x.start(), x.end(), j) {
        let i = choose|i: int| x.start() <= i < x.end() && x.max_slice@[i] && expands(ops[i]) && #[trigger] sources_to(instrs[i], j);
        let k = choose|k: int| 0 <= k < instrs[i].inputs@.len() && (#[trigger] instrs[i].inputs@[k]).source() == Some(j);
        assert(crate::analyze::info_fits(instrs[i], ops[i], i));
        assert(instrs[i].inputs@[k].before(i));
        assert(y.max_slice@[i]);
        assert(y.closed_from(instrs, ops, y.start()));
        assert(y.recorded(instrs[i].inputs@[k]));
        lemma_recorded_member(y, instrs[i].inputs@[k], j);
    } else {
        assert(seed(ops, y.start(), y.end(), j));
    }
}

/// The per-instruction entries of one maximal slice are in another with the
/// same members.
proof fn lemma_entry_transfer(x: &Slice, y: &Slice, m: ModuleInfo, f: FuncDef, st: FuncState, j: int)
    requires
        x.sliced(m, f, st),
        y.sliced(m, f, st),
        x.max_slice@ == y.max_slice@,
        x.start_instr_idx == y.start_instr_idx,
        x.end_instr_idx == y.end_instr_idx,
        0 <= j < f.ops@.len(),
    ensures
        x.loads@[j] is Some ==> y.loads@[j] == x.loads@[j],
        x.params@[j] is Some ==> y.params@[j] is Some,
        x.globals@[j] is Some ==> y.globals@[j] is Some,
{
    let ops = f.ops@;
    let instrs = st.instrs@;
    let sig = m.types@[f.ty as int].params@;
    assert(x.sound(m, sig, instrs, ops, x.start()));
    assert(y.sound(m, sig, instrs, ops, y.start()));
    assert(x.sized(ops.len() as int));
    if x.loads@[j] is Some {
        lemma_witness_recorded(x, y, m, f, st, Origin::Load { instr_idx: j as usize });
    }
    if x.params@[j] is Some {
        let (id, _t) = x.params@[j]->0;
        lemma_witness_recorded(x, y, m, f, st, Origin::Param { instr_idx: j as usize, lid: id });
    }
    if x.globals@[j] is Some {
        let (id, _t) = x.globals@[j]->0;
        lemma_witness_recorded(x, y, m, f, st, Origin::Global { instr_idx: j as usize, gid: id });
    }
}

/// The call entries of one maximal slice are in another with the same members.
proof fn lemma_call_transfer(x: &Slice, y: &Slice, m: ModuleInfo, f: FuncDef, st: FuncState, j: int, r: int)
    requires
        x.sliced(m, f, st),
        y.sliced(m, f, st),
        x.max_slice@ == y.max_slice@,
        x.start_instr_idx == y.start_instr_idx,
        x.end_instr_idx == y.end_instr_idx,
    ensures
        has_call(x.calls@, j, r) ==> has_call(y.calls@, j, r),
        has_call(x.call_indirects@, j, r) ==> has_call(y.call_indirects@, j, r),
{
    let ops = f.ops@;
    let instrs = st.instrs@;
    let sig = m.types@[f.ty as int].params@;
    assert(x.sound(m, sig, instrs, ops, x.start()));
    if has_call(x.calls@, j, r) {
        let a = choose|a: int| 0 <= a < x.calls@.len() && (#[trigger] x.calls@[a]).instr_idx == j && x.calls@[a].result_idx == r;
        let c = x.calls@[a];
        lemma_witness_recorded(x, y, m, f, st, Origin::Call { result_idx: c.result_idx, instr_idx: c.instr_idx });
    }
    if has_call(x.call_indirects@, j, r) {
        let a = choose|a: int| 0 <= a < x.call_indirects@.len() && (#[trigger] x.call_indirects@[a]).instr_idx == j && x.call_indirects@[a].result_idx == r;
        let c = x.call_indirects@[a];
        lemma_witness_recorded(x, y, m, f, st, Origin::CallIndirect { result_idx: c.result_idx, instr_idx: c.instr_idx });
    }
}

/// Two maximal slices of the same region agree on instruction `j`.
proof fn lemma_unique_from(a: &Slice, b: &Slice, m: ModuleInfo, f: FuncDef, st: FuncState, j: int)
    requires
        a.sliced(m, f, st),
        b.sliced(m, f, st),
        st.fits(f.ops@),
        a.start_instr_idx == b.start_instr_idx,
        a.end_instr_idx == b.end_instr_idx,
        0 <= j < f.ops@.len(),
    ensures
        a.max_slice@[j] == b.max_slice@[j],
    decreases f.ops@.len() - j,
{
    assert forall|i: int| j < i < f.ops@.len() implies a.max_slice@[i] == b.max_slice@[i] by {
        lemma_unique_from(a, b, m, f, st, i);
    }
    if a.max_slice@[j] {
        lemma_member_one_way(a, b, m, f, st, j);
    }
    if b.max_slice@[j] {
        lemma_member_one_way(b, a, m, f, st, j);
    }
}

/// What a member of one maximal slice consumes, another with the same
/// members records.
proof fn lemma_witness_recorded(x: &Slice, y: &Slice, m: ModuleInfo, f: FuncDef, st: FuncState, o: Origin)
    requires
        y.sliced(m, f, st),
        x.max_slice@ == y.max_slice@,
        x.start_instr_idx == y.start_instr_idx,
        x.end_instr_idx == y.end_instr_idx,
        witness(st.instrs@, f.ops@, x.max_slice@, x.start(), x.end(), o),
    ensures
        y.recorded(o),
{
    let ops = f.ops@;
    let instrs = st.instrs@;
    let i = choose|i: int| x.start() <= i < x.end() && x.max_slice@[i] && expands(ops[i]) && #[trigger] uses(instrs[i], o);
    let k = choose|k: int| 0 <= k < instrs[i].inputs@.len() && instrs[i].inputs@[k] == o;
    assert(y.closed_from(instrs, ops, y.start()));
    assert(y.recorded(instrs[i].inputs@[k]));
}

/// The maximal slice of a region is unique: two slices of the same region of
/// the same function, each the maximal backward slice there, hold the same
/// instructions, the same loads, and read the same parameters, globals and
/// call results.
pub proof fn lemma_slice_unique(a: &Slice, b: &Slice, m: ModuleInfo, f: FuncDef, st: FuncState)
    requires
        a.sliced(m, f, st),
        b.sliced(m, f, st),
        st.fits(f.ops@),
        a.start_instr_idx == b.start_instr_idx,
        a.end_instr_idx == b.end_instr_idx,
    ensures
        a.max_slice@ == b.max_slice@,
        a.loads@ == b.loads@,
        forall|j: int| 0 <= j < f.ops@.len() ==> (#[trigger] a.params@[j] is Some) == (b.params@[j] is Some),
        forall|j: int| 0 <= j < f.ops@.len() ==> (#[trigger] a.globals@[j] is Some) == (b.globals@[j] is Some),
        forall|j: int, r: int| has_call(a.calls@, j, r) == #[trigger] has_call(b.calls@, j, r),
        forall|j: int, r: int| has_call(a.call_indirects@, j, r) == #[trigger] has_call(b.call_indirects@, j, r),
{
    let ops = f.ops@;
    assert forall|j: int| 0 <= j < ops.len() implies a.max_slice@[j] == b.max_slice@[j] by {
        lemma_unique_from(a, b, m, f, st, j);
    }
    assert(a.max_slice@ =~= b.max_slice@);
    assert forall|j: int| 0 <= j < ops.len() implies #[trigger] a.loads@[j] == b.loads@[j] by {
        lemma_entry_transfer(a, b, m, f, st, j);
        lemma_entry_transfer(b, a, m, f, st, j);
    }
    assert forall|j: int| 0 <= j < ops.len() implies (#[trigger] a.params@[j] is Some) == (b.params@[j] is Some) by {
        lemma_entry_transfer(a, b, m, f, st, j);
        lemma_entry_transfer(b, a, m, f, st, j);
    }
    assert forall|j: int| 0 <= j < ops.len() implies (#[trigger] a.globals@[j] is Some) == (b.globals@[j] is Some) by {
        lemma_entry_transfer(a, b, m, f, st, j);
        lemma_entry_transfer(b, a, m, f, st, j);
    }
    assert(a.loads@ =~= b.loads@);
    assert forall|j: int, r: int| has_call(a.calls@, j, r) == #[trigger] has_call(b.calls@, j, r) by {
        lemma_call_transfer(a, b, m, f, st, j, r);
        lemma_call_transfer(b, a, m, f, st, j, r);
    }
    assert forall|j: int, r: int| has_call(a.call_indirects@, j, r) == #[trigger] has_call(b.call_indirects@, j, r) by {
        lemma_call_transfer(a, b, m, f, st, j, r);
        lemma_call_transfer(b, a, m, f, st, j, r);
    }
}

/// Some slice of `v` from `from` on is the slice of the loop at `o`.
pub open spec fn has_loop_slice(v: Seq<Slice>, from: int, o: int) -> bool {
    exists|q: int| from <= q < v.len() && (#[trigger] v[q]).loop_at == Some(o as usize)
}

/// The slices of `v` from `from` on come in increasing order of their start.
pub open spec fn starts_increasing(v: Seq<Slice>, from: int) -> bool {
    forall|a: int, b: int| from <= a < b < v.len() ==> (#[trigger] v[a]).start_instr_idx < (#[trigger] v[b]).start_instr_idx
}

/// The slices of `v` from `from` on are of distinct loops (or the whole body).
pub open spec fn distinct_loops(v: Seq<Slice>, from: int) -> bool {
    forall|a: int, b: int| from <= a < b < v.len() ==> (#[trigger] v[a]).loop_at != (#[trigger] v[b]).loop_at
}

/// Slices the region `[start, end)` and, recursively, the loops nested in it.
fn slice_into(
    result: &mut SliceResult,
    m: &ModuleInfo,
    f: &FuncDef,
    st: &FuncState,
    start: usize,
    end: usize,
    loop_at: Option<usize>,
) -> (r: Result<(), FuelError>)
    requires
        old(result).sliced(*m, *f, *st),
        old(result).fresh(f.ops@.len() as int),
        st.fits(f.ops@),
        st.inputs_ok(*m, f.ops@),
        st.total_params == m.types@[f.ty as int].params@.len(),
        (f.ty as int) < m.types@.len(),
        start <= end <= f.ops@.len(),
        match loop_at {
            None => start == 0 && end == f.ops@.len(),
            Some(o) => o + 1 == start && closes(f.ops@, o as int, end as int) && f.ops@[o as int] is Loop,
        },
    ensures
        r is Ok ==> final(result).sliced(*m, *f, *st) && final(result).fresh(f.ops@.len() as int),
        loops_closed(f.ops@) ==> r is Ok,
        r matches Err(e) ==> e is MalformedModule,
        r is Ok ==> final(result).slices@.len() > old(result).slices@.len(),
        r is Ok ==> forall|q: int| 0 <= q < old(result).slices@.len() ==> #[trigger] final(result).slices@[q] == old(result).slices@[q],
        r is Ok ==> final(result).slices@[old(result).slices@.len() as int].loop_at == loop_at,
        r is Ok ==> forall|q: int| old(result).slices@.len() < q < final(result).slices@.len() ==> ((#[trigger] final(result).slices@[q]).loop_at matches Some(lo) && start <= lo < end),
        r is Ok ==> distinct_loops(final(result).slices@, old(result).slices@.len() as int),
        r is Ok ==> starts_increasing(final(result).slices@, old(result).slices@.len() as int),
        r is Ok ==> forall|o: int| start <= o < end && (#[trigger] f.ops@[o]) is Loop ==> has_loop_slice(final(result).slices@, old(result).slices@.len() as int, o),
        final(result).total_params == old(result).total_params,
    decreases end - start,
{
    proof {
        if loops_closed(f.ops@) {
            lemma_region_loops_close(f.ops@, start as int, end as int, match loop_at {
                Some(o) => Some(o as int),
                None => None,
            });
        }
    }
    let (own, loops) = match region_walk(&f.ops, start, end) {
        Some(w) => w,
        None => {
            return Err(FuelError::MalformedModule { fid: f.fid, idx: start });
        },
    };
    let name = match loop_at {
        Some(o) => loop_name(o),
        None => String::new(),
    };
    let sl = match slice_region(m, f, st, start, end, loop_at, &own, name) {
        Ok(sl) => sl,
        Err(e) => {
            return Err(e);
        },
    };
    let ghost gs = sl;
    let ghost before = result.slices@;
    result.add_slice(sl);
    proof {
        assert forall|k: int| 0 <= k < result.slices@.len() implies {
            &&& (#[trigger] result.slices@[k]).sliced(*m, *f, *st)
            &&& region_ok(&result.slices@[k], f.ops@)
        } by {
            if k < before.len() {
                assert(result.slices@[k] == before[k]);
            } else {
                assert(result.slices@[k] == gs);
            }
        }
        assert forall|k: int, j: int| 0 <= k < result.slices@.len() && 0 <= j < f.ops@.len() implies {
            &&& !(#[trigger] result.slices@[k].instrs_support@[j])
            &&& !result.slices@[k].min_slice@[j]
            &&& result.slices@[k].taken@[j] is None
        } by {
            if k < before.len() {
                assert(result.slices@[k] == before[k]);
            } else {
                assert(result.slices@[k] == gs);
            }
        }
    }
    let ghost base = before.len() as int;
    proof {
        assert(result.slices@[base] == gs);
        assert(f.ops.len() == f.ops@.len());
    }
    let mut x: usize = 0;
    while x < loops.len()
        invariant
            result.sliced(*m, *f, *st),
            result.fresh(f.ops@.len() as int),
            result.total_params == old(result).total_params,
            result.slices@.len() > old(result).slices@.len(),
            base == old(result).slices@.len(),
            before == old(result).slices@,
            x <= loops@.len(),
            f.ops@.len() <= usize::MAX,
            forall|q: int| 0 <= q < base ==> #[trigger] result.slices@[q] == before[q],
            result.slices@[base].loop_at == loop_at,
            loop_at matches Some(lo) ==> lo + 1 == start,
            forall|q: int| base < q < result.slices@.len() ==> ((#[trigger] result.slices@[q]).loop_at matches Some(lo) && start <= lo
                && x > 0 && lo < loops@[x - 1].1),
            distinct_loops(result.slices@, base),
            starts_increasing(result.slices@, base),
            result.slices@[base].start_instr_idx == start,
            forall|k: int, o: int| #![trigger loops@[k], f.ops@[o]] 0 <= k < x && loops@[k].0 <= o < loops@[k].1 && f.ops@[o] is Loop
                ==> has_loop_slice(result.slices@, base, o),
            forall|k1: int, k2: int| 0 <= k1 < k2 < loops@.len() ==> (#[trigger] loops@[k1]).1 < (#[trigger] loops@[k2]).0,
            own@.len() == f.ops@.len(),
            forall|j: int| 0 <= j < f.ops@.len() ==> #[trigger] own@[j] == in_walk(f.ops@, start as int, end as int, j),
            forall|o: int| 0 <= o < f.ops@.len() && own@[o] && f.ops@[o] is Loop ==> exists|k: int| 0 <= k < loops@.len() && (#[trigger] loops@[k]).0 == o,
            st.fits(f.ops@),
            st.inputs_ok(*m, f.ops@),
            st.total_params == m.types@[f.ty as int].params@.len(),
            (f.ty as int) < m.types@.len(),
            start <= end <= f.ops@.len(),
            forall|k: int| 0 <= k < loops@.len() ==> {
                let (o, e) = #[trigger] loops@[k];
                &&& f.ops@[o as int] is Loop
                &&& closes(f.ops@, o as int, e as int)
                &&& start <= o < e < end
            },
        decreases loops@.len() - x,
    {
        let (o, e) = loops[x];
        let ghost mid = result.slices@;
        match slice_into(result, m, f, st, o + 1, e, Some(o)) {
            Ok(()) => {},
            Err(err) => {
                return Err(err);
            },
        }
        proof {
            let l0 = mid.len() as int;
            let v = result.slices@;
            assert forall|q: int| 0 <= q < base implies #[trigger] v[q] == before[q] by {
                assert(v[q] == mid[q]);
            }
            assert(v[base] == mid[base]);
            assert forall|q: int| base < q < v.len() implies ((#[trigger] v[q]).loop_at matches Some(lo) && start <= lo
                && x + 1 > 0 && lo < loops@[x as int].1) by {
                if q < l0 {
                    assert(v[q] == mid[q]);
                    assert(loops@[x - 1].1 < loops@[x as int].0);
                } else if q == l0 {
                } else {
                }
            }
            assert forall|a: int, b: int| base <= a < b < v.len() implies (#[trigger] v[a]).start_instr_idx < (#[trigger] v[b]).start_instr_idx by {
                assert(region_ok(&v[b], f.ops@));
                if b < l0 {
                    assert(v[a] == mid[a] && v[b] == mid[b]);
                } else if a >= l0 {
                } else {
                    assert(v[a] == mid[a]);
                    assert(region_ok(&v[a], f.ops@));
                    if a > base {
                        assert(loops@[x - 1].1 < loops@[x as int].0);
                    }
                    assert(v[b].loop_at matches Some(lb) && (o as int) <= lb);
                }
            }
            assert forall|a: int, b: int| base <= a < b < v.len() implies (#[trigger] v[a]).loop_at != (#[trigger] v[b]).loop_at by {
                if b < l0 {
                    assert(v[a] == mid[a] && v[b] == mid[b]);
                } else if a >= l0 {
                } else {
                    assert(v[a] == mid[a]);
                    if a > base {
                        assert(loops@[x - 1].1 < loops@[x as int].0);
                    }
                    assert(v[b].loop_at matches Some(lb) && (o as int) <= lb);
                    if a == base {
                        assert(v[a].loop_at == loop_at);
                    }
                }
            }
            assert forall|k: int, oo: int| #![trigger loops@[k], f.ops@[oo]] 0 <= k < x + 1 && loops@[k].0 <= oo < loops@[k].1 && f.ops@[oo] is Loop
                implies has_loop_slice(v, base, oo) by {
                if k < x {
                    assert(has_loop_slice(mid, base, oo));
                    let q = choose|q: int| base <= q < mid.len() && (#[trigger] mid[q]).loop_at == Some(oo as usize);
                    assert(v[q] == mid[q]);
                } else if oo == o {
                    assert(v[l0].loop_at == Some(oo as usize));
                } else {
                    assert(has_loop_slice(v, l0, oo));
                    let q = choose|q: int| l0 <= q < v.len() && (#[trigger] v[q]).loop_at == Some(oo as usize);
                    assert(base <= q);
                }
            }
        }
        x = x + 1;
    }
    proof {
        let v = result.slices@;
        assert forall|oo: int| start <= oo < end && (#[trigger] f.ops@[oo]) is Loop implies has_loop_slice(v, base, oo) by {
            if own@[oo] {
                let k = choose|k: int| 0 <= k < loops@.len() && (#[trigger] loops@[k]).0 == oo;
                assert(loops@[k].0 <= oo < loops@[k].1);
            } else {
                assert(in_walk(f.ops@, start as int, end as int, start as int));
                crate::ops::lemma_walk_cover(f.ops@, start as int, end as int, start as int, oo);
                let (l, le) = choose|l: int, le: int| in_walk(f.ops@, start as int, end as int, l) && f.ops@[l] is Loop
                    && #[trigger] closes(f.ops@, l, le) && l < oo <= le;
                assert(own@[l]);
                let k = choose|k: int| 0 <= k < loops@.len() && (#[trigger] loops@[k]).0 == l;
                crate::ops::lemma_closes_unique(f.ops@, l, le, loops@[k].1 as int);
                assert(loops@[k].0 <= oo < loops@[k].1);
            }
        }
        assert forall|q: int| base < q < v.len() implies ((#[trigger] v[q]).loop_at matches Some(lo) && start <= lo < end) by {
            assert(loops@[x - 1].1 < end);
        }
    }
    Ok(())
}

/// One slice for the whole body, first, then exactly one for each loop, in
/// increasing order of their start.
pub open spec fn one_per_loop(v: Seq<Slice>, ops: Seq<Op>) -> bool {
    &&& v.len() > 0
    &&& v[0].loop_at is None
    &&& forall|q: int| 0 < q < v.len() ==> ((#[trigger] v[q]).loop_at matches Some(lo) && lo < ops.len() && ops[lo as int] is Loop)
    &&& distinct_loops(v, 0)
    &&& starts_increasing(v, 0)
    &&& forall|o: int| 0 <= o < ops.len() && (#[trigger] ops[o]) is Loop ==> has_loop_slice(v, 0, o)
}

/// `one_per_loop` depends only on which loop each slice is of.
pub proof fn lemma_one_per_loop_same(v: Seq<Slice>, w: Seq<Slice>, ops: Seq<Op>)
    requires
        one_per_loop(v, ops),
        v.len() == w.len(),
        forall|q: int| 0 <= q < v.len() ==> #[trigger] w[q].loop_at == v[q].loop_at && w[q].start_instr_idx == v[q].start_instr_idx,
    ensures
        one_per_loop(w, ops),
{
    assert(w[0].loop_at == v[0].loop_at);
    assert forall|q: int| 0 < q < w.len() implies ((#[trigger] w[q]).loop_at matches Some(lo) && lo < ops.len() && ops[lo as int] is Loop) by {
        assert(w[q].loop_at == v[q].loop_at);
    }
    assert forall|a: int, b: int| 0 <= a < b < w.len() implies (#[trigger] w[a]).loop_at != (#[trigger] w[b]).loop_at by {
        assert(w[a].loop_at == v[a].loop_at && w[b].loop_at == v[b].loop_at);
    }
    assert forall|a: int, b: int| 0 <= a < b < w.len() implies (#[trigger] w[a]).start_instr_idx < (#[trigger] w[b]).start_instr_idx by {
        assert(w[a].start_instr_idx == v[a].start_instr_idx && w[b].start_instr_idx == v[b].start_instr_idx);
    }
    assert forall|o: int| 0 <= o < ops.len() && (#[trigger] ops[o]) is Loop implies has_loop_slice(w, 0, o) by {
        assert(has_loop_slice(v, 0, o));
        let q = choose|q: int| 0 <= q < v.len() && (#[trigger] v[q]).loop_at == Some(o as usize);
        assert(w[q].loop_at == v[q].loop_at);
    }
}

/// A parameter or global entry names what its instruction reads.
proof fn lemma_entry_names(x: &Slice, m: ModuleInfo, f: FuncDef, st: FuncState, j: int)
    requires
        x.sliced(m, f, st),
        st.fits(f.ops@),
        st.inputs_ok(m, f.ops@),
        st.total_params == m.types@[f.ty as int].params@.len(),
        0 <= j < f.ops@.len(),
    ensures
        x.params@[j] matches Some((lid, t)) ==> f.ops@[j] == Op::LocalGet(lid) && t == m.types@[f.ty as int].params@[lid as int],
        x.globals@[j] matches Some((g, t)) ==> f.ops@[j] == Op::GlobalGet(g) && t == m.globals@[g as int],
{
    let ops = f.ops@;
    let instrs = st.instrs@;
    let sig = m.types@[f.ty as int].params@;
    assert(x.sound(m, sig, instrs, ops, x.start()));
    assert(x.sized(ops.len() as int));
    assert(instrs.len() == ops.len());
    if let Some((lid, t)) = x.params@[j] {
        let o = Origin::Param { instr_idx: j as usize, lid };
        let i = choose|i: int| x.start() <= i < x.end() && x.max_slice@[i] && expands(ops[i]) && #[trigger] uses(instrs[i], o);
        let k = choose|k: int| 0 <= k < instrs[i].inputs@.len() && instrs[i].inputs@[k] == o;
        assert(origins_ok(m, ops, st.total_params as nat, instrs[i].inputs@));
        assert(origin_ok(m, ops, st.total_params as nat, instrs[i].inputs@[k]));
    }
    if let Some((g, t)) = x.globals@[j] {
        let o = Origin::Global { instr_idx: j as usize, gid: g };
        let i = choose|i: int| x.start() <= i < x.end() && x.max_slice@[i] && expands(ops[i]) && #[trigger] uses(instrs[i], o);
        let k = choose|k: int| 0 <= k < instrs[i].inputs@.len() && instrs[i].inputs@[k] == o;
        assert(origins_ok(m, ops, st.total_params as nat, instrs[i].inputs@));
        assert(origin_ok(m, ops, st.total_params as nat, instrs[i].inputs@[k]));
    }
}

/// Slicing a function again gives the same sets: for every slice of one
/// result, the other has a slice of the same loop (or of the whole body)
/// over the same region, holding the same instructions and loads and reading
/// the same parameters, globals and call results.
pub proof fn lemma_reslice_equal(m: ModuleInfo, f: FuncDef, st: FuncState, a: &SliceResult, b: &SliceResult, k: int)
    requires
        a.sliced(m, f, st),
        b.sliced(m, f, st),
        one_per_loop(a.slices@, f.ops@),
        one_per_loop(b.slices@, f.ops@),
        st.fits(f.ops@),
        st.inputs_ok(m, f.ops@),
        st.total_params == m.types@[f.ty as int].params@.len(),
        0 <= k < a.slices@.len(),
    ensures
        exists|k2: int| 0 <= k2 < b.slices@.len() && {
            let (x, y) = (a.slices@[k], #[trigger] b.slices@[k2]);
            &&& y.loop_at == x.loop_at
            &&& y.start_instr_idx == x.start_instr_idx
            &&& y.end_instr_idx == x.end_instr_idx
            &&& y.max_slice@ == x.max_slice@
            &&& y.loads@ == x.loads@
            &&& y.params@ == x.params@
            &&& y.globals@ == x.globals@
            &&& forall|c: CallUse| y.calls@.contains(c) <==> x.calls@.contains(c)
            &&& forall|c: CallUse| y.call_indirects@.contains(c) <==> x.call_indirects@.contains(c)
        },
{
    let x = a.slices@[k];
    assert(region_ok(&x, f.ops@));
    let k2 = match x.loop_at {
        None => 0int,
        Some(o) => {
            assert(f.ops@[o as int] is Loop);
            assert(has_loop_slice(b.slices@, 0, o as int));
            choose|q: int| 0 <= q < b.slices@.len() && (#[trigger] b.slices@[q]).loop_at == Some(o as usize)
        },
    };
    if x.loop_at is None && k != 0 {
        assert(a.slices@[0].loop_at is None);
        assert(a.slices@[k].loop_at != a.slices@[0].loop_at);
    }
    let y = b.slices@[k2];
    assert(region_ok(&y, f.ops@));
    if let Some(o) = x.loop_at {
        crate::ops::lemma_closes_unique(f.ops@, o as int, x.end_instr_idx as int, y.end_instr_idx as int);
    }
    lemma_slice_unique(&x, &y, m, f, st);
    let ops = f.ops@;
    let sig = m.types@[f.ty as int].params@;
    assert(x.sized(ops.len() as int) && y.sized(ops.len() as int));
    assert forall|j: int| 0 <= j < ops.len() implies #[trigger] y.params@[j] == x.params@[j] && y.globals@[j] == x.globals@[j] by {
        lemma_entry_names(&x, m, f, st, j);
        lemma_entry_names(&y, m, f, st, j);
    }
    assert(y.params@ =~= x.params@);
    assert(y.globals@ =~= x.globals@);
    assert(x.sound(m, sig, st.instrs@, ops, x.start()));
    assert(y.sound(m, sig, st.instrs@, ops, y.start()));
    assert forall|c: CallUse| y.calls@.contains(c) <==> x.calls@.contains(c) by {
        if x.calls@.contains(c) {
            let p = choose|p: int| 0 <= p < x.calls@.len() && x.calls@[p] == c;
            assert(has_call(x.calls@, c.instr_idx as int, c.result_idx as int));
            let q = choose|q: int| 0 <= q < y.calls@.len() && (#[trigger] y.calls@[q]).instr_idx == c.instr_idx && y.calls@[q].result_idx == c.result_idx;
            assert(y.calls@[q] == c);
        }
        if y.calls@.contains(c) {
            let p = choose|p: int| 0 <= p < y.calls@.len() && y.calls@[p] == c;
            assert(has_call(y.calls@, c.instr_idx as int, c.result_idx as int));
            let q = choose|q: int| 0 <= q < x.calls@.len() && (#[trigger] x.calls@[q]).instr_idx == c.instr_idx && x.calls@[q].result_idx == c.result_idx;
            assert(x.calls@[q] == c);
        }
    }
    assert forall|c: CallUse| y.call_indirects@.contains(c) <==> x.call_indirects@.contains(c) by {
        if x.call_indirects@.contains(c) {
            let p = choose|p: int| 0 <= p < x.call_indirects@.len() && x.call_indirects@[p] == c;
            assert(has_call(x.call_indirects@, c.instr_idx as int, c.result_idx as int));
            let q = choose|q: int| 0 <= q < y.call_indirects@.len() && (#[trigger] y.call_indirects@[q]).instr_idx == c.instr_idx && y.call_indirects@[q].result_idx == c.result_idx;
            assert(y.call_indirects@[q] == c);
        }
        if y.call_indirects@.contains(c) {
            let p = choose|p: int| 0 <= p < y.call_indirects@.len() && y.call_indirects@[p] == c;
            assert(has_call(y.call_indirects@, c.instr_idx as int, c.result_idx as int));
            let q = choose|q: int| 0 <= q < x.call_indirects@.len() && (#[trigger] x.call_indirects@[q]).instr_idx == c.instr_idx && x.call_indirects@[q].result_idx == c.result_idx;
            assert(x.call_indirects@[q] == c);
        }
    }
}

/// Slices one function: its whole body, then each loop body, outer first.
pub fn slice_func(m: &ModuleInfo, f: &FuncDef, st: &FuncState) -> (r: Result<SliceResult, FuelError>)
    requires
        st.fits(f.ops@),
        st.inputs_ok(*m, f.ops@),
        st.total_params == m.types@[f.ty as int].params@.len(),
        (f.ty as int) < m.types@.len(),
    ensures
        r matches Ok(res) ==> res.sliced(*m, *f, *st) && res.fresh(f.ops@.len() as int) && res.total_params == st.total_params,
        r is Ok <==> loops_closed(f.ops@),
        r matches Err(e) ==> e is MalformedModule,
        r matches Ok(res) ==> res.slices@.len() > 0 && one_per_loop(res.slices@, f.ops@),
{
    let mut result = SliceResult::new(f.fid, st.total_params);
    match slice_into(&mut result, m, f, st, 0, f.ops.len(), None) {
        Ok(()) => {
            proof {
                let v = result.slices@;
                assert forall|q: int| 0 < q < v.len() implies ((#[trigger] v[q]).loop_at matches Some(lo) && lo < f.ops@.len() && f.ops@[lo as int] is Loop) by {
                    assert(region_ok(&v[q], f.ops@));
                }
                assert forall|o: int| 0 <= o < f.ops@.len() && (#[trigger] f.ops@[o]) is Loop implies exists|e: int| closes(f.ops@, o, e) by {
                    assert(has_loop_slice(v, 0, o));
                    let q = choose|q: int| 0 <= q < v.len() && (#[trigger] v[q]).loop_at == Some(o as usize);
                    assert(region_ok(&v[q], f.ops@));
                    assert(closes(f.ops@, o, v[q].end_instr_idx as int));
                }
            }
            Ok(result)
        },
        Err(e) => Err(e),
    }
}

/// The logs agree with their functions' bodies, as `analyze` gives them.
pub open spec fn states_ok(m: ModuleInfo, states: Seq<FuncState>) -> bool {
    &&& states.len() == m.funcs@.len()
    &&& forall|i: int|
        0 <= i < states.len() ==> {
            &&& (#[trigger] states[i]).fits(m.funcs@[i].ops@)
            &&& (m.funcs@[i].ty as int) < m.types@.len()
            &&& states[i].inputs_ok(m, m.funcs@[i].ops@)
            &&& states[i].total_params == m.types@[m.funcs@[i].ty as int].params@.len()
        }
}

/// Slices every function of the module, given its provenance logs.
pub fn slice_program(m: &ModuleInfo, func_taints: &Vec<FuncState>) -> (r: Result<Vec<SliceResult>, FuelError>)
    requires
        func_taints@.len() == m.funcs@.len(),
        states_ok(*m, func_taints@),
    ensures
        r is Ok <==> (forall|i: int| 0 <= i < m.funcs@.len() ==> loops_closed(#[trigger] m.funcs@[i].ops@)),
        r matches Err(e) ==> e is MalformedModule,
        r matches Ok(v) ==> forall|i: int| 0 <= i < v@.len() ==> (#[trigger] v@[i]).slices@.len() > 0 && one_per_loop(v@[i].slices@, m.funcs@[i].ops@),
        r matches Ok(v) ==> v@.len() == m.funcs@.len() && forall|i: int| 0 <= i < v@.len() ==> (#[trigger] v@[i]).sliced(*m, m.funcs@[i], func_taints@[i]) && v@[i].fresh(m.funcs@[i].ops@.len() as int),
{
    let mut results: Vec<SliceResult> = Vec::new();
    let mut i: usize = 0;
    while i < func_taints.len()
        invariant
            i <= func_taints@.len() == m.funcs@.len(),
            results@.len() == i,
            states_ok(*m, func_taints@),
            forall|j: int| 0 <= j < i ==> (#[trigger] results@[j]).sliced(*m, m.funcs@[j], func_taints@[j]) && results@[j].fresh(m.funcs@[j].ops@.len() as int) && results@[j].slices@.len() > 0 && one_per_loop(results@[j].slices@, m.funcs@[j].ops@),
            forall|j: int| 0 <= j < i ==> loops_closed(#[trigger] m.funcs@[j].ops@),
        decreases func_taints@.len() - i,
    {
        assert(func_taints@[i as int].fits(m.funcs@[i as int].ops@));
        match slice_func(m, &m.funcs[i], &func_taints[i]) {
            Ok(res) => {
                let ghost gr = res;
                let ghost before = results@;
                results.push(res);
                proof {
                    assert forall|j: int| 0 <= j < i + 1 implies loops_closed(#[trigger] m.funcs@[j].ops@) by {
                        if j == i {
                            assert(loops_closed(m.funcs@[i as int].ops@));
                        }
                    }
                }
                proof {
                    assert forall|j: int| 0 <= j < i + 1 implies (#[trigger] results@[j]).sliced(*m, m.funcs@[j], func_taints@[j]) && results@[j].fresh(m.funcs@[j].ops@.len() as int) && results@[j].slices@.len() > 0 && one_per_loop(results@[j].slices@, m.funcs@[j].ops@) by {
                        if j < i {
                            assert(results@[j] == before[j]);
                        } else {
                            assert(results@[j] == gr);
                        }
                    }
                }
            },
            Err(e) => {
                return Err(e);
            },
        }
        i = i + 1;
    }
    Ok(results)
}

fn call_result_exec(m: &ModuleInfo, op: Op, r: usize) -> (res: Option<ValType>)
    requires
        op is Call || op is CallIndirect,
    ensures
        res == call_result(*m, op, r as int),
{
    let t: u32 = match op {
        Op::Call(f) => {
            if (f as usize) < m.func_types.len() {
                m.func_types[f as usize]
            } else {
                return None;
            }
        },
        Op::CallIndirect(t) => t,
        _ => {
            return None;
        },
    };
    if (t as usize) < m.types.len() && r < m.types[t as usize].results.len() {
        Some(m.types[t as usize].results[r])
    } else {
        None
    }
}

} // verus!
