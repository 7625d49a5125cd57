use vstd::prelude::*;
use vstd::string::StringExecFns;

use crate::analyze::{analyze, func_ok, FuncState};
use crate::codegen::{
    adds_positive, body_fuel, codegen, keys_of, slices_costs, keys_sorted, pk_lt, probe_body, probe_name, probe_ready, reads_keyed, region_cost,
    types_of_probe, CodeGenResult, Variant,
};
use crate::error::FuelError;
use crate::ops::{ModuleInfo, ValType};
use crate::reduce::{in_min, needs_taken, reduce_slice, reduced};
use crate::slice::{slice_program, SliceResult};
use crate::structure::{lemma_openers_closed, region_closed, save_structure, structure_of, structured};
use crate::ops::{closes, in_walk, is_opener, loops_close, loops_closed};

verus! {

/// How the probes account fuel.
#[derive(Clone, Copy, Debug, PartialEq, Eq, Structural)]
pub enum CompType {
    /// Adds the exact cost of each straight-line run.
    Exact,
    /// Coarser accounting; its policy is not defined yet.
    Approx,
}

pub open spec fn comp_name(ty: CompType) -> Seq<char> {
    match ty {
        CompType::Exact => "exact"@,
        CompType::Approx => "approx"@,
    }
}

impl CompType {
    /// The name of the variant, the prefix of the probes' names.
    pub fn name(&self) -> (r: &'static str)
        ensures
            r@ == comp_name(*self),
    {
        match self {
            CompType::Exact => {
                proof { reveal_strlit("exact"); }
                "exact"
            },
            CompType::Approx => {
                proof { reveal_strlit("approx"); }
                "approx"
            },
        }
    }

    /// Parses a variant from its name.
    pub fn from_str(s: &str) -> (r: Result<CompType, String>)
        ensures
            s@ == "exact"@ <==> r == Ok::<CompType, String>(CompType::Exact),
            s@ == "approx"@ <==> r == Ok::<CompType, String>(CompType::Approx),
            r matches Err(e) ==> e@ == "Unknown comp type: "@ + s@,
    {
        proof {
            reveal_strlit("exact");
            reveal_strlit("approx");
            reveal_strlit("Unknown comp type: ");
            assert("exact"@.len() != "approx"@.len());
        }
        let given = String::from_str(s);
        if given == String::from_str("exact") {
            Ok(CompType::Exact)
        } else if given == String::from_str("approx") {
            Ok(CompType::Approx)
        } else {
            let mut e = String::from_str("Unknown comp type: ");
            e.append(s);
            Err(e)
        }
    }
}

/// Everything the pipeline computes for a module.
pub struct Analysis {
    /// Provenance log of each function.
    pub funcs: Vec<FuncState>,
    /// Slices of each function, completed and reduced.
    pub slices: Vec<SliceResult>,
    /// The maximal probes.
    pub max: CodeGenResult,
    /// The minimal probes.
    pub min: CodeGenResult,
}

/// The slices of function `i` are its maximal slices, completed by the
/// structural pass and reduced to their branch deciders.
pub open spec fn pipeline_slices(m: ModuleInfo, a: &Analysis, i: int) -> bool {
    let f = m.funcs@[i];
    let ops = f.ops@;
    let sr = a.slices@[i];
    &&& a.funcs@[i].fits(ops)
    &&& a.funcs@[i].inputs_ok(m, ops)
    &&& a.funcs@[i].total_params == m.types@[f.ty as int].params@.len()
    &&& sr.sliced(m, f, a.funcs@[i])
    &&& crate::slice::one_per_loop(sr.slices@, ops)
    &&& forall|k: int| 0 <= k < sr.slices@.len() ==> {
        let sl = #[trigger] sr.slices@[k];
        &&& forall|j: int| 0 <= j < ops.len() ==> #[trigger] sl.instrs_support@[j] == (structure_of(ops, sl.max_slice@, sl.start(), sl.end()).contains(j as usize) && !sl.max_slice@[j])
        &&& forall|j: int| 0 <= j < ops.len() ==> #[trigger] sl.min_slice@[j] == (sl.max_slice@[j] && in_min(ops[j]))
        &&& forall|j: int| 0 <= j < ops.len() ==> #[trigger] sl.taken@[j] == (if needs_taken(ops[j]) { Some(ValType::I32) } else { None::<ValType> })
    }
}

/// The probes in `g` are one per slice of `slices`, named after their
/// function and slice, with distinct parameter keys, reading only keyed
/// parameters and the fuel local, adding positive amounts of fuel that sum
/// to the cost of their region, and with the parameters and body that the
/// slice determines.
pub open spec fn probes_ok(m: ModuleInfo, slices: Seq<SliceResult>, g: &CodeGenResult, ty: CompType, variant: Variant) -> bool {
    &&& g.func_map@.len() == slices.len()
    &&& forall|i: int| 0 <= i < slices.len() ==> (#[trigger] g.func_map@[i])@.len() == slices[i].slices@.len()
    &&& forall|i: int, k: int| 0 <= i < slices.len() && 0 <= k < slices[i].slices@.len() ==> {
        let pr = #[trigger] g.func_map@[i]@[k];
        let sl = slices[i].slices@[k];
        &&& pr.orig_fid == slices[i].fid
        &&& pr.fname@ == probe_name(ty, slices[i].fid, sl.spec_name@)
        &&& pr.params@.len() == pr.keys@.len()
        &&& keys_sorted(pr.keys@)
        &&& reads_keyed(pr.body@, pr.keys@.len() as int, pr.fuel_local)
        &&& adds_positive(pr.body@)
        &&& body_fuel(pr.body@) == region_cost(m.funcs@[i].ops@, sl.start(), sl.end(), sl.end())
        &&& pr.keys@ == keys_of(sl, variant)
        &&& pr.params@ == types_of_probe(sl, variant)
        &&& pr.fuel_local == pr.keys@.len()
        &&& pr.body@ == probe_body(m.funcs@[i].ops@, sl, variant, pr.keys@, pr.fuel_local)
    }
}

/// Slices are closed: the maximal slice lies within its region, and where
/// the region closes every block it opens, each opener kept as support, or
/// held by the slice and owned by the region (a nested loop aside), has its
/// closing `End` in the slice or kept as support.
pub proof fn lemma_slices_closed(m: ModuleInfo, a: &Analysis, i: int, k: int, x: int)
    requires
        a.slices@.len() == m.funcs@.len(),
        0 <= i < m.funcs@.len(),
        pipeline_slices(m, a, i),
        0 <= k < a.slices@[i].slices@.len(),
        region_closed(m.funcs@[i].ops@, a.slices@[i].slices@[k].start(), a.slices@[i].slices@[k].end()),
        0 <= x < m.funcs@[i].ops@.len(),
        is_opener(m.funcs@[i].ops@[x]),
        a.slices@[i].slices@[k].instrs_support@[x] || (a.slices@[i].slices@[k].max_slice@[x] && in_walk(
            m.funcs@[i].ops@,
            a.slices@[i].slices@[k].start(),
            a.slices@[i].slices@[k].end(),
            x,
        ) && !(m.funcs@[i].ops@[x] is Loop)),
    ensures
        forall|j: int|
            0 <= j < m.funcs@[i].ops@.len() && #[trigger] a.slices@[i].slices@[k].max_slice@[j] ==> a.slices@[i].slices@[k].start() <= j
                < a.slices@[i].slices@[k].end(),
        exists|e: int| #[trigger] closes(m.funcs@[i].ops@, x, e) && (a.slices@[i].slices@[k].max_slice@[e] || a.slices@[i].slices@[k].instrs_support@[e]),
{
    let f = m.funcs@[i];
    let ops = f.ops@;
    let sl = a.slices@[i].slices@[k];
    let sig = m.types@[f.ty as int].params@;
    assert(sl.sliced(m, f, a.funcs@[i]));
    assert(sl.sound(m, sig, a.funcs@[i].instrs@, ops, sl.start()));
    assert(sl.instrs_support@[x] == (structure_of(ops, sl.max_slice@, sl.start(), sl.end()).contains(x as usize) && !sl.max_slice@[x]));
    lemma_openers_closed(ops, sl.max_slice@, sl.start(), sl.end(), x);
    let e = choose|e: int| #[trigger] closes(ops, x, e) && (sl.max_slice@[e] || structure_of(ops, sl.max_slice@, sl.start(), sl.end()).contains(e as usize));
    assert(sl.instrs_support@[e] == (structure_of(ops, sl.max_slice@, sl.start(), sl.end()).contains(e as usize) && !sl.max_slice@[e]));
    assert(closes(ops, x, e) && (sl.max_slice@[e] || sl.instrs_support@[e]));
}

/// Blocks are kept whole: where a slice's region closes every block it
/// opens, a block kept as support, or whose opener the slice holds and the
/// region owns (a nested loop aside), has every structural instruction the
/// region owns inside it (`else`, `end`, `br`, `return`, inner openers) in
/// the slice or the support.
pub proof fn lemma_slice_blocks_whole(m: ModuleInfo, a: &Analysis, i: int, k: int, x: int, e: int, j: int)
    requires
        a.slices@.len() == m.funcs@.len(),
        0 <= i < m.funcs@.len(),
        pipeline_slices(m, a, i),
        0 <= k < a.slices@[i].slices@.len(),
        region_closed(m.funcs@[i].ops@, a.slices@[i].slices@[k].start(), a.slices@[i].slices@[k].end()),
        closes(m.funcs@[i].ops@, x, e),
        a.slices@[i].slices@[k].instrs_support@[x] || (a.slices@[i].slices@[k].max_slice@[x] && in_walk(
            m.funcs@[i].ops@,
            a.slices@[i].slices@[k].start(),
            a.slices@[i].slices@[k].end(),
            x,
        ) && !(m.funcs@[i].ops@[x] is Loop)),
        x < j < e,
        crate::structure::own_structural(m.funcs@[i].ops@, a.slices@[i].slices@[k].start(), a.slices@[i].slices@[k].end(), j),
    ensures
        a.slices@[i].slices@[k].max_slice@[j] || a.slices@[i].slices@[k].instrs_support@[j],
{
    let f = m.funcs@[i];
    let ops = f.ops@;
    let sl = a.slices@[i].slices@[k];
    assert(sl.sliced(m, f, a.funcs@[i]));
    assert(0 <= x < ops.len() && 0 <= j < ops.len());
    assert(sl.instrs_support@[x] == (structure_of(ops, sl.max_slice@, sl.start(), sl.end()).contains(x as usize) && !sl.max_slice@[x]));
    assert(sl.instrs_support@[j] == (structure_of(ops, sl.max_slice@, sl.start(), sl.end()).contains(j as usize) && !sl.max_slice@[j]));
    crate::structure::lemma_kept_blocks_whole(ops, sl.max_slice@, sl.start(), sl.end(), x, e, j);
}

/// The probes the pipeline emits write locals only to add to their fuel:
/// each `local.set` in a probe sets the fuel local to itself plus a positive
/// constant, and no instruction a probe copies writes a local. So along any
/// run of a probe its fuel never decreases.
pub proof fn lemma_probe_fuel_monotone(m: ModuleInfo, a: &Analysis, g: &CodeGenResult, ty: CompType, variant: Variant, i: int, k: int)
    requires
        a.slices@.len() == m.funcs@.len(),
        0 <= i < m.funcs@.len(),
        m.funcs@[i].ops@.len() < i64::MAX,
        pipeline_slices(m, a, i),
        probes_ok(m, a.slices@, g, ty, variant),
        0 <= k < a.slices@[i].slices@.len(),
    ensures
        crate::codegen::fuel_writes_only(g.func_map@[i]@[k].body@, m.funcs@[i].ops@, g.func_map@[i]@[k].fuel_local),
{
    let f = m.funcs@[i];
    let ops = f.ops@;
    let st = a.funcs@[i];
    let sl = a.slices@[i].slices@[k];
    let sig = m.types@[f.ty as int].params@;
    assert(sl.sliced(m, f, st));
    assert(sl.sound(m, sig, st.instrs@, ops, sl.start()));
    assert(st.instrs@.len() == ops.len());
    crate::structure::lemma_fold_kinds(ops, sl.max_slice@, sl.start(), sl.end(), sl.end());
    assert forall|j: int| sl.start() <= j < sl.end() && in_walk(ops, sl.start(), sl.end(), j) && #[trigger] crate::codegen::keeps(sl, variant, ops[j], j)
        implies !crate::codegen::writes_local(ops[j]) by {
        assert(0 <= j < ops.len());
        assert(sl.min_slice@[j] == (sl.max_slice@[j] && in_min(ops[j])));
        assert(sl.instrs_support@[j] == (structure_of(ops, sl.max_slice@, sl.start(), sl.end()).contains(j as usize) && !sl.max_slice@[j]));
        if sl.max_slice@[j] {
            if !crate::slice::seed(ops, sl.start(), sl.end(), j) {
                let i2 = choose|i2: int| sl.start() <= i2 < sl.end() && sl.max_slice@[i2] && crate::slice::expands(ops[i2]) && #[trigger] crate::slice::sources_to(st.instrs@[i2], j);
                let k2 = choose|k2: int| 0 <= k2 < st.instrs@[i2].inputs@.len() && (#[trigger] st.instrs@[i2].inputs@[k2]).source() == Some(j);
                assert(crate::analyze::origins_ok(m, ops, st.total_params as nat, st.instrs@[i2].inputs@));
                assert(crate::analyze::origin_ok(m, ops, st.total_params as nat, st.instrs@[i2].inputs@[k2]));
            }
        } else {
            assert(structure_of(ops, sl.max_slice@, sl.start(), sl.end()).contains(j as usize));
            assert((j as usize) as int == j);
        }
    }
    let pr = g.func_map@[i]@[k];
    assert(pr.body@ == crate::codegen::probe_body(ops, sl, variant, pr.keys@, pr.fuel_local));
    crate::codegen::lemma_probe_fuel_writes(ops, sl, variant, pr.keys@, pr.fuel_local);
}

/// The converse half of well bracketing: in a slice whose region closes the
/// blocks it opens, and whose `End`s (but the body's last) close blocks it
/// owns, every such `End` in the slice or the support has its opener in the
/// slice or the support; and the `if` of an `else` the region owns is in the
/// slice.
pub proof fn lemma_slice_closers_opened(m: ModuleInfo, a: &Analysis, i: int, k: int, j: int)
    requires
        a.slices@.len() == m.funcs@.len(),
        0 <= i < m.funcs@.len(),
        pipeline_slices(m, a, i),
        0 <= k < a.slices@[i].slices@.len(),
        region_closed(m.funcs@[i].ops@, a.slices@[i].slices@[k].start(), a.slices@[i].slices@[k].end()),
        crate::structure::ends_matched(m.funcs@[i].ops@, a.slices@[i].slices@[k].start(), a.slices@[i].slices@[k].end()),
        0 <= j,
        j + 1 < m.funcs@[i].ops@.len(),
    ensures
        m.funcs@[i].ops@[j] is End && (a.slices@[i].slices@[k].max_slice@[j] || a.slices@[i].slices@[k].instrs_support@[j]) ==> {
            let o = crate::structure::opener_of(m.funcs@[i].ops@, j);
            &&& closes(m.funcs@[i].ops@, o, j)
            &&& a.slices@[i].slices@[k].max_slice@[o] || a.slices@[i].slices@[k].instrs_support@[o]
        },
        m.funcs@[i].ops@[j] is If && in_walk(m.funcs@[i].ops@, a.slices@[i].slices@[k].start(), a.slices@[i].slices@[k].end(), j)
            ==> a.slices@[i].slices@[k].max_slice@[j],
{
    let f = m.funcs@[i];
    let ops = f.ops@;
    let st = a.funcs@[i];
    let sl = a.slices@[i].slices@[k];
    let sig = m.types@[f.ty as int].params@;
    assert(sl.sliced(m, f, st));
    assert(sl.sound(m, sig, st.instrs@, ops, sl.start()));
    assert(st.instrs@.len() == ops.len());
    if ops[j] is If && in_walk(ops, sl.start(), sl.end(), j) {
        assert(crate::slice::seed(ops, sl.start(), sl.end(), j));
    }
    if ops[j] is End && (sl.max_slice@[j] || sl.instrs_support@[j]) {
        if sl.max_slice@[j] {
            // an End is neither a control sink nor the source of a value
            if !crate::slice::seed(ops, sl.start(), sl.end(), j) {
                let i2 = choose|i2: int| sl.start() <= i2 < sl.end() && sl.max_slice@[i2] && crate::slice::expands(ops[i2]) && #[trigger] crate::slice::sources_to(st.instrs@[i2], j);
                let k2 = choose|k2: int| 0 <= k2 < st.instrs@[i2].inputs@.len() && (#[trigger] st.instrs@[i2].inputs@[k2]).source() == Some(j);
                assert(crate::analyze::origins_ok(m, ops, st.total_params as nat, st.instrs@[i2].inputs@));
                assert(crate::analyze::origin_ok(m, ops, st.total_params as nat, st.instrs@[i2].inputs@[k2]));
            }
            assert(false);
        }
        assert(sl.instrs_support@[j] == (structure_of(ops, sl.max_slice@, sl.start(), sl.end()).contains(j as usize) && !sl.max_slice@[j]));
        crate::structure::lemma_ends_opened(ops, sl.max_slice@, sl.start(), sl.end(), j);
        let o = crate::structure::opener_of(ops, j);
        assert(0 <= o < ops.len());
        assert((o as usize) as int == o);
        assert(sl.instrs_support@[o] == (structure_of(ops, sl.max_slice@, sl.start(), sl.end()).contains(o as usize) && !sl.max_slice@[o]));
    }
}

/// The probes of one function have distinct names.
pub proof fn lemma_probe_names_distinct(m: ModuleInfo, a: &Analysis, g: &CodeGenResult, ty: CompType, variant: Variant, i: int, k1: int, k2: int)
    requires
        a.slices@.len() == m.funcs@.len(),
        0 <= i < m.funcs@.len(),
        pipeline_slices(m, a, i),
        probes_ok(m, a.slices@, g, ty, variant),
        0 <= k1 < k2 < a.slices@[i].slices@.len(),
    ensures
        g.func_map@[i]@[k1].fname@ != g.func_map@[i]@[k2].fname@,
{
    let sr = a.slices@[i];
    let (x, y) = (sr.slices@[k1], sr.slices@[k2]);
    let (n1, n2) = (g.func_map@[i]@[k1].fname@, g.func_map@[i]@[k2].fname@);
    let pre = comp_name(ty) + crate::names::decimal(sr.fid as nat);
    assert(n1 == pre + x.spec_name@);
    assert(n2 == pre + y.spec_name@);
    assert(crate::slice::region_ok(&x, m.funcs@[i].ops@));
    assert(crate::slice::region_ok(&y, m.funcs@[i].ops@));
    assert(x.loop_at != y.loop_at);
    if n1 == n2 {
        assert(x.spec_name@ =~= n1.subrange(pre.len() as int, n1.len() as int));
        assert(y.spec_name@ =~= n2.subrange(pre.len() as int, n2.len() as int));
        reveal_strlit("_loop_at_");
        match (x.loop_at, y.loop_at) {
            (Some(o1), Some(o2)) => {
                let p = "_loop_at_"@;
                assert(crate::names::decimal(o1 as nat) =~= x.spec_name@.subrange(p.len() as int, x.spec_name@.len() as int));
                assert(crate::names::decimal(o2 as nat) =~= y.spec_name@.subrange(p.len() as int, y.spec_name@.len() as int));
                crate::names::lemma_decimal_injective(o1 as nat, o2 as nat);
            },
            _ => {
                assert(x.spec_name@.len() != y.spec_name@.len());
            },
        }
    }
}

/// Every probe adds fuel in positive steps only, and along the straight-line
/// reading of its region the steps sum to the cost of the region's
/// instructions.
pub proof fn lemma_fuel_sums_to_cost(m: ModuleInfo, a: &Analysis, ty: CompType, i: int, k: int)
    requires
        probes_ok(m, a.slices@, &a.max, ty, Variant::Max),
        probes_ok(m, a.slices@, &a.min, ty, Variant::Min),
        0 <= i < a.slices@.len(),
        0 <= k < a.slices@[i].slices@.len(),
    ensures
        adds_positive(a.max.func_map@[i]@[k].body@),
        adds_positive(a.min.func_map@[i]@[k].body@),
        body_fuel(a.max.func_map@[i]@[k].body@) == region_cost(
            m.funcs@[i].ops@,
            a.slices@[i].slices@[k].start(),
            a.slices@[i].slices@[k].end(),
            a.slices@[i].slices@[k].end(),
        ),
{
}

/// The minimal probe of a slice adds, in all, the same fuel as the maximal
/// probe of that slice.
pub proof fn lemma_min_matches_max(m: ModuleInfo, a: &Analysis, ty: CompType, i: int, k: int)
    requires
        probes_ok(m, a.slices@, &a.max, ty, Variant::Max),
        probes_ok(m, a.slices@, &a.min, ty, Variant::Min),
        0 <= i < a.slices@.len(),
        0 <= k < a.slices@[i].slices@.len(),
    ensures
        body_fuel(a.min.func_map@[i]@[k].body@) == body_fuel(a.max.func_map@[i]@[k].body@),
{
}

/// Within one probe, distinct parameters stand for distinct state, and every
/// parameter the body reads stands for some state.
pub proof fn lemma_params_injective(m: ModuleInfo, g: &CodeGenResult, slices: Seq<SliceResult>, ty: CompType, variant: Variant, i: int, k: int)
    requires
        probes_ok(m, slices, g, ty, variant),
        0 <= i < slices.len(),
        0 <= k < slices[i].slices@.len(),
    ensures
        forall|p: int, q: int| 0 <= p < q < g.func_map@[i]@[k].keys@.len() ==> #[trigger] g.func_map@[i]@[k].keys@[p] != #[trigger] g.func_map@[i]@[k].keys@[q],
        forall|x: int| 0 <= x < g.func_map@[i]@[k].body@.len() ==> (#[trigger] g.func_map@[i]@[k].body@[x] matches crate::codegen::ProbeOp::LocalGet(l) ==> l == g.func_map@[i]@[k].fuel_local || l < g.func_map@[i]@[k].keys@.len()),
{
    let pr = g.func_map@[i]@[k];
    assert(keys_sorted(pr.keys@));
    assert forall|p: int, q: int| 0 <= p < q < pr.keys@.len() implies #[trigger] pr.keys@[p] != #[trigger] pr.keys@[q] by {
        assert(pk_lt(pr.keys@[p], pr.keys@[q]));
    }
    assert(reads_keyed(pr.body@, pr.keys@.len() as int, pr.fuel_local));
}

/// Runs the pipeline on a module: analysis, slicing, structural completion,
/// reduction, and both probe variants.
#[verifier::rlimit(60)]
pub fn do_analysis(m: &ModuleInfo, ty: CompType) -> (r: Result<Analysis, FuelError>)
    requires
        forall|i: int| 0 <= i < m.funcs@.len() ==> (#[trigger] m.funcs@[i]).ops@.len() < i64::MAX,
    ensures
        r matches Ok(a) ==> {
            &&& a.funcs@.len() == m.funcs@.len()
            &&& a.slices@.len() == m.funcs@.len()
            &&& forall|i: int| 0 <= i < m.funcs@.len() ==> #[trigger] pipeline_slices(*m, &a, i)
            &&& probes_ok(*m, a.slices@, &a.max, ty, Variant::Max)
            &&& probes_ok(*m, a.slices@, &a.min, ty, Variant::Min)
            &&& forall|i: int| 0 <= i < m.funcs@.len() ==> (#[trigger] a.max.cost_maps@[i])@ == slices_costs(
                m.funcs@[i].ops@,
                a.slices@[i].slices@,
                Variant::Max,
                a.slices@[i].slices@.len() as int,
            )
        },
        ty is Exact && (forall|i: int| 0 <= i < m.funcs@.len() ==> #[trigger] func_ok(*m, m.funcs@[i])) ==> r is Ok,
        ty is Approx && m.funcs@.len() > 0 ==> r is Err,
        r matches Err(FuelError::Unimplemented { .. }) ==> ty is Approx,
{
    proof {
        if forall|i: int| 0 <= i < m.funcs@.len() ==> #[trigger] func_ok(*m, m.funcs@[i]) {
            assert forall|i: int| 0 <= i < m.funcs@.len() implies loops_closed(#[trigger] m.funcs@[i].ops@) by {
                assert(func_ok(*m, m.funcs@[i]));
                crate::analyze::lemma_func_ok_closes(*m, m.funcs@[i]);
            }
        }
    }
    let funcs = match analyze(m) {
        Ok(f) => f,
        Err(e) => {
            return Err(e);
        },
    };
    proof {
        assert forall|i: int| 0 <= i < funcs@.len() implies {
            &&& (#[trigger] funcs@[i]).fits(m.funcs@[i].ops@)
            &&& (m.funcs@[i].ty as int) < m.types@.len()
            &&& funcs@[i].inputs_ok(*m, m.funcs@[i].ops@)
            &&& funcs@[i].total_params == m.types@[m.funcs@[i].ty as int].params@.len()
        } by {
            assert(funcs@[i].fid == m.funcs@[i].fid);
        }
        assert(crate::slice::states_ok(*m, funcs@));
    }
    let mut slices = match slice_program(m, &funcs) {
        Ok(s) => s,
        Err(e) => {
            return Err(e);
        },
    };
    let ghost sliced = slices@;
    proof {
        assert forall|i: int, k: int| 0 <= i < sliced.len() && 0 <= k < sliced[i].slices@.len() implies loops_close(
            m.funcs@[i].ops@,
            (#[trigger] sliced[i].slices@[k]).start(),
            sliced[i].slices@[k].end(),
        ) by {
            assert(sliced[i].sliced(*m, m.funcs@[i], funcs@[i]));
            assert(crate::slice::region_ok(&sliced[i].slices@[k], m.funcs@[i].ops@));
        }
        assert(crate::structure::regions_close(sliced, m.funcs@));
    }
    match save_structure(&mut slices, m) {
        Ok(()) => {},
        Err(e) => {
            return Err(e);
        },
    }
    let ghost completed = slices@;
    proof {
        assert forall|i: int, k: int| 0 <= i < slices@.len() && 0 <= k < slices@[i].slices@.len()
            implies (#[trigger] slices@[i].slices@[k]).sized(m.funcs@[i].ops@.len() as int) by {
            assert(structured(&sliced[i].slices@[k], &slices@[i].slices@[k], m.funcs@[i].ops@));
        }
    }
    let ghost completed2 = slices@;
    reduce_slice(&mut slices, m);
    proof {
        assert forall|i: int, k: int| 0 <= i < slices@.len() && 0 <= k < slices@[i].slices@.len() implies loops_close(
            m.funcs@[i].ops@,
            (#[trigger] slices@[i].slices@[k]).start(),
            slices@[i].slices@[k].end(),
        ) by {
            assert(completed2[i].slices@.len() == sliced[i].slices@.len());
            assert(structured(&sliced[i].slices@[k], &completed2[i].slices@[k], m.funcs@[i].ops@));
            assert(crate::reduce::reduced(&completed2[i].slices@[k], &slices@[i].slices@[k], m.funcs@[i].ops@));
            assert(loops_close(m.funcs@[i].ops@, sliced[i].slices@[k].start(), sliced[i].slices@[k].end()));
        }
        if ty is Approx && m.funcs@.len() > 0 {
            assert(slices@[0].slices@.len() == sliced[0].slices@.len());
            assert(sliced[0].slices@.len() > 0);
        }
    }
    proof {
        assert forall|i: int, k: int| 0 <= i < slices@.len() && 0 <= k < slices@[i].slices@.len()
            implies probe_ready(#[trigger] slices@[i].slices@[k], m.funcs@[i].ops@) by {
            let (a, b, c) = (sliced[i].slices@[k], completed[i].slices@[k], slices@[i].slices@[k]);
            assert(structured(&a, &b, m.funcs@[i].ops@));
            assert(reduced(&b, &c, m.funcs@[i].ops@));
            assert(a.sliced(*m, m.funcs@[i], funcs@[i]));
            assert forall|x: int| 0 <= x < c.calls@.len() implies (#[trigger] c.calls@[x]).instr_idx < m.funcs@[i].ops@.len() by {
                assert(c.calls@[x] == a.calls@[x]);
            }
            assert forall|x: int| 0 <= x < c.call_indirects@.len() implies (#[trigger] c.call_indirects@[x]).instr_idx < m.funcs@[i].ops@.len() by {
                assert(c.call_indirects@[x] == a.call_indirects@[x]);
            }
        }
    }
    let max = match codegen(ty, Variant::Max, &slices, m) {
        Ok(g) => g,
        Err(e) => {
            return Err(e);
        },
    };
    let min = match codegen(ty, Variant::Min, &slices, m) {
        Ok(g) => g,
        Err(e) => {
            return Err(e);
        },
    };
    let a = Analysis { funcs, slices, max, min };
    proof {
        assert forall|i: int, k: int| 0 <= i < a.slices@.len() && 0 <= k < a.slices@[i].slices@.len() implies {
            let pr = #[trigger] a.max.func_map@[i]@[k];
            let sl = a.slices@[i].slices@[k];
            &&& pr.orig_fid == a.slices@[i].fid
            &&& pr.fname@ == probe_name(ty, a.slices@[i].fid, sl.spec_name@)
            &&& pr.params@.len() == pr.keys@.len()
            &&& keys_sorted(pr.keys@)
            &&& reads_keyed(pr.body@, pr.keys@.len() as int, pr.fuel_local)
            &&& adds_positive(pr.body@)
            &&& body_fuel(pr.body@) == region_cost(m.funcs@[i].ops@, sl.start(), sl.end(), sl.end())
            &&& pr.keys@ == keys_of(sl, Variant::Max)
            &&& pr.params@ == types_of_probe(sl, Variant::Max)
            &&& pr.fuel_local == pr.keys@.len()
            &&& pr.body@ == probe_body(m.funcs@[i].ops@, sl, Variant::Max, pr.keys@, pr.fuel_local)
        } by {
            assert(a.max.func_map@[i]@.len() == a.slices@[i].slices@.len());
        }
        assert forall|i: int, k: int| 0 <= i < a.slices@.len() && 0 <= k < a.slices@[i].slices@.len() implies {
            let pr = #[trigger] a.min.func_map@[i]@[k];
            let sl = a.slices@[i].slices@[k];
            &&& pr.orig_fid == a.slices@[i].fid
            &&& pr.fname@ == probe_name(ty, a.slices@[i].fid, sl.spec_name@)
            &&& pr.params@.len() == pr.keys@.len()
            &&& keys_sorted(pr.keys@)
            &&& reads_keyed(pr.body@, pr.keys@.len() as int, pr.fuel_local)
            &&& adds_positive(pr.body@)
            &&& body_fuel(pr.body@) == region_cost(m.funcs@[i].ops@, sl.start(), sl.end(), sl.end())
            &&& pr.keys@ == keys_of(sl, Variant::Min)
            &&& pr.params@ == types_of_probe(sl, Variant::Min)
            &&& pr.fuel_local == pr.keys@.len()
            &&& pr.body@ == probe_body(m.funcs@[i].ops@, sl, Variant::Min, pr.keys@, pr.fuel_local)
        } by {
            assert(a.min.func_map@[i]@.len() == a.slices@[i].slices@.len());
        }
    }
    proof {
        assert forall|i: int| 0 <= i < m.funcs@.len() implies #[trigger] pipeline_slices(*m, &a, i) by {
            let f = m.funcs@[i];
            let ops = f.ops@;
            let sr = a.slices@[i];
            assert forall|k: int| 0 <= k < sr.slices@.len() implies {
                let sl = #[trigger] sr.slices@[k];
                &&& forall|j: int| 0 <= j < ops.len() ==> #[trigger] sl.instrs_support@[j] == (structure_of(ops, sl.max_slice@, sl.start(), sl.end()).contains(j as usize) && !sl.max_slice@[j])
                &&& forall|j: int| 0 <= j < ops.len() ==> #[trigger] sl.min_slice@[j] == (sl.max_slice@[j] && in_min(ops[j]))
                &&& forall|j: int| 0 <= j < ops.len() ==> #[trigger] sl.taken@[j] == (if needs_taken(ops[j]) { Some(ValType::I32) } else { None::<ValType> })
            } && sl_same_sets(&sliced[i].slices@[k], &sr.slices@[k]) by {
                assert(completed[i].slices@.len() == sliced[i].slices@.len());
                assert(sr == slices@[i]);
                assert(slices@[i].slices@.len() == completed[i].slices@.len());
                let (x, y, z) = (sliced[i].slices@[k], completed[i].slices@[k], sr.slices@[k]);
                assert(structured(&x, &y, ops));
                assert(reduced(&y, &z, ops));
                assert(x.sliced(*m, f, a.funcs@[i]));
                assert(sliced[i].fresh(ops.len() as int));
                assert forall|j: int| 0 <= j < ops.len() implies !(#[trigger] x.instrs_support@[j]) && !x.min_slice@[j] && x.taken@[j] is None by {
                    assert(!sliced[i].slices@[k].instrs_support@[j]);
                }
                assert(z.max_slice@ == x.max_slice@);
                assert(z.start() == x.start() && z.end() == x.end());
                assert forall|j: int| 0 <= j < ops.len() implies #[trigger] z.instrs_support@[j] == (structure_of(ops, z.max_slice@, z.start(), z.end()).contains(j as usize) && !z.max_slice@[j]) by {
                    assert(z.instrs_support@[j] == y.instrs_support@[j]);
                    assert(y.instrs_support@[j] == (x.instrs_support@[j] || (structure_of(ops, x.max_slice@, x.start(), x.end()).contains(j as usize) && !x.max_slice@[j])));
                }
                assert forall|j: int| 0 <= j < ops.len() implies #[trigger] z.min_slice@[j] == (z.max_slice@[j] && in_min(ops[j])) by {
                    assert(y.min_slice@[j] == x.min_slice@[j]);
                    assert(!x.instrs_support@[j]);
                }
                assert forall|j: int| 0 <= j < ops.len() implies #[trigger] z.taken@[j] == (if needs_taken(ops[j]) { Some(ValType::I32) } else { None::<ValType> }) by {
                    assert(y.taken@[j] == x.taken@[j]);
                    assert(!x.instrs_support@[j]);
                }
            }
            assert(completed[i].slices@.len() == sliced[i].slices@.len());
            assert(slices@[i].slices@.len() == completed[i].slices@.len());
            assert forall|q: int| 0 <= q < sliced[i].slices@.len() implies #[trigger] sr.slices@[q].loop_at == sliced[i].slices@[q].loop_at && sr.slices@[q].start_instr_idx == sliced[i].slices@[q].start_instr_idx by {
                assert(structured(&sliced[i].slices@[q], &completed[i].slices@[q], ops));
                assert(crate::reduce::reduced(&completed[i].slices@[q], &sr.slices@[q], ops));
            }
            crate::slice::lemma_one_per_loop_same(sliced[i].slices@, sr.slices@, ops);
            assert forall|k: int| 0 <= k < sr.slices@.len() implies {
                &&& (#[trigger] sr.slices@[k]).sliced(*m, f, a.funcs@[i])
                &&& crate::slice::region_ok(&sr.slices@[k], f.ops@)
            } by {
                assert(completed[i].slices@.len() == sliced[i].slices@.len());
                assert(slices@[i].slices@.len() == completed[i].slices@.len());
                let (x, y, z) = (sliced[i].slices@[k], completed[i].slices@[k], sr.slices@[k]);
                assert(structured(&x, &y, ops));
                assert(reduced(&y, &z, ops));
                assert(sl_same_sets(&x, &z));
                assert(x.sliced(*m, f, a.funcs@[i]));
                crate::slice::lemma_sliced_same(&x, &z, *m, f, a.funcs@[i]);
                assert(crate::slice::region_ok(&x, f.ops@));
            }
        }
    }
    Ok(a)
}

/// `b` has the region, name, maximal slice and state maps of `a`.
pub open spec fn sl_same_sets(a: &crate::slice::Slice, b: &crate::slice::Slice) -> bool {
    &&& b.start_instr_idx == a.start_instr_idx
    &&& b.end_instr_idx == a.end_instr_idx
    &&& b.loop_at == a.loop_at
    &&& b.spec_name@ == a.spec_name@
    &&& b.max_slice@ == a.max_slice@
    &&& b.params@ == a.params@
    &&& b.globals@ == a.globals@
    &&& b.loads@ == a.loads@
    &&& b.calls@ == a.calls@
    &&& b.call_indirects@ == a.call_indirects@
    &&& b.min_slice@.len() == a.min_slice@.len()
    &&& b.instrs_support@.len() == a.instrs_support@.len()
    &&& b.taken@.len() == a.taken@.len()
}

/// Spaces per indentation level of the annotated dump.
pub const SPACE_PER_TAB: usize = 4;

/// Indentation of `levels` levels.
pub fn tab(levels: i32) -> (r: String)
    requires
        0 <= levels,
        SPACE_PER_TAB * levels <= usize::MAX,
    ensures
        r@ == Seq::new((SPACE_PER_TAB * levels) as nat, |i: int| ' '),
{
    proof { reveal_strlit(" "); }
    let n: usize = SPACE_PER_TAB * (levels as usize);
    let mut s = String::new();
    let mut k: usize = 0;
    while k < n
        invariant
            k <= n,
            n == SPACE_PER_TAB * levels,
            s@ == Seq::new(k as nat, |i: int| ' '),
        decreases n - k,
    {
        proof { reveal_strlit(" "); }
        s.append(" ");
        k = k + 1;
        assert(s@ =~= Seq::new(k as nat, |i: int| ' '));
    }
    s
}

} // verus!
